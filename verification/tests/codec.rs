use classfile::classfile::Attribute;
use classfile::classfile::ClassError;
use classfile::classfile::ClassfileVersion;
use classfile::classfile::Constant;
use classfile::classfile::ConstantPool;
use classfile::classfile::ExceptionHandler;
use classfile::classfile::Member;
use classfile::io::BlockReader;
use classfile::io::ClassFragment;
use classfile::io::ClassReader;
use classfile::io::ClassWriter;

fn empty_fragment() -> ClassFragment {
    ClassFragment {
        version: None,
        constant_pool: None,
        access_flags: None,
        this_class: None,
        super_class: None,
        interfaces: None,
        fields: None,
        methods: None,
        attributes: None,
    }
}

/// magic + version (minor 0, major 0x34) + empty pool + flags + this + super
/// + empty interfaces, fields, methods, attributes.
fn minimal_class_bytes() -> Vec<u8> {
    vec![
        0xCA, 0xFE, 0xBA, 0xBE, // magic
        0x00, 0x00, 0x00, 0x34, // minor then major
        0x00, 0x01, // constant pool count 1: no entries
        0x00, 0x21, // access flags
        0x00, 0x01, // this class
        0x00, 0x03, // super class
        0x00, 0x00, // interfaces count
        0x00, 0x00, // fields count
        0x00, 0x00, // methods count
        0x00, 0x00, // attributes count
    ]
}

#[test]
fn wrong_magic_is_structural_and_stops_after_four_bytes() {
    let mut reader = BlockReader::new(vec![0xDE, 0xAD, 0xBE, 0xEF, 0x00, 0x00]);
    let frag = empty_fragment();
    let r = ClassReader::read_magic_bytes(&mut reader, &frag);
    assert!(matches!(r, Err(ClassError::StructuralError)));
    assert_eq!(reader.pos, 4);
}

#[test]
fn wrong_magic_fails_whole_parse() {
    let mut bytes = minimal_class_bytes();
    bytes[0] = 0xCB;
    assert!(matches!(
        ClassReader::read_class(bytes),
        Err(ClassError::StructuralError)
    ));
}

#[test]
fn short_magic_is_truncated_input() {
    assert!(matches!(
        ClassReader::read_class(vec![0xCA, 0xFE]),
        Err(ClassError::TruncatedInput)
    ));
}

#[test]
fn version_minor_precedes_major() {
    let mut reader = BlockReader::new(vec![0x00, 0x22, 0x00, 0x34]);
    let frag = empty_fragment();
    let r = ClassReader::read_classfile_version(&mut reader, &frag).unwrap();
    let version = r.version.unwrap();
    assert_eq!(version.major_version, 0x34);
    assert_eq!(version.minor_version, 0x22);
}

#[test]
fn version_writer_mirrors_reader_order() {
    let mut w = ClassWriter::new();
    w.write_classfile_version(&ClassfileVersion::new(0x34, 0x22))
        .unwrap();
    assert_eq!(w.target, vec![0x00, 0x22, 0x00, 0x34]);
}

#[test]
fn truncation_after_magic_is_truncated_input_not_default_version() {
    assert!(matches!(
        ClassReader::read_class(vec![0xCA, 0xFE, 0xBA, 0xBE]),
        Err(ClassError::TruncatedInput)
    ));
}

#[test]
fn long_entry_occupies_two_slots() {
    // count = 4: a Long (slots 1 and 2), then an Integer at slot 3.
    let bytes = vec![
        0x00, 0x04, // count
        0x05, 0x00, 0x00, 0x00, 0x00, 0x00, 0x00, 0x00, 0x2A, // Long 42
        0x03, 0x00, 0x00, 0x00, 0x07, // Integer 7
    ];
    let mut reader = BlockReader::new(bytes);
    let frag = empty_fragment();
    let r = ClassReader::read_constant_pool(&mut reader, &frag).unwrap();
    let pool = r.constant_pool.unwrap();
    assert_eq!(pool.entries.len(), 3);
    assert_eq!(pool.get(0), None);
    assert_eq!(pool.get(1), Some(&Constant::Long(42)));
    assert_eq!(pool.get(2), Some(&Constant::Unusable));
    assert_eq!(pool.get(3), Some(&Constant::Integer(7)));
    assert_eq!(pool.get(4), None);
}

#[test]
fn pool_round_trips_with_rederived_count() {
    let bytes = vec![
        0x00, 0x04, // count
        0x06, 0x3F, 0xF0, 0x00, 0x00, 0x00, 0x00, 0x00, 0x00, // Double bits
        0x01, 0x00, 0x02, 0x68, 0x69, // Utf8 "hi"
    ];
    let mut reader = BlockReader::new(bytes.clone());
    let frag = empty_fragment();
    let r = ClassReader::read_constant_pool(&mut reader, &frag).unwrap();
    let pool = r.constant_pool.unwrap();
    let mut w = ClassWriter::new();
    let n = w.write_constant_pool(&pool).unwrap();
    assert_eq!(n, bytes.len());
    assert_eq!(w.target, bytes);
}

#[test]
fn every_tag_round_trips() {
    let bytes = vec![
        0x00, 0x0D, // count 13: 12 one-slot entries
        0x01, 0x00, 0x01, 0x41, // Utf8 "A"
        0x03, 0x00, 0x00, 0x00, 0x01, // Integer
        0x04, 0x41, 0x20, 0x00, 0x00, // Float bits
        0x07, 0x00, 0x01, // Class
        0x08, 0x00, 0x01, // String reference
        0x09, 0x00, 0x04, 0x00, 0x08, // Fieldref
        0x0A, 0x00, 0x04, 0x00, 0x08, // Methodref
        0x0B, 0x00, 0x04, 0x00, 0x08, // InterfaceMethodref
        0x0C, 0x00, 0x01, 0x00, 0x01, // NameAndType
        0x0F, 0x05, 0x00, 0x07, // MethodHandle
        0x10, 0x00, 0x01, // MethodType
        0x12, 0x00, 0x00, 0x00, 0x08, // InvokeDynamic
    ];
    let mut reader = BlockReader::new(bytes.clone());
    let frag = empty_fragment();
    let r = ClassReader::read_constant_pool(&mut reader, &frag).unwrap();
    let pool = r.constant_pool.unwrap();
    assert_eq!(pool.entries.len(), 12);
    assert_eq!(pool.get(1), Some(&Constant::Utf8(vec![0x41])));
    assert_eq!(pool.get(10), Some(&Constant::MethodHandle(5, 7)));
    let mut w = ClassWriter::new();
    w.write_constant_pool(&pool).unwrap();
    assert_eq!(w.target, bytes);
}

#[test]
fn unknown_pool_tag_is_structural() {
    let bytes = vec![0x00, 0x02, 0x13, 0x00, 0x00];
    let mut reader = BlockReader::new(bytes);
    let frag = empty_fragment();
    assert!(matches!(
        ClassReader::read_constant_pool(&mut reader, &frag),
        Err(ClassError::StructuralError)
    ));
}

#[test]
fn pool_count_zero_is_structural() {
    let mut reader = BlockReader::new(vec![0x00, 0x00]);
    let frag = empty_fragment();
    assert!(matches!(
        ClassReader::read_constant_pool(&mut reader, &frag),
        Err(ClassError::StructuralError)
    ));
}

#[test]
fn long_in_last_slot_is_structural() {
    // count = 2 leaves one slot, but a Long needs two.
    let bytes = vec![
        0x00, 0x02, 0x05, 0x00, 0x00, 0x00, 0x00, 0x00, 0x00, 0x00, 0x01,
    ];
    let mut reader = BlockReader::new(bytes);
    let frag = empty_fragment();
    assert!(matches!(
        ClassReader::read_constant_pool(&mut reader, &frag),
        Err(ClassError::StructuralError)
    ));
}

#[test]
fn pool_cut_short_is_truncated() {
    let bytes = vec![0x00, 0x03, 0x03, 0x00, 0x00];
    let mut reader = BlockReader::new(bytes);
    let frag = empty_fragment();
    assert!(matches!(
        ClassReader::read_constant_pool(&mut reader, &frag),
        Err(ClassError::TruncatedInput)
    ));
}

fn pool_with_utf8(text: &[u8]) -> ConstantPool {
    ConstantPool {
        entries: vec![Constant::Utf8(text.to_vec())],
    }
}

#[test]
fn unrecognized_attribute_kept_as_exactly_its_declared_bytes() {
    let pool = pool_with_utf8(b"Custom");
    let bytes = vec![
        0x00, 0x01, // name index
        0x00, 0x00, 0x00, 0x05, // length 5
        0x0A, 0x0B, 0x0C, 0x0D, 0x0E, // payload
    ];
    let mut reader = BlockReader::new(bytes.clone());
    let attr = ClassReader::read_attribute(&mut reader, &pool).unwrap();
    match &attr {
        Attribute::Opaque { name_index, data } => {
            assert_eq!(*name_index, 1);
            assert_eq!(data, &vec![0x0A, 0x0B, 0x0C, 0x0D, 0x0E]);
        }
        _ => panic!("expected an opaque attribute"),
    }
    let mut w = ClassWriter::new();
    let n = w.write_attribute(&attr).unwrap();
    assert_eq!(n, bytes.len());
    assert_eq!(w.target, bytes);
}

#[test]
fn attribute_name_not_utf8_falls_back_to_opaque() {
    let pool = ConstantPool {
        entries: vec![Constant::Integer(7)],
    };
    let bytes = vec![0x00, 0x01, 0x00, 0x00, 0x00, 0x01, 0xFF];
    let mut reader = BlockReader::new(bytes);
    let attr = ClassReader::read_attribute(&mut reader, &pool).unwrap();
    assert!(matches!(attr, Attribute::Opaque { .. }));
}

#[test]
fn attribute_length_past_input_is_truncated() {
    let pool = pool_with_utf8(b"Custom");
    let bytes = vec![0x00, 0x01, 0x00, 0x00, 0x00, 0x09, 0x0A, 0x0B];
    let mut reader = BlockReader::new(bytes);
    assert!(matches!(
        ClassReader::read_attribute(&mut reader, &pool),
        Err(ClassError::TruncatedInput)
    ));
}

#[test]
fn constant_value_attribute_decodes_structurally() {
    let pool = pool_with_utf8(b"ConstantValue");
    let bytes = vec![0x00, 0x01, 0x00, 0x00, 0x00, 0x02, 0x00, 0x05];
    let mut reader = BlockReader::new(bytes.clone());
    let attr = ClassReader::read_attribute(&mut reader, &pool).unwrap();
    match &attr {
        Attribute::ConstantValue {
            name_index,
            constant_index,
        } => {
            assert_eq!(*name_index, 1);
            assert_eq!(*constant_index, 5);
        }
        _ => panic!("expected a constant-value attribute"),
    }
    let mut w = ClassWriter::new();
    w.write_attribute(&attr).unwrap();
    assert_eq!(w.target, bytes);
}

#[test]
fn constant_value_with_wrong_length_is_structural() {
    let pool = pool_with_utf8(b"ConstantValue");
    let bytes = vec![0x00, 0x01, 0x00, 0x00, 0x00, 0x04, 0x00, 0x05, 0x00, 0x00];
    let mut reader = BlockReader::new(bytes);
    assert!(matches!(
        ClassReader::read_attribute(&mut reader, &pool),
        Err(ClassError::StructuralError)
    ));
}

#[test]
fn code_attribute_decodes_and_round_trips() {
    let pool = pool_with_utf8(b"Code");
    let bytes = vec![
        0x00, 0x01, // name index -> "Code"
        0x00, 0x00, 0x00, 0x1D, // length 29
        0x00, 0x02, // max stack
        0x00, 0x03, // max locals
        0x00, 0x00, 0x00, 0x03, // code length
        0x03, 0x3C, 0xB1, // code bytes
        0x00, 0x01, // exception table length
        0x00, 0x01, 0x00, 0x02, 0x00, 0x03, 0x00, 0x04, // handler
        0x00, 0x01, // nested attribute count
        0x00, 0x02, 0x00, 0x00, 0x00, 0x00, // nested opaque, length 0
    ];
    let mut reader = BlockReader::new(bytes.clone());
    let attr = ClassReader::read_attribute(&mut reader, &pool).unwrap();
    match &attr {
        Attribute::Code {
            name_index,
            max_stack,
            max_locals,
            code,
            exception_table,
            attributes,
        } => {
            assert_eq!(*name_index, 1);
            assert_eq!(*max_stack, 2);
            assert_eq!(*max_locals, 3);
            assert_eq!(code, &vec![0x03, 0x3C, 0xB1]);
            assert_eq!(
                exception_table,
                &vec![ExceptionHandler {
                    start_pc: 1,
                    end_pc: 2,
                    handler_pc: 3,
                    catch_type: 4,
                }]
            );
            assert_eq!(attributes.len(), 1);
        }
        _ => panic!("expected a code attribute"),
    }
    let mut w = ClassWriter::new();
    let n = w.write_attribute(&attr).unwrap();
    assert_eq!(n, bytes.len());
    assert_eq!(w.target, bytes);
}

#[test]
fn code_attribute_with_wrong_declared_length_is_structural() {
    let pool = pool_with_utf8(b"Code");
    let bytes = vec![
        0x00, 0x01, 0x00, 0x00, 0x00, 0x0D, // length 13, one too many
        0x00, 0x02, 0x00, 0x03, 0x00, 0x00, 0x00, 0x00, 0x00, 0x00, 0x00, 0x00, 0x00,
    ];
    let mut reader = BlockReader::new(bytes);
    assert!(matches!(
        ClassReader::read_attribute(&mut reader, &pool),
        Err(ClassError::StructuralError)
    ));
}

#[test]
fn minimal_class_round_trips_exactly() {
    let bytes = minimal_class_bytes();
    let class = ClassReader::read_class(bytes.clone()).unwrap();
    assert_eq!(class.version.major_version, 0x34);
    assert_eq!(class.version.minor_version, 0);
    assert_eq!(class.access_flags, 0x21);
    assert_eq!(class.this_class, 1);
    assert_eq!(class.super_class, 3);
    assert_eq!(class.constant_pool.entries.len(), 0);
    assert_eq!(class.interfaces.len(), 0);
    assert_eq!(class.fields.len(), 0);
    assert_eq!(class.methods.len(), 0);
    assert_eq!(class.attributes.len(), 0);
    let mut w = ClassWriter::new();
    let n = w.write_class(&class).unwrap();
    assert_eq!(n, bytes.len());
    assert_eq!(w.target, bytes);
}

#[test]
fn full_class_round_trips_exactly() {
    let pool = ConstantPool {
        entries: vec![
            Constant::Utf8(b"Code".to_vec()),
            Constant::Utf8(b"ConstantValue".to_vec()),
            Constant::Utf8(b"Extra".to_vec()),
            Constant::Long(0x1122334455667788),
            Constant::Unusable,
            Constant::Class(1),
        ],
    };
    let field = Member {
        access_flags: 0x0002,
        name_index: 3,
        descriptor_index: 3,
        attributes: vec![Attribute::ConstantValue {
            name_index: 2,
            constant_index: 4,
        }],
    };
    let method = Member {
        access_flags: 0x0001,
        name_index: 3,
        descriptor_index: 3,
        attributes: vec![Attribute::Code {
            name_index: 1,
            max_stack: 1,
            max_locals: 1,
            code: vec![0xB1],
            exception_table: vec![],
            attributes: vec![Attribute::Opaque {
                name_index: 3,
                data: vec![9, 9],
            }],
        }],
    };
    let class = classfile::classfile::Classfile {
        version: ClassfileVersion::new(52, 0),
        constant_pool: pool,
        access_flags: 0x21,
        this_class: 6,
        super_class: 0,
        interfaces: vec![6, 6],
        fields: vec![field],
        methods: vec![method],
        attributes: vec![Attribute::Opaque {
            name_index: 3,
            data: vec![1, 2, 3],
        }],
    };
    let mut w = ClassWriter::new();
    let n = w.write_class(&class).unwrap();
    assert_eq!(n, w.target.len());
    let bytes = w.target.clone();
    let reparsed = ClassReader::read_class(bytes.clone()).unwrap();
    let mut w2 = ClassWriter::new();
    w2.write_class(&reparsed).unwrap();
    assert_eq!(w2.target, bytes);
}

#[test]
fn class_with_trailing_bytes_parses_the_prefix() {
    let mut bytes = minimal_class_bytes();
    let expected = bytes.clone();
    bytes.extend_from_slice(&[0xEE, 0xFF]);
    let class = ClassReader::read_class(bytes).unwrap();
    let mut w = ClassWriter::new();
    w.write_class(&class).unwrap();
    assert_eq!(w.target, expected);
}

#[test]
fn class_cut_short_in_pool_is_truncated() {
    let bytes = vec![
        0xCA, 0xFE, 0xBA, 0xBE, 0x00, 0x00, 0x00, 0x34, 0x00, 0x03, 0x03, 0x00,
    ];
    assert!(matches!(
        ClassReader::read_class(bytes),
        Err(ClassError::TruncatedInput)
    ));
}

#[test]
fn unwritable_class_fails_the_write_structurally() {
    let class = classfile::classfile::Classfile {
        version: ClassfileVersion::new(52, 0),
        constant_pool: ConstantPool { entries: vec![] },
        access_flags: 0,
        this_class: 0,
        super_class: 0,
        interfaces: vec![0u16; 0x1_0000],
        fields: vec![],
        methods: vec![],
        attributes: vec![],
    };
    let mut w = ClassWriter::new();
    assert!(matches!(
        w.write_class(&class),
        Err(ClassError::StructuralError)
    ));
}

#[test]
fn merge_lets_filled_fields_override() {
    let base = ClassFragment {
        version: Some(ClassfileVersion::new(1, 0)),
        access_flags: Some(7),
        ..empty_fragment()
    };
    let other = ClassFragment {
        version: Some(ClassfileVersion::new(2, 0)),
        this_class: Some(9),
        ..empty_fragment()
    };
    let merged = base.merge(other);
    assert_eq!(merged.version, Some(ClassfileVersion::new(2, 0)));
    assert_eq!(merged.access_flags, Some(7));
    assert_eq!(merged.this_class, Some(9));
    assert_eq!(merged.super_class, None);
}

#[test]
fn to_class_defaults_unfilled_fields() {
    let class = empty_fragment().to_class();
    assert_eq!(class.version, ClassfileVersion::default());
    assert_eq!(class.version.major_version, 0);
    assert_eq!(class.access_flags, 0);
    assert_eq!(class.this_class, 0);
    assert_eq!(class.super_class, 0);
    assert_eq!(class.constant_pool.entries.len(), 0);
    assert_eq!(class.interfaces.len(), 0);
}

#[test]
fn version_comparison_is_lexicographic() {
    let v = ClassfileVersion::new(52, 3);
    assert!(v.is_at_least(51, 9));
    assert!(v.is_at_least(52, 3));
    assert!(v.is_at_least(52, 0));
    assert!(!v.is_at_least(52, 4));
    assert!(!v.is_at_least(53, 0));
}

#[test]
fn fields_stage_reads_records_against_the_pool() {
    let pool_fragment = ClassFragment {
        constant_pool: Some(pool_with_utf8(b"ConstantValue")),
        ..empty_fragment()
    };
    let bytes = vec![
        0x00, 0x01, // field count
        0x00, 0x02, // access flags
        0x00, 0x05, // name index
        0x00, 0x06, // descriptor index
        0x00, 0x01, // attribute count
        0x00, 0x01, 0x00, 0x00, 0x00, 0x02, 0x00, 0x09, // ConstantValue -> 9
    ];
    let mut reader = BlockReader::new(bytes);
    let r = ClassReader::read_fields(&mut reader, &pool_fragment).unwrap();
    let fields = r.fields.unwrap();
    assert_eq!(fields.len(), 1);
    assert_eq!(fields[0].access_flags, 2);
    assert_eq!(fields[0].name_index, 5);
    assert_eq!(fields[0].descriptor_index, 6);
    assert!(matches!(
        fields[0].attributes[0],
        Attribute::ConstantValue {
            name_index: 1,
            constant_index: 9,
        }
    ));
}

#[test]
fn oversized_utf8_entry_fails_the_write_structurally() {
    let pool = ConstantPool {
        entries: vec![Constant::Utf8(vec![0x41; 0x1_0000])],
    };
    let mut w = ClassWriter::new();
    assert!(matches!(
        w.write_constant_pool(&pool),
        Err(ClassError::StructuralError)
    ));
}

#[test]
fn interfaces_parse_in_order() {
    let bytes = vec![
        0xCA, 0xFE, 0xBA, 0xBE, 0x00, 0x00, 0x00, 0x34, // magic + version
        0x00, 0x01, // empty pool
        0x00, 0x00, 0x00, 0x02, 0x00, 0x04, // flags, this, super
        0x00, 0x03, 0x00, 0x07, 0x00, 0x05, 0x00, 0x06, // 3 interfaces
        0x00, 0x00, 0x00, 0x00, 0x00, 0x00, // no fields, methods, attributes
    ];
    let class = ClassReader::read_class(bytes.clone()).unwrap();
    assert_eq!(class.interfaces, vec![7, 5, 6]);
    let mut w = ClassWriter::new();
    w.write_class(&class).unwrap();
    assert_eq!(w.target, bytes);
}
