//! The structured, immutable in-memory model of a class's binary form, and
//! the error kinds a decode or encode can end in.
use vstd::prelude::*;

verus! {

/// How a decode or encode fails.
///
/// `StructuralError` marks input that cannot be a class (wrong magic bytes,
/// an unknown constant-pool tag, a recognized attribute whose declared length
/// does not match its content) and models whose lengths cannot be emitted in
/// the fixed-width count fields. `TruncatedInput` marks a source that ran out
/// of bytes before a fixed-width read or a declared-length block completed.
#[derive(Clone, Copy, Debug, PartialEq, Eq, Structural)]
pub enum ClassError {
    StructuralError,
    TruncatedInput,
}

/// A class format version: a (major, minor) pair. In the byte stream the
/// minor number comes first, the major number second.
#[derive(Clone, Copy, Debug, PartialEq, Eq, Structural)]
pub struct ClassfileVersion {
    pub major_version: u16,
    pub minor_version: u16,
}

impl ClassfileVersion {
    pub fn new(major_version: u16, minor_version: u16) -> (r: ClassfileVersion)
        ensures
            r.major_version == major_version,
            r.minor_version == minor_version,
    {
        ClassfileVersion { major_version, minor_version }
    }

    /// Whether this version is at least the given one, comparing
    /// lexicographically by major then minor number.
    pub fn is_at_least(&self, major_version: u16, minor_version: u16) -> (r: bool)
        ensures
            r == (self.major_version > major_version || (self.major_version == major_version
                && self.minor_version >= minor_version)),
    {
        self.major_version > major_version || (self.major_version == major_version
            && self.minor_version >= minor_version)
    }
}

impl Default for ClassfileVersion {
    fn default() -> (r: ClassfileVersion)
        ensures
            r.major_version == 0,
            r.minor_version == 0,
    {
        ClassfileVersion { major_version: 0, minor_version: 0 }
    }
}

/// One entry of the constant pool. `Long` and `Double` occupy two consecutive
/// pool slots; the slot after such an entry is held by `Unusable`, which no
/// index may name and which contributes no bytes when the pool is written.
#[derive(Clone, Debug, PartialEq)]
pub enum Constant {
    Utf8(Vec<u8>),
    Integer(u32),
    Float(u32),
    Long(u64),
    Double(u64),
    Class(u16),
    StringRef(u16),
    Fieldref(u16, u16),
    Methodref(u16, u16),
    InterfaceMethodref(u16, u16),
    NameAndType(u16, u16),
    MethodHandle(u8, u16),
    MethodType(u16),
    InvokeDynamic(u16, u16),
    Unusable,
}

/// The 1-indexed table of literal and reference entries. `entries[i]` holds
/// pool index `i + 1`; index 0 is reserved and never valid.
#[derive(Clone, Debug, PartialEq)]
pub struct ConstantPool {
    pub entries: Vec<Constant>,
}

/// The entry a 1-based pool index names, or `None` for index 0 and indices
/// past the end of the pool.
pub open spec fn pool_entry(cp: ConstantPool, index: u16) -> Option<Constant> {
    if 1 <= index && index <= cp.entries@.len() {
        Some(cp.entries@[index - 1])
    } else {
        None
    }
}

/// The text of the `Utf8` entry a pool index names, or `None` when the index
/// is invalid or names an entry of any other variant.
pub open spec fn pool_utf8(cp: ConstantPool, index: u16) -> Option<Seq<u8>> {
    match pool_entry(cp, index) {
        Some(Constant::Utf8(text)) => Some(text@),
        _ => None,
    }
}

/// The two-slot rule: a slot is `Unusable` exactly when the slot before it
/// holds a `Long` or a `Double`, and such an eight-byte entry always has a
/// following slot to hold its shadow.
pub open spec fn pool_entries_wf(entries: Seq<Constant>) -> bool {
    &&& forall|i: int|
        0 <= i < entries.len() ==> ((#[trigger] entries[i]) is Unusable <==> (i > 0 && (entries[i
            - 1] is Long || entries[i - 1] is Double)))
    &&& forall|i: int|
        0 <= i < entries.len() && ((#[trigger] entries[i]) is Long || entries[i] is Double) ==> i
            + 1 < entries.len()
}

impl ConstantPool {
    pub fn new() -> (r: ConstantPool)
        ensures
            r.entries@ =~= Seq::<Constant>::empty(),
    {
        ConstantPool { entries: Vec::new() }
    }

    /// Look up a 1-based pool index.
    pub fn get(&self, index: u16) -> (r: Option<&Constant>)
        ensures
            match r {
                Some(c) => pool_entry(*self, index) == Some(*c),
                None => pool_entry(*self, index) is None,
            },
    {
        if 1 <= index && (index as usize) <= self.entries.len() {
            Some(&self.entries[(index - 1) as usize])
        } else {
            None
        }
    }
}

impl Default for ConstantPool {
    fn default() -> (r: ConstantPool)
        ensures
            r.entries@ =~= Seq::<Constant>::empty(),
    {
        ConstantPool { entries: Vec::new() }
    }
}

/// One row of a `Code` attribute's exception table.
#[derive(Clone, Copy, Debug, PartialEq, Eq, Structural)]
pub struct ExceptionHandler {
    pub start_pc: u16,
    pub end_pc: u16,
    pub handler_pc: u16,
    pub catch_type: u16,
}

/// A named, length-prefixed data block. Recognized names get a structured
/// shape; every other name is kept as an opaque byte blob of exactly the
/// declared length, so unknown attribute kinds round-trip byte-identically.
#[derive(Debug)]
pub enum Attribute {
    ConstantValue { name_index: u16, constant_index: u16 },
    Code {
        name_index: u16,
        max_stack: u16,
        max_locals: u16,
        code: Vec<u8>,
        exception_table: Vec<ExceptionHandler>,
        attributes: Vec<Attribute>,
    },
    Opaque { name_index: u16, data: Vec<u8> },
}

/// A field or method record: flags, a name index, a descriptor index and the
/// record's attributes.
#[derive(Debug)]
pub struct Member {
    pub access_flags: u16,
    pub name_index: u16,
    pub descriptor_index: u16,
    pub attributes: Vec<Attribute>,
}

/// The fully decoded class: immutable once built.
#[derive(Debug)]
pub struct Classfile {
    pub version: ClassfileVersion,
    pub constant_pool: ConstantPool,
    pub access_flags: u16,
    pub this_class: u16,
    pub super_class: u16,
    pub interfaces: Vec<u16>,
    pub fields: Vec<Member>,
    pub methods: Vec<Member>,
    pub attributes: Vec<Attribute>,
}

} // verus!
