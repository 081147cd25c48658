//! Decoding and encoding of the class model: a forward-only byte reader, the
//! staged class reader, the mirroring writer, and the merge accumulator the
//! staged parse threads through its stages.
use crate::classfile::Attribute;
use crate::classfile::ClassError;
use crate::classfile::Classfile;
use crate::classfile::ClassfileVersion;
use crate::classfile::Constant;
use crate::classfile::ConstantPool;
use crate::classfile::ExceptionHandler;
use crate::classfile::Member;
use crate::encoding::attr_bytes;
use crate::encoding::attr_name_index;
use crate::encoding::attr_payload_bytes;
use crate::encoding::attr_seq_bytes;
use crate::encoding::attr_seq_writable;
use crate::encoding::attr_writable;
use crate::encoding::class_bytes;
use crate::encoding::class_writable;
use crate::encoding::code_attr_name;
use crate::encoding::constant_bytes;
use crate::encoding::constant_seq_bytes;
use crate::encoding::constant_value_attr_name;
use crate::encoding::constant_writable;
use crate::encoding::handler_bytes;
use crate::encoding::handler_seq_bytes;
use crate::encoding::lemma_attr_seq_bytes_push;
use crate::encoding::lemma_constant_seq_bytes_push;
use crate::encoding::lemma_handler_seq_bytes_push;
use crate::encoding::lemma_member_seq_bytes_push;
use crate::encoding::lemma_u16_be_of_from;
use crate::encoding::lemma_u16_seq_bytes_push;
use crate::encoding::lemma_u32_be_of_from;
use crate::encoding::lemma_u32_round_trip;
use crate::encoding::lemma_u64_be_of_from;
use crate::encoding::magic_bytes;
use crate::encoding::member_bytes;
use crate::encoding::member_seq_bytes;
use crate::encoding::member_seq_writable;
use crate::encoding::member_writable;
use crate::encoding::pool_bytes;
use crate::encoding::pool_writable;
use crate::encoding::u16_be;
use crate::encoding::u16_from_be;
use crate::encoding::u16_seq_bytes;
use crate::encoding::u32_be;
use crate::encoding::u32_from_be;
use crate::encoding::u64_be;
use crate::encoding::u64_from_be;
use crate::encoding::u8_be;
use crate::encoding::version_bytes;
use crate::classfile::pool_entries_wf;
use crate::classfile::pool_utf8;
use vstd::prelude::*;

verus! {

/// A forward-only cursor over a byte sequence. Every read either consumes
/// exactly the requested bytes or fails with `TruncatedInput` and consumes
/// nothing.
pub struct BlockReader {
    pub data: Vec<u8>,
    pub pos: usize,
}

impl BlockReader {
    pub fn new(data: Vec<u8>) -> (r: BlockReader)
        ensures
            r.data == data,
            r.pos == 0,
    {
        BlockReader { data, pos: 0 }
    }

    pub fn read_u8(&mut self) -> (r: Result<u8, ClassError>)
        ensures
            final(self).data == old(self).data,
            r is Ok <==> old(self).pos + 1 <= old(self).data@.len(),
            match r {
                Ok(v) => {
                    &&& final(self).pos == old(self).pos + 1
                    &&& v == old(self).data@[old(self).pos as int]
                    &&& u8_be(v) == old(self).data@.subrange(
                        old(self).pos as int,
                        old(self).pos + 1,
                    )
                },
                Err(e) => e == ClassError::TruncatedInput && final(self).pos == old(self).pos,
            },
    {
        if self.pos < self.data.len() {
            let v = self.data[self.pos];
            self.pos = self.pos + 1;
            assert(u8_be(v) =~= self.data@.subrange(old(self).pos as int, old(self).pos + 1));
            Ok(v)
        } else {
            Err(ClassError::TruncatedInput)
        }
    }

    pub fn read_u16(&mut self) -> (r: Result<u16, ClassError>)
        ensures
            final(self).data == old(self).data,
            r is Ok <==> old(self).pos + 2 <= old(self).data@.len(),
            match r {
                Ok(v) => {
                    &&& final(self).pos == old(self).pos + 2
                    &&& v == u16_from_be(
                        old(self).data@[old(self).pos as int],
                        old(self).data@[old(self).pos + 1],
                    )
                    &&& u16_be(v) == old(self).data@.subrange(
                        old(self).pos as int,
                        old(self).pos + 2,
                    )
                },
                Err(e) => e == ClassError::TruncatedInput && final(self).pos == old(self).pos,
            },
    {
        if self.data.len() >= 2 && self.pos <= self.data.len() - 2 {
            let b0 = self.data[self.pos];
            let b1 = self.data[self.pos + 1];
            let v = (b0 as u16) << 8 | (b1 as u16);
            self.pos = self.pos + 2;
            proof {
                lemma_u16_be_of_from(b0, b1);
                assert(self.data@.subrange(old(self).pos as int, old(self).pos + 2) =~= seq![
                    b0,
                    b1,
                ]);
            }
            Ok(v)
        } else {
            Err(ClassError::TruncatedInput)
        }
    }

    pub fn read_u32(&mut self) -> (r: Result<u32, ClassError>)
        ensures
            final(self).data == old(self).data,
            r is Ok <==> old(self).pos + 4 <= old(self).data@.len(),
            match r {
                Ok(v) => {
                    &&& final(self).pos == old(self).pos + 4
                    &&& v == u32_from_be(
                        old(self).data@[old(self).pos as int],
                        old(self).data@[old(self).pos + 1],
                        old(self).data@[old(self).pos + 2],
                        old(self).data@[old(self).pos + 3],
                    )
                    &&& u32_be(v) == old(self).data@.subrange(
                        old(self).pos as int,
                        old(self).pos + 4,
                    )
                },
                Err(e) => e == ClassError::TruncatedInput && final(self).pos == old(self).pos,
            },
    {
        if self.data.len() >= 4 && self.pos <= self.data.len() - 4 {
            let b0 = self.data[self.pos];
            let b1 = self.data[self.pos + 1];
            let b2 = self.data[self.pos + 2];
            let b3 = self.data[self.pos + 3];
            let v = (b0 as u32) << 24 | (b1 as u32) << 16 | (b2 as u32) << 8 | (b3 as u32);
            self.pos = self.pos + 4;
            proof {
                lemma_u32_be_of_from(b0, b1, b2, b3);
                assert(self.data@.subrange(old(self).pos as int, old(self).pos + 4) =~= seq![
                    b0,
                    b1,
                    b2,
                    b3,
                ]);
            }
            Ok(v)
        } else {
            Err(ClassError::TruncatedInput)
        }
    }

    pub fn read_u64(&mut self) -> (r: Result<u64, ClassError>)
        ensures
            final(self).data == old(self).data,
            r is Ok <==> old(self).pos + 8 <= old(self).data@.len(),
            match r {
                Ok(v) => {
                    &&& final(self).pos == old(self).pos + 8
                    &&& v == u64_from_be(
                        old(self).data@[old(self).pos as int],
                        old(self).data@[old(self).pos + 1],
                        old(self).data@[old(self).pos + 2],
                        old(self).data@[old(self).pos + 3],
                        old(self).data@[old(self).pos + 4],
                        old(self).data@[old(self).pos + 5],
                        old(self).data@[old(self).pos + 6],
                        old(self).data@[old(self).pos + 7],
                    )
                    &&& u64_be(v) == old(self).data@.subrange(
                        old(self).pos as int,
                        old(self).pos + 8,
                    )
                },
                Err(e) => e == ClassError::TruncatedInput && final(self).pos == old(self).pos,
            },
    {
        if self.data.len() >= 8 && self.pos <= self.data.len() - 8 {
            let b0 = self.data[self.pos];
            let b1 = self.data[self.pos + 1];
            let b2 = self.data[self.pos + 2];
            let b3 = self.data[self.pos + 3];
            let b4 = self.data[self.pos + 4];
            let b5 = self.data[self.pos + 5];
            let b6 = self.data[self.pos + 6];
            let b7 = self.data[self.pos + 7];
            let v = (b0 as u64) << 56 | (b1 as u64) << 48 | (b2 as u64) << 40 | (b3 as u64) << 32
                | (b4 as u64) << 24 | (b5 as u64) << 16 | (b6 as u64) << 8 | (b7 as u64);
            self.pos = self.pos + 8;
            proof {
                lemma_u64_be_of_from(b0, b1, b2, b3, b4, b5, b6, b7);
                assert(self.data@.subrange(old(self).pos as int, old(self).pos + 8) =~= seq![
                    b0,
                    b1,
                    b2,
                    b3,
                    b4,
                    b5,
                    b6,
                    b7,
                ]);
            }
            Ok(v)
        } else {
            Err(ClassError::TruncatedInput)
        }
    }

    /// Consume exactly `count` bytes as a block, as an attribute's raw
    /// payload is consumed.
    pub fn read_bytes(&mut self, count: usize) -> (r: Result<Vec<u8>, ClassError>)
        ensures
            final(self).data == old(self).data,
            r is Ok <==> old(self).pos + count <= old(self).data@.len(),
            match r {
                Ok(v) => {
                    &&& final(self).pos == old(self).pos + count
                    &&& v@ == old(self).data@.subrange(
                        old(self).pos as int,
                        old(self).pos + count,
                    )
                },
                Err(e) => e == ClassError::TruncatedInput && final(self).pos == old(self).pos,
            },
    {
        if count <= self.data.len() && self.pos <= self.data.len() - count {
            let mut v: Vec<u8> = Vec::new();
            let mut i: usize = 0;
            while i < count
                invariant
                    i <= count,
                    self == old(self),
                    old(self).pos + count <= old(self).data@.len(),
                    old(self).data@.len() <= usize::MAX,
                    v@ =~= self.data@.subrange(self.pos as int, self.pos + i),
                decreases count - i,
            {
                v.push(self.data[self.pos + i]);
                i = i + 1;
                assert(v@ =~= self.data@.subrange(self.pos as int, self.pos + i));
            }
            self.pos = self.pos + count;
            Ok(v)
        } else {
            Err(ClassError::TruncatedInput)
        }
    }
}

/// Whether the byte at a position is a tag of the closed constant-pool
/// tag set.
pub open spec fn known_constant_tag(tag: u8) -> bool {
    ||| tag == 1
    ||| tag == 3
    ||| tag == 4
    ||| tag == 5
    ||| tag == 6
    ||| tag == 7
    ||| tag == 8
    ||| tag == 9
    ||| tag == 10
    ||| tag == 11
    ||| tag == 12
    ||| tag == 15
    ||| tag == 16
    ||| tag == 18
}

/// Whether one well-formed constant-pool entry lies at `pos`: a known tag
/// whose tag-specific payload fits in the remaining bytes.
pub open spec fn entry_parseable(data: Seq<u8>, pos: int) -> bool {
    &&& 0 <= pos < data.len()
    &&& {
        let tag = data[pos];
        if tag == 1 {
            pos + 3 <= data.len() && pos + 3 + u16_from_be(data[pos + 1], data[pos + 2])
                <= data.len()
        } else if tag == 3 || tag == 4 {
            pos + 5 <= data.len()
        } else if tag == 5 || tag == 6 {
            pos + 9 <= data.len()
        } else if tag == 7 || tag == 8 || tag == 16 {
            pos + 3 <= data.len()
        } else if tag == 9 || tag == 10 || tag == 11 || tag == 12 || tag == 18 {
            pos + 5 <= data.len()
        } else if tag == 15 {
            pos + 4 <= data.len()
        } else {
            false
        }
    }
}

/// The position just past the entry that starts at `pos`.
pub open spec fn entry_end(data: Seq<u8>, pos: int) -> int {
    let tag = data[pos];
    if tag == 1 {
        pos + 3 + u16_from_be(data[pos + 1], data[pos + 2])
    } else if tag == 3 || tag == 4 {
        pos + 5
    } else if tag == 5 || tag == 6 {
        pos + 9
    } else if tag == 7 || tag == 8 || tag == 16 {
        pos + 3
    } else if tag == 9 || tag == 10 || tag == 11 || tag == 12 || tag == 18 {
        pos + 5
    } else if tag == 15 {
        pos + 4
    } else {
        pos
    }
}

/// How many pool slots the entry at `pos` fills: two for the eight-byte
/// entries, one for the rest.
pub open spec fn entry_slots(data: Seq<u8>, pos: int) -> int {
    if data[pos] == 5 || data[pos] == 6 {
        2
    } else {
        1
    }
}

/// Whether a run of entries starting at `pos` fills exactly `slots` pool
/// slots, each entry well formed and an eight-byte entry never left with a
/// single slot.
pub open spec fn pool_run_parseable(data: Seq<u8>, pos: int, slots: int) -> bool
    decreases slots,
{
    if slots <= 0 {
        slots == 0
    } else {
        &&& entry_parseable(data, pos)
        &&& entry_slots(data, pos) <= slots
        &&& pool_run_parseable(data, entry_end(data, pos), slots - entry_slots(data, pos))
    }
}

/// Whether an attribute with an unrecognized name lies at `pos`: header and
/// declared payload within the bytes, name resolving to neither recognized
/// shape.
pub open spec fn opaque_attr_parseable(pool: ConstantPool, data: Seq<u8>, pos: int) -> bool {
    &&& 0 <= pos
    &&& pos + 6 <= data.len()
    &&& pos + 6 + u32_from_be(data[pos + 2], data[pos + 3], data[pos + 4], data[pos + 5])
        <= data.len()
    &&& pool_utf8(pool, u16_from_be(data[pos], data[pos + 1])) != Some(code_attr_name())
    &&& pool_utf8(pool, u16_from_be(data[pos], data[pos + 1])) != Some(constant_value_attr_name())
}

/// The position just past the attribute whose header starts at `pos`.
pub open spec fn attr_end(data: Seq<u8>, pos: int) -> int {
    pos + 6 + u32_from_be(data[pos + 2], data[pos + 3], data[pos + 4], data[pos + 5])
}

/// Whether a flat attribute lies at `pos`: header and declared payload
/// within the bytes, the name resolving to `ConstantValue` (with its fixed
/// two-byte payload) or to no recognized shape at all: any name but the
/// nested `Code` shape.
pub open spec fn flat_attr_parseable(pool: ConstantPool, data: Seq<u8>, pos: int) -> bool {
    &&& 0 <= pos
    &&& pos + 6 <= data.len()
    &&& attr_end(data, pos) <= data.len()
    &&& pool_utf8(pool, u16_from_be(data[pos], data[pos + 1])) != Some(code_attr_name())
    &&& (pool_utf8(pool, u16_from_be(data[pos], data[pos + 1])) == Some(
        constant_value_attr_name(),
    ) ==> u32_from_be(data[pos + 2], data[pos + 3], data[pos + 4], data[pos + 5]) == 2)
}

/// Whether `count` flat attributes lie in sequence at `pos`.
pub open spec fn attr_run_parseable(
    pool: ConstantPool,
    data: Seq<u8>,
    pos: int,
    count: int,
) -> bool
    decreases count,
{
    if count <= 0 {
        count == 0
    } else {
        flat_attr_parseable(pool, data, pos) && attr_run_parseable(
            pool,
            data,
            attr_end(data, pos),
            count - 1,
        )
    }
}

/// The position just past a run of `count` attributes starting at `pos`.
pub open spec fn attr_run_end(data: Seq<u8>, pos: int, count: int) -> int
    decreases count,
{
    if count <= 0 {
        pos
    } else {
        attr_run_end(data, attr_end(data, pos), count - 1)
    }
}

/// Whether a field or method record lies at `pos` whose attributes are all
/// flat.
pub open spec fn member_parseable(pool: ConstantPool, data: Seq<u8>, pos: int) -> bool {
    &&& 0 <= pos
    &&& pos + 8 <= data.len()
    &&& attr_run_parseable(
        pool,
        data,
        pos + 8,
        u16_from_be(data[pos + 6], data[pos + 7]) as int,
    )
}

/// The position just past the record that starts at `pos`.
pub open spec fn member_end(data: Seq<u8>, pos: int) -> int {
    attr_run_end(data, pos + 8, u16_from_be(data[pos + 6], data[pos + 7]) as int)
}

/// Whether `count` such records lie in sequence at `pos`.
pub open spec fn member_run_parseable(
    pool: ConstantPool,
    data: Seq<u8>,
    pos: int,
    count: int,
) -> bool
    decreases count,
{
    if count <= 0 {
        count == 0
    } else {
        member_parseable(pool, data, pos) && member_run_parseable(
            pool,
            data,
            member_end(data, pos),
            count - 1,
        )
    }
}

/// The position just past a run of entries filling `slots` pool slots.
pub open spec fn pool_run_end(data: Seq<u8>, pos: int, slots: int) -> int
    decreases slots,
{
    if slots <= 0 {
        pos
    } else if entry_slots(data, pos) <= slots {
        pool_run_end(data, entry_end(data, pos), slots - entry_slots(data, pos))
    } else {
        entry_end(data, pos)
    }
}

/// The position just past a run of `count` records starting at `pos`.
pub open spec fn member_run_end(data: Seq<u8>, pos: int, count: int) -> int
    decreases count,
{
    if count <= 0 {
        pos
    } else {
        member_run_end(data, member_end(data, pos), count - 1)
    }
}

/// Whether the input opens as a class must: magic bytes, a version, and a
/// well-formed constant-pool section.
pub open spec fn class_head_parseable(data: Seq<u8>) -> bool {
    &&& data.len() >= 10
    &&& data.subrange(0, 4) == magic_bytes()
    &&& u16_from_be(data[8], data[9]) >= 1
    &&& pool_run_parseable(data, 10, u16_from_be(data[8], data[9]) - 1)
}

/// The position just past the constant-pool section of such an input.
pub open spec fn class_pool_end(data: Seq<u8>) -> int {
    pool_run_end(data, 10, u16_from_be(data[8], data[9]) - 1)
}

/// Whether a pool value is what the input's pool section denotes.
pub open spec fn pool_matches(data: Seq<u8>, p: ConstantPool) -> bool {
    &&& pool_entries_wf(p.entries@)
    &&& pool_bytes(p) == data.subrange(8, class_pool_end(data))
}

/// Whether, after the pool section, the class declaration, interfaces,
/// fields, methods and attributes follow well formed, with every attribute
/// flat, resolving names against the pool `p`.
pub open spec fn class_tail_parseable(data: Seq<u8>, p: ConstantPool) -> bool {
    let p3 = class_pool_end(data);
    &&& p3 + 8 <= data.len()
    &&& {
        let interface_count = u16_from_be(data[p3 + 6], data[p3 + 7]) as int;
        let p5 = p3 + 8 + 2 * interface_count;
        &&& p5 + 2 <= data.len()
        &&& {
            let field_count = u16_from_be(data[p5], data[p5 + 1]) as int;
            &&& member_run_parseable(p, data, p5 + 2, field_count)
            &&& {
                let p6 = member_run_end(data, p5 + 2, field_count);
                &&& p6 + 2 <= data.len()
                &&& {
                    let method_count = u16_from_be(data[p6], data[p6 + 1]) as int;
                    &&& member_run_parseable(p, data, p6 + 2, method_count)
                    &&& {
                        let p7 = member_run_end(data, p6 + 2, method_count);
                        &&& p7 + 2 <= data.len()
                        &&& attr_run_parseable(
                            p,
                            data,
                            p7 + 2,
                            u16_from_be(data[p7], data[p7 + 1]) as int,
                        )
                    }
                }
            }
        }
    }
}

/// Decodes a class byte sequence into the structured model by a fixed
/// pipeline of stages, aborting on the first stage that fails.
pub struct ClassReader {}

impl ClassReader {
    /// Stage: the 4 magic bytes. Any other leading 4 bytes fail with a
    /// structural error, and no bytes beyond those 4 are consumed.
    pub fn read_magic_bytes(reader: &mut BlockReader, fragment: &ClassFragment) -> (r: Result<
        ClassFragment,
        ClassError,
    >)
        ensures
            final(reader).data == old(reader).data,
            r is Ok <==> (old(reader).pos + 4 <= old(reader).data@.len() && old(
                reader,
            ).data@.subrange(old(reader).pos as int, old(reader).pos + 4) == magic_bytes()),
            match r {
                Ok(f) => {
                    &&& final(reader).pos == old(reader).pos + 4
                    &&& fragment_is_empty(f)
                },
                Err(e) => {
                    &&& (e == ClassError::TruncatedInput <==> old(reader).pos + 4 > old(
                        reader,
                    ).data@.len())
                    &&& (e == ClassError::StructuralError ==> final(reader).pos == old(reader).pos
                        + 4)
                    &&& (e == ClassError::TruncatedInput ==> final(reader).pos == old(reader).pos)
                },
            },
    {
        match reader.read_u32() {
            Ok(value) => {
                proof {
                    lemma_u32_round_trip(value);
                    lemma_u32_round_trip(0xCAFEBABEu32);
                }
                if value == 0xCAFEBABE {
                    Ok(ClassFragment::default())
                } else {
                    Err(ClassError::StructuralError)
                }
            },
            Err(e) => Err(e),
        }
    }

    /// Stage: the version pair. The minor number is read first, the major
    /// number second; swapping them would yield a wrong but plausible value.
    pub fn read_classfile_version(reader: &mut BlockReader, fragment: &ClassFragment) -> (r: Result<
        ClassFragment,
        ClassError,
    >)
        ensures
            final(reader).data == old(reader).data,
            r is Ok <==> old(reader).pos + 4 <= old(reader).data@.len(),
            match r {
                Ok(f) => {
                    &&& final(reader).pos == old(reader).pos + 4
                    &&& f.version == Some(
                        ClassfileVersion {
                            major_version: u16_from_be(
                                old(reader).data@[old(reader).pos + 2],
                                old(reader).data@[old(reader).pos + 3],
                            ),
                            minor_version: u16_from_be(
                                old(reader).data@[old(reader).pos as int],
                                old(reader).data@[old(reader).pos + 1],
                            ),
                        },
                    )
                    &&& version_bytes(f.version->0) == old(reader).data@.subrange(
                        old(reader).pos as int,
                        old(reader).pos + 4,
                    )
                    &&& f.constant_pool is None
                    &&& f.access_flags is None
                    &&& f.this_class is None
                    &&& f.super_class is None
                    &&& f.interfaces is None
                    &&& f.fields is None
                    &&& f.methods is None
                    &&& f.attributes is None
                },
                Err(e) => e == ClassError::TruncatedInput,
            },
    {
        let minor_version = reader.read_u16()?;
        let major_version = reader.read_u16()?;
        let mut f = ClassFragment::default();
        f.version = Some(ClassfileVersion::new(major_version, minor_version));
        proof {
            assert(old(reader).data@.subrange(old(reader).pos as int, old(reader).pos + 4) =~= old(
                reader,
            ).data@.subrange(old(reader).pos as int, old(reader).pos + 2) + old(
                reader,
            ).data@.subrange(old(reader).pos + 2, old(reader).pos + 4));
        }
        Ok(f)
    }

    /// Stage: the constant pool. A declared count of `N` yields `N - 1`
    /// slots; a `Long` or `Double` entry fills two of them, the second held
    /// by an `Unusable` shadow slot. A count of 0, an unknown tag, and an
    /// eight-byte entry in the last slot are structural errors.
    #[verifier::rlimit(100)]
    pub fn read_constant_pool(reader: &mut BlockReader, fragment: &ClassFragment) -> (r: Result<
        ClassFragment,
        ClassError,
    >)
        ensures
            final(reader).data == old(reader).data,
            match r {
                Ok(f) => {
                    &&& f.constant_pool is Some
                    &&& pool_entries_wf(f.constant_pool->0.entries@)
                    &&& pool_writable(f.constant_pool->0)
                    &&& pool_bytes(f.constant_pool->0) == old(reader).data@.subrange(
                        old(reader).pos as int,
                        final(reader).pos as int,
                    )
                    &&& final(reader).pos >= old(reader).pos + 2
                    &&& f.version is None
                    &&& f.access_flags is None
                    &&& f.this_class is None
                    &&& f.super_class is None
                    &&& f.interfaces is None
                    &&& f.fields is None
                    &&& f.methods is None
                    &&& f.attributes is None
                },
                Err(e) => e == ClassError::TruncatedInput || e == ClassError::StructuralError,
            },
            old(reader).pos + 2 > old(reader).data@.len() ==> r == Err::<
                ClassFragment,
                ClassError,
            >(ClassError::TruncatedInput),
            (old(reader).pos + 2 <= old(reader).data@.len() && u16_from_be(
                old(reader).data@[old(reader).pos as int],
                old(reader).data@[old(reader).pos + 1],
            ) == 0) ==> r == Err::<ClassFragment, ClassError>(ClassError::StructuralError),
            (old(reader).pos + 2 <= old(reader).data@.len() && u16_from_be(
                old(reader).data@[old(reader).pos as int],
                old(reader).data@[old(reader).pos + 1],
            ) == 1) ==> (r is Ok && final(reader).pos == old(reader).pos + 2
                && r->Ok_0.constant_pool->0.entries@ == Seq::<Constant>::empty()),
            (old(reader).pos + 2 <= old(reader).data@.len() && u16_from_be(
                old(reader).data@[old(reader).pos as int],
                old(reader).data@[old(reader).pos + 1],
            ) >= 1 && pool_run_parseable(
                old(reader).data@,
                old(reader).pos + 2,
                u16_from_be(
                    old(reader).data@[old(reader).pos as int],
                    old(reader).data@[old(reader).pos + 1],
                ) - 1,
            )) ==> (r is Ok && final(reader).pos == pool_run_end(
                old(reader).data@,
                old(reader).pos + 2,
                u16_from_be(
                    old(reader).data@[old(reader).pos as int],
                    old(reader).data@[old(reader).pos + 1],
                ) - 1,
            )),
    {
        let count = reader.read_u16()?;
        if count == 0 {
            return Err(ClassError::StructuralError);
        }
        let ghost start = reader.pos as int;
        let mut entries: Vec<Constant> = Vec::new();
        while entries.len() + 1 < count as usize
            invariant
                reader.data == old(reader).data,
                count >= 1,
                old(reader).pos + 2 <= old(reader).data@.len(),
                count == u16_from_be(
                    old(reader).data@[old(reader).pos as int],
                    old(reader).data@[old(reader).pos + 1],
                ),
                start == old(reader).pos + 2,
                entries@.len() + 1 <= count as usize,
                count as usize <= 0xFFFF,
                start <= reader.pos <= reader.data@.len(),
                pool_entries_wf(entries@),
                forall|k: int|
                    0 <= k < entries@.len() ==> constant_writable(#[trigger] entries@[k]),
                constant_seq_bytes(entries@) == reader.data@.subrange(start, reader.pos as int),
                pool_run_parseable(old(reader).data@, start, count - 1) ==> (pool_run_parseable(
                    reader.data@,
                    reader.pos as int,
                    count - 1 - entries@.len(),
                ) && pool_run_end(reader.data@, reader.pos as int, count - 1 - entries@.len())
                    == pool_run_end(old(reader).data@, start, count - 1)),
            decreases count as usize - entries@.len(),
        {
            let ghost prev = entries@;
            let entry = Self::read_constant_entry(reader)?;
            let wide = match &entry {
                Constant::Long(_) => true,
                Constant::Double(_) => true,
                _ => false,
            };
            if wide {
                if entries.len() + 3 > count as usize {
                    return Err(ClassError::StructuralError);
                }
                entries.push(entry);
                entries.push(Constant::Unusable);
                proof {
                    lemma_constant_seq_bytes_push(entries@, entries@.len() - 1);
                    lemma_constant_seq_bytes_push(entries@, entries@.len() - 2);
                    assert(entries@.subrange(0, entries@.len() - 2) =~= prev);
                    assert(entries@.subrange(0, entries@.len() as int) =~= entries@);
                    assert(constant_seq_bytes(entries@) =~= reader.data@.subrange(
                        start,
                        reader.pos as int,
                    ));
                }
            } else {
                entries.push(entry);
                proof {
                    lemma_constant_seq_bytes_push(entries@, entries@.len() - 1);
                    assert(entries@.subrange(0, entries@.len() - 1) =~= prev);
                    assert(entries@.subrange(0, entries@.len() as int) =~= entries@);
                    assert(constant_seq_bytes(entries@) =~= reader.data@.subrange(
                        start,
                        reader.pos as int,
                    ));
                }
            }
        }
        let pool = ConstantPool { entries };
        let mut f = ClassFragment::default();
        f.constant_pool = Some(pool);
        proof {
            assert(old(reader).data@.subrange(old(reader).pos as int, reader.pos as int) =~= old(
                reader,
            ).data@.subrange(old(reader).pos as int, start) + reader.data@.subrange(
                start,
                reader.pos as int,
            ));
        }
        Ok(f)
    }

    /// One tagged pool entry: the tag byte, then its tag-specific payload.
    /// An unknown tag is a structural error; the tag set is closed.
    #[verifier::rlimit(60)]
    fn read_constant_entry(reader: &mut BlockReader) -> (r: Result<Constant, ClassError>)
        ensures
            final(reader).data == old(reader).data,
            match r {
                Ok(e) => {
                    &&& !(e is Unusable)
                    &&& constant_writable(e)
                    &&& constant_bytes(e) == old(reader).data@.subrange(
                        old(reader).pos as int,
                        final(reader).pos as int,
                    )
                    &&& old(reader).pos < final(reader).pos <= old(reader).data@.len()
                    &&& ((e is Long || e is Double) <==> (old(reader).data@[old(
                        reader,
                    ).pos as int] == 5 || old(reader).data@[old(reader).pos as int] == 6))
                },
                Err(e) => {
                    &&& (e == ClassError::TruncatedInput || e == ClassError::StructuralError)
                    &&& (e == ClassError::StructuralError <==> (old(reader).pos < old(
                        reader,
                    ).data@.len() && !known_constant_tag(
                        old(reader).data@[old(reader).pos as int],
                    )))
                },
            },
            entry_parseable(old(reader).data@, old(reader).pos as int) ==> (r is Ok
                && final(reader).pos == entry_end(old(reader).data@, old(reader).pos as int)),
    {
        let ghost p0 = reader.pos as int;
        let tag = reader.read_u8()?;
        match tag {
            1u8 => {
                let len = reader.read_u16()?;
                let text = reader.read_bytes(len as usize)?;
                let e = Constant::Utf8(text);
                proof {
                    assert(constant_bytes(e) =~= reader.data@.subrange(p0, reader.pos as int));
                }
                Ok(e)
            },
            3u8 => {
                let x = reader.read_u32()?;
                let e = Constant::Integer(x);
                proof {
                    assert(constant_bytes(e) =~= reader.data@.subrange(p0, reader.pos as int));
                }
                Ok(e)
            },
            4u8 => {
                let x = reader.read_u32()?;
                let e = Constant::Float(x);
                proof {
                    assert(constant_bytes(e) =~= reader.data@.subrange(p0, reader.pos as int));
                }
                Ok(e)
            },
            5u8 => {
                let x = reader.read_u64()?;
                let e = Constant::Long(x);
                proof {
                    assert(constant_bytes(e) =~= reader.data@.subrange(p0, reader.pos as int));
                }
                Ok(e)
            },
            6u8 => {
                let x = reader.read_u64()?;
                let e = Constant::Double(x);
                proof {
                    assert(constant_bytes(e) =~= reader.data@.subrange(p0, reader.pos as int));
                }
                Ok(e)
            },
            7u8 => {
                let i = reader.read_u16()?;
                let e = Constant::Class(i);
                proof {
                    assert(constant_bytes(e) =~= reader.data@.subrange(p0, reader.pos as int));
                }
                Ok(e)
            },
            8u8 => {
                let i = reader.read_u16()?;
                let e = Constant::StringRef(i);
                proof {
                    assert(constant_bytes(e) =~= reader.data@.subrange(p0, reader.pos as int));
                }
                Ok(e)
            },
            9u8 => {
                let class_index = reader.read_u16()?;
                let name_and_type = reader.read_u16()?;
                let e = Constant::Fieldref(class_index, name_and_type);
                proof {
                    assert(constant_bytes(e) =~= reader.data@.subrange(p0, reader.pos as int));
                }
                Ok(e)
            },
            10u8 => {
                let class_index = reader.read_u16()?;
                let name_and_type = reader.read_u16()?;
                let e = Constant::Methodref(class_index, name_and_type);
                proof {
                    assert(constant_bytes(e) =~= reader.data@.subrange(p0, reader.pos as int));
                }
                Ok(e)
            },
            11u8 => {
                let class_index = reader.read_u16()?;
                let name_and_type = reader.read_u16()?;
                let e = Constant::InterfaceMethodref(class_index, name_and_type);
                proof {
                    assert(constant_bytes(e) =~= reader.data@.subrange(p0, reader.pos as int));
                }
                Ok(e)
            },
            12u8 => {
                let name = reader.read_u16()?;
                let descriptor = reader.read_u16()?;
                let e = Constant::NameAndType(name, descriptor);
                proof {
                    assert(constant_bytes(e) =~= reader.data@.subrange(p0, reader.pos as int));
                }
                Ok(e)
            },
            15u8 => {
                let kind = reader.read_u8()?;
                let i = reader.read_u16()?;
                let e = Constant::MethodHandle(kind, i);
                proof {
                    assert(constant_bytes(e) =~= reader.data@.subrange(p0, reader.pos as int));
                }
                Ok(e)
            },
            16u8 => {
                let descriptor = reader.read_u16()?;
                let e = Constant::MethodType(descriptor);
                proof {
                    assert(constant_bytes(e) =~= reader.data@.subrange(p0, reader.pos as int));
                }
                Ok(e)
            },
            18u8 => {
                let bootstrap_method = reader.read_u16()?;
                let name_and_type = reader.read_u16()?;
                let e = Constant::InvokeDynamic(bootstrap_method, name_and_type);
                proof {
                    assert(constant_bytes(e) =~= reader.data@.subrange(p0, reader.pos as int));
                }
                Ok(e)
            },
            _ => Err(ClassError::StructuralError),
        }
    }
}

/// Compare an attribute name against the name of the `Code` shape.
fn is_code_name(text: &Vec<u8>) -> (r: bool)
    ensures
        r <==> text@ == code_attr_name(),
{
    if text.len() == 4 {
        let r = text[0] == 67 && text[1] == 111 && text[2] == 100 && text[3] == 101;
        proof {
            if r {
                assert(text@ =~= code_attr_name());
            }
        }
        r
    } else {
        false
    }
}

/// Compare an attribute name against the name of the `ConstantValue` shape.
fn is_constant_value_name(text: &Vec<u8>) -> (r: bool)
    ensures
        r <==> text@ == constant_value_attr_name(),
{
    if text.len() == 13 {
        let r = text[0] == 67 && text[1] == 111 && text[2] == 110 && text[3] == 115 && text[4]
            == 116 && text[5] == 97 && text[6] == 110 && text[7] == 116 && text[8] == 86 && text[9]
            == 97 && text[10] == 108 && text[11] == 117 && text[12] == 101;
        proof {
            if r {
                assert(text@ =~= constant_value_attr_name());
            }
        }
        r
    } else {
        false
    }
}

impl ClassReader {
    /// One attribute: a 16-bit name index, a 32-bit byte length, then
    /// exactly that many payload bytes. The name must resolve to a `Utf8`
    /// pool entry naming a recognized shape to be decoded structurally;
    /// otherwise the payload is kept as an opaque blob. A recognized shape
    /// whose content does not span exactly the declared length is a
    /// structural error; a declared length past the end of the input is a
    /// truncation error.
    #[verifier::rlimit(100)]
    pub fn read_attribute(reader: &mut BlockReader, pool: &ConstantPool) -> (r: Result<
        Attribute,
        ClassError,
    >)
        ensures
            final(reader).data == old(reader).data,
            match r {
                Ok(a) => {
                    &&& attr_bytes(a) == old(reader).data@.subrange(
                        old(reader).pos as int,
                        final(reader).pos as int,
                    )
                    &&& attr_writable(a)
                    &&& old(reader).pos + 6 <= final(reader).pos <= old(reader).data@.len()
                    &&& (a is Code ==> pool_utf8(*pool, attr_name_index(a)) == Some(
                        code_attr_name(),
                    ))
                    &&& (a is ConstantValue ==> pool_utf8(*pool, attr_name_index(a)) == Some(
                        constant_value_attr_name(),
                    ))
                    &&& (a is Opaque ==> pool_utf8(*pool, attr_name_index(a)) != Some(
                        code_attr_name(),
                    ) && pool_utf8(*pool, attr_name_index(a)) != Some(constant_value_attr_name()))
                },
                Err(e) => e == ClassError::TruncatedInput || e == ClassError::StructuralError,
            },
            opaque_attr_parseable(*pool, old(reader).data@, old(reader).pos as int) ==> (r is Ok
                && final(reader).pos == attr_end(old(reader).data@, old(reader).pos as int)),
            (old(reader).pos + 8 <= old(reader).data@.len() && pool_utf8(
                *pool,
                u16_from_be(
                    old(reader).data@[old(reader).pos as int],
                    old(reader).data@[old(reader).pos + 1],
                ),
            ) == Some(constant_value_attr_name()) && u32_from_be(
                old(reader).data@[old(reader).pos + 2],
                old(reader).data@[old(reader).pos + 3],
                old(reader).data@[old(reader).pos + 4],
                old(reader).data@[old(reader).pos + 5],
            ) == 2) ==> (r is Ok && final(reader).pos == old(reader).pos + 8),
            (old(reader).pos + 6 <= old(reader).data@.len() && old(reader).pos + 6 + u32_from_be(
                old(reader).data@[old(reader).pos + 2],
                old(reader).data@[old(reader).pos + 3],
                old(reader).data@[old(reader).pos + 4],
                old(reader).data@[old(reader).pos + 5],
            ) > old(reader).data@.len()) ==> r == Err::<Attribute, ClassError>(
                ClassError::TruncatedInput,
            ),
            (old(reader).pos + 8 <= old(reader).data@.len() && attr_end(
                old(reader).data@,
                old(reader).pos as int,
            ) <= old(reader).data@.len() && pool_utf8(
                *pool,
                u16_from_be(
                    old(reader).data@[old(reader).pos as int],
                    old(reader).data@[old(reader).pos + 1],
                ),
            ) == Some(constant_value_attr_name()) && u32_from_be(
                old(reader).data@[old(reader).pos + 2],
                old(reader).data@[old(reader).pos + 3],
                old(reader).data@[old(reader).pos + 4],
                old(reader).data@[old(reader).pos + 5],
            ) != 2) ==> r == Err::<Attribute, ClassError>(ClassError::StructuralError),
        decreases reader.data@.len() - reader.pos, 0nat,
    {
        let ghost p0 = reader.pos as int;
        let name_index = reader.read_u16()?;
        let length = reader.read_u32()?;
        if (reader.data.len() - reader.pos) < length as usize {
            return Err(ClassError::TruncatedInput);
        }
        let mut is_code = false;
        let mut is_constant_value = false;
        match pool.get(name_index) {
            Some(Constant::Utf8(text)) => {
                is_code = is_code_name(text);
                is_constant_value = is_constant_value_name(text);
            },
            _ => {},
        }
        proof {
            assert(is_code <==> pool_utf8(*pool, name_index) == Some(code_attr_name()));
            assert(is_constant_value <==> pool_utf8(*pool, name_index) == Some(
                constant_value_attr_name(),
            ));
        }
        if is_code {
            let payload_start: usize = reader.pos;
            let max_stack = reader.read_u16()?;
            let max_locals = reader.read_u16()?;
            let code_length = reader.read_u32()?;
            let code = reader.read_bytes(code_length as usize)?;
            let ghost pe = reader.pos as int;
            let handler_count = reader.read_u16()?;
            let mut exception_table: Vec<ExceptionHandler> = Vec::new();
            let mut i: usize = 0;
            while i < handler_count as usize
                invariant
                    i <= handler_count as usize,
                    reader.data == old(reader).data,
                    exception_table@.len() == i,
                    pool_utf8(
                        *pool,
                        u16_from_be(
                            old(reader).data@[old(reader).pos as int],
                            old(reader).data@[old(reader).pos + 1],
                        ),
                    ) == Some(code_attr_name()),
                    0 <= pe,
                    pe + 2 <= reader.pos <= reader.data@.len(),
                    handler_seq_bytes(exception_table@) == reader.data@.subrange(
                        pe + 2,
                        reader.pos as int,
                    ),
                decreases handler_count as usize - i,
            {
                let ghost prev = exception_table@;
                let ghost hp = reader.pos as int;
                let start_pc = reader.read_u16()?;
                let end_pc = reader.read_u16()?;
                let handler_pc = reader.read_u16()?;
                let catch_type = reader.read_u16()?;
                let h = ExceptionHandler { start_pc, end_pc, handler_pc, catch_type };
                exception_table.push(h);
                i = i + 1;
                proof {
                    assert(handler_bytes(h) =~= reader.data@.subrange(hp, reader.pos as int));
                    lemma_handler_seq_bytes_push(exception_table@, exception_table@.len() - 1);
                    assert(exception_table@.subrange(0, exception_table@.len() - 1) =~= prev);
                    assert(exception_table@.subrange(0, exception_table@.len() as int)
                        =~= exception_table@);
                    assert(exception_table@[exception_table@.len() - 1] == h);
                    assert(handler_seq_bytes(exception_table@) == handler_seq_bytes(prev)
                        + handler_bytes(h));
                    assert(handler_seq_bytes(prev) == reader.data@.subrange(pe + 2, hp));
                    assert(reader.data@.subrange(pe + 2, hp) + reader.data@.subrange(
                        hp,
                        reader.pos as int,
                    ) =~= reader.data@.subrange(pe + 2, reader.pos as int));
                    assert(handler_seq_bytes(exception_table@) =~= reader.data@.subrange(
                        pe + 2,
                        reader.pos as int,
                    ));
                }
            }
            let ghost pa = reader.pos as int;
            let nested_count = reader.read_u16()?;
            let attributes = Self::read_attribute_list(reader, pool, nested_count)?;
            if reader.pos - payload_start != length as usize {
                return Err(ClassError::StructuralError);
            }
            let a = Attribute::Code {
                name_index,
                max_stack,
                max_locals,
                code,
                exception_table,
                attributes,
            };
            proof {
                assert(attr_payload_bytes(a) =~= reader.data@.subrange(
                    payload_start as int,
                    reader.pos as int,
                ));
                assert(attr_payload_bytes(a).len() == length as usize);
                assert(attr_bytes(a) =~= reader.data@.subrange(p0, reader.pos as int));
            }
            Ok(a)
        } else if is_constant_value {
            let payload_start: usize = reader.pos;
            let constant_index = reader.read_u16()?;
            if reader.pos - payload_start != length as usize {
                return Err(ClassError::StructuralError);
            }
            let a = Attribute::ConstantValue { name_index, constant_index };
            proof {
                assert(attr_payload_bytes(a).len() == length as usize);
                assert(attr_bytes(a) =~= reader.data@.subrange(p0, reader.pos as int));
            }
            Ok(a)
        } else {
            let data = reader.read_bytes(length as usize)?;
            let a = Attribute::Opaque { name_index, data };
            proof {
                assert(attr_payload_bytes(a).len() == length as usize);
                assert(attr_bytes(a) =~= reader.data@.subrange(p0, reader.pos as int));
            }
            Ok(a)
        }
    }

    /// A run of `count` attributes, as it follows an attribute count field.
    fn read_attribute_list(reader: &mut BlockReader, pool: &ConstantPool, count: u16) -> (r: Result<
        Vec<Attribute>,
        ClassError,
    >)
        requires
            old(reader).pos <= old(reader).data@.len(),
        ensures
            final(reader).data == old(reader).data,
            count == 0 ==> (r is Ok && final(reader).pos == old(reader).pos),
            match r {
                Ok(v) => {
                    &&& v@.len() == count
                    &&& attr_seq_bytes(v@) == old(reader).data@.subrange(
                        old(reader).pos as int,
                        final(reader).pos as int,
                    )
                    &&& attr_seq_writable(v@)
                    &&& old(reader).pos <= final(reader).pos <= old(reader).data@.len()
                },
                Err(e) => e == ClassError::TruncatedInput || e == ClassError::StructuralError,
            },
            attr_run_parseable(*pool, old(reader).data@, old(reader).pos as int, count as int)
                ==> (r is Ok && final(reader).pos == attr_run_end(
                old(reader).data@,
                old(reader).pos as int,
                count as int,
            )),
        decreases reader.data@.len() - reader.pos, 1nat,
    {
        let mut v: Vec<Attribute> = Vec::new();
        let mut i: usize = 0;
        while i < count as usize
            invariant
                i <= count as usize,
                reader.data == old(reader).data,
                v@.len() == i,
                old(reader).pos <= reader.pos <= reader.data@.len(),
                old(reader).pos <= reader.data@.len(),
                attr_seq_writable(v@),
                attr_seq_bytes(v@) == reader.data@.subrange(
                    old(reader).pos as int,
                    reader.pos as int,
                ),
                attr_run_parseable(
                    *pool,
                    old(reader).data@,
                    old(reader).pos as int,
                    count as int,
                ) ==> (attr_run_parseable(
                    *pool,
                    reader.data@,
                    reader.pos as int,
                    count - i,
                ) && attr_run_end(reader.data@, reader.pos as int, count - i) == attr_run_end(
                    old(reader).data@,
                    old(reader).pos as int,
                    count as int,
                )),
            decreases count as usize - i,
        {
            let ghost prev = v@;
            let a = Self::read_attribute(reader, pool)?;
            v.push(a);
            i = i + 1;
            proof {
                lemma_attr_seq_bytes_push(v@, v@.len() - 1);
                assert(v@.subrange(0, v@.len() - 1) =~= prev);
                assert(v@.subrange(0, v@.len() as int) =~= v@);
                assert(attr_seq_bytes(v@) =~= reader.data@.subrange(
                    old(reader).pos as int,
                    reader.pos as int,
                ));
            }
        }
        Ok(v)
    }
}

impl ClassReader {
    /// Stage: the access-flags bitset and the two class references
    /// (this-class index, then super-class index).
    pub fn read_class_info(reader: &mut BlockReader, fragment: &ClassFragment) -> (r: Result<
        ClassFragment,
        ClassError,
    >)
        ensures
            final(reader).data == old(reader).data,
            r is Ok <==> old(reader).pos + 6 <= old(reader).data@.len(),
            match r {
                Ok(f) => {
                    &&& final(reader).pos == old(reader).pos + 6
                    &&& f.access_flags is Some
                    &&& f.this_class is Some
                    &&& f.super_class is Some
                    &&& u16_be(f.access_flags->0) + u16_be(f.this_class->0) + u16_be(
                        f.super_class->0,
                    ) == old(reader).data@.subrange(old(reader).pos as int, old(reader).pos + 6)
                    &&& f.version is None
                    &&& f.constant_pool is None
                    &&& f.interfaces is None
                    &&& f.fields is None
                    &&& f.methods is None
                    &&& f.attributes is None
                },
                Err(e) => e == ClassError::TruncatedInput,
            },
    {
        let access_flags = reader.read_u16()?;
        let this_class = reader.read_u16()?;
        let super_class = reader.read_u16()?;
        let mut f = ClassFragment::default();
        f.access_flags = Some(access_flags);
        f.this_class = Some(this_class);
        f.super_class = Some(super_class);
        proof {
            assert(u16_be(access_flags) + u16_be(this_class) + u16_be(super_class) =~= old(
                reader,
            ).data@.subrange(old(reader).pos as int, old(reader).pos + 6));
        }
        Ok(f)
    }

    /// Stage: the interface count, then that many 2-byte pool indices.
    pub fn read_interfaces(reader: &mut BlockReader, fragment: &ClassFragment) -> (r: Result<
        ClassFragment,
        ClassError,
    >)
        ensures
            final(reader).data == old(reader).data,
            r is Ok <==> (old(reader).pos + 2 <= old(reader).data@.len() && old(reader).pos + 2 + 2
                * u16_from_be(
                old(reader).data@[old(reader).pos as int],
                old(reader).data@[old(reader).pos + 1],
            ) <= old(reader).data@.len()),
            match r {
                Ok(f) => {
                    &&& f.interfaces is Some
                    &&& f.interfaces->0@.len() <= 0xFFFF
                    &&& f.interfaces->0@.len() == u16_from_be(
                        old(reader).data@[old(reader).pos as int],
                        old(reader).data@[old(reader).pos + 1],
                    )
                    &&& u16_be(f.interfaces->0@.len() as u16) + u16_seq_bytes(f.interfaces->0@)
                        == old(reader).data@.subrange(
                        old(reader).pos as int,
                        final(reader).pos as int,
                    )
                    &&& final(reader).pos == old(reader).pos + 2 + 2 * f.interfaces->0@.len()
                    &&& f.version is None
                    &&& f.constant_pool is None
                    &&& f.access_flags is None
                    &&& f.this_class is None
                    &&& f.super_class is None
                    &&& f.fields is None
                    &&& f.methods is None
                    &&& f.attributes is None
                },
                Err(e) => e == ClassError::TruncatedInput,
            },
    {
        let count = reader.read_u16()?;
        let ghost start = reader.pos as int;
        let mut interfaces: Vec<u16> = Vec::new();
        let mut i: usize = 0;
        while i < count as usize
            invariant
                i <= count as usize,
                reader.data == old(reader).data,
                interfaces@.len() == i,
                0 <= start,
                start == old(reader).pos + 2,
                count == u16_from_be(
                    old(reader).data@[old(reader).pos as int],
                    old(reader).data@[old(reader).pos + 1],
                ),
                start <= reader.pos <= reader.data@.len(),
                reader.pos == start + 2 * i,
                u16_seq_bytes(interfaces@) == reader.data@.subrange(start, reader.pos as int),
            decreases count as usize - i,
        {
            let ghost prev = interfaces@;
            let ghost hp = reader.pos as int;
            let idx = reader.read_u16()?;
            interfaces.push(idx);
            i = i + 1;
            proof {
                lemma_u16_seq_bytes_push(interfaces@, interfaces@.len() - 1);
                assert(interfaces@.subrange(0, interfaces@.len() - 1) =~= prev);
                assert(interfaces@.subrange(0, interfaces@.len() as int) =~= interfaces@);
                assert(u16_seq_bytes(interfaces@) =~= reader.data@.subrange(
                    start,
                    reader.pos as int,
                ));
            }
        }
        let mut f = ClassFragment::default();
        f.interfaces = Some(interfaces);
        proof {
            assert(old(reader).data@.subrange(old(reader).pos as int, reader.pos as int) =~= old(
                reader,
            ).data@.subrange(old(reader).pos as int, start) + reader.data@.subrange(
                start,
                reader.pos as int,
            ));
        }
        Ok(f)
    }

    /// One field or method record: flags, name index, descriptor index, then
    /// the record's attributes behind their count.
    fn read_member(reader: &mut BlockReader, pool: &ConstantPool) -> (r: Result<
        Member,
        ClassError,
    >)
        ensures
            final(reader).data == old(reader).data,
            match r {
                Ok(m) => {
                    &&& member_bytes(m) == old(reader).data@.subrange(
                        old(reader).pos as int,
                        final(reader).pos as int,
                    )
                    &&& member_writable(m)
                    &&& old(reader).pos + 8 <= final(reader).pos <= old(reader).data@.len()
                },
                Err(e) => e == ClassError::TruncatedInput || e == ClassError::StructuralError,
            },
            member_parseable(*pool, old(reader).data@, old(reader).pos as int) ==> (r is Ok
                && final(reader).pos == member_end(old(reader).data@, old(reader).pos as int)),
    {
        let ghost p0 = reader.pos as int;
        let access_flags = reader.read_u16()?;
        let name_index = reader.read_u16()?;
        let descriptor_index = reader.read_u16()?;
        let count = reader.read_u16()?;
        let attributes = Self::read_attribute_list(reader, pool, count)?;
        let m = Member { access_flags, name_index, descriptor_index, attributes };
        proof {
            assert(member_bytes(m) =~= reader.data@.subrange(p0, reader.pos as int));
        }
        Ok(m)
    }

    /// A run of `count` field or method records.
    fn read_member_list(reader: &mut BlockReader, pool: &ConstantPool, count: u16) -> (r: Result<
        Vec<Member>,
        ClassError,
    >)
        requires
            old(reader).pos <= old(reader).data@.len(),
        ensures
            final(reader).data == old(reader).data,
            count == 0 ==> (r is Ok && final(reader).pos == old(reader).pos),
            match r {
                Ok(v) => {
                    &&& v@.len() == count
                    &&& member_seq_bytes(v@) == old(reader).data@.subrange(
                        old(reader).pos as int,
                        final(reader).pos as int,
                    )
                    &&& member_seq_writable(v@)
                    &&& old(reader).pos <= final(reader).pos <= old(reader).data@.len()
                },
                Err(e) => e == ClassError::TruncatedInput || e == ClassError::StructuralError,
            },
            member_run_parseable(*pool, old(reader).data@, old(reader).pos as int, count as int)
                ==> (r is Ok && final(reader).pos == member_run_end(
                old(reader).data@,
                old(reader).pos as int,
                count as int,
            )),
    {
        let mut v: Vec<Member> = Vec::new();
        let mut i: usize = 0;
        while i < count as usize
            invariant
                i <= count as usize,
                reader.data == old(reader).data,
                v@.len() == i,
                old(reader).pos <= reader.pos <= reader.data@.len(),
                member_seq_writable(v@),
                member_seq_bytes(v@) == reader.data@.subrange(
                    old(reader).pos as int,
                    reader.pos as int,
                ),
                member_run_parseable(
                    *pool,
                    old(reader).data@,
                    old(reader).pos as int,
                    count as int,
                ) ==> (member_run_parseable(*pool, reader.data@, reader.pos as int, count - i)
                    && member_run_end(reader.data@, reader.pos as int, count - i)
                    == member_run_end(old(reader).data@, old(reader).pos as int, count as int)),
            decreases count as usize - i,
        {
            let ghost prev = v@;
            let m = Self::read_member(reader, pool)?;
            v.push(m);
            i = i + 1;
            proof {
                lemma_member_seq_bytes_push(v@, v@.len() - 1);
                assert(v@.subrange(0, v@.len() - 1) =~= prev);
                assert(v@.subrange(0, v@.len() as int) =~= v@);
                assert(member_seq_bytes(v@) =~= reader.data@.subrange(
                    old(reader).pos as int,
                    reader.pos as int,
                ));
            }
        }
        Ok(v)
    }

    /// Stage: the field count, then that many field records. Attribute names
    /// inside the records resolve against the pool an earlier stage put in
    /// the accumulator.
    pub fn read_fields(reader: &mut BlockReader, fragment: &ClassFragment) -> (r: Result<
        ClassFragment,
        ClassError,
    >)
        ensures
            final(reader).data == old(reader).data,
            match r {
                Ok(f) => {
                    &&& f.fields is Some
                    &&& f.fields->0@.len() <= 0xFFFF
                    &&& member_seq_writable(f.fields->0@)
                    &&& u16_be(f.fields->0@.len() as u16) + member_seq_bytes(f.fields->0@) == old(
                        reader,
                    ).data@.subrange(old(reader).pos as int, final(reader).pos as int)
                    &&& old(reader).pos + 2 <= final(reader).pos <= old(reader).data@.len()
                    &&& f.version is None
                    &&& f.constant_pool is None
                    &&& f.access_flags is None
                    &&& f.this_class is None
                    &&& f.super_class is None
                    &&& f.interfaces is None
                    &&& f.methods is None
                    &&& f.attributes is None
                },
                Err(e) => e == ClassError::TruncatedInput || e == ClassError::StructuralError,
            },
            old(reader).pos + 2 > old(reader).data@.len() ==> r == Err::<
                ClassFragment,
                ClassError,
            >(ClassError::TruncatedInput),
            (old(reader).pos + 2 <= old(reader).data@.len() && u16_from_be(
                old(reader).data@[old(reader).pos as int],
                old(reader).data@[old(reader).pos + 1],
            ) == 0) ==> (r is Ok && final(reader).pos == old(reader).pos + 2),
            (fragment.constant_pool matches Some(p) && old(reader).pos + 2 <= old(
                reader,
            ).data@.len() && member_run_parseable(
                p,
                old(reader).data@,
                old(reader).pos + 2,
                u16_from_be(
                    old(reader).data@[old(reader).pos as int],
                    old(reader).data@[old(reader).pos + 1],
                ) as int,
            )) ==> (r is Ok && final(reader).pos == member_run_end(
                old(reader).data@,
                old(reader).pos + 2,
                u16_from_be(
                    old(reader).data@[old(reader).pos as int],
                    old(reader).data@[old(reader).pos + 1],
                ) as int,
            )),
    {
        let empty_pool = ConstantPool::new();
        let pool = match &fragment.constant_pool {
            Some(p) => p,
            None => &empty_pool,
        };
        let count = reader.read_u16()?;
        let ghost start = reader.pos as int;
        let members = Self::read_member_list(reader, pool, count)?;
        let mut f = ClassFragment::default();
        f.fields = Some(members);
        proof {
            assert(old(reader).data@.subrange(old(reader).pos as int, reader.pos as int) =~= old(
                reader,
            ).data@.subrange(old(reader).pos as int, start) + reader.data@.subrange(
                start,
                reader.pos as int,
            ));
        }
        Ok(f)
    }

    /// Stage: the method count, then that many method records.
    pub fn read_methods(reader: &mut BlockReader, fragment: &ClassFragment) -> (r: Result<
        ClassFragment,
        ClassError,
    >)
        ensures
            final(reader).data == old(reader).data,
            match r {
                Ok(f) => {
                    &&& f.methods is Some
                    &&& f.methods->0@.len() <= 0xFFFF
                    &&& member_seq_writable(f.methods->0@)
                    &&& u16_be(f.methods->0@.len() as u16) + member_seq_bytes(f.methods->0@)
                        == old(reader).data@.subrange(
                        old(reader).pos as int,
                        final(reader).pos as int,
                    )
                    &&& old(reader).pos + 2 <= final(reader).pos <= old(reader).data@.len()
                    &&& f.version is None
                    &&& f.constant_pool is None
                    &&& f.access_flags is None
                    &&& f.this_class is None
                    &&& f.super_class is None
                    &&& f.interfaces is None
                    &&& f.fields is None
                    &&& f.attributes is None
                },
                Err(e) => e == ClassError::TruncatedInput || e == ClassError::StructuralError,
            },
            old(reader).pos + 2 > old(reader).data@.len() ==> r == Err::<
                ClassFragment,
                ClassError,
            >(ClassError::TruncatedInput),
            (old(reader).pos + 2 <= old(reader).data@.len() && u16_from_be(
                old(reader).data@[old(reader).pos as int],
                old(reader).data@[old(reader).pos + 1],
            ) == 0) ==> (r is Ok && final(reader).pos == old(reader).pos + 2),
            (fragment.constant_pool matches Some(p) && old(reader).pos + 2 <= old(
                reader,
            ).data@.len() && member_run_parseable(
                p,
                old(reader).data@,
                old(reader).pos + 2,
                u16_from_be(
                    old(reader).data@[old(reader).pos as int],
                    old(reader).data@[old(reader).pos + 1],
                ) as int,
            )) ==> (r is Ok && final(reader).pos == member_run_end(
                old(reader).data@,
                old(reader).pos + 2,
                u16_from_be(
                    old(reader).data@[old(reader).pos as int],
                    old(reader).data@[old(reader).pos + 1],
                ) as int,
            )),
    {
        let empty_pool = ConstantPool::new();
        let pool = match &fragment.constant_pool {
            Some(p) => p,
            None => &empty_pool,
        };
        let count = reader.read_u16()?;
        let ghost start = reader.pos as int;
        let members = Self::read_member_list(reader, pool, count)?;
        let mut f = ClassFragment::default();
        f.methods = Some(members);
        proof {
            assert(old(reader).data@.subrange(old(reader).pos as int, reader.pos as int) =~= old(
                reader,
            ).data@.subrange(old(reader).pos as int, start) + reader.data@.subrange(
                start,
                reader.pos as int,
            ));
        }
        Ok(f)
    }

    /// Stage: the top-level attribute count, then that many attributes.
    pub fn read_attributes(reader: &mut BlockReader, fragment: &ClassFragment) -> (r: Result<
        ClassFragment,
        ClassError,
    >)
        ensures
            final(reader).data == old(reader).data,
            match r {
                Ok(f) => {
                    &&& f.attributes is Some
                    &&& f.attributes->0@.len() <= 0xFFFF
                    &&& attr_seq_writable(f.attributes->0@)
                    &&& u16_be(f.attributes->0@.len() as u16) + attr_seq_bytes(f.attributes->0@)
                        == old(reader).data@.subrange(
                        old(reader).pos as int,
                        final(reader).pos as int,
                    )
                    &&& old(reader).pos + 2 <= final(reader).pos <= old(reader).data@.len()
                    &&& f.version is None
                    &&& f.constant_pool is None
                    &&& f.access_flags is None
                    &&& f.this_class is None
                    &&& f.super_class is None
                    &&& f.interfaces is None
                    &&& f.fields is None
                    &&& f.methods is None
                },
                Err(e) => e == ClassError::TruncatedInput || e == ClassError::StructuralError,
            },
            old(reader).pos + 2 > old(reader).data@.len() ==> r == Err::<
                ClassFragment,
                ClassError,
            >(ClassError::TruncatedInput),
            (old(reader).pos + 2 <= old(reader).data@.len() && u16_from_be(
                old(reader).data@[old(reader).pos as int],
                old(reader).data@[old(reader).pos + 1],
            ) == 0) ==> (r is Ok && final(reader).pos == old(reader).pos + 2),
            (fragment.constant_pool matches Some(p) && old(reader).pos + 2 <= old(
                reader,
            ).data@.len() && attr_run_parseable(
                p,
                old(reader).data@,
                old(reader).pos + 2,
                u16_from_be(
                    old(reader).data@[old(reader).pos as int],
                    old(reader).data@[old(reader).pos + 1],
                ) as int,
            )) ==> r is Ok,
    {
        let empty_pool = ConstantPool::new();
        let pool = match &fragment.constant_pool {
            Some(p) => p,
            None => &empty_pool,
        };
        let count = reader.read_u16()?;
        let ghost start = reader.pos as int;
        let attributes = Self::read_attribute_list(reader, pool, count)?;
        let mut f = ClassFragment::default();
        f.attributes = Some(attributes);
        proof {
            assert(old(reader).data@.subrange(old(reader).pos as int, reader.pos as int) =~= old(
                reader,
            ).data@.subrange(old(reader).pos as int, start) + reader.data@.subrange(
                start,
                reader.pos as int,
            ));
        }
        Ok(f)
    }

    /// Decode a whole class byte sequence. The stages run in stream order,
    /// each merging its partial result into the accumulator; the first stage
    /// to fail aborts the parse with its error and no model is produced. On
    /// success the returned model re-encodes to exactly the prefix of the
    /// input that was consumed.
    #[verifier::rlimit(100)]
    pub fn read_class(data: Vec<u8>) -> (r: Result<Classfile, ClassError>)
        ensures
            match r {
                Ok(c) => {
                    &&& class_writable(c)
                    &&& pool_entries_wf(c.constant_pool.entries@)
                    &&& class_bytes(c).len() <= data@.len()
                    &&& class_bytes(c) == data@.subrange(0, class_bytes(c).len() as int)
                },
                Err(e) => e == ClassError::TruncatedInput || e == ClassError::StructuralError,
            },
            data@.len() < 4 ==> r == Err::<Classfile, ClassError>(ClassError::TruncatedInput),
            (data@.len() >= 4 && data@.subrange(0, 4) != magic_bytes()) ==> r == Err::<
                Classfile,
                ClassError,
            >(ClassError::StructuralError),
            (data@.len() >= 4 && data@.subrange(0, 4) == magic_bytes() && data@.len() < 8) ==> r
                == Err::<Classfile, ClassError>(ClassError::TruncatedInput),
            (data@.len() >= 24 && data@.subrange(0, 4) == magic_bytes() && u16_from_be(
                data@[8],
                data@[9],
            ) == 1 && u16_from_be(data@[16], data@[17]) == 0 && u16_from_be(data@[18], data@[19])
                == 0 && u16_from_be(data@[20], data@[21]) == 0 && u16_from_be(
                data@[22],
                data@[23],
            ) == 0) ==> r is Ok,
            (class_head_parseable(data@) && (forall|p: ConstantPool|
                #[trigger] pool_matches(data@, p) ==> class_tail_parseable(data@, p))) ==> r is Ok,
    {
        let mut reader = BlockReader::new(data);
        let mut fragment = ClassFragment::default();

        let f = Self::read_magic_bytes(&mut reader, &fragment)?;
        fragment = fragment.merge(f);
        let ghost p1 = reader.pos as int;

        let f = Self::read_classfile_version(&mut reader, &fragment)?;
        let ghost f2 = f;
        fragment = fragment.merge(f);
        let ghost p2 = reader.pos as int;

        let f = Self::read_constant_pool(&mut reader, &fragment)?;
        let ghost f3 = f;
        fragment = fragment.merge(f);
        let ghost p3 = reader.pos as int;
        proof {
            if class_head_parseable(data@) && (forall|p: ConstantPool|
                #[trigger] pool_matches(data@, p) ==> class_tail_parseable(data@, p)) {
                assert(p3 == class_pool_end(data@));
                assert(pool_matches(data@, f3.constant_pool->0));
                assert(class_tail_parseable(data@, f3.constant_pool->0));
            }
        }

        let f = Self::read_class_info(&mut reader, &fragment)?;
        let ghost f4 = f;
        fragment = fragment.merge(f);
        let ghost p4 = reader.pos as int;

        let f = Self::read_interfaces(&mut reader, &fragment)?;
        let ghost f5 = f;
        fragment = fragment.merge(f);
        let ghost p5 = reader.pos as int;

        let f = Self::read_fields(&mut reader, &fragment)?;
        let ghost f6 = f;
        fragment = fragment.merge(f);
        let ghost p6 = reader.pos as int;

        let f = Self::read_methods(&mut reader, &fragment)?;
        let ghost f7 = f;
        fragment = fragment.merge(f);
        let ghost p7 = reader.pos as int;

        let f = Self::read_attributes(&mut reader, &fragment)?;
        let ghost f8 = f;
        fragment = fragment.merge(f);
        let ghost p8 = reader.pos as int;

        let class = fragment.to_class();
        proof {
            assert(fragment.version == f2.version);
            assert(fragment.constant_pool == f3.constant_pool);
            assert(fragment.access_flags == f4.access_flags);
            assert(fragment.this_class == f4.this_class);
            assert(fragment.super_class == f4.super_class);
            assert(fragment.interfaces == f5.interfaces);
            assert(fragment.fields == f6.fields);
            assert(fragment.methods == f7.methods);
            assert(fragment.attributes == f8.attributes);
            assert(magic_bytes() == data@.subrange(0, p1));
            assert(version_bytes(class.version) == data@.subrange(p1, p2));
            assert(pool_bytes(class.constant_pool) == data@.subrange(p2, p3));
            assert(u16_be(class.access_flags) + u16_be(class.this_class) + u16_be(
                class.super_class,
            ) == data@.subrange(p3, p4));
            assert(u16_be(class.interfaces@.len() as u16) + u16_seq_bytes(class.interfaces@)
                == data@.subrange(p4, p5));
            assert(u16_be(class.fields@.len() as u16) + member_seq_bytes(class.fields@)
                == data@.subrange(p5, p6));
            assert(u16_be(class.methods@.len() as u16) + member_seq_bytes(class.methods@)
                == data@.subrange(p6, p7));
            assert(u16_be(class.attributes@.len() as u16) + attr_seq_bytes(class.attributes@)
                == data@.subrange(p7, p8));
            assert(0 <= p1 <= p2 <= p3 <= p4 <= p5 <= p6 <= p7 <= p8 <= data@.len());
            let c2 = magic_bytes() + version_bytes(class.version);
            let c3 = c2 + pool_bytes(class.constant_pool);
            let c6 = c3 + u16_be(class.access_flags) + u16_be(class.this_class) + u16_be(
                class.super_class,
            );
            let c8 = c6 + u16_be(class.interfaces@.len() as u16) + u16_seq_bytes(
                class.interfaces@,
            );
            let c10 = c8 + u16_be(class.fields@.len() as u16) + member_seq_bytes(class.fields@);
            let c12 = c10 + u16_be(class.methods@.len() as u16) + member_seq_bytes(class.methods@);
            let c14 = c12 + u16_be(class.attributes@.len() as u16) + attr_seq_bytes(
                class.attributes@,
            );
            assert(c2 =~= data@.subrange(0, p2));
            assert(c3 =~= data@.subrange(0, p3));
            assert(c6 =~= c3 + (u16_be(class.access_flags) + u16_be(class.this_class) + u16_be(
                class.super_class,
            )));
            assert(c6 =~= data@.subrange(0, p4));
            assert(c8 =~= c6 + (u16_be(class.interfaces@.len() as u16) + u16_seq_bytes(
                class.interfaces@,
            )));
            assert(c8 =~= data@.subrange(0, p5));
            assert(c10 =~= c8 + (u16_be(class.fields@.len() as u16) + member_seq_bytes(
                class.fields@,
            )));
            assert(c10 =~= data@.subrange(0, p6));
            assert(c12 =~= c10 + (u16_be(class.methods@.len() as u16) + member_seq_bytes(
                class.methods@,
            )));
            assert(c12 =~= data@.subrange(0, p7));
            assert(c14 =~= c12 + (u16_be(class.attributes@.len() as u16) + attr_seq_bytes(
                class.attributes@,
            )));
            assert(c14 =~= data@.subrange(0, p8));
            assert(class_bytes(class) == c14);
            assert(class_bytes(class) == data@.subrange(0, p8));
            assert(data@.subrange(0, p8).len() == p8);
            assert(class_bytes(class) == data@.subrange(0, class_bytes(class).len() as int));
        }
        Ok(class)
    }
}

/// Whether no stage has filled any field of the fragment.
pub open spec fn fragment_is_empty(f: ClassFragment) -> bool {
    &&& f.version is None
    &&& f.constant_pool is None
    &&& f.access_flags is None
    &&& f.this_class is None
    &&& f.super_class is None
    &&& f.interfaces is None
    &&& f.fields is None
    &&& f.methods is None
    &&& f.attributes is None
}

/// Accumulates the partial results of the parse stages; each stage fills the
/// fields it parsed and a later merge lets filled fields override earlier
/// ones. Discarded once the final class model is built.
pub struct ClassFragment {
    pub version: Option<ClassfileVersion>,
    pub constant_pool: Option<ConstantPool>,
    pub access_flags: Option<u16>,
    pub this_class: Option<u16>,
    pub super_class: Option<u16>,
    pub interfaces: Option<Vec<u16>>,
    pub fields: Option<Vec<Member>>,
    pub methods: Option<Vec<Member>>,
    pub attributes: Option<Vec<Attribute>>,
}

impl ClassFragment {
    /// Combine two fragments: a field the other fragment filled overrides
    /// this fragment's value, an empty one keeps it.
    pub fn merge(self, other: ClassFragment) -> (r: ClassFragment)
        ensures
            r.version == (if other.version is Some {
                other.version
            } else {
                self.version
            }),
            r.constant_pool == (if other.constant_pool is Some {
                other.constant_pool
            } else {
                self.constant_pool
            }),
            r.access_flags == (if other.access_flags is Some {
                other.access_flags
            } else {
                self.access_flags
            }),
            r.this_class == (if other.this_class is Some {
                other.this_class
            } else {
                self.this_class
            }),
            r.super_class == (if other.super_class is Some {
                other.super_class
            } else {
                self.super_class
            }),
            r.interfaces == (if other.interfaces is Some {
                other.interfaces
            } else {
                self.interfaces
            }),
            r.fields == (if other.fields is Some {
                other.fields
            } else {
                self.fields
            }),
            r.methods == (if other.methods is Some {
                other.methods
            } else {
                self.methods
            }),
            r.attributes == (if other.attributes is Some {
                other.attributes
            } else {
                self.attributes
            }),
    {
        ClassFragment {
            version: match other.version {
                Some(v) => Some(v),
                None => self.version,
            },
            constant_pool: match other.constant_pool {
                Some(v) => Some(v),
                None => self.constant_pool,
            },
            access_flags: match other.access_flags {
                Some(v) => Some(v),
                None => self.access_flags,
            },
            this_class: match other.this_class {
                Some(v) => Some(v),
                None => self.this_class,
            },
            super_class: match other.super_class {
                Some(v) => Some(v),
                None => self.super_class,
            },
            interfaces: match other.interfaces {
                Some(v) => Some(v),
                None => self.interfaces,
            },
            fields: match other.fields {
                Some(v) => Some(v),
                None => self.fields,
            },
            methods: match other.methods {
                Some(v) => Some(v),
                None => self.methods,
            },
            attributes: match other.attributes {
                Some(v) => Some(v),
                None => self.attributes,
            },
        }
    }

    /// Turn the accumulator into the final class. Fields a stage filled are
    /// taken as they stand; the rest get their default values.
    pub fn to_class(self) -> (r: Classfile)
        ensures
            self.version is Some ==> r.version == self.version->0,
            self.version is None ==> r.version == (ClassfileVersion {
                major_version: 0,
                minor_version: 0,
            }),
            self.constant_pool is Some ==> r.constant_pool == self.constant_pool->0,
            self.constant_pool is None ==> r.constant_pool.entries@ == Seq::<Constant>::empty(),
            self.access_flags is Some ==> r.access_flags == self.access_flags->0,
            self.access_flags is None ==> r.access_flags == 0,
            self.this_class is Some ==> r.this_class == self.this_class->0,
            self.this_class is None ==> r.this_class == 0,
            self.super_class is Some ==> r.super_class == self.super_class->0,
            self.super_class is None ==> r.super_class == 0,
            self.interfaces is Some ==> r.interfaces == self.interfaces->0,
            self.interfaces is None ==> r.interfaces@ == Seq::<u16>::empty(),
            self.fields is Some ==> r.fields == self.fields->0,
            self.fields is None ==> r.fields@ == Seq::<Member>::empty(),
            self.methods is Some ==> r.methods == self.methods->0,
            self.methods is None ==> r.methods@ == Seq::<Member>::empty(),
            self.attributes is Some ==> r.attributes == self.attributes->0,
            self.attributes is None ==> r.attributes@ == Seq::<Attribute>::empty(),
    {
        Classfile {
            version: match self.version {
                Some(v) => v,
                None => ClassfileVersion::default(),
            },
            constant_pool: match self.constant_pool {
                Some(v) => v,
                None => ConstantPool::new(),
            },
            access_flags: match self.access_flags {
                Some(v) => v,
                None => 0,
            },
            this_class: match self.this_class {
                Some(v) => v,
                None => 0,
            },
            super_class: match self.super_class {
                Some(v) => v,
                None => 0,
            },
            interfaces: match self.interfaces {
                Some(v) => v,
                None => Vec::new(),
            },
            fields: match self.fields {
                Some(v) => v,
                None => Vec::new(),
            },
            methods: match self.methods {
                Some(v) => v,
                None => Vec::new(),
            },
            attributes: match self.attributes {
                Some(v) => v,
                None => Vec::new(),
            },
        }
    }
}

impl Default for ClassFragment {
    /// The empty accumulator: no stage has filled anything yet.
    fn default() -> (r: ClassFragment)
        ensures
            r.version is None,
            r.constant_pool is None,
            r.access_flags is None,
            r.this_class is None,
            r.super_class is None,
            r.interfaces is None,
            r.fields is None,
            r.methods is None,
            r.attributes is None,
    {
        ClassFragment {
            version: None,
            constant_pool: None,
            access_flags: None,
            this_class: None,
            super_class: None,
            interfaces: None,
            fields: None,
            methods: None,
            attributes: None,
        }
    }
}

/// Emits the class model back to bytes, strictly mirroring the reader.
pub struct ClassWriter {
    pub target: Vec<u8>,
}

impl ClassWriter {
    pub fn new() -> (r: ClassWriter)
        ensures
            r.target@ == Seq::<u8>::empty(),
    {
        ClassWriter { target: Vec::new() }
    }

    pub fn write_u8(&mut self, value: u8) -> (r: Result<usize, ClassError>)
        ensures
            r == Ok::<usize, ClassError>(1usize),
            final(self).target@ == old(self).target@ + u8_be(value),
    {
        self.target.push(value);
        assert(self.target@ =~= old(self).target@ + u8_be(value));
        Ok(1)
    }

    pub fn write_u16(&mut self, value: u16) -> (r: Result<usize, ClassError>)
        ensures
            r == Ok::<usize, ClassError>(2usize),
            final(self).target@ == old(self).target@ + u16_be(value),
    {
        self.target.push((value >> 8) as u8);
        self.target.push(value as u8);
        assert(self.target@ =~= old(self).target@ + u16_be(value));
        Ok(2)
    }

    pub fn write_u32(&mut self, value: u32) -> (r: Result<usize, ClassError>)
        ensures
            r == Ok::<usize, ClassError>(4usize),
            final(self).target@ == old(self).target@ + u32_be(value),
    {
        self.target.push((value >> 24) as u8);
        self.target.push((value >> 16) as u8);
        self.target.push((value >> 8) as u8);
        self.target.push(value as u8);
        assert(self.target@ =~= old(self).target@ + u32_be(value));
        Ok(4)
    }

    pub fn write_u64(&mut self, value: u64) -> (r: Result<usize, ClassError>)
        ensures
            r == Ok::<usize, ClassError>(8usize),
            final(self).target@ == old(self).target@ + u64_be(value),
    {
        self.target.push((value >> 56) as u8);
        self.target.push((value >> 48) as u8);
        self.target.push((value >> 40) as u8);
        self.target.push((value >> 32) as u8);
        self.target.push((value >> 24) as u8);
        self.target.push((value >> 16) as u8);
        self.target.push((value >> 8) as u8);
        self.target.push(value as u8);
        assert(self.target@ =~= old(self).target@ + u64_be(value));
        Ok(8)
    }

    /// Append a block of raw bytes unchanged, as an opaque attribute's
    /// payload is re-emitted.
    fn write_bytes(&mut self, bytes: &Vec<u8>) -> (r: usize)
        ensures
            final(self).target@ == old(self).target@ + bytes@,
            r == bytes@.len(),
    {
        let mut i: usize = 0;
        while i < bytes.len()
            invariant
                i <= bytes.len(),
                self.target@ =~= old(self).target@ + bytes@.subrange(0, i as int),
            decreases bytes.len() - i,
        {
            self.target.push(bytes[i]);
            i = i + 1;
            assert(self.target@ =~= old(self).target@ + bytes@.subrange(0, i as int));
        }
        assert(bytes@.subrange(0, bytes@.len() as int) =~= bytes@);
        bytes.len()
    }

    pub fn write_magic_bytes(&mut self) -> (r: Result<usize, ClassError>)
        ensures
            r == Ok::<usize, ClassError>(4usize),
            final(self).target@ == old(self).target@ + magic_bytes(),
    {
        self.write_u32(0xCAFEBABE)
    }

    /// Emit the version: the minor number first, then the major number.
    pub fn write_classfile_version(&mut self, version: &ClassfileVersion) -> (r: Result<
        usize,
        ClassError,
    >)
        ensures
            r == Ok::<usize, ClassError>(4usize),
            final(self).target@ == old(self).target@ + version_bytes(*version),
    {
        self.write_u16(version.minor_version)?;
        self.write_u16(version.major_version)?;
        assert(self.target@ =~= old(self).target@ + version_bytes(*version));
        Ok(4)
    }

    /// One tagged pool entry; an `Unusable` shadow slot emits no bytes.
    #[verifier::rlimit(60)]
    fn write_constant_entry(&mut self, c: &Constant) -> (r: Result<usize, ClassError>)
        ensures
            r is Ok <==> constant_writable(*c),
            match r {
                Ok(n) => {
                    &&& final(self).target@ == old(self).target@ + constant_bytes(*c)
                    &&& n == constant_bytes(*c).len()
                },
                Err(e) => e == ClassError::StructuralError && final(self).target == old(
                    self,
                ).target,
            },
    {
        let start_len = self.target.len();
        match c {
            Constant::Utf8(text) => {
                if text.len() > 0xFFFF {
                    return Err(ClassError::StructuralError);
                }
                self.write_u8(1)?;
                self.write_u16(text.len() as u16)?;
                self.write_bytes(text);
                assert(self.target@ =~= old(self).target@ + constant_bytes(*c));
            },
            Constant::Integer(x) => {
                self.write_u8(3)?;
                self.write_u32(*x)?;
                assert(self.target@ =~= old(self).target@ + constant_bytes(*c));
            },
            Constant::Float(x) => {
                self.write_u8(4)?;
                self.write_u32(*x)?;
                assert(self.target@ =~= old(self).target@ + constant_bytes(*c));
            },
            Constant::Long(x) => {
                self.write_u8(5)?;
                self.write_u64(*x)?;
                assert(self.target@ =~= old(self).target@ + constant_bytes(*c));
            },
            Constant::Double(x) => {
                self.write_u8(6)?;
                self.write_u64(*x)?;
                assert(self.target@ =~= old(self).target@ + constant_bytes(*c));
            },
            Constant::Class(i) => {
                self.write_u8(7)?;
                self.write_u16(*i)?;
                assert(self.target@ =~= old(self).target@ + constant_bytes(*c));
            },
            Constant::StringRef(i) => {
                self.write_u8(8)?;
                self.write_u16(*i)?;
                assert(self.target@ =~= old(self).target@ + constant_bytes(*c));
            },
            Constant::Fieldref(class_index, name_and_type) => {
                self.write_u8(9)?;
                self.write_u16(*class_index)?;
                self.write_u16(*name_and_type)?;
                assert(self.target@ =~= old(self).target@ + constant_bytes(*c));
            },
            Constant::Methodref(class_index, name_and_type) => {
                self.write_u8(10)?;
                self.write_u16(*class_index)?;
                self.write_u16(*name_and_type)?;
                assert(self.target@ =~= old(self).target@ + constant_bytes(*c));
            },
            Constant::InterfaceMethodref(class_index, name_and_type) => {
                self.write_u8(11)?;
                self.write_u16(*class_index)?;
                self.write_u16(*name_and_type)?;
                assert(self.target@ =~= old(self).target@ + constant_bytes(*c));
            },
            Constant::NameAndType(name, descriptor) => {
                self.write_u8(12)?;
                self.write_u16(*name)?;
                self.write_u16(*descriptor)?;
                assert(self.target@ =~= old(self).target@ + constant_bytes(*c));
            },
            Constant::MethodHandle(kind, i) => {
                self.write_u8(15)?;
                self.write_u8(*kind)?;
                self.write_u16(*i)?;
                assert(self.target@ =~= old(self).target@ + constant_bytes(*c));
            },
            Constant::MethodType(descriptor) => {
                self.write_u8(16)?;
                self.write_u16(*descriptor)?;
                assert(self.target@ =~= old(self).target@ + constant_bytes(*c));
            },
            Constant::InvokeDynamic(bootstrap_method, name_and_type) => {
                self.write_u8(18)?;
                self.write_u16(*bootstrap_method)?;
                self.write_u16(*name_and_type)?;
                assert(self.target@ =~= old(self).target@ + constant_bytes(*c));
            },
            Constant::Unusable => {
                assert(self.target@ =~= old(self).target@ + constant_bytes(*c));
            },
        }
        Ok(self.target.len() - start_len)
    }

    /// Emit the pool: the count, one greater than the number of slots
    /// (re-deriving the two-slot skip of eight-byte entries), then each
    /// entry's tagged bytes.
    pub fn write_constant_pool(&mut self, cp: &ConstantPool) -> (r: Result<usize, ClassError>)
        ensures
            r is Ok <==> pool_writable(*cp),
            match r {
                Ok(n) => {
                    &&& final(self).target@ == old(self).target@ + pool_bytes(*cp)
                    &&& n == pool_bytes(*cp).len()
                },
                Err(e) => e == ClassError::StructuralError,
            },
    {
        let start_len = self.target.len();
        if cp.entries.len() >= 0xFFFF {
            return Err(ClassError::StructuralError);
        }
        let count: u16 = (cp.entries.len() + 1) as u16;
        self.write_u16(count)?;
        let mut i: usize = 0;
        while i < cp.entries.len()
            invariant
                i <= cp.entries@.len(),
                cp.entries@.len() + 1 <= 0xFFFF,
                count == (cp.entries@.len() + 1) as u16,
                self.target@ == old(self).target@ + u16_be(count) + constant_seq_bytes(
                    cp.entries@.subrange(0, i as int),
                ),
                forall|k: int|
                    0 <= k < i ==> constant_writable(#[trigger] cp.entries@[k]),
            decreases cp.entries@.len() - i,
        {
            self.write_constant_entry(&cp.entries[i])?;
            i = i + 1;
            proof {
                lemma_constant_seq_bytes_push(cp.entries@, i - 1);
                assert(self.target@ =~= old(self).target@ + u16_be(count) + constant_seq_bytes(
                    cp.entries@.subrange(0, i as int),
                ));
            }
        }
        proof {
            assert(cp.entries@.subrange(0, cp.entries@.len() as int) =~= cp.entries@);
            assert(self.target@ =~= old(self).target@ + pool_bytes(*cp));
        }
        Ok(self.target.len() - start_len)
    }

    /// One attribute: name index, recomputed payload length, payload. A
    /// count or payload length that cannot fit its fixed-width field is a
    /// structural error.
    #[verifier::rlimit(100)]
    pub fn write_attribute(&mut self, a: &Attribute) -> (r: Result<usize, ClassError>)
        ensures
            r is Ok <==> attr_writable(*a),
            match r {
                Ok(n) => {
                    &&& final(self).target@ == old(self).target@ + attr_bytes(*a)
                    &&& n == attr_bytes(*a).len()
                },
                Err(e) => e == ClassError::StructuralError && final(self).target == old(
                    self,
                ).target,
            },
        decreases *a, 1nat,
    {
        let start_len = self.target.len();
        match a {
            Attribute::ConstantValue { name_index, constant_index } => {
                self.write_u16(*name_index)?;
                self.write_u32(2)?;
                self.write_u16(*constant_index)?;
                proof {
                    assert(attr_payload_bytes(*a) == u16_be(*constant_index));
                    assert(attr_payload_bytes(*a).len() == 2);
                    assert(self.target@ =~= old(self).target@ + attr_bytes(*a));
                }
                Ok(self.target.len() - start_len)
            },
            Attribute::Opaque { name_index, data } => {
                if data.len() as u64 > 0xFFFF_FFFFu64 {
                    return Err(ClassError::StructuralError);
                }
                self.write_u16(*name_index)?;
                self.write_u32(data.len() as u32)?;
                self.write_bytes(data);
                proof {
                    assert(attr_payload_bytes(*a) == data@);
                    assert(self.target@ =~= old(self).target@ + attr_bytes(*a));
                }
                Ok(self.target.len() - start_len)
            },
            Attribute::Code {
                name_index,
                max_stack,
                max_locals,
                code,
                exception_table,
                attributes,
            } => {
                let mut sub = ClassWriter::new();
                sub.write_u16(*max_stack)?;
                sub.write_u16(*max_locals)?;
                if code.len() as u64 > 0xFFFF_FFFFu64 {
                    return Err(ClassError::StructuralError);
                }
                sub.write_u32(code.len() as u32)?;
                sub.write_bytes(code);
                if exception_table.len() > 0xFFFF {
                    return Err(ClassError::StructuralError);
                }
                sub.write_u16(exception_table.len() as u16)?;
                let ghost et_base = sub.target@;
                let mut i: usize = 0;
                while i < exception_table.len()
                    invariant
                        i <= exception_table@.len(),
                        sub.target@ == et_base + handler_seq_bytes(
                            exception_table@.subrange(0, i as int),
                        ),
                    decreases exception_table@.len() - i,
                {
                    let ghost hs = sub.target@;
                    let h = &exception_table[i];
                    sub.write_u16(h.start_pc)?;
                    sub.write_u16(h.end_pc)?;
                    sub.write_u16(h.handler_pc)?;
                    sub.write_u16(h.catch_type)?;
                    i = i + 1;
                    proof {
                        assert(sub.target@ =~= hs + handler_bytes(exception_table@[i - 1]));
                        lemma_handler_seq_bytes_push(exception_table@, i - 1);
                        assert(sub.target@ =~= et_base + handler_seq_bytes(
                            exception_table@.subrange(0, i as int),
                        ));
                    }
                }
                proof {
                    assert(exception_table@.subrange(0, exception_table@.len() as int)
                        =~= exception_table@);
                }
                if attributes.len() > 0xFFFF {
                    return Err(ClassError::StructuralError);
                }
                sub.write_u16(attributes.len() as u16)?;
                sub.write_attribute_list(attributes)?;
                proof {
                    assert(sub.target@ =~= u16_be(*max_stack) + u16_be(*max_locals) + u32_be(
                        code@.len() as u32,
                    ) + code@ + u16_be(exception_table@.len() as u16) + handler_seq_bytes(
                        exception_table@,
                    ) + u16_be(attributes@.len() as u16) + attr_seq_bytes(attributes@));
                    assert(sub.target@ == attr_payload_bytes(*a));
                }
                if sub.target.len() as u64 > 0xFFFF_FFFFu64 {
                    return Err(ClassError::StructuralError);
                }
                self.write_u16(*name_index)?;
                self.write_u32(sub.target.len() as u32)?;
                self.write_bytes(&sub.target);
                proof {
                    assert(self.target@ =~= old(self).target@ + attr_bytes(*a));
                }
                Ok(self.target.len() - start_len)
            },
        }
    }

    /// A run of attributes, as it follows an attribute count field.
    fn write_attribute_list(&mut self, v: &Vec<Attribute>) -> (r: Result<usize, ClassError>)
        ensures
            r is Ok <==> attr_seq_writable(v@),
            match r {
                Ok(n) => {
                    &&& final(self).target@ == old(self).target@ + attr_seq_bytes(v@)
                    &&& n == attr_seq_bytes(v@).len()
                },
                Err(e) => e == ClassError::StructuralError,
            },
        decreases v@, 0nat,
    {
        let start_len = self.target.len();
        let mut i: usize = 0;
        while i < v.len()
            invariant
                i <= v@.len(),
                self.target@ == old(self).target@ + attr_seq_bytes(v@.subrange(0, i as int)),
                forall|k: int| 0 <= k < i ==> attr_writable(#[trigger] v@[k]),
            decreases v@.len() - i,
        {
            proof {
                assert(decreases_to!(v@, 0nat => v@[i as int], 1nat));
            }
            self.write_attribute(&v[i])?;
            i = i + 1;
            proof {
                lemma_attr_seq_bytes_push(v@, i - 1);
                assert(self.target@ =~= old(self).target@ + attr_seq_bytes(
                    v@.subrange(0, i as int),
                ));
            }
        }
        proof {
            assert(v@.subrange(0, v@.len() as int) =~= v@);
        }
        Ok(self.target.len() - start_len)
    }

    /// One field or method record.
    fn write_member(&mut self, m: &Member) -> (r: Result<usize, ClassError>)
        ensures
            r is Ok <==> member_writable(*m),
            match r {
                Ok(n) => {
                    &&& final(self).target@ == old(self).target@ + member_bytes(*m)
                    &&& n == member_bytes(*m).len()
                },
                Err(e) => e == ClassError::StructuralError,
            },
    {
        let start_len = self.target.len();
        self.write_u16(m.access_flags)?;
        self.write_u16(m.name_index)?;
        self.write_u16(m.descriptor_index)?;
        if m.attributes.len() > 0xFFFF {
            return Err(ClassError::StructuralError);
        }
        self.write_u16(m.attributes.len() as u16)?;
        self.write_attribute_list(&m.attributes)?;
        proof {
            assert(self.target@ =~= old(self).target@ + member_bytes(*m));
        }
        Ok(self.target.len() - start_len)
    }

    /// A run of field or method records, as it follows a count field.
    fn write_member_list(&mut self, v: &Vec<Member>) -> (r: Result<usize, ClassError>)
        ensures
            r is Ok <==> member_seq_writable(v@),
            match r {
                Ok(n) => {
                    &&& final(self).target@ == old(self).target@ + member_seq_bytes(v@)
                    &&& n == member_seq_bytes(v@).len()
                },
                Err(e) => e == ClassError::StructuralError,
            },
    {
        let start_len = self.target.len();
        let mut i: usize = 0;
        while i < v.len()
            invariant
                i <= v@.len(),
                self.target@ == old(self).target@ + member_seq_bytes(v@.subrange(0, i as int)),
                forall|k: int| 0 <= k < i ==> member_writable(#[trigger] v@[k]),
            decreases v@.len() - i,
        {
            self.write_member(&v[i])?;
            i = i + 1;
            proof {
                lemma_member_seq_bytes_push(v@, i - 1);
                assert(self.target@ =~= old(self).target@ + member_seq_bytes(
                    v@.subrange(0, i as int),
                ));
            }
        }
        proof {
            assert(v@.subrange(0, v@.len() as int) =~= v@);
        }
        Ok(self.target.len() - start_len)
    }

    /// The interface indices, as they follow the interface count field.
    fn write_interface_indices(&mut self, v: &Vec<u16>) -> (r: usize)
        ensures
            final(self).target@ == old(self).target@ + u16_seq_bytes(v@),
            r == u16_seq_bytes(v@).len(),
    {
        let start_len = self.target.len();
        let mut i: usize = 0;
        while i < v.len()
            invariant
                i <= v@.len(),
                self.target@ == old(self).target@ + u16_seq_bytes(v@.subrange(0, i as int)),
            decreases v@.len() - i,
        {
            let _ = self.write_u16(v[i]);
            i = i + 1;
            proof {
                lemma_u16_seq_bytes_push(v@, i - 1);
                assert(self.target@ =~= old(self).target@ + u16_seq_bytes(
                    v@.subrange(0, i as int),
                ));
            }
        }
        proof {
            assert(v@.subrange(0, v@.len() as int) =~= v@);
        }
        self.target.len() - start_len
    }

    /// Emit a whole class model, strictly mirroring the reader's stage
    /// order. Succeeds exactly when every derived count and recomputed
    /// length fits its fixed-width field; the emitted bytes are the model's
    /// exact encoding.
    #[verifier::rlimit(100)]
    pub fn write_class(&mut self, classfile: &Classfile) -> (r: Result<usize, ClassError>)
        ensures
            r is Ok <==> class_writable(*classfile),
            match r {
                Ok(n) => {
                    &&& final(self).target@ == old(self).target@ + class_bytes(*classfile)
                    &&& n == class_bytes(*classfile).len()
                },
                Err(e) => e == ClassError::StructuralError,
            },
    {
        let start_len = self.target.len();
        self.write_magic_bytes()?;
        self.write_classfile_version(&classfile.version)?;
        self.write_constant_pool(&classfile.constant_pool)?;
        self.write_u16(classfile.access_flags)?;
        self.write_u16(classfile.this_class)?;
        self.write_u16(classfile.super_class)?;
        if classfile.interfaces.len() > 0xFFFF {
            return Err(ClassError::StructuralError);
        }
        self.write_u16(classfile.interfaces.len() as u16)?;
        self.write_interface_indices(&classfile.interfaces);
        if classfile.fields.len() > 0xFFFF {
            return Err(ClassError::StructuralError);
        }
        self.write_u16(classfile.fields.len() as u16)?;
        self.write_member_list(&classfile.fields)?;
        if classfile.methods.len() > 0xFFFF {
            return Err(ClassError::StructuralError);
        }
        self.write_u16(classfile.methods.len() as u16)?;
        self.write_member_list(&classfile.methods)?;
        if classfile.attributes.len() > 0xFFFF {
            return Err(ClassError::StructuralError);
        }
        self.write_u16(classfile.attributes.len() as u16)?;
        self.write_attribute_list(&classfile.attributes)?;
        proof {
            assert(self.target@ =~= old(self).target@ + class_bytes(*classfile));
        }
        Ok(self.target.len() - start_len)
    }
}

} // verus!
