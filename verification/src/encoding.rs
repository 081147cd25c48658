//! The byte-level meaning of the model: for every piece of the class format,
//! a spec function giving the exact big-endian byte sequence that encodes it,
//! the predicates saying when a model fits the format's fixed-width count
//! fields, and proofs that primitive decoding inverts primitive encoding.
use crate::classfile::Attribute;
use crate::classfile::Classfile;
use crate::classfile::ClassfileVersion;
use crate::classfile::Constant;
use crate::classfile::ConstantPool;
use crate::classfile::ExceptionHandler;
use crate::classfile::Member;
use vstd::prelude::*;

verus! {

/// The 4-byte sentinel that opens every class byte sequence.
pub open spec fn magic_bytes() -> Seq<u8> {
    u32_be(0xCAFEBABE)
}

/// The name that dispatches an attribute to the `ConstantValue` shape.
pub open spec fn constant_value_attr_name() -> Seq<u8> {
    seq![67u8, 111u8, 110u8, 115u8, 116u8, 97u8, 110u8, 116u8, 86u8, 97u8, 108u8, 117u8, 101u8]
}

/// The name that dispatches an attribute to the `Code` shape.
pub open spec fn code_attr_name() -> Seq<u8> {
    seq![67u8, 111u8, 100u8, 101u8]
}

pub open spec fn u8_be(x: u8) -> Seq<u8> {
    seq![x]
}

pub open spec fn u16_be(x: u16) -> Seq<u8> {
    seq![(x >> 8) as u8, x as u8]
}

pub open spec fn u32_be(x: u32) -> Seq<u8> {
    seq![(x >> 24) as u8, (x >> 16) as u8, (x >> 8) as u8, x as u8]
}

pub open spec fn u64_be(x: u64) -> Seq<u8> {
    seq![
        (x >> 56) as u8,
        (x >> 48) as u8,
        (x >> 40) as u8,
        (x >> 32) as u8,
        (x >> 24) as u8,
        (x >> 16) as u8,
        (x >> 8) as u8,
        x as u8,
    ]
}

pub open spec fn u8_from_be(b0: u8) -> u8 {
    b0
}

pub open spec fn u16_from_be(b0: u8, b1: u8) -> u16 {
    (b0 as u16) << 8 | (b1 as u16)
}

pub open spec fn u32_from_be(b0: u8, b1: u8, b2: u8, b3: u8) -> u32 {
    (b0 as u32) << 24 | (b1 as u32) << 16 | (b2 as u32) << 8 | (b3 as u32)
}

pub open spec fn u64_from_be(
    b0: u8,
    b1: u8,
    b2: u8,
    b3: u8,
    b4: u8,
    b5: u8,
    b6: u8,
    b7: u8,
) -> u64 {
    (b0 as u64) << 56 | (b1 as u64) << 48 | (b2 as u64) << 40 | (b3 as u64) << 32 | (b4 as u64)
        << 24 | (b5 as u64) << 16 | (b6 as u64) << 8 | (b7 as u64)
}

/// Decoding the encoding of an 8-bit value gives the value back.
pub proof fn lemma_u8_round_trip(x: u8)
    ensures
        u8_from_be(u8_be(x)[0]) == x,
{
}

/// Decoding the encoding of a 16-bit value gives the value back.
pub proof fn lemma_u16_round_trip(x: u16)
    ensures
        u16_from_be(u16_be(x)[0], u16_be(x)[1]) == x,
{
    assert(((x >> 8) as u8 as u16) << 8 | (x as u8 as u16) == x) by (bit_vector);
}

/// Decoding the encoding of a 32-bit value gives the value back.
pub proof fn lemma_u32_round_trip(x: u32)
    ensures
        u32_from_be(u32_be(x)[0], u32_be(x)[1], u32_be(x)[2], u32_be(x)[3]) == x,
{
    assert(((x >> 24) as u8 as u32) << 24 | ((x >> 16) as u8 as u32) << 16 | ((x >> 8) as u8 as u32)
        << 8 | (x as u8 as u32) == x) by (bit_vector);
}

/// Decoding the encoding of a 64-bit value gives the value back.
pub proof fn lemma_u64_round_trip(x: u64)
    ensures
        u64_from_be(
            u64_be(x)[0],
            u64_be(x)[1],
            u64_be(x)[2],
            u64_be(x)[3],
            u64_be(x)[4],
            u64_be(x)[5],
            u64_be(x)[6],
            u64_be(x)[7],
        ) == x,
{
    assert(((x >> 56) as u8 as u64) << 56 | ((x >> 48) as u8 as u64) << 48 | ((x >> 40) as u8 as u64)
        << 40 | ((x >> 32) as u8 as u64) << 32 | ((x >> 24) as u8 as u64) << 24 | ((x
        >> 16) as u8 as u64) << 16 | ((x >> 8) as u8 as u64) << 8 | (x as u8 as u64) == x)
        by (bit_vector);
}

/// Encoding the value decoded from two bytes gives those bytes back.
pub proof fn lemma_u16_be_of_from(b0: u8, b1: u8)
    ensures
        u16_be(u16_from_be(b0, b1)) == seq![b0, b1],
{
    assert(((b0 as u16) << 8 | (b1 as u16)) >> 8 == b0 as u16) by (bit_vector);
    assert((((b0 as u16) << 8 | (b1 as u16)) as u8) == b1) by (bit_vector);
    assert(u16_be(u16_from_be(b0, b1)) =~= seq![b0, b1]);
}

/// Encoding the value decoded from four bytes gives those bytes back.
pub proof fn lemma_u32_be_of_from(b0: u8, b1: u8, b2: u8, b3: u8)
    ensures
        u32_be(u32_from_be(b0, b1, b2, b3)) == seq![b0, b1, b2, b3],
{
    let v = u32_from_be(b0, b1, b2, b3);
    assert((((b0 as u32) << 24 | (b1 as u32) << 16 | (b2 as u32) << 8 | (b3 as u32)) >> 24) as u8
        == b0) by (bit_vector);
    assert((((b0 as u32) << 24 | (b1 as u32) << 16 | (b2 as u32) << 8 | (b3 as u32)) >> 16) as u8
        == b1) by (bit_vector);
    assert((((b0 as u32) << 24 | (b1 as u32) << 16 | (b2 as u32) << 8 | (b3 as u32)) >> 8) as u8
        == b2) by (bit_vector);
    assert((((b0 as u32) << 24 | (b1 as u32) << 16 | (b2 as u32) << 8 | (b3 as u32)) as u8) == b3)
        by (bit_vector);
    assert(u32_be(v) =~= seq![b0, b1, b2, b3]);
}

/// Encoding the value decoded from eight bytes gives those bytes back.
pub proof fn lemma_u64_be_of_from(b0: u8, b1: u8, b2: u8, b3: u8, b4: u8, b5: u8, b6: u8, b7: u8)
    ensures
        u64_be(u64_from_be(b0, b1, b2, b3, b4, b5, b6, b7)) == seq![b0, b1, b2, b3, b4, b5, b6, b7],
{
    let v = u64_from_be(b0, b1, b2, b3, b4, b5, b6, b7);
    assert((((b0 as u64) << 56 | (b1 as u64) << 48 | (b2 as u64) << 40 | (b3 as u64) << 32 | (
    b4 as u64) << 24 | (b5 as u64) << 16 | (b6 as u64) << 8 | (b7 as u64)) >> 56) as u8 == b0)
        by (bit_vector);
    assert((((b0 as u64) << 56 | (b1 as u64) << 48 | (b2 as u64) << 40 | (b3 as u64) << 32 | (
    b4 as u64) << 24 | (b5 as u64) << 16 | (b6 as u64) << 8 | (b7 as u64)) >> 48) as u8 == b1)
        by (bit_vector);
    assert((((b0 as u64) << 56 | (b1 as u64) << 48 | (b2 as u64) << 40 | (b3 as u64) << 32 | (
    b4 as u64) << 24 | (b5 as u64) << 16 | (b6 as u64) << 8 | (b7 as u64)) >> 40) as u8 == b2)
        by (bit_vector);
    assert((((b0 as u64) << 56 | (b1 as u64) << 48 | (b2 as u64) << 40 | (b3 as u64) << 32 | (
    b4 as u64) << 24 | (b5 as u64) << 16 | (b6 as u64) << 8 | (b7 as u64)) >> 32) as u8 == b3)
        by (bit_vector);
    assert((((b0 as u64) << 56 | (b1 as u64) << 48 | (b2 as u64) << 40 | (b3 as u64) << 32 | (
    b4 as u64) << 24 | (b5 as u64) << 16 | (b6 as u64) << 8 | (b7 as u64)) >> 24) as u8 == b4)
        by (bit_vector);
    assert((((b0 as u64) << 56 | (b1 as u64) << 48 | (b2 as u64) << 40 | (b3 as u64) << 32 | (
    b4 as u64) << 24 | (b5 as u64) << 16 | (b6 as u64) << 8 | (b7 as u64)) >> 16) as u8 == b5)
        by (bit_vector);
    assert((((b0 as u64) << 56 | (b1 as u64) << 48 | (b2 as u64) << 40 | (b3 as u64) << 32 | (
    b4 as u64) << 24 | (b5 as u64) << 16 | (b6 as u64) << 8 | (b7 as u64)) >> 8) as u8 == b6)
        by (bit_vector);
    assert((((b0 as u64) << 56 | (b1 as u64) << 48 | (b2 as u64) << 40 | (b3 as u64) << 32 | (
    b4 as u64) << 24 | (b5 as u64) << 16 | (b6 as u64) << 8 | (b7 as u64)) as u8) == b7)
        by (bit_vector);
    assert(u64_be(v) =~= seq![b0, b1, b2, b3, b4, b5, b6, b7]);
}

/// The version's bytes: the minor number precedes the major number.
pub open spec fn version_bytes(v: ClassfileVersion) -> Seq<u8> {
    u16_be(v.minor_version) + u16_be(v.major_version)
}

/// The tagged bytes of one pool entry. An `Unusable` slot is the shadow of
/// the eight-byte entry before it and contributes no bytes of its own.
pub open spec fn constant_bytes(c: Constant) -> Seq<u8> {
    match c {
        Constant::Utf8(text) => seq![1u8] + u16_be(text@.len() as u16) + text@,
        Constant::Integer(x) => seq![3u8] + u32_be(x),
        Constant::Float(x) => seq![4u8] + u32_be(x),
        Constant::Long(x) => seq![5u8] + u64_be(x),
        Constant::Double(x) => seq![6u8] + u64_be(x),
        Constant::Class(i) => seq![7u8] + u16_be(i),
        Constant::StringRef(i) => seq![8u8] + u16_be(i),
        Constant::Fieldref(c_i, nt) => seq![9u8] + u16_be(c_i) + u16_be(nt),
        Constant::Methodref(c_i, nt) => seq![10u8] + u16_be(c_i) + u16_be(nt),
        Constant::InterfaceMethodref(c_i, nt) => seq![11u8] + u16_be(c_i) + u16_be(nt),
        Constant::NameAndType(n, d) => seq![12u8] + u16_be(n) + u16_be(d),
        Constant::MethodHandle(kind, i) => seq![15u8] + seq![kind] + u16_be(i),
        Constant::MethodType(d) => seq![16u8] + u16_be(d),
        Constant::InvokeDynamic(bm, nt) => seq![18u8] + u16_be(bm) + u16_be(nt),
        Constant::Unusable => Seq::empty(),
    }
}

pub open spec fn constant_seq_bytes(s: Seq<Constant>) -> Seq<u8>
    decreases s,
{
    if s.len() == 0 {
        Seq::empty()
    } else {
        constant_bytes(s[0]) + constant_seq_bytes(s.subrange(1, s.len() as int))
    }
}

/// The pool's bytes: a 16-bit count one greater than the number of slots,
/// then each entry's tagged bytes.
pub open spec fn pool_bytes(cp: ConstantPool) -> Seq<u8> {
    u16_be((cp.entries@.len() + 1) as u16) + constant_seq_bytes(cp.entries@)
}

pub open spec fn handler_bytes(h: ExceptionHandler) -> Seq<u8> {
    u16_be(h.start_pc) + u16_be(h.end_pc) + u16_be(h.handler_pc) + u16_be(h.catch_type)
}

pub open spec fn handler_seq_bytes(s: Seq<ExceptionHandler>) -> Seq<u8>
    decreases s,
{
    if s.len() == 0 {
        Seq::empty()
    } else {
        handler_bytes(s[0]) + handler_seq_bytes(s.subrange(1, s.len() as int))
    }
}

pub open spec fn u16_seq_bytes(s: Seq<u16>) -> Seq<u8>
    decreases s,
{
    if s.len() == 0 {
        Seq::empty()
    } else {
        u16_be(s[0]) + u16_seq_bytes(s.subrange(1, s.len() as int))
    }
}

/// The bytes that follow an attribute's name index and length field.
pub open spec fn attr_payload_bytes(a: Attribute) -> Seq<u8>
    decreases a, 0nat,
{
    match a {
        Attribute::ConstantValue { name_index, constant_index } => u16_be(constant_index),
        Attribute::Code { name_index, max_stack, max_locals, code, exception_table, attributes } => {
            u16_be(max_stack) + u16_be(max_locals) + u32_be(code@.len() as u32) + code@ + u16_be(
                exception_table@.len() as u16,
            ) + handler_seq_bytes(exception_table@) + u16_be(attributes@.len() as u16)
                + attr_seq_bytes(attributes@)
        },
        Attribute::Opaque { name_index, data } => data@,
    }
}

/// The pool index that names an attribute, whatever its shape.
pub open spec fn attr_name_index(a: Attribute) -> u16 {
    match a {
        Attribute::ConstantValue { name_index, .. } => name_index,
        Attribute::Code { name_index, .. } => name_index,
        Attribute::Opaque { name_index, .. } => name_index,
    }
}

/// An attribute's full bytes: name index, payload length, payload.
pub open spec fn attr_bytes(a: Attribute) -> Seq<u8>
    decreases a, 1nat,
{
    u16_be(attr_name_index(a)) + u32_be(attr_payload_bytes(a).len() as u32) + attr_payload_bytes(a)
}

pub open spec fn attr_seq_bytes(s: Seq<Attribute>) -> Seq<u8>
    decreases s, 2nat,
{
    if s.len() == 0 {
        Seq::empty()
    } else {
        attr_bytes(s[0]) + attr_seq_bytes(s.subrange(1, s.len() as int))
    }
}

/// A field or method record's bytes.
pub open spec fn member_bytes(m: Member) -> Seq<u8> {
    u16_be(m.access_flags) + u16_be(m.name_index) + u16_be(m.descriptor_index) + u16_be(
        m.attributes@.len() as u16,
    ) + attr_seq_bytes(m.attributes@)
}

pub open spec fn member_seq_bytes(s: Seq<Member>) -> Seq<u8>
    decreases s,
{
    if s.len() == 0 {
        Seq::empty()
    } else {
        member_bytes(s[0]) + member_seq_bytes(s.subrange(1, s.len() as int))
    }
}

/// The whole class's bytes, stage by stage in stream order.
pub open spec fn class_bytes(c: Classfile) -> Seq<u8> {
    magic_bytes() + version_bytes(c.version) + pool_bytes(c.constant_pool) + u16_be(c.access_flags)
        + u16_be(c.this_class) + u16_be(c.super_class) + u16_be(c.interfaces@.len() as u16)
        + u16_seq_bytes(c.interfaces@) + u16_be(c.fields@.len() as u16) + member_seq_bytes(
        c.fields@,
    ) + u16_be(c.methods@.len() as u16) + member_seq_bytes(c.methods@) + u16_be(
        c.attributes@.len() as u16,
    ) + attr_seq_bytes(c.attributes@)
}

/// Whether one pool entry's own payload fits its length field.
pub open spec fn constant_writable(c: Constant) -> bool {
    match c {
        Constant::Utf8(text) => text@.len() <= 0xFFFF,
        _ => true,
    }
}

/// Whether a pool fits the format: the derived count fits 16 bits and every
/// entry's payload fits its own length field.
pub open spec fn pool_writable(cp: ConstantPool) -> bool {
    &&& cp.entries@.len() + 1 <= 0xFFFF
    &&& forall|i: int| 0 <= i < cp.entries@.len() ==> constant_writable(#[trigger] cp.entries@[i])
}

/// Whether an attribute fits the format: every count fits its fixed-width
/// field and the recomputed payload length fits 32 bits.
pub open spec fn attr_writable(a: Attribute) -> bool
    decreases a, 1nat,
{
    match a {
        Attribute::ConstantValue { .. } => true,
        Attribute::Code { code, exception_table, attributes, .. } => {
            &&& code@.len() <= 0xFFFF_FFFF
            &&& exception_table@.len() <= 0xFFFF
            &&& attributes@.len() <= 0xFFFF
            &&& attr_seq_writable(attributes@)
            &&& attr_payload_bytes(a).len() <= 0xFFFF_FFFF
        },
        Attribute::Opaque { data, .. } => data@.len() <= 0xFFFF_FFFF,
    }
}

pub open spec fn attr_seq_writable(s: Seq<Attribute>) -> bool
    decreases s, 2nat,
{
    forall|i: int| 0 <= i < s.len() ==> attr_writable(#[trigger] s[i])
}

pub open spec fn member_writable(m: Member) -> bool {
    &&& m.attributes@.len() <= 0xFFFF
    &&& attr_seq_writable(m.attributes@)
}

pub open spec fn member_seq_writable(s: Seq<Member>) -> bool {
    forall|i: int| 0 <= i < s.len() ==> member_writable(#[trigger] s[i])
}

/// Whether a whole class can be emitted: every derived count and length fits
/// the fixed-width field that carries it.
pub open spec fn class_writable(c: Classfile) -> bool {
    &&& pool_writable(c.constant_pool)
    &&& c.interfaces@.len() <= 0xFFFF
    &&& c.fields@.len() <= 0xFFFF
    &&& c.methods@.len() <= 0xFFFF
    &&& c.attributes@.len() <= 0xFFFF
    &&& member_seq_writable(c.fields@)
    &&& member_seq_writable(c.methods@)
    &&& attr_seq_writable(c.attributes@)
}

/// Extending an entry run by one entry appends that entry's bytes.
pub proof fn lemma_constant_seq_bytes_push(s: Seq<Constant>, i: int)
    requires
        0 <= i < s.len(),
    ensures
        constant_seq_bytes(s.subrange(0, i + 1)) == constant_seq_bytes(s.subrange(0, i))
            + constant_bytes(s[i]),
    decreases i,
{
    if i == 0 {
        assert(s.subrange(0, 1) =~= seq![s[0]]);
        assert(seq![s[0]].subrange(1, 1) =~= Seq::<Constant>::empty());
        assert(s.subrange(0, 0) =~= Seq::<Constant>::empty());
        assert(constant_seq_bytes(s.subrange(0, 1)) =~= constant_seq_bytes(s.subrange(0, 0))
            + constant_bytes(s[0]));
    } else {
        let t = s.subrange(1, s.len() as int);
        lemma_constant_seq_bytes_push(t, i - 1);
        assert(s.subrange(0, i + 1).subrange(1, i + 1) =~= t.subrange(0, i));
        assert(s.subrange(0, i).subrange(1, i) =~= t.subrange(0, i - 1));
        assert(t.subrange(0, i - 1 + 1) == t.subrange(0, i));
        assert(t[i - 1] == s[i]);
        assert(constant_seq_bytes(s.subrange(0, i + 1)) =~= constant_seq_bytes(s.subrange(0, i))
            + constant_bytes(s[i]));
    }
}

/// Extending a handler run by one handler appends that handler's bytes.
pub proof fn lemma_handler_seq_bytes_push(s: Seq<ExceptionHandler>, i: int)
    requires
        0 <= i < s.len(),
    ensures
        handler_seq_bytes(s.subrange(0, i + 1)) == handler_seq_bytes(s.subrange(0, i))
            + handler_bytes(s[i]),
    decreases i,
{
    if i == 0 {
        assert(s.subrange(0, 1) =~= seq![s[0]]);
        assert(seq![s[0]].subrange(1, 1) =~= Seq::<ExceptionHandler>::empty());
        assert(s.subrange(0, 0) =~= Seq::<ExceptionHandler>::empty());
        assert(handler_seq_bytes(s.subrange(0, 1)) =~= handler_seq_bytes(s.subrange(0, 0))
            + handler_bytes(s[0]));
    } else {
        let t = s.subrange(1, s.len() as int);
        lemma_handler_seq_bytes_push(t, i - 1);
        assert(s.subrange(0, i + 1).subrange(1, i + 1) =~= t.subrange(0, i));
        assert(s.subrange(0, i).subrange(1, i) =~= t.subrange(0, i - 1));
        assert(t.subrange(0, i - 1 + 1) == t.subrange(0, i));
        assert(t[i - 1] == s[i]);
        assert(handler_seq_bytes(s.subrange(0, i + 1)) =~= handler_seq_bytes(s.subrange(0, i))
            + handler_bytes(s[i]));
    }
}

/// Extending an index run by one index appends that index's bytes.
pub proof fn lemma_u16_seq_bytes_push(s: Seq<u16>, i: int)
    requires
        0 <= i < s.len(),
    ensures
        u16_seq_bytes(s.subrange(0, i + 1)) == u16_seq_bytes(s.subrange(0, i)) + u16_be(s[i]),
    decreases i,
{
    if i == 0 {
        assert(s.subrange(0, 1) =~= seq![s[0]]);
        assert(seq![s[0]].subrange(1, 1) =~= Seq::<u16>::empty());
        assert(s.subrange(0, 0) =~= Seq::<u16>::empty());
        assert(u16_seq_bytes(s.subrange(0, 1)) =~= u16_seq_bytes(s.subrange(0, 0)) + u16_be(s[0]));
    } else {
        let t = s.subrange(1, s.len() as int);
        lemma_u16_seq_bytes_push(t, i - 1);
        assert(s.subrange(0, i + 1).subrange(1, i + 1) =~= t.subrange(0, i));
        assert(s.subrange(0, i).subrange(1, i) =~= t.subrange(0, i - 1));
        assert(t.subrange(0, i - 1 + 1) == t.subrange(0, i));
        assert(t[i - 1] == s[i]);
        assert(u16_seq_bytes(s.subrange(0, i + 1)) =~= u16_seq_bytes(s.subrange(0, i)) + u16_be(
            s[i],
        ));
    }
}

/// Extending an attribute run by one attribute appends that attribute's bytes.
pub proof fn lemma_attr_seq_bytes_push(s: Seq<Attribute>, i: int)
    requires
        0 <= i < s.len(),
    ensures
        attr_seq_bytes(s.subrange(0, i + 1)) == attr_seq_bytes(s.subrange(0, i)) + attr_bytes(
            s[i],
        ),
    decreases i,
{
    if i == 0 {
        assert(s.subrange(0, 1) =~= seq![s[0]]);
        assert(seq![s[0]].subrange(1, 1) =~= Seq::<Attribute>::empty());
        assert(s.subrange(0, 0) =~= Seq::<Attribute>::empty());
        assert(attr_seq_bytes(s.subrange(0, 1)) =~= attr_seq_bytes(s.subrange(0, 0)) + attr_bytes(
            s[0],
        ));
    } else {
        let t = s.subrange(1, s.len() as int);
        lemma_attr_seq_bytes_push(t, i - 1);
        assert(s.subrange(0, i + 1).subrange(1, i + 1) =~= t.subrange(0, i));
        assert(s.subrange(0, i).subrange(1, i) =~= t.subrange(0, i - 1));
        assert(t.subrange(0, i - 1 + 1) == t.subrange(0, i));
        assert(t[i - 1] == s[i]);
        assert(attr_seq_bytes(s.subrange(0, i + 1)) =~= attr_seq_bytes(s.subrange(0, i))
            + attr_bytes(s[i]));
    }
}

/// Extending a record run by one record appends that record's bytes.
pub proof fn lemma_member_seq_bytes_push(s: Seq<Member>, i: int)
    requires
        0 <= i < s.len(),
    ensures
        member_seq_bytes(s.subrange(0, i + 1)) == member_seq_bytes(s.subrange(0, i)) + member_bytes(
            s[i],
        ),
    decreases i,
{
    if i == 0 {
        assert(s.subrange(0, 1) =~= seq![s[0]]);
        assert(seq![s[0]].subrange(1, 1) =~= Seq::<Member>::empty());
        assert(s.subrange(0, 0) =~= Seq::<Member>::empty());
        assert(member_seq_bytes(s.subrange(0, 1)) =~= member_seq_bytes(s.subrange(0, 0))
            + member_bytes(s[0]));
    } else {
        let t = s.subrange(1, s.len() as int);
        lemma_member_seq_bytes_push(t, i - 1);
        assert(s.subrange(0, i + 1).subrange(1, i + 1) =~= t.subrange(0, i));
        assert(s.subrange(0, i).subrange(1, i) =~= t.subrange(0, i - 1));
        assert(t.subrange(0, i - 1 + 1) == t.subrange(0, i));
        assert(t[i - 1] == s[i]);
        assert(member_seq_bytes(s.subrange(0, i + 1)) =~= member_seq_bytes(s.subrange(0, i))
            + member_bytes(s[i]));
    }
}

} // verus!
