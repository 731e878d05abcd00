//! The abstract wire model of the tagged value format: ghost mirrors of
//! the value tree, well-formedness, the spec-level encoder and the
//! spec-level parser. Exec values relate to this model through their
//! views. One rule holds on both sides: the count written before a list,
//! a map or an integer list is the true element count, and the parser
//! reads exactly that many elements.

use vstd::prelude::*;

use crate::label::{tag_dec, tag_enc, wf_label};
use crate::tdf::{LabeledTdf, Tdf, TdfType};
use crate::utf8::is_utf8;
use crate::varint::{
    bits_of, lemma_varint_dec_bound, signed_of, varint_dec, varint_enc, word_of, VarInt,
};

verus! {

broadcast use vstd::seq::axiom_seq_index_decreases, vstd::seq::axiom_seq_subrange_decreases, vstd::std_specs::vec::group_vec_axioms;

/// Ghost mirror of a tagged value: the same shape as the exec tree, with
/// sequences for the owned collections. A union's payload is a sequence
/// of at most one labeled child; a float is carried as the 32 bits of its
/// big-endian IEEE-754 image.
#[verifier::ext_equal]
pub enum SpecTdf {
    VarInt(i64),
    String(Seq<u8>),
    Blob(Seq<u8>),
    Group(bool, Seq<SpecLabeled>),
    List(TdfType, Seq<SpecTdf>),
    Dict(TdfType, TdfType, Seq<SpecTdf>, Seq<SpecTdf>),
    Union(u8, Seq<SpecLabeled>),
    VarIntList(Seq<i64>),
    Pair(i64, i64),
    Tripple(i64, i64, i64),
    Float(u32),
    Unknown,
}

/// Ghost mirror of a labeled value: label characters, wire type, value.
#[verifier::ext_equal]
pub struct SpecLabeled {
    pub label: Seq<u8>,
    pub ltype: TdfType,
    pub value: SpecTdf,
}

/// The numeric wire tag of a value type.
pub open spec fn type_val(t: TdfType) -> u8 {
    match t {
        TdfType::VarInt => 0x0,
        TdfType::String => 0x1,
        TdfType::Blob => 0x2,
        TdfType::Group => 0x3,
        TdfType::List => 0x4,
        TdfType::Dict => 0x5,
        TdfType::Union => 0x6,
        TdfType::VarIntList => 0x7,
        TdfType::Pair => 0x8,
        TdfType::Tripple => 0x9,
        TdfType::Float => 0xA,
        TdfType::Unknown(v) => v,
    }
}

/// The value type a numeric wire tag denotes.
pub open spec fn type_from(v: u8) -> TdfType {
    if v == 0x0 {
        TdfType::VarInt
    } else if v == 0x1 {
        TdfType::String
    } else if v == 0x2 {
        TdfType::Blob
    } else if v == 0x3 {
        TdfType::Group
    } else if v == 0x4 {
        TdfType::List
    } else if v == 0x5 {
        TdfType::Dict
    } else if v == 0x6 {
        TdfType::Union
    } else if v == 0x7 {
        TdfType::VarIntList
    } else if v == 0x8 {
        TdfType::Pair
    } else if v == 0x9 {
        TdfType::Tripple
    } else if v == 0xA {
        TdfType::Float
    } else {
        TdfType::Unknown(v)
    }
}

/// A type whose numeric tag maps back to it; rules out an unknown type
/// that collides with a known tag.
pub open spec fn type_ok(t: TdfType) -> bool {
    type_from(type_val(t)) == t
}

/// Whether a value has the shape a wire type announces.
pub open spec fn matches_type(v: SpecTdf, t: TdfType) -> bool {
    match v {
        SpecTdf::VarInt(_) => t is VarInt,
        SpecTdf::String(_) => t is String,
        SpecTdf::Blob(_) => t is Blob,
        SpecTdf::Group(_, _) => t is Group,
        SpecTdf::List(_, _) => t is List,
        SpecTdf::Dict(_, _, _, _) => t is Dict,
        SpecTdf::Union(_, _) => t is Union,
        SpecTdf::VarIntList(_) => t is VarIntList,
        SpecTdf::Pair(_, _) => t is Pair,
        SpecTdf::Tripple(_, _, _) => t is Tripple,
        SpecTdf::Float(_) => t is Float,
        SpecTdf::Unknown => t is Unknown,
    }
}

/// Structural size of a value, the measure for every walk over the tree.
pub open spec fn size_tdf(v: SpecTdf) -> nat
    decreases v,
{
    match v {
        SpecTdf::Group(_, ch) => 1 + size_children(ch),
        SpecTdf::List(_, es) => 1 + size_elems(es),
        SpecTdf::Dict(_, _, ks, vs) => 1 + size_elems(ks) + size_elems(vs),
        SpecTdf::Union(_, p) => 1 + size_children(p),
        _ => 1,
    }
}

/// Structural size of a labeled value.
pub open spec fn size_labeled(l: SpecLabeled) -> nat
    decreases l,
{
    1 + size_tdf(l.value)
}

/// Structural size of a sequence of labeled values.
pub open spec fn size_children(s: Seq<SpecLabeled>) -> nat
    decreases s,
{
    if s.len() == 0 {
        0
    } else {
        1 + size_labeled(s[0]) + size_children(s.drop_first())
    }
}

/// Structural size of a sequence of values.
pub open spec fn size_elems(s: Seq<SpecTdf>) -> nat
    decreases s,
{
    if s.len() == 0 {
        0
    } else {
        1 + size_tdf(s[0]) + size_elems(s.drop_first())
    }
}

/// Well-formedness of a value: the invariants of the data model (a map's
/// parallel sequences agree, a union's discriminant and payload agree, an
/// unknown type never collides with a known tag), text is valid UTF-8,
/// and every count fits the 64-bit wire integer.
pub open spec fn wf_tdf(v: SpecTdf) -> bool
    decreases size_tdf(v),
{
    match v {
        SpecTdf::VarInt(_) => true,
        SpecTdf::String(b) => is_utf8(b) && b.len() + 1 <= 0xFFFF_FFFF_FFFF_FFFF,
        SpecTdf::Blob(b) => b.len() <= 0xFFFF_FFFF_FFFF_FFFF,
        SpecTdf::Group(_, ch) => wf_children(ch),
        SpecTdf::List(t, es) => {
            &&& type_ok(t)
            &&& es.len() <= 0xFFFF_FFFF_FFFF_FFFF
            &&& wf_elems(es, t)
        },
        SpecTdf::Dict(kt, vt, ks, vs) => {
            &&& type_ok(kt)
            &&& type_ok(vt)
            &&& ks.len() == vs.len()
            &&& ks.len() <= 0xFFFF_FFFF_FFFF_FFFF
            &&& wf_elems(ks, kt)
            &&& wf_elems(vs, vt)
        },
        SpecTdf::Union(d, p) => {
            &&& p.len() <= 1
            &&& (d == 0x7F <==> p.len() == 0)
            &&& wf_children(p)
        },
        SpecTdf::VarIntList(vs) => vs.len() <= 0xFFFF_FFFF_FFFF_FFFF,
        SpecTdf::Pair(_, _) => true,
        SpecTdf::Tripple(_, _, _) => true,
        SpecTdf::Float(_) => true,
        SpecTdf::Unknown => true,
    }
}

/// Well-formedness of a labeled value: a supported label, a type tag that
/// survives the wire, and a value of exactly that shape.
pub open spec fn wf_labeled(l: SpecLabeled) -> bool
    decreases size_labeled(l),
{
    &&& wf_label(l.label)
    &&& type_ok(l.ltype)
    &&& matches_type(l.value, l.ltype)
    &&& wf_tdf(l.value)
}

/// Well-formedness of every labeled value in a sequence.
pub open spec fn wf_children(s: Seq<SpecLabeled>) -> bool
    decreases size_children(s),
{
    if s.len() == 0 {
        true
    } else {
        wf_labeled(s[0]) && wf_children(s.drop_first())
    }
}

/// Well-formedness of every value in a sequence, all of the given shape.
pub open spec fn wf_elems(s: Seq<SpecTdf>, t: TdfType) -> bool
    decreases size_elems(s),
{
    if s.len() == 0 {
        true
    } else {
        matches_type(s[0], t) && wf_tdf(s[0]) && wf_elems(s.drop_first(), t)
    }
}

/// The big-endian four-byte image of a 32-bit word.
pub open spec fn be32_enc(w: u32) -> Seq<u8> {
    seq![
        (w / 0x100_0000) as u8,
        ((w / 0x1_0000) % 0x100) as u8,
        ((w / 0x100) % 0x100) as u8,
        (w % 0x100) as u8,
    ]
}

/// The byte encoding of a value body (the part after its tag header).
pub open spec fn enc_tdf(v: SpecTdf) -> Seq<u8>
    decreases size_tdf(v), 1int,
{
    match v {
        SpecTdf::VarInt(x) => varint_enc(bits_of(x)),
        SpecTdf::String(b) => varint_enc((b.len() + 1) as u64) + b + seq![0u8],
        SpecTdf::Blob(b) => varint_enc(b.len() as u64) + b,
        SpecTdf::Group(m, ch) => (if m {
            seq![2u8]
        } else {
            Seq::empty()
        }) + enc_children(ch) + seq![0u8],
        SpecTdf::List(t, es) => seq![type_val(t)] + varint_enc(es.len() as u64) + enc_elems(es),
        SpecTdf::Dict(kt, vt, ks, vs) => seq![type_val(kt), type_val(vt)] + varint_enc(
            ks.len() as u64,
        ) + enc_pairs(ks, vs),
        SpecTdf::Union(d, p) => seq![d] + enc_children(p),
        SpecTdf::VarIntList(vs) => varint_enc(vs.len() as u64) + enc_vints(vs),
        SpecTdf::Pair(a, b) => varint_enc(bits_of(a)) + varint_enc(bits_of(b)),
        SpecTdf::Tripple(a, b, c) => varint_enc(bits_of(a)) + varint_enc(bits_of(b)) + varint_enc(
            bits_of(c),
        ),
        SpecTdf::Float(w) => be32_enc(w),
        SpecTdf::Unknown => Seq::empty(),
    }
}

/// The byte encoding of a labeled value: three tag bytes, one type byte,
/// then the value body.
pub open spec fn enc_labeled(l: SpecLabeled) -> Seq<u8>
    decreases size_labeled(l), 1int,
{
    tag_enc(l.label) + seq![type_val(l.ltype)] + enc_tdf(l.value)
}

/// The concatenated encodings of a sequence of labeled values.
pub open spec fn enc_children(s: Seq<SpecLabeled>) -> Seq<u8>
    decreases size_children(s), 0int,
{
    if s.len() == 0 {
        Seq::empty()
    } else {
        enc_labeled(s[0]) + enc_children(s.drop_first())
    }
}

/// The concatenated encodings of a sequence of values.
pub open spec fn enc_elems(s: Seq<SpecTdf>) -> Seq<u8>
    decreases size_elems(s), 0int,
{
    if s.len() == 0 {
        Seq::empty()
    } else {
        enc_tdf(s[0]) + enc_elems(s.drop_first())
    }
}

/// The interleaved encodings of a map's parallel key and value sequences.
pub open spec fn enc_pairs(ks: Seq<SpecTdf>, vs: Seq<SpecTdf>) -> Seq<u8>
    decreases size_elems(ks) + size_elems(vs), 0int,
{
    if ks.len() == 0 || vs.len() == 0 {
        Seq::empty()
    } else {
        enc_tdf(ks[0]) + enc_tdf(vs[0]) + enc_pairs(ks.drop_first(), vs.drop_first())
    }
}

/// The abstraction of an exec value tree into the ghost model.
pub open spec fn view_tdf(v: Tdf) -> SpecTdf
    decreases v,
{
    match v {
        Tdf::VarInt(x) => SpecTdf::VarInt(x.0),
        Tdf::String(b) => SpecTdf::String(b@),
        Tdf::Blob(b) => SpecTdf::Blob(b@),
        Tdf::Group(m, ch) => SpecTdf::Group(m, view_children(ch@)),
        Tdf::List(t, es) => SpecTdf::List(t, view_elems(es@)),
        Tdf::Dict(kt, vt, ks, vs) => SpecTdf::Dict(kt, vt, view_elems(ks@), view_elems(vs@)),
        Tdf::Union(d, p) => SpecTdf::Union(
            d,
            match p {
                Option::Some(bl) => seq![view_labeled(*bl)],
                Option::None => Seq::empty(),
            },
        ),
        Tdf::VarIntList(vs) => SpecTdf::VarIntList(view_vints(vs@)),
        Tdf::Pair(a, b) => SpecTdf::Pair(a.0, b.0),
        Tdf::Tripple(a, b, c) => SpecTdf::Tripple(a.0, b.0, c.0),
        Tdf::Float(w) => SpecTdf::Float(w),
        Tdf::Unknown => SpecTdf::Unknown,
    }
}

/// The abstraction of an exec labeled value into the ghost model.
pub open spec fn view_labeled(l: LabeledTdf) -> SpecLabeled
    decreases l,
{
    SpecLabeled { label: l.0@, ltype: l.1, value: view_tdf(l.2) }
}

/// The abstraction of a sequence of exec labeled values.
pub open spec fn view_children(s: Seq<LabeledTdf>) -> Seq<SpecLabeled>
    decreases s,
{
    if s.len() == 0 {
        Seq::empty()
    } else {
        seq![view_labeled(s[0])] + view_children(s.drop_first())
    }
}

/// The abstraction of a sequence of exec values.
pub open spec fn view_elems(s: Seq<Tdf>) -> Seq<SpecTdf>
    decreases s,
{
    if s.len() == 0 {
        Seq::empty()
    } else {
        seq![view_tdf(s[0])] + view_elems(s.drop_first())
    }
}

/// The abstraction of a sequence of wire integers into their values.
pub open spec fn view_vints(s: Seq<VarInt>) -> Seq<i64> {
    s.map_values(|x: VarInt| x.0)
}

/// The concatenated encodings of a sequence of variable-length integers.
pub open spec fn enc_vints(vs: Seq<i64>) -> Seq<u8>
    decreases vs.len(),
{
    if vs.len() == 0 {
        Seq::empty()
    } else {
        varint_enc(bits_of(vs[0])) + enc_vints(vs.drop_first())
    }
}

/// Spec-level parse of a value body of shape `t` from the front of `s`:
/// the abstract value and the bytes consumed, or `None` when the bytes do
/// not form such a value (truncation or malformed text). An unknown type
/// carries no body, so it parses to the placeholder consuming nothing.
pub open spec fn dec_value(s: Seq<u8>, t: TdfType) -> Option<(SpecTdf, int)>
    decreases s.len(), 2int, 0int,
{
    match t {
        TdfType::VarInt => match varint_dec(s) {
            Some(p) => Some((SpecTdf::VarInt(signed_of(word_of(p.0))), p.1)),
            None => None,
        },
        TdfType::String => match varint_dec(s) {
            Some(p) => {
                let n = word_of(p.0) as int;
                if n == 0 {
                    Some((SpecTdf::String(Seq::empty()), p.1))
                } else if 0 <= p.1 && p.1 + n <= s.len() {
                    let text = s.subrange(p.1, p.1 + n - 1);
                    if is_utf8(text) {
                        Some((SpecTdf::String(text), p.1 + n))
                    } else {
                        None
                    }
                } else {
                    None
                }
            },
            None => None,
        },
        TdfType::Blob => match varint_dec(s) {
            Some(p) => {
                let n = word_of(p.0) as int;
                if 0 <= p.1 && p.1 + n <= s.len() {
                    Some((SpecTdf::Blob(s.subrange(p.1, p.1 + n)), p.1 + n))
                } else {
                    None
                }
            },
            None => None,
        },
        TdfType::Group => {
            if s.len() == 0 {
                None
            } else if s[0] == 2 {
                match dec_children(s.skip(1)) {
                    Some(q) => Some((SpecTdf::Group(true, q.0), 1 + q.1)),
                    None => None,
                }
            } else {
                match dec_children(s) {
                    Some(q) => Some((SpecTdf::Group(false, q.0), q.1)),
                    None => None,
                }
            }
        },
        TdfType::List => {
            if s.len() < 1 {
                None
            } else {
                let te = type_from(s[0]);
                match varint_dec(s.skip(1)) {
                    Some(p) => {
                        if 0 <= p.1 && 1 + p.1 <= s.len() {
                            match dec_elems(s.skip(1 + p.1), te, word_of(p.0) as nat) {
                                Some(q) => Some((SpecTdf::List(te, q.0), 1 + p.1 + q.1)),
                                None => None,
                            }
                        } else {
                            None
                        }
                    },
                    None => None,
                }
            }
        },
        TdfType::Dict => {
            if s.len() < 2 {
                None
            } else {
                let kt = type_from(s[0]);
                let vt = type_from(s[1]);
                match varint_dec(s.skip(2)) {
                    Some(p) => {
                        if 0 <= p.1 && 2 + p.1 <= s.len() {
                            match dec_pairs(s.skip(2 + p.1), kt, vt, word_of(p.0) as nat) {
                                Some(q) => Some(
                                    (SpecTdf::Dict(kt, vt, q.0.0, q.0.1), 2 + p.1 + q.1),
                                ),
                                None => None,
                            }
                        } else {
                            None
                        }
                    },
                    None => None,
                }
            }
        },
        TdfType::Union => {
            if s.len() == 0 {
                None
            } else if s[0] == 0x7F {
                Some((SpecTdf::Union(0x7F, Seq::empty()), 1))
            } else {
                match dec_labeled(s.skip(1)) {
                    Some(p) => Some((SpecTdf::Union(s[0], seq![p.0]), 1 + p.1)),
                    None => None,
                }
            }
        },
        TdfType::VarIntList => match varint_dec(s) {
            Some(p) => {
                if 0 <= p.1 && p.1 <= s.len() {
                    match dec_vints(s.skip(p.1), word_of(p.0) as nat) {
                        Some(q) => Some((SpecTdf::VarIntList(q.0), p.1 + q.1)),
                        None => None,
                    }
                } else {
                    None
                }
            },
            None => None,
        },
        TdfType::Pair => match varint_dec(s) {
            Some(p) => {
                if 0 <= p.1 && p.1 <= s.len() {
                    match varint_dec(s.skip(p.1)) {
                        Some(q) => Some(
                            (
                                SpecTdf::Pair(
                                    signed_of(word_of(p.0)),
                                    signed_of(word_of(q.0)),
                                ),
                                p.1 + q.1,
                            ),
                        ),
                        None => None,
                    }
                } else {
                    None
                }
            },
            None => None,
        },
        TdfType::Tripple => match varint_dec(s) {
            Some(p) => {
                if 0 <= p.1 && p.1 <= s.len() {
                    match varint_dec(s.skip(p.1)) {
                        Some(q) => {
                            if 0 <= q.1 && p.1 + q.1 <= s.len() {
                                match varint_dec(s.skip(p.1 + q.1)) {
                                    Some(w) => Some(
                                        (
                                            SpecTdf::Tripple(
                                                signed_of(word_of(p.0)),
                                                signed_of(word_of(q.0)),
                                                signed_of(word_of(w.0)),
                                            ),
                                            p.1 + q.1 + w.1,
                                        ),
                                    ),
                                    None => None,
                                }
                            } else {
                                None
                            }
                        },
                        None => None,
                    }
                } else {
                    None
                }
            },
            None => None,
        },
        TdfType::Float => {
            if s.len() >= 4 {
                Some(
                    (
                        SpecTdf::Float(
                            (s[0] * 0x100_0000 + s[1] * 0x1_0000 + s[2] * 0x100 + s[3]) as u32,
                        ),
                        4,
                    ),
                )
            } else {
                None
            }
        },
        TdfType::Unknown(_) => Some((SpecTdf::Unknown, 0)),
    }
}

/// Spec-level parse of one labeled value: three tag bytes, one type byte,
/// then a value body of the announced shape.
pub open spec fn dec_labeled(s: Seq<u8>) -> Option<(SpecLabeled, int)>
    decreases s.len(), 0int, 0int,
{
    if s.len() < 4 {
        None
    } else {
        let t = type_from(s[3]);
        match dec_value(s.skip(4), t) {
            Some(p) => Some((SpecLabeled { label: tag_dec(s), ltype: t, value: p.0 }, 4 + p.1)),
            None => None,
        }
    }
}

/// Spec-level parse of a group body: labeled children up to and including
/// the zero terminator.
pub open spec fn dec_children(s: Seq<u8>) -> Option<(Seq<SpecLabeled>, int)>
    decreases s.len(), 1int, 0int,
{
    if s.len() == 0 {
        None
    } else if s[0] == 0 {
        Some((Seq::empty(), 1))
    } else {
        match dec_labeled(s) {
            Some(p) => {
                if 1 <= p.1 <= s.len() {
                    match dec_children(s.skip(p.1)) {
                        Some(q) => Some((seq![p.0] + q.0, p.1 + q.1)),
                        None => None,
                    }
                } else {
                    None
                }
            },
            None => None,
        }
    }
}

/// Spec-level parse of `n` value bodies of shape `t`, one after another.
pub open spec fn dec_elems(s: Seq<u8>, t: TdfType, n: nat) -> Option<(Seq<SpecTdf>, int)>
    decreases s.len(), 3int, n,
{
    if n == 0 {
        Some((Seq::empty(), 0))
    } else {
        match dec_value(s, t) {
            Some(p) => {
                if 0 <= p.1 <= s.len() {
                    match dec_elems(s.skip(p.1), t, (n - 1) as nat) {
                        Some(q) => Some((seq![p.0] + q.0, p.1 + q.1)),
                        None => None,
                    }
                } else {
                    None
                }
            },
            None => None,
        }
    }
}

/// Spec-level parse of `n` interleaved key and value bodies.
pub open spec fn dec_pairs(s: Seq<u8>, kt: TdfType, vt: TdfType, n: nat) -> Option<
    ((Seq<SpecTdf>, Seq<SpecTdf>), int),
>
    decreases s.len(), 3int, n,
{
    if n == 0 {
        Some(((Seq::empty(), Seq::empty()), 0))
    } else {
        match dec_value(s, kt) {
            Some(p) => {
                if 0 <= p.1 <= s.len() {
                    match dec_value(s.skip(p.1), vt) {
                        Some(q) => {
                            if 0 <= q.1 && p.1 + q.1 <= s.len() {
                                match dec_pairs(s.skip(p.1 + q.1), kt, vt, (n - 1) as nat) {
                                    Some(w) => Some(
                                        (
                                            (seq![p.0] + w.0.0, seq![q.0] + w.0.1),
                                            p.1 + q.1 + w.1,
                                        ),
                                    ),
                                    None => None,
                                }
                            } else {
                                None
                            }
                        },
                        None => None,
                    }
                } else {
                    None
                }
            },
            None => None,
        }
    }
}

/// Spec-level parse of `n` variable-length integers, one after another.
pub open spec fn dec_vints(s: Seq<u8>, n: nat) -> Option<(Seq<i64>, int)>
    decreases s.len(), n,
{
    if n == 0 {
        Some((Seq::empty(), 0))
    } else {
        match varint_dec(s) {
            Some(p) => {
                if 1 <= p.1 <= s.len() {
                    match dec_vints(s.skip(p.1), (n - 1) as nat) {
                        Some(q) => Some((seq![signed_of(word_of(p.0))] + q.0, p.1 + q.1)),
                        None => None,
                    }
                } else {
                    None
                }
            },
            None => None,
        }
    }
}

/// Spec-level parse of a whole payload: labeled values back to back until
/// the bytes are exhausted.
pub open spec fn dec_stream(s: Seq<u8>) -> Option<Seq<SpecLabeled>>
    decreases s.len(),
{
    if s.len() == 0 {
        Some(Seq::empty())
    } else {
        match dec_labeled(s) {
            Some(p) => {
                if 1 <= p.1 <= s.len() {
                    match dec_stream(s.skip(p.1)) {
                        Some(q) => Some(seq![p.0] + q),
                        None => None,
                    }
                } else {
                    None
                }
            },
            None => None,
        }
    }
}

/// Any successful parse of a value body consumes between zero bytes (an
/// unknown type has no body) and the whole suffix.
pub proof fn lemma_dec_value_bound(s: Seq<u8>, t: TdfType)
    ensures
        dec_value(s, t) matches Some(p) ==> 0 <= p.1 <= s.len(),
    decreases s.len(), 2int, 0int,
{
    match t {
        TdfType::VarInt => {
            lemma_varint_dec_bound(s);
        },
        TdfType::String => {
            lemma_varint_dec_bound(s);
        },
        TdfType::Blob => {
            lemma_varint_dec_bound(s);
        },
        TdfType::Group => {
            if s.len() > 0 {
                if s[0] == 2 {
                    lemma_dec_children_bound(s.skip(1));
                } else {
                    lemma_dec_children_bound(s);
                }
            }
        },
        TdfType::List => {
            if s.len() >= 1 {
                lemma_varint_dec_bound(s.skip(1));
                if let Some(p) = varint_dec(s.skip(1)) {
                    if 0 <= p.1 && 1 + p.1 <= s.len() {
                        lemma_dec_elems_bound(s.skip(1 + p.1), type_from(s[0]), word_of(p.0) as nat);
                    }
                }
            }
        },
        TdfType::Dict => {
            if s.len() >= 2 {
                lemma_varint_dec_bound(s.skip(2));
                if let Some(p) = varint_dec(s.skip(2)) {
                    if 0 <= p.1 && 2 + p.1 <= s.len() {
                        lemma_dec_pairs_bound(
                            s.skip(2 + p.1),
                            type_from(s[0]),
                            type_from(s[1]),
                            word_of(p.0) as nat,
                        );
                    }
                }
            }
        },
        TdfType::Union => {
            if s.len() > 0 && s[0] != 0x7F {
                lemma_dec_labeled_bound(s.skip(1));
            }
        },
        TdfType::VarIntList => {
            lemma_varint_dec_bound(s);
            if let Some(p) = varint_dec(s) {
                if 0 <= p.1 <= s.len() {
                    lemma_dec_vints_bound(s.skip(p.1), word_of(p.0) as nat);
                }
            }
        },
        TdfType::Pair => {
            lemma_varint_dec_bound(s);
            if let Some(p) = varint_dec(s) {
                if 0 <= p.1 <= s.len() {
                    lemma_varint_dec_bound(s.skip(p.1));
                }
            }
        },
        TdfType::Tripple => {
            lemma_varint_dec_bound(s);
            if let Some(p) = varint_dec(s) {
                if 0 <= p.1 <= s.len() {
                    lemma_varint_dec_bound(s.skip(p.1));
                    if let Some(q) = varint_dec(s.skip(p.1)) {
                        if 0 <= q.1 && p.1 + q.1 <= s.len() {
                            lemma_varint_dec_bound(s.skip(p.1 + q.1));
                        }
                    }
                }
            }
        },
        TdfType::Float => {
        },
        TdfType::Unknown(_) => {
        },
    }
}

/// Any successful parse of a labeled value consumes its four header bytes
/// and at most the whole suffix.
pub proof fn lemma_dec_labeled_bound(s: Seq<u8>)
    ensures
        dec_labeled(s) matches Some(p) ==> 4 <= p.1 <= s.len(),
    decreases s.len(), 0int, 0int,
{
    if s.len() >= 4 {
        lemma_dec_value_bound(s.skip(4), type_from(s[3]));
    }
}

/// Any successful parse of a group body consumes at least its terminator
/// and at most the whole suffix.
pub proof fn lemma_dec_children_bound(s: Seq<u8>)
    ensures
        dec_children(s) matches Some(p) ==> 1 <= p.1 <= s.len(),
    decreases s.len(), 1int, 0int,
{
    if s.len() > 0 && s[0] != 0 {
        lemma_dec_labeled_bound(s);
        if let Some(p) = dec_labeled(s) {
            if 1 <= p.1 <= s.len() {
                lemma_dec_children_bound(s.skip(p.1));
            }
        }
    }
}

/// Any successful parse of a run of value bodies stays inside the suffix.
pub proof fn lemma_dec_elems_bound(s: Seq<u8>, t: TdfType, n: nat)
    ensures
        dec_elems(s, t, n) matches Some(p) ==> 0 <= p.1 <= s.len(),
    decreases s.len(), 3int, n,
{
    if n > 0 {
        lemma_dec_value_bound(s, t);
        if let Some(p) = dec_value(s, t) {
            if 0 <= p.1 <= s.len() {
                lemma_dec_elems_bound(s.skip(p.1), t, (n - 1) as nat);
            }
        }
    }
}

/// Any successful parse of a run of key and value bodies stays inside the
/// suffix.
pub proof fn lemma_dec_pairs_bound(s: Seq<u8>, kt: TdfType, vt: TdfType, n: nat)
    ensures
        dec_pairs(s, kt, vt, n) matches Some(p) ==> 0 <= p.1 <= s.len(),
    decreases s.len(), 3int, n,
{
    if n > 0 {
        lemma_dec_value_bound(s, kt);
        if let Some(p) = dec_value(s, kt) {
            if 0 <= p.1 <= s.len() {
                lemma_dec_value_bound(s.skip(p.1), vt);
                if let Some(q) = dec_value(s.skip(p.1), vt) {
                    if 0 <= q.1 && p.1 + q.1 <= s.len() {
                        lemma_dec_pairs_bound(s.skip(p.1 + q.1), kt, vt, (n - 1) as nat);
                    }
                }
            }
        }
    }
}

/// Any successful parse of a run of integers stays inside the suffix.
pub proof fn lemma_dec_vints_bound(s: Seq<u8>, n: nat)
    ensures
        dec_vints(s, n) matches Some(p) ==> 0 <= p.1 <= s.len(),
    decreases s.len(), n,
{
    if n > 0 {
        lemma_varint_dec_bound(s);
        if let Some(p) = varint_dec(s) {
            if 1 <= p.1 <= s.len() {
                lemma_dec_vints_bound(s.skip(p.1), (n - 1) as nat);
            }
        }
    }
}

/// Abstraction distributes over appending one labeled value.
pub proof fn lemma_view_children_push(s: Seq<LabeledTdf>, x: LabeledTdf)
    ensures
        view_children(s.push(x)) == view_children(s) + seq![view_labeled(x)],
    decreases s.len(),
{
    if s.len() == 0 {
        assert(s.push(x)[0] == x);
        assert(s.push(x).drop_first() =~= Seq::<LabeledTdf>::empty());
        assert(view_children(Seq::<LabeledTdf>::empty()) =~= Seq::<SpecLabeled>::empty());
        assert(s =~= Seq::<LabeledTdf>::empty());
        assert(view_children(s.push(x)) =~= view_children(s) + seq![view_labeled(x)]);
    } else {
        assert(s.push(x)[0] == s[0]);
        assert(s.push(x).drop_first() =~= s.drop_first().push(x));
        lemma_view_children_push(s.drop_first(), x);
        assert(view_children(s.push(x)) =~= view_children(s) + seq![view_labeled(x)]);
    }
}

/// Abstraction distributes over appending one value.
pub proof fn lemma_view_elems_push(s: Seq<Tdf>, x: Tdf)
    ensures
        view_elems(s.push(x)) == view_elems(s) + seq![view_tdf(x)],
    decreases s.len(),
{
    if s.len() == 0 {
        assert(s.push(x)[0] == x);
        assert(s.push(x).drop_first() =~= Seq::<Tdf>::empty());
        assert(view_elems(Seq::<Tdf>::empty()) =~= Seq::<SpecTdf>::empty());
        assert(s =~= Seq::<Tdf>::empty());
        assert(view_elems(s.push(x)) =~= view_elems(s) + seq![view_tdf(x)]);
    } else {
        assert(s.push(x)[0] == s[0]);
        assert(s.push(x).drop_first() =~= s.drop_first().push(x));
        lemma_view_elems_push(s.drop_first(), x);
        assert(view_elems(s.push(x)) =~= view_elems(s) + seq![view_tdf(x)]);
    }
}

/// The first child with the given label, if any.
pub open spec fn find_label(ch: Seq<SpecLabeled>, label: Seq<u8>) -> Option<SpecLabeled>
    decreases ch.len(),
{
    if ch.len() == 0 {
        None
    } else if ch[0].label == label {
        Some(ch[0])
    } else {
        find_label(ch.drop_first(), label)
    }
}

/// A sequence of labeled values abstracts elementwise.
pub proof fn lemma_view_children_index(s: Seq<LabeledTdf>, i: int)
    requires
        0 <= i < s.len(),
    ensures
        view_children(s).len() == s.len(),
        view_children(s)[i] == view_labeled(s[i]),
    decreases s.len(),
{
    lemma_view_children_len(s);
    if i > 0 {
        lemma_view_children_index(s.drop_first(), i - 1);
    }
}

/// Abstraction keeps the length of a sequence of labeled values.
pub proof fn lemma_view_children_len(s: Seq<LabeledTdf>)
    ensures
        view_children(s).len() == s.len(),
    decreases s.len(),
{
    if s.len() > 0 {
        lemma_view_children_len(s.drop_first());
    }
}

/// A sequence of values abstracts elementwise.
pub proof fn lemma_view_elems_index(s: Seq<Tdf>, i: int)
    requires
        0 <= i < s.len(),
    ensures
        view_elems(s).len() == s.len(),
        view_elems(s)[i] == view_tdf(s[i]),
    decreases s.len(),
{
    lemma_view_elems_len(s);
    if i > 0 {
        lemma_view_elems_index(s.drop_first(), i - 1);
    }
}

/// Abstraction keeps the length of a sequence of values.
pub proof fn lemma_view_elems_len(s: Seq<Tdf>)
    ensures
        view_elems(s).len() == s.len(),
    decreases s.len(),
{
    if s.len() > 0 {
        lemma_view_elems_len(s.drop_first());
    }
}

/// Every element of a sequence of labeled values is strictly smaller than
/// the sequence.
pub proof fn lemma_size_children_index(s: Seq<SpecLabeled>, i: int)
    requires
        0 <= i < s.len(),
    ensures
        size_labeled(s[i]) < size_children(s),
    decreases s.len(),
{
    if i > 0 {
        lemma_size_children_index(s.drop_first(), i - 1);
    }
}

/// Every element of a sequence of values is strictly smaller than the
/// sequence.
pub proof fn lemma_size_elems_index(s: Seq<SpecTdf>, i: int)
    requires
        0 <= i < s.len(),
    ensures
        size_tdf(s[i]) < size_elems(s),
    decreases s.len(),
{
    if i > 0 {
        lemma_size_elems_index(s.drop_first(), i - 1);
    }
}

/// Well-formedness of a sequence of labeled values holds elementwise.
pub proof fn lemma_wf_children_index(s: Seq<SpecLabeled>, i: int)
    requires
        wf_children(s),
        0 <= i < s.len(),
    ensures
        wf_labeled(s[i]),
    decreases s.len(),
{
    if i > 0 {
        lemma_wf_children_index(s.drop_first(), i - 1);
    }
}

/// Well-formedness of a typed sequence of values holds elementwise.
pub proof fn lemma_wf_elems_index(s: Seq<SpecTdf>, t: TdfType, i: int)
    requires
        wf_elems(s, t),
        0 <= i < s.len(),
    ensures
        matches_type(s[i], t),
        wf_tdf(s[i]),
    decreases s.len(),
{
    if i > 0 {
        lemma_wf_elems_index(s.drop_first(), t, i - 1);
    }
}

} // verus!
