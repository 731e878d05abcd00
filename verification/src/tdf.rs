//! The tagged value model: value types, the recursive `Tdf` tree, and the
//! reader/writer traits shared by everything that appears on the wire.

use vstd::prelude::*;

use crate::varint::VarInt;
use crate::wire::{type_from, type_val, view_children, view_elems, view_vints, SpecLabeled, SpecTdf};

verus! {

broadcast use vstd::std_specs::vec::group_vec_axioms;

/// The closed set of wire type tags, with a catch-all for tags this codec
/// does not recognize.
#[derive(Clone, Copy, Debug, PartialEq, Eq, Structural)]
pub enum TdfType {
    VarInt,
    String,
    Blob,
    Group,
    List,
    Dict,
    Union,
    VarIntList,
    Pair,
    Tripple,
    Float,
    Unknown(u8),
}

impl TdfType {
    /// The numeric tag this type is written as.
    pub fn value(&self) -> (r: u8)
        ensures
            r == type_val(*self),
    {
        match self {
            TdfType::VarInt => 0x0,
            TdfType::String => 0x1,
            TdfType::Blob => 0x2,
            TdfType::Group => 0x3,
            TdfType::List => 0x4,
            TdfType::Dict => 0x5,
            TdfType::Union => 0x6,
            TdfType::VarIntList => 0x7,
            TdfType::Pair => 0x8,
            TdfType::Tripple => 0x9,
            TdfType::Float => 0xA,
            TdfType::Unknown(v) => *v,
        }
    }
}

impl From<u8> for TdfType {
    /// The type a numeric tag denotes; tags past the known set map to the
    /// catch-all that remembers the raw tag.
    fn from(value: u8) -> (r: Self) {
        match value {
            0x0 => TdfType::VarInt,
            0x1 => TdfType::String,
            0x2 => TdfType::Blob,
            0x3 => TdfType::Group,
            0x4 => TdfType::List,
            0x5 => TdfType::Dict,
            0x6 => TdfType::Union,
            0x7 => TdfType::VarIntList,
            0x8 => TdfType::Pair,
            0x9 => TdfType::Tripple,
            0xA => TdfType::Float,
            _ => TdfType::Unknown(value),
        }
    }
}

impl vstd::std_specs::convert::FromSpecImpl<u8> for TdfType {
    open spec fn obeys_from_spec() -> bool {
        true
    }

    open spec fn from_spec(v: u8) -> TdfType {
        type_from(v)
    }
}

/// The recursive tagged value: scalars, text and blob payloads, and the
/// composite shapes that recurse into the same model. Text and labels are
/// carried as bytes (text is valid UTF-8 by construction of the decoder);
/// a float is carried as the 32 bits of its IEEE-754 image.
#[derive(Debug, PartialEq)]
pub enum Tdf {
    VarInt(VarInt),
    String(Vec<u8>),
    Blob(Vec<u8>),
    Group(bool, Vec<LabeledTdf>),
    List(TdfType, Vec<Tdf>),
    Dict(TdfType, TdfType, Vec<Tdf>, Vec<Tdf>),
    Union(u8, Option<Box<LabeledTdf>>),
    VarIntList(Vec<VarInt>),
    Pair(VarInt, VarInt),
    Tripple(VarInt, VarInt, VarInt),
    Float(u32),
    Unknown,
}

/// A labeled tagged value: the human-readable label, the wire type, and
/// the value itself.
#[derive(Debug, PartialEq)]
pub struct LabeledTdf(pub Vec<u8>, pub TdfType, pub Tdf);

impl View for Tdf {
    type V = SpecTdf;

    open spec fn view(&self) -> SpecTdf {
        crate::wire::view_tdf(*self)
    }
}

impl View for LabeledTdf {
    type V = SpecLabeled;

    open spec fn view(&self) -> SpecLabeled {
        crate::wire::view_labeled(*self)
    }
}

/// Failures raised by the codec, per the protocol's error taxonomy:
/// truncation of the byte stream, malformed text, and structural errors
/// raised when projecting a decoded value.
#[derive(Clone, Copy, Debug, PartialEq, Eq, Structural)]
pub enum TdfError {
    /// The stream ended before a complete header, length or body was read.
    Truncated,
    /// A text payload was not valid UTF-8.
    InvalidUtf8,
    /// A label lookup found no child with the requested label.
    MissingLabel,
    /// A label lookup was attempted on a value that is not a group.
    NotGroup,
    /// A projection requested a different shape than the value has.
    InvalidType,
}

/// A value that can be serialized onto a byte stream. `enc` is the exact
/// byte sequence the value denotes; `write` appends precisely those bytes.
pub trait Writeable {
    /// Values outside this well-formedness predicate have no defined
    /// encoding (for example a union whose discriminant and payload disagree).
    spec fn wf(&self) -> bool;

    /// The byte sequence this value encodes to.
    spec fn enc(&self) -> Seq<u8>;

    /// Append this value's encoding to `o`.
    fn write(&self, o: &mut Vec<u8>)
        requires
            self.wf(),
        ensures
            final(o)@ == old(o)@ + self.enc(),
    ;
}

/// A value that can be decoded from a byte stream at a cursor. `dec` is the
/// spec-level parser over the suffix starting at the cursor: it yields the
/// decoded abstract value and the number of bytes consumed, or `None` when
/// the bytes do not form a value.
pub trait Readable: Sized + View {
    /// Spec-level parser for this type over a byte suffix.
    spec fn dec(s: Seq<u8>) -> Option<(Self::V, int)>;

    /// Decode one value from `data` starting at `*pos`, advancing `*pos`
    /// past the consumed bytes on success.
    fn read(data: &Vec<u8>, pos: &mut usize) -> (r: Result<Self, TdfError>)
        requires
            *old(pos) <= data@.len(),
        ensures
            (match Self::dec(data@.skip(*old(pos) as int)) {
                Some(p) => {
                    &&& r matches Ok(v) && v@ == p.0
                    &&& *final(pos) == *old(pos) + p.1
                    &&& *old(pos) <= *final(pos) <= data@.len()
                },
                None => {
                    &&& r matches Err(e) && (e == TdfError::Truncated || e
                        == TdfError::InvalidUtf8)
                    &&& *old(pos) <= *final(pos) <= data@.len()
                },
            }),
    ;
}

/// Append all of `b` to `o`.
fn write_bytes(b: &Vec<u8>, o: &mut Vec<u8>)
    ensures
        final(o)@ == old(o)@ + b@,
{
    let mut j: usize = 0;
    proof {
        assert(o@ =~= old(o)@ + b@.take(0));
    }
    while j < b.len()
        invariant
            j <= b@.len(),
            o@ == old(o)@ + b@.take(j as int),
        decreases b@.len() - j,
    {
        o.push(b[j]);
        proof {
            assert(o@ =~= old(o)@ + b@.take(j + 1));
        }
        j = j + 1;
    }
    proof {
        assert(b@.take(b@.len() as int) =~= b@);
    }
}

impl Writeable for Tdf {
    open spec fn wf(&self) -> bool {
        crate::wire::wf_tdf(self@)
    }

    open spec fn enc(&self) -> Seq<u8> {
        crate::wire::enc_tdf(self@)
    }

    #[verifier::rlimit(60)]
    fn write(&self, o: &mut Vec<u8>)
        decreases crate::wire::size_tdf(self@),
    {
        match self {
            Tdf::VarInt(x) => {
                x.write(o);
            },
            Tdf::String(b) => {
                let n: u64 = b.len() as u64;
                crate::varint::write_varint_word(n + 1, o);
                write_bytes(b, o);
                o.push(0u8);
                proof {
                    assert(o@ =~= old(o)@ + self.enc());
                }
            },
            Tdf::Blob(b) => {
                crate::varint::write_varint_word(b.len() as u64, o);
                write_bytes(b, o);
                proof {
                    assert(o@ =~= old(o)@ + self.enc());
                }
            },
            Tdf::Group(m, ch) => {
                if *m {
                    o.push(2u8);
                }
                let ghost chv = crate::wire::view_children(ch@);
                let ghost base = o@;
                let mut i: usize = 0;
                proof {
                    assert(chv.skip(0) =~= chv);
                    assert(base + crate::wire::enc_children(chv) =~= o@ + crate::wire::enc_children(
                        chv.skip(0),
                    ));
                    crate::wire::lemma_view_children_len(ch@);
                }
                while i < ch.len()
                    invariant
                        i <= ch@.len(),
                        chv == crate::wire::view_children(ch@),
                        chv.len() == ch@.len(),
                        crate::wire::wf_children(chv),
                        crate::wire::size_tdf(self@) == 1 + crate::wire::size_children(chv),
                        base + crate::wire::enc_children(chv) == o@ + crate::wire::enc_children(
                            chv.skip(i as int),
                        ),
                    decreases ch@.len() - i,
                {
                    proof {
                        crate::wire::lemma_view_children_index(ch@, i as int);
                        crate::wire::lemma_wf_children_index(chv, i as int);
                        crate::wire::lemma_size_children_index(chv, i as int);
                        assert(chv.skip(i as int)[0] == chv[i as int]);
                        assert(chv.skip(i as int).drop_first() =~= chv.skip(i as int + 1));
                    }
                    let child = &ch[i];
                    child.write(o);
                    i = i + 1;
                }
                o.push(0u8);
                proof {
                    assert(chv.skip(ch@.len() as int) =~= Seq::<crate::wire::SpecLabeled>::empty());
                    assert(o@ =~= old(o)@ + self.enc());
                }
            },
            Tdf::List(t, es) => {
                o.push(t.value());
                crate::varint::write_varint_word(es.len() as u64, o);
                let ghost esv = crate::wire::view_elems(es@);
                let ghost base = o@;
                let mut i: usize = 0;
                proof {
                    assert(esv.skip(0) =~= esv);
                    crate::wire::lemma_view_elems_len(es@);
                }
                while i < es.len()
                    invariant
                        i <= es@.len(),
                        esv == crate::wire::view_elems(es@),
                        esv.len() == es@.len(),
                        crate::wire::wf_elems(esv, *t),
                        crate::wire::size_tdf(self@) == 1 + crate::wire::size_elems(esv),
                        base + crate::wire::enc_elems(esv) == o@ + crate::wire::enc_elems(
                            esv.skip(i as int),
                        ),
                    decreases es@.len() - i,
                {
                    proof {
                        crate::wire::lemma_view_elems_index(es@, i as int);
                        crate::wire::lemma_wf_elems_index(esv, *t, i as int);
                        crate::wire::lemma_size_elems_index(esv, i as int);
                        assert(esv.skip(i as int)[0] == esv[i as int]);
                        assert(esv.skip(i as int).drop_first() =~= esv.skip(i as int + 1));
                    }
                    let e = &es[i];
                    e.write(o);
                    i = i + 1;
                }
                proof {
                    assert(esv.skip(es@.len() as int) =~= Seq::<crate::wire::SpecTdf>::empty());
                    assert(o@ =~= old(o)@ + self.enc());
                }
            },
            Tdf::Dict(kt, vt, ks, vs) => {
                o.push(kt.value());
                o.push(vt.value());
                crate::varint::write_varint_word(ks.len() as u64, o);
                let ghost ksv = crate::wire::view_elems(ks@);
                let ghost vsv = crate::wire::view_elems(vs@);
                let ghost base = o@;
                let mut i: usize = 0;
                proof {
                    assert(ksv.skip(0) =~= ksv);
                    assert(vsv.skip(0) =~= vsv);
                    crate::wire::lemma_view_elems_len(ks@);
                    crate::wire::lemma_view_elems_len(vs@);
                }
                while i < ks.len()
                    invariant
                        i <= ks@.len(),
                        ks@.len() == vs@.len(),
                        ksv == crate::wire::view_elems(ks@),
                        vsv == crate::wire::view_elems(vs@),
                        ksv.len() == ks@.len(),
                        vsv.len() == vs@.len(),
                        crate::wire::wf_elems(ksv, *kt),
                        crate::wire::wf_elems(vsv, *vt),
                        crate::wire::size_tdf(self@) == 1 + crate::wire::size_elems(ksv)
                            + crate::wire::size_elems(vsv),
                        base + crate::wire::enc_pairs(ksv, vsv) == o@ + crate::wire::enc_pairs(
                            ksv.skip(i as int),
                            vsv.skip(i as int),
                        ),
                    decreases ks@.len() - i,
                {
                    proof {
                        crate::wire::lemma_view_elems_index(ks@, i as int);
                        crate::wire::lemma_view_elems_index(vs@, i as int);
                        crate::wire::lemma_wf_elems_index(ksv, *kt, i as int);
                        crate::wire::lemma_wf_elems_index(vsv, *vt, i as int);
                        crate::wire::lemma_size_elems_index(ksv, i as int);
                        crate::wire::lemma_size_elems_index(vsv, i as int);
                        assert(ksv.skip(i as int)[0] == ksv[i as int]);
                        assert(vsv.skip(i as int)[0] == vsv[i as int]);
                        assert(ksv.skip(i as int).drop_first() =~= ksv.skip(i as int + 1));
                        assert(vsv.skip(i as int).drop_first() =~= vsv.skip(i as int + 1));
                    }
                    let k = &ks[i];
                    k.write(o);
                    let v = &vs[i];
                    v.write(o);
                    i = i + 1;
                }
                proof {
                    assert(ksv.skip(ks@.len() as int) =~= Seq::<crate::wire::SpecTdf>::empty());
                    assert(vsv.skip(vs@.len() as int) =~= Seq::<crate::wire::SpecTdf>::empty());
                    assert(o@ =~= old(o)@ + self.enc());
                }
            },
            Tdf::Union(d, p) => {
                o.push(*d);
                match p {
                    Option::Some(bl) => {
                        let ghost lv = crate::wire::view_labeled(**bl);
                        proof {
                            assert(self@ == SpecTdf::Union(*d, seq![lv]));
                            assert(seq![lv][0] == lv);
                            assert(seq![lv].drop_first() =~= Seq::<crate::wire::SpecLabeled>::empty());
                            assert(crate::wire::size_children(Seq::<crate::wire::SpecLabeled>::empty())
                                == 0);
                            assert(crate::wire::size_children(seq![lv]) == 1
                                + crate::wire::size_labeled(lv));
                            assert(crate::wire::size_tdf(self@) == 2 + crate::wire::size_labeled(lv));
                            assert(crate::wire::wf_children(seq![lv]));
                        }
                        bl.write(o);
                        proof {
                            assert(crate::wire::enc_children(Seq::<crate::wire::SpecLabeled>::empty())
                                =~= Seq::<u8>::empty());
                            assert(crate::wire::enc_children(seq![lv]) =~= crate::wire::enc_labeled(
                                lv,
                            ));
                            assert(o@ =~= old(o)@ + self.enc());
                        }
                    },
                    Option::None => {
                        proof {
                            assert(o@ =~= old(o)@ + self.enc());
                        }
                    },
                }
            },
            Tdf::VarIntList(vs) => {
                crate::varint::write_varint_word(vs.len() as u64, o);
                let ghost vsv = crate::wire::view_vints(vs@);
                let ghost base = o@;
                let mut i: usize = 0;
                proof {
                    assert(vsv.skip(0) =~= vsv);
                }
                while i < vs.len()
                    invariant
                        i <= vs@.len(),
                        vsv == crate::wire::view_vints(vs@),
                        vsv.len() == vs@.len(),
                        base + crate::wire::enc_vints(vsv) == o@ + crate::wire::enc_vints(
                            vsv.skip(i as int),
                        ),
                    decreases vs@.len() - i,
                {
                    proof {
                        assert(vsv.skip(i as int)[0] == vsv[i as int]);
                        assert(vsv[i as int] == vs@[i as int].0);
                        assert(vsv.skip(i as int).drop_first() =~= vsv.skip(i as int + 1));
                    }
                    let x = vs[i];
                    x.write(o);
                    i = i + 1;
                }
                proof {
                    assert(vsv.skip(vs@.len() as int) =~= Seq::<i64>::empty());
                    assert(o@ =~= old(o)@ + self.enc());
                }
            },
            Tdf::Pair(a, b) => {
                a.write(o);
                b.write(o);
                proof {
                    assert(o@ =~= old(o)@ + self.enc());
                }
            },
            Tdf::Tripple(a, b, c) => {
                a.write(o);
                b.write(o);
                c.write(o);
                proof {
                    assert(o@ =~= old(o)@ + self.enc());
                }
            },
            Tdf::Float(w) => {
                let w: u32 = *w;
                o.push((w / 0x100_0000) as u8);
                o.push(((w / 0x1_0000) % 0x100) as u8);
                o.push(((w / 0x100) % 0x100) as u8);
                o.push((w % 0x100) as u8);
                proof {
                    assert(o@ =~= old(o)@ + self.enc());
                }
            },
            Tdf::Unknown => {
                proof {
                    assert(o@ =~= old(o)@ + self.enc());
                }
            },
        }
    }
}

/// Read exactly `n` raw bytes at the cursor.
pub(crate) fn read_bytes(data: &Vec<u8>, pos: &mut usize, n: usize) -> (r: Vec<u8>)
    requires
        *old(pos) + n <= data@.len(),
    ensures
        r@ == data@.subrange(*old(pos) as int, *old(pos) + n),
        *final(pos) == *old(pos) + n,
{
    let dlen: usize = data.len();
    let mut r: Vec<u8> = Vec::new();
    let mut j: usize = 0;
    while j < n
        invariant
            j <= n,
            *pos == *old(pos) + j,
            *old(pos) + n <= dlen,
            dlen == data@.len(),
            r@ == data@.subrange(*old(pos) as int, *old(pos) + j),
        decreases n - j,
    {
        r.push(data[*pos]);
        *pos = *pos + 1;
        j = j + 1;
        proof {
            assert(r@ =~= data@.subrange(*old(pos) as int, *old(pos) + j));
        }
    }
    r
}

/// Read one variable-length integer and hand back the 64-bit pattern it
/// carries, the form the composite shapes use for their counts and lengths.
fn read_count(data: &Vec<u8>, pos: &mut usize) -> (r: Result<u64, TdfError>)
    requires
        *old(pos) <= data@.len(),
    ensures
        (match crate::varint::varint_dec(data@.skip(*old(pos) as int)) {
            Some(p) => {
                &&& r matches Ok(c) && c == crate::varint::word_of(p.0)
                &&& *final(pos) == *old(pos) + p.1
                &&& *old(pos) <= *final(pos) <= data@.len()
            },
            None => {
                &&& r matches Err(e) && (e == TdfError::Truncated || e
                    == TdfError::InvalidUtf8)
                &&& *old(pos) <= *final(pos) <= data@.len()
            },
        }),
{
    match VarInt::read(data, pos) {
        Ok(v) => {
            proof {
                crate::varint::lemma_cast_bits_of(v.0);
                if let Some(p) = crate::varint::varint_dec(data@.skip(*old(pos) as int)) {
                    crate::varint::lemma_bits_signed_of(crate::varint::word_of(p.0));
                }
            }
            Ok(v.0 as u64)
        },
        Err(e) => Err(e),
    }
}

impl Tdf {
    /// Decode one value body of the given shape from `data` at `*pos`,
    /// advancing the cursor past the consumed bytes on success. The
    /// contract ties the outcome exactly to the spec-level parser.
    #[verifier::rlimit(100)]
    #[verifier::spinoff_prover]
    pub fn read(data: &Vec<u8>, pos: &mut usize, tdf_type: &TdfType) -> (r: Result<
        Tdf,
        TdfError,
    >)
        requires
            *old(pos) <= data@.len(),
        ensures
            (match crate::wire::dec_value(data@.skip(*old(pos) as int), *tdf_type) {
                Some(p) => {
                    &&& r matches Ok(v) && v@ == p.0
                    &&& *final(pos) == *old(pos) + p.1
                    &&& *old(pos) <= *final(pos) <= data@.len()
                },
                None => {
                    &&& r matches Err(e) && (e == TdfError::Truncated || e
                        == TdfError::InvalidUtf8)
                    &&& *old(pos) <= *final(pos) <= data@.len()
                },
            }),
        decreases data@.len() - *old(pos), 3int,
    {
        let ghost s = data@.skip(*old(pos) as int);
        match tdf_type {
            TdfType::VarInt => {
                match VarInt::read(data, pos) {
                    Ok(v) => Ok(Tdf::VarInt(v)),
                    Err(e) => Err(e),
                }
            },
            TdfType::String => read_string(data, pos),
            TdfType::Blob => read_blob(data, pos),
            TdfType::Group => read_group(data, pos),
            TdfType::List => read_list(data, pos),
            TdfType::Dict => read_dict(data, pos),
            TdfType::Union => read_union(data, pos),
            TdfType::VarIntList => read_vilist(data, pos),
            TdfType::Pair => read_pair(data, pos),
            TdfType::Tripple => read_tripple(data, pos),
            TdfType::Float => read_float(data, pos),
            TdfType::Unknown(_) => Ok(Tdf::Unknown),
        }
    }
}

/// Decode a text body: a length, the text, one trailing NUL to discard.
fn read_string(data: &Vec<u8>, pos: &mut usize) -> (r: Result<Tdf, TdfError>)
    requires
        *old(pos) <= data@.len(),
    ensures
        (match crate::wire::dec_value(data@.skip(*old(pos) as int), TdfType::String) {
            Some(p) => {
                &&& r matches Ok(v) && v@ == p.0
                &&& *final(pos) == *old(pos) + p.1
                &&& *old(pos) <= *final(pos) <= data@.len()
            },
            None => {
                &&& r matches Err(e) && (e == TdfError::Truncated || e
                    == TdfError::InvalidUtf8)
                &&& *old(pos) <= *final(pos) <= data@.len()
            },
        }),
{
    let ghost s = data@.skip(*old(pos) as int);
    let n = match read_count(data, pos) {
        Ok(c) => c,
        Err(e) => return Err(e),
    };
    let ghost vstart = *pos as int;
    if n == 0 {
        return Ok(Tdf::String(Vec::new()));
    }
    let rem: usize = data.len() - *pos;
    if n > rem as u64 {
        return Err(TdfError::Truncated);
    }
    let m: usize = (n - 1) as usize;
    let text = read_bytes(data, pos, m);
    proof {
        assert(*pos < data@.len());
    }
    *pos = *pos + 1;
    proof {
        assert(text@ =~= s.subrange(
            vstart - *old(pos),
            vstart - *old(pos) + n - 1,
        ));
    }
    if !crate::utf8::is_valid_utf8(&text) {
        return Err(TdfError::InvalidUtf8);
    }
    Ok(Tdf::String(text))
}

/// Decode a blob body: a length and that many raw bytes.
fn read_blob(data: &Vec<u8>, pos: &mut usize) -> (r: Result<Tdf, TdfError>)
    requires
        *old(pos) <= data@.len(),
    ensures
        (match crate::wire::dec_value(data@.skip(*old(pos) as int), TdfType::Blob) {
            Some(p) => {
                &&& r matches Ok(v) && v@ == p.0
                &&& *final(pos) == *old(pos) + p.1
                &&& *old(pos) <= *final(pos) <= data@.len()
            },
            None => {
                &&& r matches Err(e) && (e == TdfError::Truncated || e
                    == TdfError::InvalidUtf8)
                &&& *old(pos) <= *final(pos) <= data@.len()
            },
        }),
{
    let ghost s = data@.skip(*old(pos) as int);
    let n = match read_count(data, pos) {
        Ok(c) => c,
        Err(e) => return Err(e),
    };
    let ghost vstart = *pos as int;
    let rem: usize = data.len() - *pos;
    if n > rem as u64 {
        return Err(TdfError::Truncated);
    }
    let m: usize = n as usize;
    let bytes = read_bytes(data, pos, m);
    proof {
        assert(bytes@ =~= s.subrange(vstart - *old(pos), vstart - *old(pos) + n));
    }
    Ok(Tdf::Blob(bytes))
}

/// Whether two byte vectors hold the same bytes.
fn bytes_eq(a: &Vec<u8>, b: &Vec<u8>) -> (r: bool)
    ensures
        r == (a@ == b@),
{
    if a.len() != b.len() {
        proof {
            assert(a@.len() != b@.len());
        }
        return false;
    }
    let mut j: usize = 0;
    while j < a.len()
        invariant
            j <= a@.len(),
            a@.len() == b@.len(),
            forall|i: int| 0 <= i < j ==> a@[i] == b@[i],
        decreases a@.len() - j,
    {
        if a[j] != b[j] {
            return false;
        }
        j = j + 1;
    }
    proof {
        assert(a@ =~= b@);
    }
    true
}

impl Tdf {
    /// Project the text of the first child of this group carrying the
    /// given label: the text bytes when that child is a string, a typed
    /// failure when it is not, when no child has the label, or when this
    /// value is not a group at all.
    pub fn get_text(&self, label: &Vec<u8>) -> (r: Result<Vec<u8>, TdfError>)
        ensures
            (match self@ {
                SpecTdf::Group(_, ch) => {
                    match crate::wire::find_label(ch, label@) {
                        Some(l) => {
                            match l.value {
                                SpecTdf::String(b) => r matches Ok(t) && t@ == b,
                                _ => r == Err::<Vec<u8>, TdfError>(TdfError::InvalidType),
                            }
                        },
                        None => r == Err::<Vec<u8>, TdfError>(TdfError::MissingLabel),
                    }
                },
                _ => r == Err::<Vec<u8>, TdfError>(TdfError::NotGroup),
            }),
    {
        match self {
            Tdf::Group(_, ch) => {
                let ghost chv = view_children(ch@);
                let mut i: usize = 0;
                proof {
                    crate::wire::lemma_view_children_len(ch@);
                    assert(chv.skip(0) =~= chv);
                }
                while i < ch.len()
                    invariant
                        i <= ch@.len(),
                        chv == view_children(ch@),
                        chv.len() == ch@.len(),
                        (self@ matches SpecTdf::Group(_, cc) && cc == chv),
                        crate::wire::find_label(chv, label@) == crate::wire::find_label(
                            chv.skip(i as int),
                            label@,
                        ),
                    decreases ch@.len() - i,
                {
                    proof {
                        crate::wire::lemma_view_children_index(ch@, i as int);
                        assert(chv.skip(i as int)[0] == chv[i as int]);
                        assert(chv.skip(i as int).drop_first() =~= chv.skip(i as int + 1));
                    }
                    if bytes_eq(&ch[i].0, label) {
                        match &ch[i].2 {
                            Tdf::String(text) => {
                                let mut out: Vec<u8> = Vec::new();
                                let mut j: usize = 0;
                                while j < text.len()
                                    invariant
                                        j <= text@.len(),
                                        out@ == text@.take(j as int),
                                    decreases text@.len() - j,
                                {
                                    out.push(text[j]);
                                    j = j + 1;
                                    proof {
                                        assert(out@ =~= text@.take(j as int));
                                    }
                                }
                                proof {
                                    assert(text@.take(text@.len() as int) =~= text@);
                                }
                                return Ok(out);
                            },
                            _ => {
                                return Err(TdfError::InvalidType);
                            },
                        }
                    }
                    i = i + 1;
                }
                proof {
                    assert(chv.skip(ch@.len() as int).len() == 0);
                }
                Err(TdfError::MissingLabel)
            },
            _ => Err(TdfError::NotGroup),
        }
    }
}

/// Decode a union body: a discriminant, then one labeled payload unless
/// the discriminant marks the union as empty.
fn read_union(data: &Vec<u8>, pos: &mut usize) -> (r: Result<Tdf, TdfError>)
    requires
        *old(pos) <= data@.len(),
    ensures
        (match crate::wire::dec_value(data@.skip(*old(pos) as int), TdfType::Union) {
            Some(p) => {
                &&& r matches Ok(v) && v@ == p.0
                &&& *final(pos) == *old(pos) + p.1
                &&& *old(pos) <= *final(pos) <= data@.len()
            },
            None => {
                &&& r matches Err(e) && (e == TdfError::Truncated || e
                    == TdfError::InvalidUtf8)
                &&& *old(pos) <= *final(pos) <= data@.len()
            },
        }),
    decreases data@.len() - *old(pos), 0int,
{
    let ghost s = data@.skip(*old(pos) as int);
    if *pos >= data.len() {
        return Err(TdfError::Truncated);
    }
    let d = data[*pos];
    *pos = *pos + 1;
    proof {
        assert(s[0] == d);
        assert(s.skip(1) =~= data@.skip(*pos as int));
    }
    if d == 0x7F {
        Ok(Tdf::Union(d, None))
    } else {
        match LabeledTdf::read(data, pos) {
            Ok(child) => {
                proof {
                    crate::wire::lemma_dec_labeled_bound(s.skip(1));
                }
                Ok(Tdf::Union(d, Some(Box::new(child))))
            },
            Err(e) => Err(e),
        }
    }
}

/// Decode a pair body: two consecutive variable-length integers.
fn read_pair(data: &Vec<u8>, pos: &mut usize) -> (r: Result<Tdf, TdfError>)
    requires
        *old(pos) <= data@.len(),
    ensures
        (match crate::wire::dec_value(data@.skip(*old(pos) as int), TdfType::Pair) {
            Some(p) => {
                &&& r matches Ok(v) && v@ == p.0
                &&& *final(pos) == *old(pos) + p.1
                &&& *old(pos) <= *final(pos) <= data@.len()
            },
            None => {
                &&& r matches Err(e) && (e == TdfError::Truncated || e
                    == TdfError::InvalidUtf8)
                &&& *old(pos) <= *final(pos) <= data@.len()
            },
        }),
{
    let ghost s = data@.skip(*old(pos) as int);
    let a = match VarInt::read(data, pos) {
        Ok(v) => v,
        Err(e) => return Err(e),
    };
    proof {
        assert(s.skip(*pos - *old(pos)) =~= data@.skip(*pos as int));
    }
    let b = match VarInt::read(data, pos) {
        Ok(v) => v,
        Err(e) => return Err(e),
    };
    Ok(Tdf::Pair(a, b))
}

/// Decode a triple body: three consecutive variable-length integers.
fn read_tripple(data: &Vec<u8>, pos: &mut usize) -> (r: Result<Tdf, TdfError>)
    requires
        *old(pos) <= data@.len(),
    ensures
        (match crate::wire::dec_value(data@.skip(*old(pos) as int), TdfType::Tripple) {
            Some(p) => {
                &&& r matches Ok(v) && v@ == p.0
                &&& *final(pos) == *old(pos) + p.1
                &&& *old(pos) <= *final(pos) <= data@.len()
            },
            None => {
                &&& r matches Err(e) && (e == TdfError::Truncated || e
                    == TdfError::InvalidUtf8)
                &&& *old(pos) <= *final(pos) <= data@.len()
            },
        }),
{
    let ghost s = data@.skip(*old(pos) as int);
    let a = match VarInt::read(data, pos) {
        Ok(v) => v,
        Err(e) => return Err(e),
    };
    proof {
        assert(s.skip(*pos - *old(pos)) =~= data@.skip(*pos as int));
    }
    let b = match VarInt::read(data, pos) {
        Ok(v) => v,
        Err(e) => return Err(e),
    };
    proof {
        assert(s.skip(*pos - *old(pos)) =~= data@.skip(*pos as int));
    }
    let c = match VarInt::read(data, pos) {
        Ok(v) => v,
        Err(e) => return Err(e),
    };
    Ok(Tdf::Tripple(a, b, c))
}

/// Decode a float body: the four big-endian bytes of its IEEE-754 image.
fn read_float(data: &Vec<u8>, pos: &mut usize) -> (r: Result<Tdf, TdfError>)
    requires
        *old(pos) <= data@.len(),
    ensures
        (match crate::wire::dec_value(data@.skip(*old(pos) as int), TdfType::Float) {
            Some(p) => {
                &&& r matches Ok(v) && v@ == p.0
                &&& *final(pos) == *old(pos) + p.1
                &&& *old(pos) <= *final(pos) <= data@.len()
            },
            None => {
                &&& r matches Err(e) && (e == TdfError::Truncated || e
                    == TdfError::InvalidUtf8)
                &&& *old(pos) <= *final(pos) <= data@.len()
            },
        }),
{
    let ghost s = data@.skip(*old(pos) as int);
    if data.len() - *pos < 4 {
        return Err(TdfError::Truncated);
    }
    let b0 = data[*pos];
    let b1 = data[*pos + 1];
    let b2 = data[*pos + 2];
    let b3 = data[*pos + 3];
    let w: u32 = (b0 as u32) * 0x100_0000 + (b1 as u32) * 0x1_0000 + (b2 as u32) * 0x100 + (
    b3 as u32);
    *pos = *pos + 4;
    proof {
        assert(s[0] == b0 && s[1] == b1 && s[2] == b2 && s[3] == b3);
    }
    Ok(Tdf::Float(w))
}

/// Decode a group body: an optional start marker, labeled children up to
/// the zero terminator.
fn read_group(data: &Vec<u8>, pos: &mut usize) -> (r: Result<Tdf, TdfError>)
    requires
        *old(pos) <= data@.len(),
    ensures
        (match crate::wire::dec_value(data@.skip(*old(pos) as int), TdfType::Group) {
            Some(p) => {
                &&& r matches Ok(v) && v@ == p.0
                &&& *final(pos) == *old(pos) + p.1
                &&& *old(pos) <= *final(pos) <= data@.len()
            },
            None => {
                &&& r matches Err(e) && (e == TdfError::Truncated || e
                    == TdfError::InvalidUtf8)
                &&& *old(pos) <= *final(pos) <= data@.len()
            },
        }),
    decreases data@.len() - *old(pos), 2int,
{
    let ghost s = data@.skip(*old(pos) as int);
    if *pos >= data.len() {
        return Err(TdfError::Truncated);
    }
    let mut marker = false;
    if data[*pos] == 2 {
        marker = true;
        *pos = *pos + 1;
    }
    proof {
        if marker {
            assert(s.skip(1) =~= data@.skip(*pos as int));
        } else {
            assert(s =~= data@.skip(*pos as int));
        }
    }
    match read_children(data, pos) {
        Ok(children) => Ok(Tdf::Group(marker, children)),
        Err(e) => Err(e),
    }
}

/// Decode a run of labeled children up to and including the zero
/// terminator of the enclosing group.
#[verifier::loop_isolation(false)]
#[verifier::rlimit(100)]
#[verifier::spinoff_prover]
fn read_children(data: &Vec<u8>, pos: &mut usize) -> (r: Result<Vec<LabeledTdf>, TdfError>)
    requires
        *old(pos) <= data@.len(),
    ensures
        (match crate::wire::dec_children(data@.skip(*old(pos) as int)) {
            Some(p) => {
                &&& r matches Ok(v) && view_children(v@) == p.0
                &&& *final(pos) == *old(pos) + p.1
                &&& *old(pos) <= *final(pos) <= data@.len()
            },
            None => {
                &&& r matches Err(e) && (e == TdfError::Truncated || e
                    == TdfError::InvalidUtf8)
                &&& *old(pos) <= *final(pos) <= data@.len()
            },
        }),
    decreases data@.len() - *old(pos), 1int,
{
    let mut children: Vec<LabeledTdf> = Vec::new();
    proof {
        assert(view_children(children@) =~= Seq::<SpecLabeled>::empty());
    }
    loop
        invariant
            *old(pos) <= *pos <= data@.len(),
            (match crate::wire::dec_children(data@.skip(*pos as int)) {
                Some(q) => crate::wire::dec_children(data@.skip(*old(pos) as int)) == Some(
                    (view_children(children@) + q.0, (*pos - *old(pos)) + q.1),
                ),
                None => crate::wire::dec_children(data@.skip(*old(pos) as int)) is None,
            }),
        decreases data@.len() - *pos,
    {
        if *pos >= data.len() {
            proof {
                assert(data@.skip(*pos as int).len() == 0);
            }
            return Err(TdfError::Truncated);
        }
        let ghost scur = data@.skip(*pos as int);
        let b = data[*pos];
        proof {
            assert(scur[0] == b);
        }
        if b == 0 {
            *pos = *pos + 1;
            proof {
                assert(view_children(children@) + Seq::<SpecLabeled>::empty() =~= view_children(
                    children@,
                ));
            }
            return Ok(children);
        }
        let ghost ppre = *pos as int;
        let child = match LabeledTdf::read(data, pos) {
            Ok(c) => c,
            Err(e) => return Err(e),
        };
        proof {
            crate::wire::lemma_dec_labeled_bound(scur);
            assert(scur.skip(*pos - ppre) =~= data@.skip(*pos as int));
        }
        let ghost chpre = children@;
        children.push(child);
        proof {
            crate::wire::lemma_view_children_push(chpre, child);
            if let Some(q2) = crate::wire::dec_children(data@.skip(*pos as int)) {
                if let Some(p) = crate::wire::dec_labeled(scur) {
                    assert(view_children(chpre) + (seq![p.0] + q2.0) =~= view_children(
                        children@,
                    ) + q2.0);
                }
            }
        }
    }
}

/// Decode a list body: an element type, a count, then that many elements.
fn read_list(data: &Vec<u8>, pos: &mut usize) -> (r: Result<Tdf, TdfError>)
    requires
        *old(pos) <= data@.len(),
    ensures
        (match crate::wire::dec_value(data@.skip(*old(pos) as int), TdfType::List) {
            Some(p) => {
                &&& r matches Ok(v) && v@ == p.0
                &&& *final(pos) == *old(pos) + p.1
                &&& *old(pos) <= *final(pos) <= data@.len()
            },
            None => {
                &&& r matches Err(e) && (e == TdfError::Truncated || e
                    == TdfError::InvalidUtf8)
                &&& *old(pos) <= *final(pos) <= data@.len()
            },
        }),
    decreases data@.len() - *old(pos), 0int,
{
    let ghost s = data@.skip(*old(pos) as int);
    if *pos >= data.len() {
        return Err(TdfError::Truncated);
    }
    let te = TdfType::from(data[*pos]);
    *pos = *pos + 1;
    proof {
        assert(s.skip(1) =~= data@.skip(*pos as int));
    }
    let n = match read_count(data, pos) {
        Ok(c) => c,
        Err(e) => return Err(e),
    };
    proof {
        if let Some(p) = crate::varint::varint_dec(s.skip(1)) {
            assert(s.skip(1 + p.1) =~= data@.skip(*pos as int));
        }
    }
    match read_elems(data, pos, &te, n) {
        Ok(elems) => Ok(Tdf::List(te, elems)),
        Err(e) => Err(e),
    }
}

/// Decode `n` consecutive value bodies of shape `te`.
#[verifier::loop_isolation(false)]
#[verifier::rlimit(100)]
#[verifier::spinoff_prover]
fn read_elems(data: &Vec<u8>, pos: &mut usize, te: &TdfType, n: u64) -> (r: Result<
    Vec<Tdf>,
    TdfError,
>)
    requires
        *old(pos) <= data@.len(),
    ensures
        (match crate::wire::dec_elems(data@.skip(*old(pos) as int), *te, n as nat) {
            Some(p) => {
                &&& r matches Ok(v) && view_elems(v@) == p.0
                &&& *final(pos) == *old(pos) + p.1
                &&& *old(pos) <= *final(pos) <= data@.len()
            },
            None => {
                &&& r matches Err(e) && (e == TdfError::Truncated || e
                    == TdfError::InvalidUtf8)
                &&& *old(pos) <= *final(pos) <= data@.len()
            },
        }),
    decreases data@.len() - *old(pos), 4int,
{
    let mut elems: Vec<Tdf> = Vec::new();
    let mut i: u64 = 0;
    proof {
        assert(view_elems(elems@) =~= Seq::<SpecTdf>::empty());
    }
    while i < n
        invariant
            *old(pos) <= *pos <= data@.len(),
            i <= n,
            (match crate::wire::dec_elems(data@.skip(*pos as int), *te, (n - i) as nat) {
                Some(q) => crate::wire::dec_elems(data@.skip(*old(pos) as int), *te, n as nat)
                    == Some((view_elems(elems@) + q.0, (*pos - *old(pos)) + q.1)),
                None => crate::wire::dec_elems(data@.skip(*old(pos) as int), *te, n as nat)
                    is None,
            }),
        decreases n - i,
    {
        let ghost scur = data@.skip(*pos as int);
        let ghost ppre = *pos as int;
        let e = match Tdf::read(data, pos, te) {
            Ok(v) => v,
            Err(er) => return Err(er),
        };
        proof {
            assert(scur.skip(*pos - ppre) =~= data@.skip(*pos as int));
        }
        let ghost espre = elems@;
        elems.push(e);
        i = i + 1;
        proof {
            crate::wire::lemma_view_elems_push(espre, e);
            if let Some(q2) = crate::wire::dec_elems(
                data@.skip(*pos as int),
                *te,
                (n - i) as nat,
            ) {
                if let Some(p) = crate::wire::dec_value(scur, *te) {
                    assert(view_elems(espre) + (seq![p.0] + q2.0) =~= view_elems(elems@)
                        + q2.0);
                }
            }
        }
    }
    proof {
        assert(view_elems(elems@) + Seq::<SpecTdf>::empty() =~= view_elems(elems@));
    }
    Ok(elems)
}

/// Decode a map body: key and value types, a count, then that many
/// interleaved key and value bodies, kept as two parallel sequences.
fn read_dict(data: &Vec<u8>, pos: &mut usize) -> (r: Result<Tdf, TdfError>)
    requires
        *old(pos) <= data@.len(),
    ensures
        (match crate::wire::dec_value(data@.skip(*old(pos) as int), TdfType::Dict) {
            Some(p) => {
                &&& r matches Ok(v) && v@ == p.0
                &&& *final(pos) == *old(pos) + p.1
                &&& *old(pos) <= *final(pos) <= data@.len()
            },
            None => {
                &&& r matches Err(e) && (e == TdfError::Truncated || e
                    == TdfError::InvalidUtf8)
                &&& *old(pos) <= *final(pos) <= data@.len()
            },
        }),
    decreases data@.len() - *old(pos), 0int,
{
    let ghost s = data@.skip(*old(pos) as int);
    if data.len() - *pos < 2 {
        return Err(TdfError::Truncated);
    }
    let kt = TdfType::from(data[*pos]);
    let vt = TdfType::from(data[*pos + 1]);
    *pos = *pos + 2;
    proof {
        assert(s.skip(2) =~= data@.skip(*pos as int));
    }
    let n = match read_count(data, pos) {
        Ok(c) => c,
        Err(e) => return Err(e),
    };
    proof {
        if let Some(p) = crate::varint::varint_dec(s.skip(2)) {
            assert(s.skip(2 + p.1) =~= data@.skip(*pos as int));
        }
    }
    match read_pairs(data, pos, &kt, &vt, n) {
        Ok((keys, vals)) => Ok(Tdf::Dict(kt, vt, keys, vals)),
        Err(e) => Err(e),
    }
}

/// Decode `n` interleaved key and value bodies into parallel vectors.
#[verifier::loop_isolation(false)]
#[verifier::rlimit(100)]
#[verifier::spinoff_prover]
fn read_pairs(data: &Vec<u8>, pos: &mut usize, kt: &TdfType, vt: &TdfType, n: u64) -> (r:
    Result<(Vec<Tdf>, Vec<Tdf>), TdfError>)
    requires
        *old(pos) <= data@.len(),
    ensures
        (match crate::wire::dec_pairs(data@.skip(*old(pos) as int), *kt, *vt, n as nat) {
            Some(p) => {
                &&& r matches Ok(v) && view_elems(v.0@) == p.0.0 && view_elems(v.1@) == p.0.1
                &&& *final(pos) == *old(pos) + p.1
                &&& *old(pos) <= *final(pos) <= data@.len()
            },
            None => {
                &&& r matches Err(e) && (e == TdfError::Truncated || e
                    == TdfError::InvalidUtf8)
                &&& *old(pos) <= *final(pos) <= data@.len()
            },
        }),
    decreases data@.len() - *old(pos), 4int,
{
    let mut keys: Vec<Tdf> = Vec::new();
    let mut vals: Vec<Tdf> = Vec::new();
    let mut i: u64 = 0;
    proof {
        assert(view_elems(keys@) =~= Seq::<SpecTdf>::empty());
        assert(view_elems(vals@) =~= Seq::<SpecTdf>::empty());
    }
    while i < n
        invariant
            *old(pos) <= *pos <= data@.len(),
            i <= n,
            (match crate::wire::dec_pairs(data@.skip(*pos as int), *kt, *vt, (n - i) as nat) {
                Some(q) => crate::wire::dec_pairs(
                    data@.skip(*old(pos) as int),
                    *kt,
                    *vt,
                    n as nat,
                ) == Some(
                    (
                        (view_elems(keys@) + q.0.0, view_elems(vals@) + q.0.1),
                        (*pos - *old(pos)) + q.1,
                    ),
                ),
                None => crate::wire::dec_pairs(data@.skip(*old(pos) as int), *kt, *vt, n as nat)
                    is None,
            }),
        decreases n - i,
    {
        let ghost scur = data@.skip(*pos as int);
        let ghost ppre = *pos as int;
        let k = match Tdf::read(data, pos, kt) {
            Ok(v) => v,
            Err(er) => return Err(er),
        };
        proof {
            assert(scur.skip(*pos - ppre) =~= data@.skip(*pos as int));
        }
        let ghost smid = data@.skip(*pos as int);
        let ghost pmid = *pos as int;
        let v = match Tdf::read(data, pos, vt) {
            Ok(v) => v,
            Err(er) => return Err(er),
        };
        proof {
            assert(smid.skip(*pos - pmid) =~= data@.skip(*pos as int));
            assert(scur.skip(*pos - ppre) =~= data@.skip(*pos as int));
        }
        let ghost kspre = keys@;
        let ghost vspre = vals@;
        keys.push(k);
        vals.push(v);
        i = i + 1;
        proof {
            crate::wire::lemma_view_elems_push(kspre, k);
            crate::wire::lemma_view_elems_push(vspre, v);
            if let Some(q2) = crate::wire::dec_pairs(
                data@.skip(*pos as int),
                *kt,
                *vt,
                (n - i) as nat,
            ) {
                if let Some(p) = crate::wire::dec_value(scur, *kt) {
                    if let Some(q) = crate::wire::dec_value(smid, *vt) {
                        assert(view_elems(kspre) + (seq![p.0] + q2.0.0) =~= view_elems(keys@)
                            + q2.0.0);
                        assert(view_elems(vspre) + (seq![q.0] + q2.0.1) =~= view_elems(vals@)
                            + q2.0.1);
                    }
                }
            }
        }
    }
    proof {
        assert(view_elems(keys@) + Seq::<SpecTdf>::empty() =~= view_elems(keys@));
        assert(view_elems(vals@) + Seq::<SpecTdf>::empty() =~= view_elems(vals@));
    }
    Ok((keys, vals))
}

/// Decode a list of variable-length integers: a count then that many
/// integers.
fn read_vilist(data: &Vec<u8>, pos: &mut usize) -> (r: Result<Tdf, TdfError>)
    requires
        *old(pos) <= data@.len(),
    ensures
        (match crate::wire::dec_value(data@.skip(*old(pos) as int), TdfType::VarIntList) {
            Some(p) => {
                &&& r matches Ok(v) && v@ == p.0
                &&& *final(pos) == *old(pos) + p.1
                &&& *old(pos) <= *final(pos) <= data@.len()
            },
            None => {
                &&& r matches Err(e) && (e == TdfError::Truncated || e
                    == TdfError::InvalidUtf8)
                &&& *old(pos) <= *final(pos) <= data@.len()
            },
        }),
{
    let ghost s = data@.skip(*old(pos) as int);
    let n = match read_count(data, pos) {
        Ok(c) => c,
        Err(e) => return Err(e),
    };
    proof {
        if let Some(p) = crate::varint::varint_dec(s) {
            assert(s.skip(p.1) =~= data@.skip(*pos as int));
        }
    }
    match read_vints(data, pos, n) {
        Ok(vints) => Ok(Tdf::VarIntList(vints)),
        Err(e) => Err(e),
    }
}

/// Decode `n` consecutive variable-length integers.
#[verifier::loop_isolation(false)]
#[verifier::rlimit(100)]
#[verifier::spinoff_prover]
fn read_vints(data: &Vec<u8>, pos: &mut usize, n: u64) -> (r: Result<Vec<VarInt>, TdfError>)
    requires
        *old(pos) <= data@.len(),
    ensures
        (match crate::wire::dec_vints(data@.skip(*old(pos) as int), n as nat) {
            Some(p) => {
                &&& r matches Ok(v) && view_vints(v@) == p.0
                &&& *final(pos) == *old(pos) + p.1
                &&& *old(pos) <= *final(pos) <= data@.len()
            },
            None => {
                &&& r matches Err(e) && (e == TdfError::Truncated || e
                    == TdfError::InvalidUtf8)
                &&& *old(pos) <= *final(pos) <= data@.len()
            },
        }),
{
    let mut vints: Vec<VarInt> = Vec::new();
    let mut i: u64 = 0;
    proof {
        assert(view_vints(vints@) =~= Seq::<i64>::empty());
    }
    while i < n
        invariant
            *old(pos) <= *pos <= data@.len(),
            i <= n,
            (match crate::wire::dec_vints(data@.skip(*pos as int), (n - i) as nat) {
                Some(q) => crate::wire::dec_vints(data@.skip(*old(pos) as int), n as nat)
                    == Some((view_vints(vints@) + q.0, (*pos - *old(pos)) + q.1)),
                None => crate::wire::dec_vints(data@.skip(*old(pos) as int), n as nat) is None,
            }),
        decreases n - i,
    {
        let ghost scur = data@.skip(*pos as int);
        let ghost ppre = *pos as int;
        let x = match VarInt::read(data, pos) {
            Ok(v) => v,
            Err(er) => return Err(er),
        };
        proof {
            crate::varint::lemma_varint_dec_bound(scur);
            assert(scur.skip(*pos - ppre) =~= data@.skip(*pos as int));
        }
        let ghost vipre = vints@;
        vints.push(x);
        i = i + 1;
        proof {
            assert(view_vints(vints@) =~= view_vints(vipre) + seq![x.0]);
            if let Some(q2) = crate::wire::dec_vints(data@.skip(*pos as int), (n - i) as nat) {
                if let Some(p) = crate::varint::varint_dec(scur) {
                    assert(view_vints(vipre) + (seq![crate::varint::signed_of(
                        crate::varint::word_of(p.0),
                    )] + q2.0) =~= view_vints(vints@) + q2.0);
                }
            }
        }
    }
    proof {
        assert(view_vints(vints@) + Seq::<i64>::empty() =~= view_vints(vints@));
    }
    Ok(vints)
}

impl Readable for LabeledTdf {
    open spec fn dec(s: Seq<u8>) -> Option<(SpecLabeled, int)> {
        crate::wire::dec_labeled(s)
    }

    fn read(data: &Vec<u8>, pos: &mut usize) -> (r: Result<Self, TdfError>)
        decreases data@.len() - *old(pos), 0int,
    {
        let ghost s = data@.skip(*old(pos) as int);
        if data.len() - *pos < 4 {
            return Err(TdfError::Truncated);
        }
        let t0 = data[*pos];
        let t1 = data[*pos + 1];
        let t2 = data[*pos + 2];
        let tb = data[*pos + 3];
        let label = crate::label::tag_to_label(t0, t1, t2);
        let ty = TdfType::from(tb);
        *pos = *pos + 4;
        proof {
            assert(s[0] == t0 && s[1] == t1 && s[2] == t2 && s[3] == tb);
            assert(crate::label::tag_dec(seq![t0, t1, t2]) == crate::label::tag_dec(s));
            assert(s.skip(4) =~= data@.skip(*pos as int));
        }
        let value = match Tdf::read(data, pos, &ty) {
            Ok(v) => v,
            Err(e) => return Err(e),
        };
        Ok(LabeledTdf(label, ty, value))
    }
}

impl Writeable for LabeledTdf {
    open spec fn wf(&self) -> bool {
        crate::wire::wf_labeled(self@)
    }

    open spec fn enc(&self) -> Seq<u8> {
        crate::wire::enc_labeled(self@)
    }

    fn write(&self, o: &mut Vec<u8>)
        decreases crate::wire::size_labeled(self@),
    {
        let tag = crate::label::label_to_tag(&self.0);
        write_bytes(&tag, o);
        o.push(self.1.value());
        self.2.write(o);
        proof {
            assert(o@ =~= old(o)@ + self.enc());
        }
    }
}

} // verus!
