//! The round-trip theorems: parsing the encoding of any well-formed value
//! (with anything after it) yields exactly that value and consumes exactly
//! its encoding. Together with the writer's and reader's contracts this
//! pins the codec down: what `write` emits, `read` gives back.

use vstd::arithmetic::div_mod::lemma_small_mod;
use vstd::prelude::*;

use crate::label::{lemma_label_roundtrip, lemma_tag_first_byte, tag_dec, tag_enc};
use crate::tdf::TdfType;
use crate::varint::{bits_of, lemma_signed_bits_of, lemma_varint_enc_dec, varint_enc, word_of};
use crate::wire::{
    dec_children, dec_elems, dec_labeled, dec_pairs, dec_stream, dec_value, dec_vints,
    enc_children, enc_elems, enc_labeled, enc_pairs, enc_tdf, enc_vints, lemma_dec_labeled_bound,
    matches_type, size_children, size_elems, size_labeled, size_tdf, type_from, type_ok,
    type_val, wf_children, wf_elems, wf_labeled, wf_tdf, SpecLabeled, SpecTdf,
};

verus! {

/// A 64-bit pattern is its own reduction.
proof fn lemma_word_of_small(u: u64)
    ensures
        word_of(u as int) == u,
{
    lemma_small_mod(u as nat, 0x1_0000_0000_0000_0000);
}

/// Parsing the encoding of a well-formed value of shape `t`, followed by
/// anything, yields exactly that value and consumes exactly the encoding.
pub proof fn lemma_enc_dec_value(v: SpecTdf, t: TdfType, rest: Seq<u8>)
    requires
        wf_tdf(v),
        matches_type(v, t),
    ensures
        dec_value(enc_tdf(v) + rest, t) == Some((v, enc_tdf(v).len() as int)),
    decreases size_tdf(v), 1int,
{
    match v {
        SpecTdf::VarInt(x) => {
            lemma_varint_enc_dec(bits_of(x), rest);
            lemma_word_of_small(bits_of(x));
            lemma_signed_bits_of(x);
        },
        SpecTdf::String(b) => {
            lemma_edv_string(b, rest);
        },
        SpecTdf::Blob(b) => {
            lemma_edv_blob(b, rest);
        },
        SpecTdf::Group(m, ch) => {
            lemma_edv_group(m, ch, rest);
        },
        SpecTdf::List(t2, es) => {
            lemma_edv_list(t2, es, rest);
        },
        SpecTdf::Dict(kt, vt, ks, vs) => {
            lemma_edv_dict(kt, vt, ks, vs, rest);
        },
        SpecTdf::Union(d, p) => {
            lemma_edv_union(d, p, rest);
        },
        SpecTdf::VarIntList(vs) => {
            lemma_edv_vilist(vs, rest);
        },
        SpecTdf::Pair(a, b) => {
            lemma_edv_pair(a, b, rest);
        },
        SpecTdf::Tripple(a, b, c) => {
            lemma_edv_tripple(a, b, c, rest);
        },
        SpecTdf::Float(w) => {
            lemma_edv_float(w, rest);
        },
        SpecTdf::Unknown => {
            assert(enc_tdf(v) =~= Seq::<u8>::empty());
        },
    }
}

/// Round trip of one text body.
proof fn lemma_edv_string(b: Seq<u8>, rest: Seq<u8>)
    requires
        wf_tdf(SpecTdf::String(b)),
    ensures
        dec_value(enc_tdf(SpecTdf::String(b)) + rest, TdfType::String) == Some(
            (SpecTdf::String(b), enc_tdf(SpecTdf::String(b)).len() as int),
        ),
{
    let v = SpecTdf::String(b);
    let s = enc_tdf(v) + rest;
    let n: u64 = (b.len() + 1) as u64;
    assert(s =~= varint_enc(n) + (b + seq![0u8] + rest));
    lemma_varint_enc_dec(n, b + seq![0u8] + rest);
    lemma_word_of_small(n);
    let u = varint_enc(n).len() as int;
    assert(s.subrange(u, u + n - 1) =~= b);
}

/// Round trip of one blob body.
proof fn lemma_edv_blob(b: Seq<u8>, rest: Seq<u8>)
    requires
        wf_tdf(SpecTdf::Blob(b)),
    ensures
        dec_value(enc_tdf(SpecTdf::Blob(b)) + rest, TdfType::Blob) == Some(
            (SpecTdf::Blob(b), enc_tdf(SpecTdf::Blob(b)).len() as int),
        ),
{
    let v = SpecTdf::Blob(b);
    let s = enc_tdf(v) + rest;
    let n: u64 = b.len() as u64;
    assert(s =~= varint_enc(n) + (b + rest));
    lemma_varint_enc_dec(n, b + rest);
    lemma_word_of_small(n);
    let u = varint_enc(n).len() as int;
    assert(s.subrange(u, u + n) =~= b);
}

/// Round trip of one group body.
proof fn lemma_edv_group(m: bool, ch: Seq<SpecLabeled>, rest: Seq<u8>)
    requires
        wf_tdf(SpecTdf::Group(m, ch)),
    ensures
        dec_value(enc_tdf(SpecTdf::Group(m, ch)) + rest, TdfType::Group) == Some(
            (SpecTdf::Group(m, ch), enc_tdf(SpecTdf::Group(m, ch)).len() as int),
        ),
    decreases size_children(ch), 2int,
{
    let v = SpecTdf::Group(m, ch);
    let s = enc_tdf(v) + rest;
    if m {
        assert(s[0] == 2);
        assert(s.skip(1) =~= enc_children(ch) + seq![0u8] + rest);
        lemma_enc_dec_children(ch, rest);
    } else {
        assert(s =~= enc_children(ch) + seq![0u8] + rest);
        if ch.len() == 0 {
            assert(s[0] == 0);
        } else {
            assert(wf_labeled(ch[0]));
            lemma_tag_first_byte(ch[0].label);
            assert(enc_labeled(ch[0])[0] == tag_enc(ch[0].label)[0]);
            assert(s[0] == enc_labeled(ch[0])[0]);
        }
        lemma_enc_dec_children(ch, rest);
    }
}

/// Round trip of one list body.
proof fn lemma_edv_list(t2: TdfType, es: Seq<SpecTdf>, rest: Seq<u8>)
    requires
        wf_tdf(SpecTdf::List(t2, es)),
    ensures
        dec_value(enc_tdf(SpecTdf::List(t2, es)) + rest, TdfType::List) == Some(
            (SpecTdf::List(t2, es), enc_tdf(SpecTdf::List(t2, es)).len() as int),
        ),
    decreases size_elems(es), 2int,
{
    let v = SpecTdf::List(t2, es);
    let s = enc_tdf(v) + rest;
    let n: u64 = es.len() as u64;
    assert(s[0] == type_val(t2));
    assert(s.skip(1) =~= varint_enc(n) + (enc_elems(es) + rest));
    lemma_varint_enc_dec(n, enc_elems(es) + rest);
    lemma_word_of_small(n);
    let u = 1 + varint_enc(n).len() as int;
    assert(s.skip(u) =~= enc_elems(es) + rest);
    lemma_enc_dec_elems(es, t2, rest);
}

/// Round trip of one map body.
proof fn lemma_edv_dict(
    kt: TdfType,
    vt: TdfType,
    ks: Seq<SpecTdf>,
    vs: Seq<SpecTdf>,
    rest: Seq<u8>,
)
    requires
        wf_tdf(SpecTdf::Dict(kt, vt, ks, vs)),
    ensures
        dec_value(enc_tdf(SpecTdf::Dict(kt, vt, ks, vs)) + rest, TdfType::Dict) == Some(
            (
                SpecTdf::Dict(kt, vt, ks, vs),
                enc_tdf(SpecTdf::Dict(kt, vt, ks, vs)).len() as int,
            ),
        ),
    decreases size_elems(ks) + size_elems(vs), 2int,
{
    let v = SpecTdf::Dict(kt, vt, ks, vs);
    let s = enc_tdf(v) + rest;
    let n: u64 = ks.len() as u64;
    assert(s[0] == type_val(kt));
    assert(s[1] == type_val(vt));
    assert(s.skip(2) =~= varint_enc(n) + (enc_pairs(ks, vs) + rest));
    lemma_varint_enc_dec(n, enc_pairs(ks, vs) + rest);
    lemma_word_of_small(n);
    let u = 2 + varint_enc(n).len() as int;
    assert(s.skip(u) =~= enc_pairs(ks, vs) + rest);
    lemma_enc_dec_pairs(ks, vs, kt, vt, rest);
}

/// Round trip of one union body.
proof fn lemma_edv_union(d: u8, p: Seq<SpecLabeled>, rest: Seq<u8>)
    requires
        wf_tdf(SpecTdf::Union(d, p)),
    ensures
        dec_value(enc_tdf(SpecTdf::Union(d, p)) + rest, TdfType::Union) == Some(
            (SpecTdf::Union(d, p), enc_tdf(SpecTdf::Union(d, p)).len() as int),
        ),
    decreases size_children(p), 2int,
{
    let v = SpecTdf::Union(d, p);
    let s = enc_tdf(v) + rest;
    assert(s[0] == d);
    if d == 0x7F {
        assert(p =~= Seq::<SpecLabeled>::empty());
        assert(enc_children(p) =~= Seq::<u8>::empty());
        assert(s =~= seq![d] + rest);
        assert(enc_tdf(v) =~= seq![d]);
    } else {
        let l = p[0];
        assert(wf_labeled(l));
        assert(p.drop_first() =~= Seq::<SpecLabeled>::empty());
        assert(enc_children(p.drop_first()) =~= Seq::<u8>::empty());
        assert(enc_children(p) =~= enc_labeled(l));
        assert(s.skip(1) =~= enc_labeled(l) + rest);
        assert(size_children(p.drop_first()) == 0);
        assert(size_labeled(l) < size_children(p));
        lemma_enc_dec_labeled(l, rest);
        assert(seq![l] =~= p);
    }
}

/// Round trip of one list of integers.
proof fn lemma_edv_vilist(vs: Seq<i64>, rest: Seq<u8>)
    requires
        wf_tdf(SpecTdf::VarIntList(vs)),
    ensures
        dec_value(enc_tdf(SpecTdf::VarIntList(vs)) + rest, TdfType::VarIntList) == Some(
            (SpecTdf::VarIntList(vs), enc_tdf(SpecTdf::VarIntList(vs)).len() as int),
        ),
{
    let v = SpecTdf::VarIntList(vs);
    let s = enc_tdf(v) + rest;
    let n: u64 = vs.len() as u64;
    assert(s =~= varint_enc(n) + (enc_vints(vs) + rest));
    lemma_varint_enc_dec(n, enc_vints(vs) + rest);
    lemma_word_of_small(n);
    let u = varint_enc(n).len() as int;
    assert(s.skip(u) =~= enc_vints(vs) + rest);
    lemma_enc_dec_vints(vs, rest);
}

/// Round trip of one pair body.
proof fn lemma_edv_pair(a: i64, b: i64, rest: Seq<u8>)
    ensures
        dec_value(enc_tdf(SpecTdf::Pair(a, b)) + rest, TdfType::Pair) == Some(
            (SpecTdf::Pair(a, b), enc_tdf(SpecTdf::Pair(a, b)).len() as int),
        ),
{
    let v = SpecTdf::Pair(a, b);
    let s = enc_tdf(v) + rest;
    let ea = varint_enc(bits_of(a));
    let eb = varint_enc(bits_of(b));
    assert(s =~= ea + (eb + rest));
    lemma_varint_enc_dec(bits_of(a), eb + rest);
    lemma_word_of_small(bits_of(a));
    lemma_signed_bits_of(a);
    assert(s.skip(ea.len() as int) =~= eb + rest);
    lemma_varint_enc_dec(bits_of(b), rest);
    lemma_word_of_small(bits_of(b));
    lemma_signed_bits_of(b);
}

/// Round trip of one triple body.
#[verifier::rlimit(100)]
#[verifier::spinoff_prover]
proof fn lemma_edv_tripple(a: i64, b: i64, c: i64, rest: Seq<u8>)
    ensures
        dec_value(enc_tdf(SpecTdf::Tripple(a, b, c)) + rest, TdfType::Tripple) == Some(
            (SpecTdf::Tripple(a, b, c), enc_tdf(SpecTdf::Tripple(a, b, c)).len() as int),
        ),
{
    let v = SpecTdf::Tripple(a, b, c);
    let s = enc_tdf(v) + rest;
    let ea = varint_enc(bits_of(a));
    let eb = varint_enc(bits_of(b));
    let ec = varint_enc(bits_of(c));
    assert(s =~= ea + (eb + (ec + rest)));
    lemma_varint_enc_dec(bits_of(a), eb + (ec + rest));
    lemma_word_of_small(bits_of(a));
    lemma_signed_bits_of(a);
    assert(s.skip(ea.len() as int) =~= eb + (ec + rest));
    lemma_varint_enc_dec(bits_of(b), ec + rest);
    lemma_word_of_small(bits_of(b));
    lemma_signed_bits_of(b);
    assert(s.skip(ea.len() + eb.len() as int) =~= ec + rest);
    lemma_varint_enc_dec(bits_of(c), rest);
    lemma_word_of_small(bits_of(c));
    lemma_signed_bits_of(c);
}

/// Round trip of one float body.
proof fn lemma_edv_float(w: u32, rest: Seq<u8>)
    ensures
        dec_value(enc_tdf(SpecTdf::Float(w)) + rest, TdfType::Float) == Some(
            (SpecTdf::Float(w), enc_tdf(SpecTdf::Float(w)).len() as int),
        ),
{
    let v = SpecTdf::Float(w);
    let s = enc_tdf(v) + rest;
    let a = (w / 0x100_0000) as u8;
    let b = ((w / 0x1_0000) % 0x100) as u8;
    let c = ((w / 0x100) % 0x100) as u8;
    let d = (w % 0x100) as u8;
    assert(s[0] == a && s[1] == b && s[2] == c && s[3] == d);
    let wi = w as int;
    vstd::arithmetic::div_mod::lemma_fundamental_div_mod(wi, 0x100);
    vstd::arithmetic::div_mod::lemma_fundamental_div_mod(wi / 0x100, 0x100);
    vstd::arithmetic::div_mod::lemma_fundamental_div_mod(wi / 0x1_0000, 0x100);
    vstd::arithmetic::div_mod::lemma_div_denominator(wi, 0x100, 0x100);
    vstd::arithmetic::div_mod::lemma_div_denominator(wi, 0x1_0000, 0x100);
    assert(wi / 0x100 / 0x100 == wi / 0x1_0000);
    assert(wi / 0x1_0000 / 0x100 == wi / 0x100_0000);
    assert(wi == (0x100 * (0x100 * (0x100 * (wi / 0x100_0000) + (wi / 0x1_0000) % 0x100) + (wi
        / 0x100) % 0x100)) + wi % 0x100) by (nonlinear_arith)
        requires
            wi == 0x100 * (wi / 0x100) + wi % 0x100,
            wi / 0x100 == 0x100 * (wi / 0x100 / 0x100) + (wi / 0x100) % 0x100,
            wi / 0x1_0000 == 0x100 * (wi / 0x1_0000 / 0x100) + (wi / 0x1_0000) % 0x100,
            wi / 0x100 / 0x100 == wi / 0x1_0000,
            wi / 0x1_0000 / 0x100 == wi / 0x100_0000,
    ;
    vstd::arithmetic::div_mod::lemma_mod_bound(wi, 0x100);
    vstd::arithmetic::div_mod::lemma_mod_bound(wi / 0x100, 0x100);
    vstd::arithmetic::div_mod::lemma_mod_bound(wi / 0x1_0000, 0x100);
    assert(a * 0x100_0000 + b * 0x1_0000 + c * 0x100 + d == w);
}

/// Parsing the encoding of a well-formed labeled value, followed by
/// anything, yields exactly that labeled value.
pub proof fn lemma_enc_dec_labeled(l: SpecLabeled, rest: Seq<u8>)
    requires
        wf_labeled(l),
    ensures
        dec_labeled(enc_labeled(l) + rest) == Some((l, enc_labeled(l).len() as int)),
    decreases size_labeled(l), 0int,
{
    let s = enc_labeled(l) + rest;
    let tg = tag_enc(l.label);
    assert(s[0] == tg[0] && s[1] == tg[1] && s[2] == tg[2]);
    assert(s[3] == type_val(l.ltype));
    assert(tag_dec(s) == tag_dec(tg));
    lemma_label_roundtrip(l.label);
    assert(s.skip(4) =~= enc_tdf(l.value) + rest);
    lemma_enc_dec_value(l.value, l.ltype, rest);
    assert(SpecLabeled { label: tag_dec(s), ltype: type_from(s[3]), value: l.value } =~= l);
}

/// Parsing the encodings of well-formed children followed by the group
/// terminator consumes them all and yields exactly those children.
pub proof fn lemma_enc_dec_children(ch: Seq<SpecLabeled>, rest: Seq<u8>)
    requires
        wf_children(ch),
    ensures
        dec_children(enc_children(ch) + seq![0u8] + rest) == Some(
            (ch, enc_children(ch).len() + 1int),
        ),
    decreases size_children(ch), 1int,
{
    let s = enc_children(ch) + seq![0u8] + rest;
    if ch.len() == 0 {
        assert(enc_children(ch) =~= Seq::<u8>::empty());
        assert(s[0] == 0);
        assert(Seq::<SpecLabeled>::empty() =~= ch);
    } else {
        let l = ch[0];
        let tail = ch.drop_first();
        assert(wf_labeled(l) && wf_children(tail));
        lemma_tag_first_byte(l.label);
        assert(enc_labeled(l)[0] == tag_enc(l.label)[0]);
        assert(s =~= enc_labeled(l) + (enc_children(tail) + seq![0u8] + rest));
        assert(s[0] == enc_labeled(l)[0]);
        lemma_enc_dec_labeled(l, enc_children(tail) + seq![0u8] + rest);
        let u = enc_labeled(l).len() as int;
        lemma_dec_labeled_bound(s);
        assert(s.skip(u) =~= enc_children(tail) + seq![0u8] + rest);
        lemma_enc_dec_children(tail, rest);
        assert(seq![l] + tail =~= ch);
    }
}

/// Parsing the encodings of `n` well-formed elements of shape `t`,
/// followed by anything, consumes them all and yields exactly those
/// elements.
pub proof fn lemma_enc_dec_elems(es: Seq<SpecTdf>, t: TdfType, rest: Seq<u8>)
    requires
        wf_elems(es, t),
    ensures
        dec_elems(enc_elems(es) + rest, t, es.len() as nat) == Some(
            (es, enc_elems(es).len() as int),
        ),
    decreases size_elems(es), 1int,
{
    let s = enc_elems(es) + rest;
    if es.len() == 0 {
        assert(enc_elems(es) =~= Seq::<u8>::empty());
        assert(Seq::<SpecTdf>::empty() =~= es);
    } else {
        let e = es[0];
        let tail = es.drop_first();
        assert(s =~= enc_tdf(e) + (enc_elems(tail) + rest));
        lemma_enc_dec_value(e, t, enc_elems(tail) + rest);
        let u = enc_tdf(e).len() as int;
        assert(s.skip(u) =~= enc_elems(tail) + rest);
        lemma_enc_dec_elems(tail, t, rest);
        assert(seq![e] + tail =~= es);
    }
}

/// Parsing the interleaved encodings of `n` well-formed key and value
/// pairs, followed by anything, consumes them all and yields exactly the
/// two parallel sequences.
pub proof fn lemma_enc_dec_pairs(
    ks: Seq<SpecTdf>,
    vs: Seq<SpecTdf>,
    kt: TdfType,
    vt: TdfType,
    rest: Seq<u8>,
)
    requires
        wf_elems(ks, kt),
        wf_elems(vs, vt),
        ks.len() == vs.len(),
    ensures
        dec_pairs(enc_pairs(ks, vs) + rest, kt, vt, ks.len() as nat) == Some(
            ((ks, vs), enc_pairs(ks, vs).len() as int),
        ),
    decreases size_elems(ks) + size_elems(vs), 1int,
{
    let s = enc_pairs(ks, vs) + rest;
    if ks.len() == 0 {
        assert(enc_pairs(ks, vs) =~= Seq::<u8>::empty());
        assert(Seq::<SpecTdf>::empty() =~= ks);
        assert(Seq::<SpecTdf>::empty() =~= vs);
    } else {
        let k = ks[0];
        let v = vs[0];
        let ktail = ks.drop_first();
        let vtail = vs.drop_first();
        assert(s =~= enc_tdf(k) + (enc_tdf(v) + (enc_pairs(ktail, vtail) + rest)));
        lemma_enc_dec_value(k, kt, enc_tdf(v) + (enc_pairs(ktail, vtail) + rest));
        let uk = enc_tdf(k).len() as int;
        assert(s.skip(uk) =~= enc_tdf(v) + (enc_pairs(ktail, vtail) + rest));
        lemma_enc_dec_value(v, vt, enc_pairs(ktail, vtail) + rest);
        let uv = enc_tdf(v).len() as int;
        assert(s.skip(uk + uv) =~= enc_pairs(ktail, vtail) + rest);
        lemma_enc_dec_pairs(ktail, vtail, kt, vt, rest);
        assert(seq![k] + ktail =~= ks);
        assert(seq![v] + vtail =~= vs);
    }
}

/// Parsing the encodings of `n` integers, followed by anything, consumes
/// them all and yields exactly those integers.
pub proof fn lemma_enc_dec_vints(vs: Seq<i64>, rest: Seq<u8>)
    ensures
        dec_vints(enc_vints(vs) + rest, vs.len() as nat) == Some(
            (vs, enc_vints(vs).len() as int),
        ),
    decreases vs.len(),
{
    let s = enc_vints(vs) + rest;
    if vs.len() == 0 {
        assert(enc_vints(vs) =~= Seq::<u8>::empty());
        assert(Seq::<i64>::empty() =~= vs);
    } else {
        let x = vs[0];
        let tail = vs.drop_first();
        assert(s =~= varint_enc(bits_of(x)) + (enc_vints(tail) + rest));
        lemma_varint_enc_dec(bits_of(x), enc_vints(tail) + rest);
        lemma_word_of_small(bits_of(x));
        lemma_signed_bits_of(x);
        let u = varint_enc(bits_of(x)).len() as int;
        assert(s.skip(u) =~= enc_vints(tail) + rest);
        lemma_enc_dec_vints(tail, rest);
        assert(seq![x] + tail =~= vs);
    }
}

/// The empty-collection boundary: a list, a map and an integer list with
/// no elements each encode to a bare header with a zero count, and parse
/// back to the same empty collection.
pub proof fn lemma_empty_collection_roundtrip(
    t: TdfType,
    kt: TdfType,
    vt: TdfType,
    rest: Seq<u8>,
)
    requires
        type_ok(t),
        type_ok(kt),
        type_ok(vt),
    ensures
        ({
            let v = SpecTdf::List(t, Seq::empty());
            dec_value(enc_tdf(v) + rest, TdfType::List) == Some((v, enc_tdf(v).len() as int))
        }),
        ({
            let v = SpecTdf::Dict(kt, vt, Seq::empty(), Seq::empty());
            dec_value(enc_tdf(v) + rest, TdfType::Dict) == Some((v, enc_tdf(v).len() as int))
        }),
        ({
            let v = SpecTdf::VarIntList(Seq::empty());
            dec_value(enc_tdf(v) + rest, TdfType::VarIntList) == Some(
                (v, enc_tdf(v).len() as int),
            )
        }),
{
    lemma_enc_dec_value(SpecTdf::List(t, Seq::empty()), TdfType::List, rest);
    lemma_enc_dec_value(
        SpecTdf::Dict(kt, vt, Seq::empty(), Seq::empty()),
        TdfType::Dict,
        rest,
    );
    lemma_enc_dec_value(SpecTdf::VarIntList(Seq::empty()), TdfType::VarIntList, rest);
}

/// A union's discriminant decides its payload: the reserved discriminant
/// parses with no payload and one consumed byte, while any other
/// discriminant demands, and consumes, exactly one nested labeled value.
pub proof fn lemma_union_discriminant(s: Seq<u8>)
    requires
        s.len() > 0,
    ensures
        s[0] == 0x7F ==> dec_value(s, TdfType::Union) == Some(
            (SpecTdf::Union(0x7F, Seq::<SpecLabeled>::empty()), 1int),
        ),
        s[0] != 0x7F ==> (match dec_labeled(s.skip(1)) {
            Some(p) => dec_value(s, TdfType::Union) == Some(
                (SpecTdf::Union(s[0], seq![p.0]), 1 + p.1),
            ),
            None => dec_value(s, TdfType::Union) is None,
        }),
{
}

/// Parsing a whole payload made of the encodings of well-formed labeled
/// values, with nothing after them, yields exactly those values: the
/// round trip of a packet's content.
pub proof fn lemma_enc_dec_stream(ls: Seq<SpecLabeled>)
    requires
        wf_children(ls),
    ensures
        dec_stream(enc_children(ls)) == Some(ls),
    decreases size_children(ls), 3int,
{
    let s = enc_children(ls);
    if ls.len() == 0 {
        assert(s =~= Seq::<u8>::empty());
        assert(Seq::<SpecLabeled>::empty() =~= ls);
    } else {
        let l = ls[0];
        let tail = ls.drop_first();
        assert(s =~= enc_labeled(l) + enc_children(tail));
        lemma_enc_dec_labeled(l, enc_children(tail));
        let u = enc_labeled(l).len() as int;
        lemma_dec_labeled_bound(s);
        assert(s.len() > 0) by {
            assert(enc_labeled(l).len() >= 4);
        }
        assert(s.skip(u) =~= enc_children(tail));
        lemma_enc_dec_stream(tail);
        assert(seq![l] + tail =~= ls);
    }
}

} // verus!
