//! The label codec: a human-readable label of up to four characters is
//! packed into a three-byte tag, six bits per character. A character is
//! coded as its distance from 0x20, so the supported alphabet is the 63
//! code points 0x21 through 0x5F (digits, upper-case letters and the
//! punctuation between them); the zero code is the pad for missing
//! characters and is skipped when a tag is unpacked.

use vstd::arithmetic::div_mod::{
    lemma_fundamental_div_mod, lemma_fundamental_div_mod_converse_div,
    lemma_fundamental_div_mod_converse_mod,
};
use vstd::prelude::*;

verus! {

/// The six-bit code of one character: its distance from 0x20 inside the
/// supported alphabet, the pad code zero outside it.
pub open spec fn code6(c: u8) -> u8 {
    if 0x20 <= c <= 0x5F {
        (c - 0x20) as u8
    } else {
        0
    }
}

/// The six-bit code at position `i` of a label, the pad code past its end.
pub open spec fn lcode(l: Seq<u8>, i: int) -> u8 {
    if 0 <= i < l.len() {
        code6(l[i])
    } else {
        0
    }
}

/// The three-byte packed tag of a label: four six-bit codes distributed
/// over twenty-four bits, first character in the highest bits.
pub open spec fn tag_enc(l: Seq<u8>) -> Seq<u8> {
    seq![
        (lcode(l, 0) * 4 + lcode(l, 1) / 16) as u8,
        (lcode(l, 1) % 16 * 16 + lcode(l, 2) / 4) as u8,
        (lcode(l, 2) % 4 * 64 + lcode(l, 3)) as u8,
    ]
}

/// The four six-bit codes held by the first three bytes of `s`.
pub open spec fn tag_codes(s: Seq<u8>) -> (u8, u8, u8, u8) {
    (
        (s[0] / 4) as u8,
        (s[0] % 4 * 16 + s[1] / 16) as u8,
        (s[1] % 16 * 4 + s[2] / 64) as u8,
        (s[2] % 64) as u8,
    )
}

/// The character a nonzero six-bit code stands for; the pad code stands
/// for no character at all.
pub open spec fn code_char(k: u8) -> Seq<u8> {
    if k == 0 {
        Seq::empty()
    } else {
        seq![(k + 0x20) as u8]
    }
}

/// The label recovered from the first three bytes of `s`: the characters
/// of the four codes, pad codes skipped.
pub open spec fn tag_dec(s: Seq<u8>) -> Seq<u8> {
    let (k0, k1, k2, k3) = tag_codes(s);
    code_char(k0) + code_char(k1) + code_char(k2) + code_char(k3)
}

/// A label the codec supports: one to four characters, each in the
/// 63-character alphabet 0x21 through 0x5F.
pub open spec fn wf_label(l: Seq<u8>) -> bool {
    &&& 1 <= l.len() <= 4
    &&& forall|i: int| 0 <= i < l.len() ==> 0x20 < #[trigger] l[i] <= 0x5F
}

/// Unpacking a packed tag recovers the label it was made from.
pub proof fn lemma_label_roundtrip(l: Seq<u8>)
    requires
        wf_label(l),
    ensures
        tag_dec(tag_enc(l)) == l,
{
    let t = tag_enc(l);
    let k0 = lcode(l, 0);
    let k1 = lcode(l, 1);
    let k2 = lcode(l, 2);
    let k3 = lcode(l, 3);
    lemma_fundamental_div_mod_converse_div(t[0] as int, 4, k0 as int, (k1 / 16) as int);
    lemma_fundamental_div_mod_converse_mod(t[0] as int, 4, k0 as int, (k1 / 16) as int);
    lemma_fundamental_div_mod_converse_div(t[1] as int, 16, (k1 % 16) as int, (k2 / 4) as int);
    lemma_fundamental_div_mod_converse_mod(t[1] as int, 16, (k1 % 16) as int, (k2 / 4) as int);
    lemma_fundamental_div_mod_converse_div(t[2] as int, 64, (k2 % 4) as int, k3 as int);
    lemma_fundamental_div_mod_converse_mod(t[2] as int, 64, (k2 % 4) as int, k3 as int);
    lemma_fundamental_div_mod(k1 as int, 16);
    lemma_fundamental_div_mod(k2 as int, 4);
    let (c0, c1, c2, c3) = tag_codes(t);
    assert(c0 == k0 && c1 == k1 && c2 == k2 && c3 == k3);
    assert(tag_dec(t) =~= l);
}

/// A well-formed label's packed tag never begins with the bytes that
/// delimit a group on the wire (zero and two), so a group's children can
/// always be told apart from its terminator and its start marker.
pub proof fn lemma_tag_first_byte(l: Seq<u8>)
    requires
        wf_label(l),
    ensures
        4 <= tag_enc(l)[0],
{
}

/// The six-bit code of the label character at `i`, the pad code past the
/// label's end.
fn code_at(l: &Vec<u8>, i: usize) -> (k: u8)
    ensures
        k == lcode(l@, i as int),
        k <= 0x3F,
{
    if i < l.len() {
        let c = l[i];
        if 0x20 <= c && c <= 0x5F {
            c - 0x20
        } else {
            0
        }
    } else {
        0
    }
}

/// Pack a label into its three-byte tag.
pub fn label_to_tag(label: &Vec<u8>) -> (r: Vec<u8>)
    ensures
        r@ == tag_enc(label@),
{
    let k0 = code_at(label, 0);
    let k1 = code_at(label, 1);
    let k2 = code_at(label, 2);
    let k3 = code_at(label, 3);
    let mut r: Vec<u8> = Vec::new();
    r.push(k0 * 4 + k1 / 16);
    r.push(k1 % 16 * 16 + k2 / 4);
    r.push(k2 % 4 * 64 + k3);
    proof {
        assert(r@ =~= tag_enc(label@));
    }
    r
}

/// Unpack the three bytes of a tag into the label they carry.
pub fn tag_to_label(t0: u8, t1: u8, t2: u8) -> (r: Vec<u8>)
    ensures
        r@ == tag_dec(seq![t0, t1, t2]),
{
    let mut r: Vec<u8> = Vec::new();
    let k0 = t0 / 4;
    let k1 = t0 % 4 * 16 + t1 / 16;
    let k2 = t1 % 16 * 4 + t2 / 64;
    let k3 = t2 % 64;
    if k0 != 0 {
        r.push(k0 + 0x20);
    }
    if k1 != 0 {
        r.push(k1 + 0x20);
    }
    if k2 != 0 {
        r.push(k2 + 0x20);
    }
    if k3 != 0 {
        r.push(k3 + 0x20);
    }
    proof {
        assert(r@ =~= tag_dec(seq![t0, t1, t2]));
    }
    r
}

} // verus!
