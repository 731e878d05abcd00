//! The protocol's variable-length integer: the first byte carries the low
//! six bits of the value (bit 0x80 set when more bytes follow), and every
//! later byte carries seven more bits, again with 0x80 as the continuation
//! bit. A negative value travels as its 64-bit two's-complement pattern.

use vstd::arithmetic::div_mod::{
    lemma_add_mod_noop, lemma_mod_bound, lemma_mod_decreases, lemma_mod_sub_multiples_vanish,
    lemma_mul_mod_noop_left, lemma_mul_mod_noop_right, lemma_small_mod,
};
use vstd::prelude::*;

use crate::tdf::{Readable, TdfError, Writeable};

verus! {

/// A signed 64-bit integer carried in the variable-length wire encoding.
#[derive(Clone, Copy, Debug, PartialEq, Eq, Structural)]
pub struct VarInt(pub i64);

impl View for VarInt {
    type V = i64;

    open spec fn view(&self) -> i64 {
        self.0
    }
}

impl From<usize> for VarInt {
    /// The wire integer carrying a machine count.
    fn from(value: usize) -> (r: Self) {
        VarInt(value as i64)
    }
}

impl vstd::std_specs::convert::FromSpecImpl<usize> for VarInt {
    open spec fn obeys_from_spec() -> bool {
        true
    }

    open spec fn from_spec(v: usize) -> VarInt {
        VarInt(v as i64)
    }
}

/// The 64-bit pattern of `v`: the value itself when nonnegative, its
/// two's-complement image otherwise.
pub open spec fn bits_of(v: i64) -> u64 {
    if v >= 0 {
        v as u64
    } else {
        (v + 0x1_0000_0000_0000_0000) as u64
    }
}

/// The signed reading of a 64-bit pattern, inverse of `bits_of`.
pub open spec fn signed_of(u: u64) -> i64 {
    if u < 0x8000_0000_0000_0000 {
        u as i64
    } else {
        (u - 0x1_0000_0000_0000_0000) as i64
    }
}

/// Reduce an unbounded decoded sum to the 64-bit pattern it denotes.
pub open spec fn word_of(n: int) -> u64 {
    (n % 0x1_0000_0000_0000_0000) as u64
}

/// The exec cast of an `i64` to a `u64` is exactly `bits_of`.
pub proof fn lemma_cast_bits_of(v: i64)
    ensures
        v as u64 == bits_of(v),
{
    if v < 0 {
        assert((v as u64) as u128 == ((v as i128) + 0x1_0000_0000_0000_0000) as u128)
            by (bit_vector)
            requires
                v < 0,
        ;
    }
}

/// The exec cast of a `u64` to an `i64` is exactly `signed_of`.
pub proof fn lemma_cast_signed_of(u: u64)
    ensures
        u as i64 == signed_of(u),
{
    if u >= 0x8000_0000_0000_0000 {
        assert(((u as i64) as i128) == (u as i128) - 0x1_0000_0000_0000_0000) by (bit_vector)
            requires
                u >= 0x8000_0000_0000_0000,
        ;
    }
}

/// `signed_of` undoes `bits_of`, so every `i64` has a 64-bit pattern and
/// gets it back.
pub proof fn lemma_signed_bits_of(v: i64)
    ensures
        signed_of(bits_of(v)) == v,
{
}

/// `bits_of` undoes `signed_of`, so every 64-bit pattern survives the trip
/// through its signed reading.
pub proof fn lemma_bits_signed_of(u: u64)
    ensures
        bits_of(signed_of(u)) == u,
{
}

/// Encoding of the continuation tail: seven value bits per byte, low bits
/// first, bit 0x80 set on every byte except the last.
pub open spec fn vtail_enc(r: u64) -> Seq<u8>
    decreases r,
{
    if r < 0x80 {
        seq![r as u8]
    } else {
        seq![(0x80 + r % 0x80) as u8] + vtail_enc(r / 0x80)
    }
}

/// Encoding of a full 64-bit pattern: six value bits in the first byte,
/// then the continuation tail when the value does not fit them.
pub open spec fn varint_enc(v: u64) -> Seq<u8> {
    if v < 0x40 {
        seq![v as u8]
    } else {
        seq![(0x80 + v % 0x40) as u8] + vtail_enc(v / 0x40)
    }
}

/// Spec-level parse of a continuation tail from the front of `s`: the
/// (unbounded) sum contributed by the tail and the bytes consumed.
pub open spec fn vtail_dec(s: Seq<u8>) -> Option<(int, int)>
    decreases s.len(),
{
    if s.len() == 0 {
        None
    } else if s[0] < 0x80 {
        Some((s[0] as int, 1))
    } else {
        match vtail_dec(s.skip(1)) {
            Some(p) => Some((s[0] - 0x80 + 0x80 * p.0, 1 + p.1)),
            None => None,
        }
    }
}

/// Spec-level parse of a whole variable-length integer from the front of
/// `s`: the (unbounded) decoded sum and the bytes consumed. The carried
/// 64-bit pattern is the sum reduced by `word_of`, so any well-formed
/// sequence is accepted, minimal or not.
pub open spec fn varint_dec(s: Seq<u8>) -> Option<(int, int)> {
    if s.len() == 0 {
        None
    } else if s[0] < 0x80 {
        Some(((s[0] as int) % 0x40, 1))
    } else {
        match vtail_dec(s.skip(1)) {
            Some(p) => Some(((s[0] as int) % 0x40 + 0x40 * p.0, 1 + p.1)),
            None => None,
        }
    }
}

/// Append the variable-length encoding of a raw 64-bit pattern; also the
/// writer for the count and length fields of the composite shapes.
pub fn write_varint_word(v: u64, o: &mut Vec<u8>)
    ensures
        final(o)@ == old(o)@ + varint_enc(v),
{
    if v < 0x40 {
        o.push(v as u8);
        proof {
            assert(o@ =~= old(o)@ + varint_enc(v));
        }
    } else {
        o.push((0x80 + v % 0x40) as u8);
        proof {
            assert(o@ + vtail_enc(v / 0x40) =~= old(o)@ + varint_enc(v));
        }
        let mut r: u64 = v / 0x40;
        while r >= 0x80
            invariant
                o@ + vtail_enc(r) == old(o)@ + varint_enc(v),
            decreases r,
        {
            let ghost opre = o@;
            o.push((0x80 + r % 0x80) as u8);
            proof {
                assert(o@ + vtail_enc(r / 0x80) =~= opre + vtail_enc(r));
            }
            r = r / 0x80;
        }
        o.push(r as u8);
        proof {
            assert(o@ =~= old(o)@ + varint_enc(v));
        }
    }
}

impl Writeable for VarInt {
    open spec fn wf(&self) -> bool {
        true
    }

    open spec fn enc(&self) -> Seq<u8> {
        varint_enc(bits_of(self.0))
    }

    fn write(&self, o: &mut Vec<u8>) {
        proof {
            lemma_cast_bits_of(self.0);
        }
        write_varint_word(self.0 as u64, o);
    }
}

/// One accumulation step of the decoder, carried out in wrapped 64-bit
/// arithmetic, equals the unbounded sum reduced modulo two to the sixty-fourth.
proof fn lemma_acc_step(accp: u64, multp: u64, acc: int, mult: int, t: u64, rnew: u64)
    requires
        accp == acc % 0x1_0000_0000_0000_0000,
        multp == mult % 0x1_0000_0000_0000_0000,
        0 <= acc,
        0 <= mult,
        rnew == vstd::wrapping::u64_specs::wrapping_add(
            accp,
            vstd::wrapping::u64_specs::wrapping_mul(t, multp),
        ),
    ensures
        rnew == (acc + mult * t) % 0x1_0000_0000_0000_0000,
{
    let m: int = 0x1_0000_0000_0000_0000;
    let tm = vstd::wrapping::u64_specs::wrapping_mul(t, multp);
    assert(tm == (t * multp) % m) by {
        assert(t as nat * multp as nat == (t * multp) as nat);
    }
    lemma_mul_mod_noop_right(t as int, mult, m);
    assert(tm == (t * mult) % m);
    lemma_mod_bound(t * mult, m);
    lemma_add_mod_noop(acc, t * mult, m);
    let sum: int = accp + tm;
    if sum > u64::MAX {
        lemma_mod_sub_multiples_vanish(sum, m);
        lemma_small_mod((sum - m) as nat, m as nat);
    } else {
        lemma_small_mod(sum as nat, m as nat);
    }
    assert(rnew == sum % m);
    assert(mult * t == t * mult) by (nonlinear_arith);
}

impl Readable for VarInt {
    open spec fn dec(s: Seq<u8>) -> Option<(i64, int)> {
        match varint_dec(s) {
            Some(p) => Some((signed_of(word_of(p.0)), p.1)),
            None => None,
        }
    }

    fn read(data: &Vec<u8>, pos: &mut usize) -> (r: Result<Self, TdfError>) {
        let ghost s0 = data@.skip(*old(pos) as int);
        if *pos >= data.len() {
            return Err(TdfError::Truncated);
        }
        let first: u8 = data[*pos];
        *pos = *pos + 1;
        proof {
            assert(s0[0] == first);
        }
        let mut result: u64 = (first % 0x40) as u64;
        if first < 0x80 {
            proof {
                lemma_small_mod(result as nat, 0x1_0000_0000_0000_0000);
                lemma_cast_signed_of(result);
            }
            return Ok(VarInt(result as i64));
        }
        let ghost mut acc: int = (first as int) % 0x40;
        let ghost mut mult: int = 0x40;
        let mut mexec: u64 = 0x40;
        proof {
            lemma_small_mod(acc as nat, 0x1_0000_0000_0000_0000);
            lemma_small_mod(mult as nat, 0x1_0000_0000_0000_0000);
            assert(s0.skip(1) =~= data@.skip(*pos as int));
        }
        loop
            invariant
                *old(pos) < *pos <= data@.len(),
                result == acc % 0x1_0000_0000_0000_0000,
                mexec == mult % 0x1_0000_0000_0000_0000,
                0 <= acc,
                1 <= mult,
                s0 == data@.skip(*old(pos) as int),
                (match vtail_dec(data@.skip(*pos as int)) {
                    Some(p) => varint_dec(s0) == Some(
                        (acc + mult * p.0, (*pos as int) - (*old(pos) as int) + p.1),
                    ),
                    None => varint_dec(s0) is None,
                }),
            decreases data@.len() - *pos,
        {
            if *pos >= data.len() {
                proof {
                    assert(data@.skip(*pos as int).len() == 0);
                }
                return Err(TdfError::Truncated);
            }
            let ghost scur = data@.skip(*pos as int);
            let b: u8 = data[*pos];
            *pos = *pos + 1;
            proof {
                assert(scur[0] == b);
                assert(scur.skip(1) =~= data@.skip(*pos as int));
            }
            let term: u64 = (b % 0x80) as u64;
            let rnew: u64 = result.wrapping_add(term.wrapping_mul(mexec));
            proof {
                lemma_acc_step(result, mexec, acc, mult, term, rnew);
                assert(mult * term >= 0) by (nonlinear_arith)
                    requires
                        mult >= 1,
                ;
            }
            result = rnew;
            if b < 0x80 {
                proof {
                    assert(vtail_dec(scur) == Some::<(int, int)>((b as int, 1)));
                    acc = acc + mult * (term as int);
                    lemma_mod_bound(acc, 0x1_0000_0000_0000_0000);
                    lemma_cast_signed_of(result);
                }
                return Ok(VarInt(result as i64));
            }
            let ghost mult_pre = mult;
            proof {
                assert((b as int) % 0x80 == b - 0x80) by {
                    lemma_mod_sub_multiples_vanish(b as int, 0x80);
                    lemma_small_mod((b - 0x80) as nat, 0x80);
                }
                if let Some(q) = vtail_dec(data@.skip(*pos as int)) {
                    assert(vtail_dec(scur) == Some::<(int, int)>((
                        b - 0x80 + 0x80 * q.0,
                        1 + q.1,
                    )));
                    assert(mult * (b - 0x80 + 0x80 * q.0) == mult * (b - 0x80) + (mult * 0x80)
                        * q.0) by (nonlinear_arith);
                } else {
                    assert(vtail_dec(scur) is None);
                }
                acc = acc + mult * (term as int);
                mult = mult * 0x80;
                assert(mult >= 0x80) by (nonlinear_arith)
                    requires
                        mult == mult_pre * 0x80 && mult_pre >= 1,
                ;
            }
            mexec = mexec.wrapping_mul(0x80);
            proof {
                lemma_mul_mod_noop_left(mult_pre, 0x80, 0x1_0000_0000_0000_0000);
                lemma_mod_bound(mult, 0x1_0000_0000_0000_0000);
            }
        }
    }
}

/// Parsing an encoded continuation tail, with anything after it, yields
/// exactly the encoded value and consumes exactly the tail.
proof fn lemma_vtail_roundtrip(r: u64, rest: Seq<u8>)
    ensures
        vtail_dec(vtail_enc(r) + rest) == Some((r as int, vtail_enc(r).len() as int)),
    decreases r,
{
    let s = vtail_enc(r) + rest;
    if r < 0x80 {
        assert(s[0] == r as u8);
    } else {
        let b: u8 = (0x80 + r % 0x80) as u8;
        assert(s[0] == b);
        assert(s.skip(1) =~= vtail_enc(r / 0x80) + rest);
        lemma_vtail_roundtrip(r / 0x80, rest);
        vstd::arithmetic::div_mod::lemma_fundamental_div_mod(r as int, 0x80);
    }
}

/// Parsing-side companion of `vtail_enc`: any successful parse reads at
/// least one and at most all bytes, and its sum is below 128 to the number of
/// bytes read.
proof fn lemma_vtail_dec_bound(s: Seq<u8>)
    ensures
        (match vtail_dec(s) {
            Some(p) => {
                &&& 1 <= p.1 <= s.len()
                &&& 0 <= p.0 < vstd::arithmetic::power::pow(0x80, p.1 as nat)
            },
            None => true,
        }),
    decreases s.len(),
{
    if s.len() == 0 {
    } else if s[0] < 0x80 {
        vstd::arithmetic::power::lemma_pow1(0x80);
    } else {
        lemma_vtail_dec_bound(s.skip(1));
        if let Some(q) = vtail_dec(s.skip(1)) {
            let e = (1 + q.1) as nat;
            let p80 = vstd::arithmetic::power::pow(0x80, q.1 as nat);
            assert(vstd::arithmetic::power::pow(0x80, e) == 0x80 * p80) by {
                vstd::arithmetic::power::lemma_pow_adds(0x80, 1, q.1 as nat);
                vstd::arithmetic::power::lemma_pow1(0x80);
            }
            assert(s[0] - 0x80 + 0x80 * q.0 < 0x80 * p80) by (nonlinear_arith)
                requires
                    s[0] < 0x100,
                    q.0 < p80,
                    s[0] >= 0x80,
            ;
            assert(0 <= 0x80 * q.0) by (nonlinear_arith)
                requires
                    0 <= q.0,
            ;
        }
    }
}

/// Encoding a value below 128 to the k-th takes at most k tail bytes.
proof fn lemma_vtail_enc_len(r: u64, k: nat)
    requires
        1 <= k,
        r < vstd::arithmetic::power::pow(0x80, k),
    ensures
        vtail_enc(r).len() <= k,
    decreases k,
{
    if r >= 0x80 {
        let pk1 = vstd::arithmetic::power::pow(0x80, (k - 1) as nat);
        assert(vstd::arithmetic::power::pow(0x80, k) == 0x80 * pk1) by {
            vstd::arithmetic::power::lemma_pow_adds(0x80, 1, (k - 1) as nat);
            vstd::arithmetic::power::lemma_pow1(0x80);
        }
        vstd::arithmetic::power::lemma_pow_positive(0x80, (k - 1) as nat);
        vstd::arithmetic::div_mod::lemma_multiply_divide_lt(r as int, 0x80, pk1);
        assert(k >= 2) by {
            if k == 1 {
                vstd::arithmetic::power::lemma_pow1(0x80);
            }
        }
        lemma_vtail_enc_len(r / 0x80, (k - 1) as nat);
    }
}

/// Round trip of the full variable-length encoding: parsing
/// `varint_enc(v)` followed by anything yields exactly `v` and consumes
/// exactly the encoding.
pub proof fn lemma_varint_enc_dec(v: u64, rest: Seq<u8>)
    ensures
        varint_dec(varint_enc(v) + rest) == Some((v as int, varint_enc(v).len() as int)),
{
    let s = varint_enc(v) + rest;
    if v < 0x40 {
        assert(s[0] == v as u8);
    } else {
        let b: u8 = (0x80 + v % 0x40) as u8;
        assert(s[0] == b);
        assert(s.skip(1) =~= vtail_enc(v / 0x40) + rest);
        lemma_vtail_roundtrip(v / 0x40, rest);
        vstd::arithmetic::div_mod::lemma_fundamental_div_mod(v as int, 0x40);
    }
}

/// Any successful parse of a variable-length integer reads at least one and
/// at most all bytes, and its sum is below 64 times 128 to the number of
/// continuation bytes.
pub proof fn lemma_varint_dec_bound(s: Seq<u8>)
    ensures
        (match varint_dec(s) {
            Some(p) => {
                &&& 1 <= p.1 <= s.len()
                &&& 0 <= p.0 < 0x40 * vstd::arithmetic::power::pow(0x80, (p.1 - 1) as nat)
            },
            None => true,
        }),
{
    if s.len() == 0 {
    } else if s[0] < 0x80 {
        vstd::arithmetic::power::lemma_pow0(0x80);
    } else {
        lemma_vtail_dec_bound(s.skip(1));
        if let Some(q) = vtail_dec(s.skip(1)) {
            let p80 = vstd::arithmetic::power::pow(0x80, q.1 as nat);
            assert((s[0] as int) % 0x40 + 0x40 * q.0 < 0x40 * p80) by (nonlinear_arith)
                requires
                    (s[0] as int) % 0x40 < 0x40,
                    q.0 < p80,
            ;
            assert(0 <= 0x40 * q.0) by (nonlinear_arith)
                requires
                    0 <= q.0,
            ;
            lemma_mod_bound(s[0] as int, 0x40);
        }
    }
}

/// Round trip of a signed wire integer: parsing what the writer emits,
/// followed by anything, yields the integer back and consumes exactly its
/// encoding.
pub proof fn lemma_varint_roundtrip(v: VarInt, rest: Seq<u8>)
    ensures
        VarInt::dec(v.enc() + rest) == Some((v@, v.enc().len() as int)),
{
    lemma_varint_enc_dec(bits_of(v.0), rest);
    lemma_small_mod(bits_of(v.0) as nat, 0x1_0000_0000_0000_0000);
    lemma_signed_bits_of(v.0);
}

/// The encoder emits the minimal-length form: no parse of any byte sequence
/// can deliver the same 64-bit pattern from fewer bytes than the encoder
/// writes for it.
pub proof fn lemma_varint_enc_minimal(v: u64, s: Seq<u8>, n: int, u: int)
    requires
        varint_dec(s) == Some((n, u)),
        word_of(n) == v,
    ensures
        varint_enc(v).len() <= u,
{
    lemma_varint_dec_bound(s);
    assert(v <= n) by {
        lemma_mod_decreases(n as nat, 0x1_0000_0000_0000_0000);
    }
    if v >= 0x40 {
        let pk = vstd::arithmetic::power::pow(0x80, (u - 1) as nat);
        assert(u >= 2) by {
            if u == 1 {
                vstd::arithmetic::power::lemma_pow0(0x80);
            }
        }
        vstd::arithmetic::power::lemma_pow_positive(0x80, (u - 1) as nat);
        vstd::arithmetic::div_mod::lemma_multiply_divide_lt(v as int, 0x40, pk);
        lemma_vtail_enc_len(v / 0x40, (u - 1) as nat);
    }
}

} // verus!
