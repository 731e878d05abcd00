//! Packet framing: six big-endian 16-bit header fields, an optional
//! 16-bit length extension announced by a bit of the `qtype` field, and
//! exactly that many content bytes. The content is later parsed as a
//! stream of labeled values by the tagged value model.

use vstd::arithmetic::div_mod::{
    lemma_fundamental_div_mod, lemma_mod_bound, lemma_small_mod,
};
use vstd::prelude::*;

use crate::tdf::{LabeledTdf, Readable, TdfError};
use crate::wire::{dec_labeled, dec_stream, view_children, SpecLabeled};

verus! {

broadcast use vstd::std_specs::vec::group_vec_axioms;

/// Ghost mirror of a packet: the five header fields and the content bytes.
#[verifier::ext_equal]
pub struct SpecPacket {
    pub component: u16,
    pub command: u16,
    pub error: u16,
    pub qtype: u16,
    pub id: u16,
    pub content: Seq<u8>,
}

/// One length-framed unit of the transport: header fields and the exact
/// payload bytes carrying a stream of labeled values.
#[derive(Debug, PartialEq)]
pub struct Packet {
    pub component: u16,
    pub command: u16,
    pub error: u16,
    pub qtype: u16,
    pub id: u16,
    pub content: Vec<u8>,
}

impl View for Packet {
    type V = SpecPacket;

    open spec fn view(&self) -> SpecPacket {
        SpecPacket {
            component: self.component,
            command: self.command,
            error: self.error,
            qtype: self.qtype,
            id: self.id,
            content: self.content@,
        }
    }
}

/// Whether the `qtype` field announces a length-extension word: its
/// sixteens bit (the 0x10 bit) is set.
pub open spec fn has_length_ext(q: u16) -> bool {
    (q / 0x10) % 2 == 1
}

/// The big-endian two-byte image of a 16-bit word.
pub open spec fn be16_enc(x: u16) -> Seq<u8> {
    seq![(x / 0x100) as u8, (x % 0x100) as u8]
}

/// The 16-bit word held big-endian at position `i` of `s`.
pub open spec fn be16_at(s: Seq<u8>, i: int) -> u16 {
    (s[i] * 0x100 + s[i + 1]) as u16
}

/// A packet whose content fits the length its header can carry: below
/// two to the sixteenth without the extension word, below two to the
/// thirty-second with it.
pub open spec fn wf_packet(p: SpecPacket) -> bool {
    if has_length_ext(p.qtype) {
        p.content.len() < 0x1_0000_0000
    } else {
        p.content.len() < 0x1_0000
    }
}

/// The byte encoding of a packet: base length, five header fields, the
/// extension word when announced, then the content.
pub open spec fn enc_packet(p: SpecPacket) -> Seq<u8> {
    be16_enc((p.content.len() % 0x1_0000) as u16) + be16_enc(p.component) + be16_enc(p.command)
        + be16_enc(p.error) + be16_enc(p.qtype) + be16_enc(p.id) + (if has_length_ext(p.qtype) {
        be16_enc((p.content.len() / 0x1_0000) as u16)
    } else {
        Seq::empty()
    }) + p.content
}

/// Spec-level parse of one packet from the front of `s`: the packet and
/// the bytes consumed, or `None` when the header or the announced content
/// is incomplete.
pub open spec fn dec_packet(s: Seq<u8>) -> Option<(SpecPacket, int)> {
    if s.len() < 12 {
        None
    } else {
        let base = be16_at(s, 0);
        let qtype = be16_at(s, 8);
        let hdr: int = if has_length_ext(qtype) {
            14
        } else {
            12
        };
        if s.len() < hdr {
            None
        } else {
            let ext: int = if has_length_ext(qtype) {
                be16_at(s, 12) as int
            } else {
                0
            };
            let clen = base + 0x1_0000 * ext;
            if hdr + clen <= s.len() {
                Some(
                    (
                        SpecPacket {
                            component: be16_at(s, 2),
                            command: be16_at(s, 4),
                            error: be16_at(s, 6),
                            qtype,
                            id: be16_at(s, 10),
                            content: s.subrange(hdr, hdr + clen),
                        },
                        hdr + clen,
                    ),
                )
            } else {
                None
            }
        }
    }
}

/// Read one big-endian 16-bit word at the cursor.
fn read_u16(data: &Vec<u8>, pos: &mut usize) -> (r: Result<u16, TdfError>)
    requires
        *old(pos) <= data@.len(),
    ensures
        *old(pos) + 2 <= data@.len() ==> {
            &&& r matches Ok(x) && x == be16_at(data@, *old(pos) as int)
            &&& *final(pos) == *old(pos) + 2
        },
        *old(pos) + 2 > data@.len() ==> r == Err::<u16, TdfError>(TdfError::Truncated)
            && *final(pos) == *old(pos),
{
    if data.len() - *pos < 2 {
        return Err(TdfError::Truncated);
    }
    let hi = data[*pos];
    let lo = data[*pos + 1];
    *pos = *pos + 2;
    Ok((hi as u16) * 0x100 + (lo as u16))
}

/// Read one length-framed packet from `data` at `*pos`, advancing the
/// cursor past it. Fails with a truncation error exactly when the bytes
/// at the cursor do not hold a complete packet.
pub fn read_packet(data: &Vec<u8>, pos: &mut usize) -> (r: Result<Packet, TdfError>)
    requires
        *old(pos) <= data@.len(),
    ensures
        (match dec_packet(data@.skip(*old(pos) as int)) {
            Some(p) => {
                &&& r matches Ok(v) && v@ == p.0
                &&& *final(pos) == *old(pos) + p.1
                &&& *old(pos) <= *final(pos) <= data@.len()
            },
            None => {
                &&& r == Err::<Packet, TdfError>(TdfError::Truncated)
                &&& *old(pos) <= *final(pos) <= data@.len()
            },
        }),
{
    let ghost s = data@.skip(*old(pos) as int);
    if data.len() - *pos < 12 {
        return Err(TdfError::Truncated);
    }
    let base = match read_u16(data, pos) {
        Ok(x) => x,
        Err(e) => return Err(e),
    };
    let component = match read_u16(data, pos) {
        Ok(x) => x,
        Err(e) => return Err(e),
    };
    let command = match read_u16(data, pos) {
        Ok(x) => x,
        Err(e) => return Err(e),
    };
    let error = match read_u16(data, pos) {
        Ok(x) => x,
        Err(e) => return Err(e),
    };
    let qtype = match read_u16(data, pos) {
        Ok(x) => x,
        Err(e) => return Err(e),
    };
    let id = match read_u16(data, pos) {
        Ok(x) => x,
        Err(e) => return Err(e),
    };
    proof {
        assert(base == be16_at(s, 0) && component == be16_at(s, 2) && command == be16_at(s, 4)
            && error == be16_at(s, 6) && qtype == be16_at(s, 8) && id == be16_at(s, 10));
    }
    let ext: u16 = if (qtype / 0x10) % 2 == 1 {
        match read_u16(data, pos) {
            Ok(x) => x,
            Err(e) => return Err(e),
        }
    } else {
        0
    };
    proof {
        if has_length_ext(qtype) {
            assert(ext == be16_at(s, 12));
        }
    }
    let clen: u64 = (base as u64) + 0x1_0000 * (ext as u64);
    let rem: usize = data.len() - *pos;
    if clen > rem as u64 {
        return Err(TdfError::Truncated);
    }
    let ghost hdr = *pos - *old(pos);
    let content = crate::tdf::read_bytes(data, pos, clen as usize);
    proof {
        assert(content@ =~= s.subrange(hdr as int, hdr + clen));
    }
    Ok(Packet { component, command, error, qtype, id, content })
}

impl Packet {
    /// Append this packet's encoding to `o`: the header, the extension
    /// word when the `qtype` announces one, then the content.
    pub fn write(&self, o: &mut Vec<u8>)
        requires
            wf_packet(self@),
        ensures
            final(o)@ == old(o)@ + enc_packet(self@),
    {
        let clen: u64 = self.content.len() as u64;
        let base: u16 = (clen % 0x1_0000) as u16;
        write_u16(base, o);
        write_u16(self.component, o);
        write_u16(self.command, o);
        write_u16(self.error, o);
        write_u16(self.qtype, o);
        write_u16(self.id, o);
        if (self.qtype / 0x10) % 2 == 1 {
            write_u16((clen / 0x1_0000) as u16, o);
        }
        let mut j: usize = 0;
        let ghost base_out = o@;
        while j < self.content.len()
            invariant
                j <= self.content@.len(),
                o@ == base_out + self.content@.take(j as int),
            decreases self.content@.len() - j,
        {
            o.push(self.content[j]);
            proof {
                assert(o@ =~= base_out + self.content@.take(j + 1));
            }
            j = j + 1;
        }
        proof {
            assert(self.content@.take(self.content@.len() as int) =~= self.content@);
            assert(o@ =~= old(o)@ + enc_packet(self@));
        }
    }
}

/// Append the big-endian two-byte image of a 16-bit word to `o`.
fn write_u16(x: u16, o: &mut Vec<u8>)
    ensures
        final(o)@ == old(o)@ + be16_enc(x),
{
    o.push((x / 0x100) as u8);
    o.push((x % 0x100) as u8);
    proof {
        assert(o@ =~= old(o)@ + be16_enc(x));
    }
}

/// Parse a packet's whole content as a stream of labeled values, reading
/// one after another until the content is exhausted; any failure aborts
/// the whole parse.
#[verifier::rlimit(100)]
#[verifier::spinoff_prover]
pub fn read_packet_contents(packet: &Packet) -> (r: Result<Vec<LabeledTdf>, TdfError>)
    ensures
        (match dec_stream(packet@.content) {
            Some(ls) => r matches Ok(v) && view_children(v@) == ls,
            None => r matches Err(e) && (e == TdfError::Truncated || e
                == TdfError::InvalidUtf8),
        }),
{
    let data = &packet.content;
    let mut pos: usize = 0;
    let mut content: Vec<LabeledTdf> = Vec::new();
    proof {
        assert(view_children(content@) =~= Seq::<SpecLabeled>::empty());
        assert(data@.skip(0) =~= data@);
    }
    while pos < data.len()
        invariant
            pos <= data@.len(),
            data == &packet.content,
            (match dec_stream(data@.skip(pos as int)) {
                Some(q) => dec_stream(data@) == Some(view_children(content@) + q),
                None => dec_stream(data@) is None,
            }),
        decreases data@.len() - pos,
    {
        let ghost scur = data@.skip(pos as int);
        let ghost ppre = pos as int;
        let item = match LabeledTdf::read(data, &mut pos) {
            Ok(l) => l,
            Err(e) => return Err(e),
        };
        proof {
            crate::wire::lemma_dec_labeled_bound(scur);
            assert(scur.skip(pos - ppre) =~= data@.skip(pos as int));
        }
        let ghost cpre = content@;
        content.push(item);
        proof {
            crate::wire::lemma_view_children_push(cpre, item);
            if let Some(q2) = dec_stream(data@.skip(pos as int)) {
                if let Some(p) = dec_labeled(scur) {
                    assert(view_children(cpre) + (seq![p.0] + q2) =~= view_children(content@)
                        + q2);
                }
            }
        }
    }
    proof {
        assert(data@.skip(pos as int).len() == 0);
        assert(view_children(content@) + Seq::<SpecLabeled>::empty() =~= view_children(
            content@,
        ));
    }
    Ok(content)
}

/// Parsing the encoding of a well-formed packet, followed by anything,
/// yields exactly that packet and consumes exactly its encoding.
pub proof fn lemma_packet_roundtrip(p: SpecPacket, rest: Seq<u8>)
    requires
        wf_packet(p),
    ensures
        dec_packet(enc_packet(p) + rest) == Some((p, enc_packet(p).len() as int)),
{
    let s = enc_packet(p) + rest;
    let clen = p.content.len() as int;
    lemma_be16_fields(p, rest);
    lemma_mod_bound(clen, 0x1_0000);
    lemma_fundamental_div_mod(clen, 0x1_0000);
    if has_length_ext(p.qtype) {
        assert(s.subrange(14, 14 + clen) =~= p.content);
        assert(SpecPacket {
            component: p.component,
            command: p.command,
            error: p.error,
            qtype: p.qtype,
            id: p.id,
            content: s.subrange(14, 14 + clen),
        } =~= p);
    } else {
        lemma_small_mod(p.content.len(), 0x1_0000);
        assert(s.subrange(12, 12 + clen) =~= p.content);
        assert(SpecPacket {
            component: p.component,
            command: p.command,
            error: p.error,
            qtype: p.qtype,
            id: p.id,
            content: s.subrange(12, 12 + clen),
        } =~= p);
    }
}

/// The header fields of an encoded packet are recovered exactly by the
/// big-endian readings the parser makes.
proof fn lemma_be16_fields(p: SpecPacket, rest: Seq<u8>)
    requires
        wf_packet(p),
    ensures
        ({
            let s = enc_packet(p) + rest;
            &&& s.len() == enc_packet(p).len() + rest.len()
            &&& enc_packet(p).len() == (if has_length_ext(p.qtype) {
                14int
            } else {
                12int
            }) + p.content.len()
            &&& be16_at(s, 0) == (p.content.len() % 0x1_0000) as u16
            &&& be16_at(s, 2) == p.component
            &&& be16_at(s, 4) == p.command
            &&& be16_at(s, 6) == p.error
            &&& be16_at(s, 8) == p.qtype
            &&& be16_at(s, 10) == p.id
            &&& (has_length_ext(p.qtype) ==> be16_at(s, 12) == (p.content.len()
                / 0x1_0000) as u16)
            &&& (forall|i: int|
                0 <= i < p.content.len() ==> s[(if has_length_ext(p.qtype) {
                    14int
                } else {
                    12int
                }) + i] == p.content[i])
        }),
{
    lemma_be16_recover((p.content.len() % 0x1_0000) as u16);
    lemma_be16_recover(p.component);
    lemma_be16_recover(p.command);
    lemma_be16_recover(p.error);
    lemma_be16_recover(p.qtype);
    lemma_be16_recover(p.id);
    lemma_be16_recover((p.content.len() / 0x1_0000) as u16);
}

/// A 16-bit word survives the trip through its two big-endian bytes.
proof fn lemma_be16_recover(x: u16)
    ensures
        be16_enc(x).len() == 2,
        be16_enc(x)[0] * 0x100 + be16_enc(x)[1] == x,
{
    lemma_fundamental_div_mod(x as int, 0x100);
    lemma_mod_bound(x as int, 0x100);
}

/// Any proper prefix of a valid encoded packet fails to parse: the parser
/// reports truncation rather than inventing a shorter packet.
pub proof fn lemma_packet_prefix_truncated(p: SpecPacket, k: int)
    requires
        wf_packet(p),
        0 <= k < enc_packet(p).len(),
    ensures
        dec_packet(enc_packet(p).take(k)) is None,
{
    let e = enc_packet(p);
    let t = e.take(k);
    lemma_be16_fields(p, Seq::empty());
    assert(e + Seq::<u8>::empty() =~= e);
    if k >= 12 {
        assert(t[0] == e[0] && t[1] == e[1] && t[8] == e[8] && t[9] == e[9]);
        assert(be16_at(t, 0) == be16_at(e, 0));
        assert(be16_at(t, 8) == be16_at(e, 8));
        let qtype = be16_at(e, 8);
        let hdr: int = if has_length_ext(qtype) {
            14int
        } else {
            12int
        };
        if k >= hdr {
            if has_length_ext(qtype) {
                assert(t[12] == e[12] && t[13] == e[13]);
                assert(be16_at(t, 12) == be16_at(e, 12));
            }
            let clen = p.content.len() as int;
            lemma_fundamental_div_mod(clen, 0x1_0000);
            lemma_mod_bound(clen, 0x1_0000);
            if !has_length_ext(qtype) {
                lemma_small_mod(p.content.len(), 0x1_0000);
            }
            assert(hdr + clen == e.len());
            assert(t.len() < hdr + clen);
        }
    }
}

} // verus!
