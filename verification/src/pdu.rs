//! The SSN PDU framing protocol: a frame is the start marker `===ssn1`,
//! a 14-character header of fixed-width lowercase hex fields (destination,
//! source, message type, payload length), the payload text, and a 4-character
//! CCITT CRC16 of the payload. The decoder scans an accumulating buffer for
//! one complete, validated frame and returns the unconsumed remainder.

use vstd::prelude::*;
use crate::crc16::{ccitt_16, ccitt_of};

verus! {

/// A byte is a hexadecimal digit: `0-9`, `a-f` or (tolerated on decode
/// only) `A-F`.
pub open spec fn is_hex_digit(b: u8) -> bool {
    (0x30 <= b && b <= 0x39) || (0x61 <= b && b <= 0x66) || (0x41 <= b && b <= 0x46)
}

/// The numeric value of a hexadecimal digit byte.
pub open spec fn hex_digit_value(b: u8) -> int {
    if 0x30 <= b && b <= 0x39 {
        b - 0x30
    } else if 0x61 <= b && b <= 0x66 {
        b - 0x61 + 10
    } else {
        b - 0x41 + 10
    }
}

/// The `n` bytes of `s` starting at `pos` are all hexadecimal digits.
pub open spec fn hex_ok(s: Seq<u8>, pos: int, n: int) -> bool {
    forall|k: int| pos <= k < pos + n ==> is_hex_digit(#[trigger] s[k])
}

/// The value of the `n`-digit hexadecimal field of `s` starting at `pos`,
/// most significant digit first.
pub open spec fn hex_val_at(s: Seq<u8>, pos: int, n: int) -> int
    decreases n,
{
    if n <= 0 {
        0
    } else {
        hex_val_at(s, pos, n - 1) * 16 + hex_digit_value(s[pos + n - 1])
    }
}

/// The lowercase hexadecimal digit byte for a value below 16.
pub open spec fn hex_digit_char(d: u8) -> u8 {
    if d < 10 {
        (0x30 + d) as u8
    } else {
        (0x57 + d) as u8
    }
}

/// The four lowercase hex digits of a 16-bit value, zero-padded.
pub open spec fn hex4_seq(v: u16) -> Seq<u8> {
    seq![
        hex_digit_char(((v >> 12) & 0xF) as u8),
        hex_digit_char(((v >> 8) & 0xF) as u8),
        hex_digit_char(((v >> 4) & 0xF) as u8),
        hex_digit_char((v & 0xF) as u8),
    ]
}

/// The two lowercase hex digits of an 8-bit value, zero-padded.
pub open spec fn hex2_seq(v: u8) -> Seq<u8> {
    seq![hex_digit_char((v >> 4) & 0xF), hex_digit_char(v & 0xF)]
}

/// 16 to the power `n`, the number of `n`-digit hexadecimal values.
pub open spec fn pow16(n: int) -> int
    decreases n,
{
    if n <= 0 {
        1
    } else {
        16 * pow16(n - 1)
    }
}

proof fn lemma_pow16_small()
    ensures
        pow16(0) == 1,
        pow16(1) == 16,
        pow16(2) == 256,
        pow16(3) == 4096,
        pow16(4) == 65536,
{
    assert(pow16(0) == 1);
    assert(pow16(1) == 16);
    assert(pow16(2) == 256);
    assert(pow16(3) == 4096);
    assert(pow16(4) == 65536);
}

proof fn lemma_pow16_mono(a: int, b: int)
    requires
        0 <= a <= b,
    ensures
        pow16(a) <= pow16(b),
        pow16(a) >= 1,
    decreases b,
{
    if a < b {
        lemma_pow16_mono(a, b - 1);
    } else if a > 0 {
        lemma_pow16_mono(a - 1, b - 1);
    }
}

/// A hexadecimal field reads the same wherever equal bytes stand.
proof fn lemma_hex_val_at_congruence(s1: Seq<u8>, p1: int, s2: Seq<u8>, p2: int, n: int)
    requires
        n >= 0,
        forall|k: int| 0 <= k < n ==> s1[p1 + k] == #[trigger] s2[p2 + k],
    ensures
        hex_val_at(s1, p1, n) == hex_val_at(s2, p2, n),
        hex_ok(s1, p1, n) == hex_ok(s2, p2, n),
    decreases n,
{
    if n > 0 {
        lemma_hex_val_at_congruence(s1, p1, s2, p2, n - 1);
        assert(s1[p1 + (n - 1)] == s2[p2 + (n - 1)]);
        assert(hex_ok(s1, p1, n) == hex_ok(s2, p2, n)) by {
            if hex_ok(s1, p1, n) {
                assert forall|k: int| p2 <= k < p2 + n implies is_hex_digit(s2[k]) by {
                    assert(s1[p1 + (k - p2)] == s2[p2 + (k - p2)]);
                }
            }
            if hex_ok(s2, p2, n) {
                assert forall|k: int| p1 <= k < p1 + n implies is_hex_digit(s1[k]) by {
                    assert(s1[p1 + (k - p1)] == s2[p2 + (k - p1)]);
                }
            }
        }
    }
}

/// Every hexadecimal field value is bounded by the field's width.
proof fn lemma_hex_val_at_bound(s: Seq<u8>, pos: int, n: int)
    requires
        n >= 0,
        hex_ok(s, pos, n),
    ensures
        0 <= hex_val_at(s, pos, n) < pow16(n),
    decreases n,
{
    if n > 0 {
        assert(hex_ok(s, pos, n - 1));
        lemma_hex_val_at_bound(s, pos, n - 1);
        assert(is_hex_digit(s[pos + n - 1]));
        assert(0 <= hex_digit_value(s[pos + n - 1]) < 16);
    }
}

/// Parsing the four lowercase digits of a 16-bit value gives the value back.
proof fn lemma_hex4_parse(v: u16)
    ensures
        hex4_seq(v).len() == 4,
        hex_ok(hex4_seq(v), 0, 4),
        hex_val_at(hex4_seq(v), 0, 4) == v,
{
    let d0 = ((v >> 12) & 0xF) as u8;
    let d1 = ((v >> 8) & 0xF) as u8;
    let d2 = ((v >> 4) & 0xF) as u8;
    let d3 = (v & 0xF) as u8;
    assert(((v >> 12) & 0xF) < 16 && ((v >> 8) & 0xF) < 16 && ((v >> 4) & 0xF) < 16 && (v & 0xF)
        < 16 && ((v >> 12) & 0xF) * 4096 + ((v >> 8) & 0xF) * 256 + ((v >> 4) & 0xF) * 16 + (v
        & 0xF) == v) by (bit_vector);
    assert(d0 == (v >> 12) & 0xF && d1 == (v >> 8) & 0xF && d2 == (v >> 4) & 0xF && d3 == v & 0xF);
    let s = hex4_seq(v);
    assert(s[0] == hex_digit_char(d0) && s[1] == hex_digit_char(d1) && s[2] == hex_digit_char(d2)
        && s[3] == hex_digit_char(d3));
    assert(hex_val_at(s, 0, 4)
        == hex_val_at(s, 0, 3) * 16 + hex_digit_value(s[3]));
    assert(hex_val_at(s, 0, 3)
        == hex_val_at(s, 0, 2) * 16 + hex_digit_value(s[2]));
    assert(hex_val_at(s, 0, 2)
        == hex_val_at(s, 0, 1) * 16 + hex_digit_value(s[1]));
    assert(hex_val_at(s, 0, 1)
        == hex_val_at(s, 0, 0) * 16 + hex_digit_value(s[0]));
    assert(hex_val_at(s, 0, 0) == 0);
}

/// Parsing the two lowercase digits of an 8-bit value gives the value back.
proof fn lemma_hex2_parse(v: u8)
    ensures
        hex2_seq(v).len() == 2,
        hex_ok(hex2_seq(v), 0, 2),
        hex_val_at(hex2_seq(v), 0, 2) == v,
{
    let d0 = (v >> 4) & 0xF;
    let d1 = v & 0xF;
    assert(((v >> 4) & 0xF) < 16 && (v & 0xF) < 16 && ((v >> 4) & 0xF) * 16 + (v & 0xF) == v)
        by (bit_vector);
    let s = hex2_seq(v);
    assert(s[0] == hex_digit_char(d0) && s[1] == hex_digit_char(d1));
    assert(hex_val_at(s, 0, 2) == hex_val_at(s, 0, 1) * 16 + hex_digit_value(s[1]));
    assert(hex_val_at(s, 0, 1) == hex_val_at(s, 0, 0) * 16 + hex_digit_value(s[0]));
    assert(hex_val_at(s, 0, 0) == 0);
}

/// Classifies one byte as a hex digit, giving its value.
fn hex_digit_of(b: u8) -> (r: Option<u8>)
    ensures
        match r {
            Some(v) => is_hex_digit(b) && v == hex_digit_value(b),
            None => !is_hex_digit(b),
        },
{
    if 0x30 <= b && b <= 0x39 {
        Some(b - 0x30)
    } else if 0x61 <= b && b <= 0x66 {
        Some(b - 0x61 + 10)
    } else if 0x41 <= b && b <= 0x46 {
        Some(b - 0x41 + 10)
    } else {
        None
    }
}

/// Parses the `n`-digit hexadecimal field of `buf` starting at `pos`,
/// tolerating uppercase digits.
fn parse_hex(buf: &[u8], pos: usize, n: usize) -> (r: Option<u16>)
    requires
        pos + n <= buf.len(),
        n <= 4,
    ensures
        match r {
            Some(v) => hex_ok(buf@, pos as int, n as int) && v == hex_val_at(
                buf@,
                pos as int,
                n as int,
            ),
            None => !hex_ok(buf@, pos as int, n as int),
        },
{
    let mut acc: u16 = 0;
    let mut j: usize = 0;
    proof {
        lemma_pow16_small();
    }
    while j < n
        invariant
            j <= n,
            n <= 4,
            pos + n <= buf.len(),
            hex_ok(buf@, pos as int, j as int),
            acc == hex_val_at(buf@, pos as int, j as int),
            acc < pow16(j as int),
        decreases n - j,
    {
        proof {
            lemma_pow16_small();
            lemma_pow16_mono(j as int, 3);
        }
        match hex_digit_of(buf[pos + j]) {
            Some(d) => {
                assert(d < 16);
                acc = acc * 16 + (d as u16);
                proof {
                    assert(hex_val_at(buf@, pos as int, j + 1)
                        == hex_val_at(buf@, pos as int, j as int) * 16
                            + hex_digit_value(buf@[pos + j]));
                    assert forall|k: int| pos <= k < pos + j + 1 implies is_hex_digit(
                        #[trigger] buf@[k],
                    ) by {}
                }
                j += 1;
            },
            None => {
                assert(!is_hex_digit(buf@[pos + j]));
                return None;
            },
        }
    }
    Some(acc)
}

/// One frame of the SSN wire protocol: addressing, type, payload and the
/// time it was decoded or built. `msg_id` is reserved and never carried on
/// the wire; `timestamp` is informational only and never carried either.
#[derive(Debug, Clone)]
pub struct SsnPdu {
    pub dest_obj: u16,
    pub src_obj: u16,
    pub msg_type: u8,
    pub msg_id: Option<u16>,
    pub msg_data: Vec<u8>,
    pub timestamp: i64,
}

/// The fixed start marker `===ssn1` as wire bytes.
pub open spec fn marker_seq() -> Seq<u8> {
    seq![0x3du8, 0x3du8, 0x3du8, 0x73u8, 0x73u8, 0x6eu8, 0x31u8]
}

/// The exact wire bytes of a frame: marker, four zero-padded lowercase hex
/// header fields, the payload, and the CCITT checksum of the payload alone
/// (the header is not covered by any checksum).
pub open spec fn encode_frame(dest: u16, src: u16, typ: u8, payload: Seq<u8>) -> Seq<u8> {
    marker_seq() + hex4_seq(dest) + hex4_seq(src) + hex2_seq(typ) + hex4_seq(
        payload.len() as u16,
    ) + payload + hex4_seq(ccitt_of(payload))
}

/// Relies on chrono::Utc::now for the current time as whole seconds since
/// the Unix epoch; nothing is assumed of the value.
#[verifier::external_body]
fn now_ts() -> i64 {
    chrono::Utc::now().timestamp()
}

/// Appends the four lowercase hex digits of `v`.
fn push_hex4(out: &mut Vec<u8>, v: u16)
    ensures
        final(out)@ == old(out)@ + hex4_seq(v),
{
    let sh12: u16 = (v >> 12) & 0xF;
    let sh8: u16 = (v >> 8) & 0xF;
    let sh4: u16 = (v >> 4) & 0xF;
    let sh0: u16 = v & 0xF;
    assert(sh12 < 16 && sh8 < 16 && sh4 < 16 && sh0 < 16) by (bit_vector)
        requires
            sh12 == (v >> 12) & 0xF,
            sh8 == (v >> 8) & 0xF,
            sh4 == (v >> 4) & 0xF,
            sh0 == v & 0xF,
    ;
    out.push(hex_char(sh12 as u8));
    out.push(hex_char(sh8 as u8));
    out.push(hex_char(sh4 as u8));
    out.push(hex_char(sh0 as u8));
    proof {
        assert(out@ =~= old(out)@ + hex4_seq(v));
    }
}

/// Appends the two lowercase hex digits of `v`.
fn push_hex2(out: &mut Vec<u8>, v: u8)
    ensures
        final(out)@ == old(out)@ + hex2_seq(v),
{
    let hi: u8 = (v >> 4) & 0xF;
    let lo: u8 = v & 0xF;
    assert(hi < 16 && lo < 16) by (bit_vector)
        requires
            hi == (v >> 4) & 0xF,
            lo == v & 0xF,
    ;
    out.push(hex_char(hi));
    out.push(hex_char(lo));
    proof {
        assert(out@ =~= old(out)@ + hex2_seq(v));
    }
}

/// The lowercase hex digit byte of a value below 16.
fn hex_char(d: u8) -> (r: u8)
    requires
        d < 16,
    ensures
        r == hex_digit_char(d),
{
    if d < 10 {
        0x30 + d
    } else {
        0x57 + d
    }
}

impl SsnPdu {
    /// Builds a frame to send, stamped with the current time; the reserved
    /// correlation identifier is absent.
    pub fn new(dest_obj: u16, src_obj: u16, msg_type: u8, msg_data: Vec<u8>) -> (r: Self)
        ensures
            r.dest_obj == dest_obj,
            r.src_obj == src_obj,
            r.msg_type == msg_type,
            r.msg_id is None,
            r.msg_data == msg_data,
    {
        Self { dest_obj, src_obj, msg_type, msg_id: None, msg_data, timestamp: now_ts() }
    }

    /// Serialises the frame into its exact wire bytes. The payload must fit
    /// the 4-hex-digit length field; violating that is a caller contract
    /// violation, so it is a checked precondition here.
    pub fn get_ssn_pdu(&self) -> (r: Vec<u8>)
        requires
            self.msg_data@.len() <= 0xFFFF,
        ensures
            r@ == encode_frame(self.dest_obj, self.src_obj, self.msg_type, self.msg_data@),
    {
        let mut out: Vec<u8> = Vec::new();
        out.push(0x3d);
        out.push(0x3d);
        out.push(0x3d);
        out.push(0x73);
        out.push(0x73);
        out.push(0x6e);
        out.push(0x31);
        proof {
            assert(out@ =~= marker_seq());
        }
        push_hex4(&mut out, self.dest_obj);
        push_hex4(&mut out, self.src_obj);
        push_hex2(&mut out, self.msg_type);
        push_hex4(&mut out, self.msg_data.len() as u16);
        out.extend_from_slice(self.msg_data.as_slice());
        let crc = ccitt_16(self.msg_data.as_slice());
        push_hex4(&mut out, crc);
        proof {
            assert(out@ =~= encode_frame(self.dest_obj, self.src_obj, self.msg_type,
                self.msg_data@));
        }
        out
    }
}

/// The start marker stands in `s` at position `i`.
pub open spec fn marker_at(s: Seq<u8>, i: int) -> bool {
    &&& 0 <= i
    &&& i + 7 <= s.len()
    &&& s[i] == 0x3du8
    &&& s[i + 1] == 0x3du8
    &&& s[i + 2] == 0x3du8
    &&& s[i + 3] == 0x73u8
    &&& s[i + 4] == 0x73u8
    &&& s[i + 5] == 0x6eu8
    &&& s[i + 6] == 0x31u8
}

/// The first position at or after `i` where the start marker stands, or -1
/// if there is none.
pub open spec fn find_marker_from(s: Seq<u8>, i: int) -> int
    decreases s.len() - i,
{
    if i < 0 || i + 7 > s.len() {
        -1
    } else if marker_at(s, i) {
        i
    } else {
        find_marker_from(s, i + 1)
    }
}

/// What the marker search returns is either -1 or a marker position at or
/// after where it started.
proof fn lemma_find_marker_from_props(s: Seq<u8>, i: int)
    requires
        0 <= i,
    ensures
        find_marker_from(s, i) == -1 || (i <= find_marker_from(s, i) && marker_at(
            s,
            find_marker_from(s, i),
        )),
    decreases s.len() - i,
{
    if i + 7 <= s.len() && !marker_at(s, i) {
        lemma_find_marker_from_props(s, i + 1);
    }
}

/// The outcome of one decode attempt, stated over the mathematical view of
/// the buffer. `Incomplete` keeps the buffer untouched; `Malformed` and
/// `Mismatch` hand back the bytes after the failed marker occurrence, so a
/// rescanning caller always makes progress past corrupt input.
pub enum SpecDecode {
    Incomplete,
    Decoded { dest: u16, src: u16, typ: u8, payload: Seq<u8>, rest: Seq<u8> },
    Malformed { rest: Seq<u8> },
    Mismatch { dest: u16, src: u16, declared: u16, computed: u16, rest: Seq<u8> },
}

/// One decode attempt against an accumulated buffer: find the first start
/// marker; require the 14-character header and then the declared payload
/// plus a 4-character checksum to be present, else wait for more bytes;
/// reject non-hex header or checksum fields; accept the frame only when the
/// recomputed payload checksum equals the declared one.
pub open spec fn decode_spec(s: Seq<u8>) -> SpecDecode {
    let m = find_marker_from(s, 0);
    if m < 0 {
        SpecDecode::Incomplete
    } else {
        let cur = m + 7;
        if s.len() < cur + 14 {
            SpecDecode::Incomplete
        } else if !(hex_ok(s, cur, 4) && hex_ok(s, cur + 4, 4) && hex_ok(s, cur + 8, 2) && hex_ok(
            s,
            cur + 10,
            4,
        )) {
            SpecDecode::Malformed { rest: s.subrange(cur, s.len() as int) }
        } else {
            let dest = hex_val_at(s, cur, 4) as u16;
            let src = hex_val_at(s, cur + 4, 4) as u16;
            let typ = hex_val_at(s, cur + 8, 2) as u8;
            let plen = hex_val_at(s, cur + 10, 4);
            let dpos = cur + 14;
            if s.len() < dpos + plen + 4 {
                SpecDecode::Incomplete
            } else if !hex_ok(s, dpos + plen, 4) {
                SpecDecode::Malformed { rest: s.subrange(cur, s.len() as int) }
            } else {
                let payload = s.subrange(dpos, dpos + plen);
                let declared = hex_val_at(s, dpos + plen, 4) as u16;
                let computed = ccitt_of(payload);
                if declared == computed {
                    SpecDecode::Decoded {
                        dest,
                        src,
                        typ,
                        payload,
                        rest: s.subrange(dpos + plen + 4, s.len() as int),
                    }
                } else {
                    SpecDecode::Mismatch {
                        dest,
                        src,
                        declared,
                        computed,
                        rest: s.subrange(cur, s.len() as int),
                    }
                }
            }
        }
    }
}

/// The outcome a decode attempt hands back to the caller. On `Mismatch` the
/// destination and source identifiers and both checksums are reported as the
/// diagnostic; on `Malformed` and `Mismatch` the remainder skips the failed
/// marker occurrence, so feeding the remainder back cannot loop forever.
pub enum DecodeOutcome {
    Incomplete,
    Decoded { frame: SsnPdu, rest: Vec<u8> },
    Malformed { rest: Vec<u8> },
    Mismatch { dest_obj: u16, src_obj: u16, declared_crc: u16, computed_crc: u16, rest: Vec<u8> },
}

/// Finds the first start marker occurrence in the buffer.
fn find_marker(buf: &[u8]) -> (r: Option<usize>)
    ensures
        match r {
            Some(i) => find_marker_from(buf@, 0) == i,
            None => find_marker_from(buf@, 0) == -1,
        },
{
    if buf.len() < 7 {
        return None;
    }
    let mut i: usize = 0;
    while i <= buf.len() - 7
        invariant
            buf.len() >= 7,
            i <= buf.len() - 7 + 1,
            find_marker_from(buf@, 0) == find_marker_from(buf@, i as int),
        decreases buf.len() - i,
    {
        if buf[i] == 0x3d && buf[i + 1] == 0x3d && buf[i + 2] == 0x3d && buf[i + 3] == 0x73
            && buf[i + 4] == 0x73 && buf[i + 5] == 0x6e && buf[i + 6] == 0x31 {
            assert(marker_at(buf@, i as int));
            return Some(i);
        }
        assert(!marker_at(buf@, i as int));
        i += 1;
    }
    None
}

impl SsnPdu {
    /// Attempts to extract one complete, validated frame from the
    /// accumulated buffer. `Incomplete` preserves every byte for the caller
    /// to retry once more data has arrived; a decoded frame carries the
    /// unconsumed remainder, which may itself contain a further frame; a
    /// corrupt or malformed frame is reported and the remainder resumes
    /// just past the failed start marker.
    pub fn process_buffer(buffer: &[u8]) -> (r: DecodeOutcome)
        ensures
            ({
                let d = decode_spec(buffer@);
                match r {
                    DecodeOutcome::Incomplete => d == SpecDecode::Incomplete,
                    DecodeOutcome::Decoded { frame, rest } => {
                        &&& d matches SpecDecode::Decoded {
                            dest,
                            src,
                            typ,
                            payload,
                            rest: tail,
                        }
                        &&& frame.dest_obj == dest
                        &&& frame.src_obj == src
                        &&& frame.msg_type == typ
                        &&& frame.msg_data@ == payload
                        &&& frame.msg_id is None
                        &&& rest@ == tail
                        &&& rest@.len() < buffer@.len()
                    },
                    DecodeOutcome::Malformed { rest } => {
                        &&& d matches SpecDecode::Malformed { rest: tail }
                        &&& rest@ == tail
                        &&& rest@.len() < buffer@.len()
                    },
                    DecodeOutcome::Mismatch {
                        dest_obj,
                        src_obj,
                        declared_crc,
                        computed_crc,
                        rest,
                    } => {
                        &&& d matches SpecDecode::Mismatch {
                            dest,
                            src,
                            declared,
                            computed,
                            rest: tail,
                        }
                        &&& dest_obj == dest
                        &&& src_obj == src
                        &&& declared_crc == declared
                        &&& computed_crc == computed
                        &&& rest@ == tail
                        &&& rest@.len() < buffer@.len()
                    },
                }
            }),
    {
        let m = match find_marker(buffer) {
            Some(m) => m,
            None => {
                return DecodeOutcome::Incomplete;
            },
        };
        proof {
            lemma_find_marker_from_props(buffer@, 0);
            assert(m + 7 <= buffer.len());
        }
        let cur = m + 7;
        if buffer.len() - cur < 14 {
            return DecodeOutcome::Incomplete;
        }
        let dest = parse_hex(buffer, cur, 4);
        let src = parse_hex(buffer, cur + 4, 4);
        let typ = parse_hex(buffer, cur + 8, 2);
        let plen = parse_hex(buffer, cur + 10, 4);
        let (dest, src, typ, plen) = match (dest, src, typ, plen) {
            (Some(d), Some(sr), Some(t), Some(p)) => (d, sr, t, p),
            _ => {
                let rest = slice_to_vec_u8(buffer, cur, buffer.len());
                return DecodeOutcome::Malformed { rest };
            },
        };
        proof {
            lemma_pow16_small();
            lemma_hex_val_at_bound(buffer@, cur + 8, 2);
        }
        let dpos = cur + 14;
        if buffer.len() - dpos < (plen as usize) + 4 {
            return DecodeOutcome::Incomplete;
        }
        let declared = match parse_hex(buffer, dpos + (plen as usize), 4) {
            Some(c) => c,
            None => {
                let rest = slice_to_vec_u8(buffer, cur, buffer.len());
                return DecodeOutcome::Malformed { rest };
            },
        };
        let payload_slice = vstd::slice::slice_subrange(buffer, dpos, dpos + (plen as usize));
        let computed = ccitt_16(payload_slice);
        if computed == declared {
            let msg_data = slice_to_vec_u8(buffer, dpos, dpos + (plen as usize));
            let rest = slice_to_vec_u8(buffer, dpos + (plen as usize) + 4, buffer.len());
            let frame = SsnPdu {
                dest_obj: dest,
                src_obj: src,
                msg_type: typ as u8,
                msg_id: None,
                msg_data,
                timestamp: now_ts(),
            };
            DecodeOutcome::Decoded { frame, rest }
        } else {
            let rest = slice_to_vec_u8(buffer, cur, buffer.len());
            DecodeOutcome::Mismatch {
                dest_obj: dest,
                src_obj: src,
                declared_crc: declared,
                computed_crc: computed,
                rest,
            }
        }
    }
}

/// Copies the bytes of `buf` between `from` and `to` into a fresh vector.
fn slice_to_vec_u8(buf: &[u8], from: usize, to: usize) -> (r: Vec<u8>)
    requires
        from <= to <= buf.len(),
    ensures
        r@ == buf@.subrange(from as int, to as int),
{
    let sub = vstd::slice::slice_subrange(buf, from, to);
    vstd::slice::slice_to_vec(sub)
}

/// Decoding a buffer that starts with the encoding of a frame yields exactly
/// that frame's fields and leaves exactly the appended bytes unconsumed,
/// whatever those bytes are.
pub proof fn lemma_decode_encode(dest: u16, src: u16, typ: u8, payload: Seq<u8>, tail: Seq<u8>)
    requires
        payload.len() <= 0xFFFF,
    ensures
        decode_spec(encode_frame(dest, src, typ, payload) + tail) == (SpecDecode::Decoded {
            dest,
            src,
            typ,
            payload,
            rest: tail,
        }),
{
    let h1 = hex4_seq(dest);
    let h2 = hex4_seq(src);
    let h3 = hex2_seq(typ);
    let h4 = hex4_seq(payload.len() as u16);
    let hc = hex4_seq(ccitt_of(payload));
    let pl = payload.len() as int;
    let e = encode_frame(dest, src, typ, payload) + tail;
    lemma_hex4_parse(dest);
    lemma_hex4_parse(src);
    lemma_hex2_parse(typ);
    lemma_hex4_parse(payload.len() as u16);
    lemma_hex4_parse(ccitt_of(payload));
    assert(e.len() == 25 + pl + tail.len());
    assert(marker_at(e, 0));
    assert(find_marker_from(e, 0) == 0);
    assert(forall|k: int| 0 <= k < 4 ==> #[trigger] e[7 + k] == h1[k]);
    assert(forall|k: int| 0 <= k < 4 ==> #[trigger] e[11 + k] == h2[k]);
    assert(forall|k: int| 0 <= k < 2 ==> #[trigger] e[15 + k] == h3[k]);
    assert(forall|k: int| 0 <= k < 4 ==> #[trigger] e[17 + k] == h4[k]);
    assert(forall|k: int| 0 <= k < pl ==> #[trigger] e[21 + k] == payload[k]);
    assert(forall|k: int| 0 <= k < 4 ==> #[trigger] e[21 + pl + k] == hc[k]);
    lemma_hex_val_at_congruence(h1, 0, e, 7, 4);
    lemma_hex_val_at_congruence(h2, 0, e, 11, 4);
    lemma_hex_val_at_congruence(h3, 0, e, 15, 2);
    lemma_hex_val_at_congruence(h4, 0, e, 17, 4);
    lemma_hex_val_at_congruence(hc, 0, e, 21 + pl, 4);
    assert(hex_val_at(e, 7, 4) == dest);
    assert(hex_val_at(e, 11, 4) == src);
    assert(hex_val_at(e, 15, 2) == typ);
    assert(hex_val_at(e, 17, 4) == pl);
    assert(e.subrange(21, 21 + pl) =~= payload);
    assert(hex_val_at(e, 21 + pl, 4) == ccitt_of(payload));
    assert(e.subrange(21 + pl + 4, e.len() as int) =~= tail);
    assert(decode_spec(e) == (SpecDecode::Decoded { dest, src, typ, payload, rest: tail }));
}

/// Round-trip identity: decoding the exact encoding of any valid frame gives
/// the frame back - destination, source, type and payload - with nothing
/// left over. The timestamp is not carried on the wire and takes no part.
pub proof fn lemma_encode_decode_round_trip(dest: u16, src: u16, typ: u8, payload: Seq<u8>)
    requires
        payload.len() <= 0xFFFF,
    ensures
        decode_spec(encode_frame(dest, src, typ, payload)) == (SpecDecode::Decoded {
            dest,
            src,
            typ,
            payload,
            rest: Seq::<u8>::empty(),
        }),
{
    lemma_decode_encode(dest, src, typ, payload, Seq::<u8>::empty());
    assert(encode_frame(dest, src, typ, payload) + Seq::<u8>::empty() =~= encode_frame(
        dest,
        src,
        typ,
        payload,
    ));
}

/// Two back-to-back valid frames decode in order: the first attempt yields
/// the first frame with the second frame's bytes as remainder, and decoding
/// that remainder yields the second frame with an empty remainder.
pub proof fn lemma_back_to_back_frames(
    dest1: u16,
    src1: u16,
    typ1: u8,
    payload1: Seq<u8>,
    dest2: u16,
    src2: u16,
    typ2: u8,
    payload2: Seq<u8>,
)
    requires
        payload1.len() <= 0xFFFF,
        payload2.len() <= 0xFFFF,
    ensures
        decode_spec(encode_frame(dest1, src1, typ1, payload1) + encode_frame(
            dest2,
            src2,
            typ2,
            payload2,
        )) == (SpecDecode::Decoded {
            dest: dest1,
            src: src1,
            typ: typ1,
            payload: payload1,
            rest: encode_frame(dest2, src2, typ2, payload2),
        }),
        decode_spec(encode_frame(dest2, src2, typ2, payload2)) == (SpecDecode::Decoded {
            dest: dest2,
            src: src2,
            typ: typ2,
            payload: payload2,
            rest: Seq::<u8>::empty(),
        }),
{
    lemma_decode_encode(dest1, src1, typ1, payload1, encode_frame(dest2, src2, typ2, payload2));
    lemma_encode_decode_round_trip(dest2, src2, typ2, payload2);
}

/// A buffer whose first start marker is followed by fewer than the 14
/// header characters yields no frame: the attempt reports only that more
/// data is needed, and the caller keeps every byte.
pub proof fn lemma_short_header_waits(s: Seq<u8>)
    requires
        find_marker_from(s, 0) >= 0,
        s.len() < find_marker_from(s, 0) + 7 + 14,
    ensures
        decode_spec(s) == SpecDecode::Incomplete,
{
}

/// Resynchronization makes progress: whenever a decode attempt consumes
/// anything - a decoded frame, a malformed header, or a checksum mismatch -
/// the remainder is strictly shorter than the buffer, so re-feeding
/// remainders cannot loop forever.
pub proof fn lemma_resync_progress(s: Seq<u8>)
    ensures
        decode_spec(s) matches SpecDecode::Decoded { rest, .. } ==> rest.len() < s.len(),
        decode_spec(s) matches SpecDecode::Malformed { rest } ==> rest.len() < s.len(),
        decode_spec(s) matches SpecDecode::Mismatch { rest, .. } ==> rest.len() < s.len(),
{
    lemma_find_marker_from_props(s, 0);
    let m = find_marker_from(s, 0);
    if m >= 0 && s.len() >= m + 7 + 14 {
        if hex_ok(s, m + 7 + 10, 4) {
            lemma_pow16_small();
            lemma_hex_val_at_bound(s, m + 7 + 10, 4);
        }
    }
}

} // verus!
