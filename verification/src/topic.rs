//! Parsing of sensor-value topic paths. A topic names an account, an object,
//! a device and a channel in fixed positions of its slash-separated parts:
//! `/ssn/acc/<account>/obj/<object>/device/<device>/<channel>/...`.

use vstd::prelude::*;

verus! {

/// The first position at or after `i` holding a slash, or -1 if none.
pub open spec fn first_slash_from(s: Seq<u8>, i: int) -> int
    decreases s.len() - i,
{
    if i < 0 || i >= s.len() {
        -1
    } else if s[i] == 0x2fu8 {
        i
    } else {
        first_slash_from(s, i + 1)
    }
}

/// The slash-separated parts of `s`, empty parts kept, as `s.split('/')`
/// yields them.
pub open spec fn split_slash(s: Seq<u8>) -> Seq<Seq<u8>>
    decreases s.len(),
{
    let f = first_slash_from(s, 0);
    if 0 <= f && f < s.len() {
        seq![s.take(f)] + split_slash(s.skip(f + 1))
    } else {
        seq![s]
    }
}

/// A byte is a decimal digit.
pub open spec fn is_dec_digit(b: u8) -> bool {
    0x30 <= b && b <= 0x39
}

/// The value of a sequence of decimal digit bytes, most significant first.
pub open spec fn dec_val(s: Seq<u8>) -> int
    decreases s.len(),
{
    if s.len() <= 0 {
        0
    } else {
        dec_val(s.drop_last()) * 10 + (s.last() - 0x30)
    }
}

/// A non-empty, all-decimal-digit sequence.
pub open spec fn dec_digits(s: Seq<u8>) -> bool {
    s.len() > 0 && forall|k: int| 0 <= k < s.len() ==> is_dec_digit(#[trigger] s[k])
}

/// The digits of an unsigned decimal literal after its optional leading
/// plus sign.
pub open spec fn dec_body(s: Seq<u8>) -> Seq<u8> {
    if s.len() > 0 && s[0] == 0x2bu8 {
        s.drop_first()
    } else {
        s
    }
}

/// `s` parses as a decimal `u32`: an optional plus sign, then digits whose
/// value fits.
pub open spec fn u32_parse_ok(s: Seq<u8>) -> bool {
    dec_digits(dec_body(s)) && dec_val(dec_body(s)) <= u32::MAX
}

/// The value `s` parses to.
pub open spec fn u32_parse_val(s: Seq<u8>) -> int {
    dec_val(dec_body(s))
}

/// What a topic path denotes, if anything: the parts must number at least
/// nine, part 1 must be `ssn` and part 2 `acc`, and the account, object and
/// channel parts must parse as decimal; the device part is taken verbatim.
/// A topic too short to hold a channel part denotes nothing.
pub open spec fn parse_topic_spec(s: Seq<u8>) -> Option<(u32, u32, Seq<u8>, u32)> {
    let parts = split_slash(s);
    if parts.len() >= 9 && parts[1] == seq![0x73u8, 0x73u8, 0x6eu8] && parts[2] == seq![
        0x61u8,
        0x63u8,
        0x63u8,
    ] && u32_parse_ok(parts[3]) && u32_parse_ok(parts[5]) && u32_parse_ok(parts[8]) {
        Some(
            (
                u32_parse_val(parts[3]) as u32,
                u32_parse_val(parts[5]) as u32,
                parts[7],
                u32_parse_val(parts[8]) as u32,
            ),
        )
    } else {
        None
    }
}

/// Digit values never shrink a decimal's value: every prefix of an
/// all-digit sequence is worth at most the whole.
proof fn lemma_dec_val_prefix_le(s: Seq<u8>, i: int)
    requires
        0 <= i <= s.len(),
        forall|k: int| 0 <= k < s.len() ==> is_dec_digit(#[trigger] s[k]),
    ensures
        0 <= dec_val(s.take(i)) <= dec_val(s),
    decreases s.len(),
{
    if s.len() == 0 {
        assert(s.take(i) =~= s);
    } else if i == s.len() {
        assert(s.take(i) =~= s);
        lemma_dec_val_prefix_le(s.drop_last(), s.len() - 1);
        assert(s.drop_last().take(s.len() - 1) =~= s.drop_last());
        assert(is_dec_digit(s.last()));
    } else {
        lemma_dec_val_prefix_le(s.drop_last(), i);
        assert(s.drop_last().take(i) =~= s.take(i));
        assert(is_dec_digit(s.last()));
    }
}

/// Finds the first slash in the buffer.
fn find_slash(s: &[u8]) -> (r: Option<usize>)
    ensures
        match r {
            Some(i) => first_slash_from(s@, 0) == i && i < s@.len(),
            None => first_slash_from(s@, 0) == -1,
        },
{
    let mut i: usize = 0;
    while i < s.len()
        invariant
            i <= s.len(),
            first_slash_from(s@, 0) == first_slash_from(s@, i as int),
        decreases s.len() - i,
    {
        if s[i] == 0x2f {
            return Some(i);
        }
        i += 1;
    }
    None
}

/// Splits the buffer on slashes, keeping empty parts.
fn split_all(s: &[u8]) -> (parts: Vec<Vec<u8>>)
    ensures
        parts@.map_values(|v: Vec<u8>| v@) == split_slash(s@),
    decreases s@.len(),
{
    match find_slash(s) {
        None => {
            let mut parts: Vec<Vec<u8>> = Vec::new();
            parts.push(vstd::slice::slice_to_vec(s));
            proof {
                assert(parts@.map_values(|v: Vec<u8>| v@) =~= seq![s@]);
            }
            parts
        },
        Some(f) => {
            assert(f < s.len());
            let head = vstd::slice::slice_to_vec(vstd::slice::slice_subrange(s, 0, f));
            let sub = vstd::slice::slice_subrange(s, f + 1, s.len());
            let mut parts = split_all(sub);
            parts.insert(0, head);
            proof {
                assert(head@ =~= s@.take(f as int));
                assert(sub@ =~= s@.skip(f + 1));
                assert(parts@.map_values(|v: Vec<u8>| v@) =~= seq![s@.take(f as int)]
                    + split_slash(s@.skip(f + 1)));
            }
            parts
        },
    }
}

/// Parses an unsigned decimal literal: an optional plus sign, then digits;
/// rejects anything else and any value over `u32::MAX`.
pub(crate) fn parse_u32_dec(s: &[u8]) -> (r: Option<u32>)
    ensures
        match r {
            Some(v) => u32_parse_ok(s@) && v == u32_parse_val(s@),
            None => !u32_parse_ok(s@),
        },
{
    if s.len() == 0 {
        return None;
    }
    let start: usize = if s[0] == 0x2b {
        1
    } else {
        0
    };
    let ghost body = dec_body(s@);
    proof {
        assert(body =~= s@.subrange(start as int, s@.len() as int));
    }
    if start == s.len() {
        return None;
    }
    let mut acc: u32 = 0;
    let mut i: usize = start;
    while i < s.len()
        invariant
            start <= i <= s@.len(),
            start <= 1,
            body == dec_body(s@),
            body =~= s@.subrange(start as int, s@.len() as int),
            forall|k: int| start <= k < i ==> is_dec_digit(#[trigger] s@[k]),
            acc == dec_val(body.take(i - start)),
        decreases s@.len() - i,
    {
        let b = s[i];
        if !(0x30 <= b && b <= 0x39) {
            proof {
                assert(body[i - start] == s@[i as int]);
                assert(!dec_digits(body));
            }
            return None;
        }
        let d = b - 0x30;
        proof {
            assert(body.take(i - start + 1).drop_last() =~= body.take(i - start));
            assert(body.take(i - start + 1).last() == s@[i as int]);
            assert(dec_val(body.take(i - start + 1)) == acc * 10 + d);
        }
        if acc > 429_496_729 || (acc == 429_496_729 && d > 5) {
            proof {
                if dec_digits(body) {
                    assert(forall|k: int| 0 <= k < body.len() ==> is_dec_digit(
                        #[trigger] body[k],
                    ));
                    lemma_dec_val_prefix_le(body, i - start + 1);
                    assert(dec_val(body) > u32::MAX);
                }
            }
            return None;
        }
        acc = acc * 10 + (d as u32);
        i += 1;
    }
    proof {
        assert(body.take(s@.len() - start) =~= body);
        assert(forall|k: int| 0 <= k < body.len() ==> is_dec_digit(#[trigger] body[k]));
        assert(dec_digits(body));
    }
    Some(acc)
}

/// Compares a part with a three-byte literal.
fn part_eq3(v: &Vec<u8>, a: u8, b: u8, c: u8) -> (r: bool)
    ensures
        r == (v@ == seq![a, b, c]),
{
    let r = v.len() == 3 && v[0] == a && v[1] == b && v[2] == c;
    proof {
        if r {
            assert(v@ =~= seq![a, b, c]);
        }
    }
    r
}

/// Reads the account, object, device name and channel out of a topic path,
/// or nothing when the path does not have the expected shape. Unlike its
/// precursor, a path whose parts end at the device name - too short to hold
/// a channel - yields nothing rather than a fault.
pub fn parse_topic(topic: &[u8]) -> (r: Option<(u32, u32, Vec<u8>, u32)>)
    ensures
        match r {
            Some(t) => parse_topic_spec(topic@) == Some((t.0, t.1, t.2@, t.3)),
            None => parse_topic_spec(topic@) is None,
        },
{
    let parts = split_all(topic);
    if parts.len() < 9 {
        return None;
    }
    if !part_eq3(&parts[1], 0x73, 0x73, 0x6e) {
        return None;
    }
    if !part_eq3(&parts[2], 0x61, 0x63, 0x63) {
        return None;
    }
    let account = match parse_u32_dec(parts[3].as_slice()) {
        Some(v) => v,
        None => {
            return None;
        },
    };
    let obj = match parse_u32_dec(parts[5].as_slice()) {
        Some(v) => v,
        None => {
            return None;
        },
    };
    let channel = match parse_u32_dec(parts[8].as_slice()) {
        Some(v) => v,
        None => {
            return None;
        },
    };
    let device = vstd::slice::slice_to_vec(parts[7].as_slice());
    Some((account, obj, device, channel))
}

} // verus!
