//! The action engine's device-reference model. A trigger expression names
//! the devices it reads with the textual pattern `d(<name>, <channel>)`:
//! the device name is a word, optionally quoted on either side, and the
//! channel is a decimal number. The engine stores actions and answers which
//! of them mention a given device and channel.

use vstd::prelude::*;
use crate::topic::{dec_body, dec_digits, dec_val, is_dec_digit, parse_u32_dec};

verus! {

/// A word byte of a device name: a letter, a digit or an underscore.
pub open spec fn is_word_byte(b: u8) -> bool {
    ||| 0x30 <= b && b <= 0x39
    ||| 0x41 <= b && b <= 0x5a
    ||| 0x61 <= b && b <= 0x7a
    ||| b == 0x5fu8
}

/// A whitespace byte tolerated around the comma.
pub open spec fn is_space_byte(b: u8) -> bool {
    b == 0x20u8 || (0x09 <= b && b <= 0x0d)
}

/// The end of the word run starting at `i`: the first position at or after
/// `i` that is past the end or holds a non-word byte.
pub open spec fn word_end(s: Seq<u8>, i: int) -> int
    decreases s.len() - i,
{
    if i < 0 || i >= s.len() || !is_word_byte(s[i]) {
        i
    } else {
        word_end(s, i + 1)
    }
}

/// The end of the whitespace run starting at `i`.
pub open spec fn space_end(s: Seq<u8>, i: int) -> int
    decreases s.len() - i,
{
    if i < 0 || i >= s.len() || !is_space_byte(s[i]) {
        i
    } else {
        space_end(s, i + 1)
    }
}

/// The end of the decimal-digit run starting at `i`.
pub open spec fn digit_end(s: Seq<u8>, i: int) -> int
    decreases s.len() - i,
{
    if i < 0 || i >= s.len() || !is_dec_digit(s[i]) {
        i
    } else {
        digit_end(s, i + 1)
    }
}

/// A device reference standing at position `p`: `d(`, an optional quote, a
/// non-empty word (the name), an optional quote, optional whitespace, a
/// comma, optional whitespace, non-empty digits (the channel), and `)`.
/// Yields the name bytes, the digit bytes and the position just past the
/// closing parenthesis.
pub open spec fn try_match(s: Seq<u8>, p: int) -> Option<(Seq<u8>, Seq<u8>, int)> {
    if p < 0 || p + 2 > s.len() || s[p] != 0x64u8 || s[p + 1] != 0x28u8 {
        None
    } else {
        let q0 = p + 2;
        let q1 = if q0 < s.len() && s[q0] == 0x22u8 {
            q0 + 1
        } else {
            q0
        };
        let q2 = word_end(s, q1);
        if q2 == q1 {
            None
        } else {
            let q3 = if q2 < s.len() && s[q2] == 0x22u8 {
                q2 + 1
            } else {
                q2
            };
            let q4 = space_end(s, q3);
            if q4 >= s.len() || s[q4] != 0x2cu8 {
                None
            } else {
                let q5 = space_end(s, q4 + 1);
                let q6 = digit_end(s, q5);
                if q6 == q5 || q6 >= s.len() || s[q6] != 0x29u8 {
                    None
                } else {
                    Some((s.subrange(q1, q2), s.subrange(q5, q6), q6 + 1))
                }
            }
        }
    }
}

/// The channel a digit run denotes: its decimal value, or zero where the
/// value does not fit a `u32`.
pub open spec fn dev_channel(digits: Seq<u8>) -> u32 {
    if dec_val(digits) <= u32::MAX {
        dec_val(digits) as u32
    } else {
        0
    }
}

/// Every device reference in `s` at or after `i`, scanned left to right,
/// resuming after each reference found.
pub open spec fn devices_from(s: Seq<u8>, i: int) -> Seq<(Seq<u8>, u32)>
    decreases s.len() - i,
{
    if i < 0 || i >= s.len() {
        Seq::empty()
    } else {
        match try_match(s, i) {
            Option::None => devices_from(s, i + 1),
            Option::Some((name, digits, end)) => {
                let next = if i + 1 <= end && end <= s.len() {
                    end
                } else {
                    i + 1
                };
                seq![(name, dev_channel(digits))] + devices_from(s, next)
            },
        }
    }
}

/// The device references of a whole expression.
pub open spec fn devices_of(s: Seq<u8>) -> Seq<(Seq<u8>, u32)> {
    devices_from(s, 0)
}

/// The mathematical view of a stored device list.
pub open spec fn devices_view(v: Seq<(Vec<u8>, u32)>) -> Seq<(Seq<u8>, u32)> {
    v.map_values(|p: (Vec<u8>, u32)| (p.0@, p.1))
}

/// One stored action: its trigger expression, the device references found
/// in it, and the expressions acted on when it fires.
#[derive(Debug, Clone)]
pub struct Action {
    pub id: u32,
    pub expression: Vec<u8>,
    pub devices: Vec<(Vec<u8>, u32)>,
    pub act_expressions: Vec<Vec<u8>>,
}

/// An action mentions the device: some stored reference carries this name
/// and channel.
pub open spec fn action_matches(a: Action, device: Seq<u8>, channel: u32) -> bool {
    exists|j: int|
        0 <= j < a.devices@.len() && (#[trigger] a.devices@[j]).0@ == device && a.devices@[j].1
            == channel
}

/// Skips the word run starting at `from`.
fn skip_word(s: &[u8], from: usize) -> (r: usize)
    requires
        from <= s.len(),
    ensures
        r == word_end(s@, from as int),
        from <= r <= s.len(),
{
    let mut q = from;
    while q < s.len() && (0x30 <= s[q] && s[q] <= 0x39 || 0x41 <= s[q] && s[q] <= 0x5a || 0x61
        <= s[q] && s[q] <= 0x7a || s[q] == 0x5f)
        invariant
            from <= q <= s.len(),
            word_end(s@, from as int) == word_end(s@, q as int),
        decreases s.len() - q,
    {
        q += 1;
    }
    q
}

/// Skips the whitespace run starting at `from`.
fn skip_space(s: &[u8], from: usize) -> (r: usize)
    requires
        from <= s.len(),
    ensures
        r == space_end(s@, from as int),
        from <= r <= s.len(),
{
    let mut q = from;
    while q < s.len() && (s[q] == 0x20 || 0x09 <= s[q] && s[q] <= 0x0d)
        invariant
            from <= q <= s.len(),
            space_end(s@, from as int) == space_end(s@, q as int),
        decreases s.len() - q,
    {
        q += 1;
    }
    q
}

/// Skips the digit run starting at `from`.
fn skip_digits(s: &[u8], from: usize) -> (r: usize)
    requires
        from <= s.len(),
    ensures
        r == digit_end(s@, from as int),
        from <= r <= s.len(),
{
    let mut q = from;
    while q < s.len() && 0x30 <= s[q] && s[q] <= 0x39
        invariant
            from <= q <= s.len(),
            digit_end(s@, from as int) == digit_end(s@, q as int),
        decreases s.len() - q,
    {
        q += 1;
    }
    q
}

/// Between `i` and the end of the digit run starting there stand only
/// decimal digits.
proof fn lemma_digit_run(s: Seq<u8>, i: int)
    requires
        0 <= i <= s.len(),
    ensures
        i <= digit_end(s, i) <= s.len(),
        forall|k: int| i <= k < digit_end(s, i) ==> is_dec_digit(#[trigger] s[k]),
    decreases s.len() - i,
{
    if i < s.len() && is_dec_digit(s[i]) {
        lemma_digit_run(s, i + 1);
    }
}

/// Attempts to read one device reference standing at `p`.
fn try_match_at(s: &[u8], p: usize) -> (r: Option<(Vec<u8>, u32, usize)>)
    requires
        p < s.len(),
    ensures
        match r {
            Some(m) => {
                &&& try_match(s@, p as int) matches Some((name, digits, end))
                &&& m.0@ == name
                &&& m.1 == dev_channel(digits)
                &&& m.2 == end
                &&& p < m.2 <= s.len()
            },
            None => try_match(s@, p as int) is None,
        },
{
    if s.len() - p < 2 || s[p] != 0x64 || s[p + 1] != 0x28 {
        return None;
    }
    let mut q = p + 2;
    if q < s.len() && s[q] == 0x22 {
        q += 1;
    }
    let name_start = q;
    q = skip_word(s, q);
    if q == name_start {
        return None;
    }
    let name = vstd::slice::slice_to_vec(vstd::slice::slice_subrange(s, name_start, q));
    if q < s.len() && s[q] == 0x22 {
        q += 1;
    }
    q = skip_space(s, q);
    if q >= s.len() || s[q] != 0x2c {
        return None;
    }
    q = skip_space(s, q + 1);
    let digit_start = q;
    q = skip_digits(s, q);
    if q == digit_start || q >= s.len() || s[q] != 0x29 {
        return None;
    }
    let ghost digits = s@.subrange(digit_start as int, q as int);
    proof {
        lemma_digit_run(s@, digit_start as int);
        assert(forall|k: int| 0 <= k < digits.len() ==> is_dec_digit(#[trigger] digits[k]));
        assert(digits[0] != 0x2bu8);
        assert(dec_body(digits) == digits);
    }
    let channel = match parse_u32_dec(vstd::slice::slice_subrange(s, digit_start, q)) {
        Some(v) => {
            proof {
                assert(v == dev_channel(digits));
            }
            v
        },
        None => {
            proof {
                assert(dec_digits(digits));
                assert(dec_val(digits) > u32::MAX);
            }
            0
        },
    };
    Some((name, channel, q + 1))
}

/// Extracts every `d(<name>, <channel>)` device reference of an expression,
/// in order of occurrence.
pub fn parse_devices(expr: &[u8]) -> (r: Vec<(Vec<u8>, u32)>)
    ensures
        devices_view(r@) == devices_of(expr@),
{
    let mut r: Vec<(Vec<u8>, u32)> = Vec::new();
    let mut i: usize = 0;
    while i < expr.len()
        invariant
            i <= expr.len(),
            devices_view(r@) + devices_from(expr@, i as int) == devices_of(expr@),
        decreases expr.len() - i,
    {
        match try_match_at(expr, i) {
            Some(m) => {
                let ghost prev = r@;
                let next = m.2;
                r.push((m.0, m.1));
                proof {
                    assert(devices_view(r@) =~= devices_view(prev) + seq![(m.0@, m.1)]);
                    assert(devices_from(expr@, i as int) =~= seq![(m.0@, m.1)] + devices_from(
                        expr@,
                        next as int,
                    ));
                    assert(devices_view(r@) + devices_from(expr@, next as int) =~= devices_of(
                        expr@,
                    ));
                }
                i = next;
            },
            None => {
                proof {
                    assert(devices_from(expr@, i as int) == devices_from(expr@, i + 1));
                }
                i += 1;
            },
        }
    }
    proof {
        assert(devices_from(expr@, i as int) =~= Seq::<(Seq<u8>, u32)>::empty());
        assert(devices_view(r@) + devices_from(expr@, i as int) =~= devices_view(r@));
    }
    r
}

/// Stores actions and answers which mention a device.
pub struct ActionEngine {
    actions: Vec<Action>,
}

impl ActionEngine {
    /// The actions stored so far, in insertion order.
    pub closed spec fn view_actions(&self) -> Seq<Action> {
        self.actions@
    }

    /// A fresh engine with no actions.
    pub fn new() -> (r: Self)
        ensures
            r.view_actions().len() == 0,
    {
        Self { actions: Vec::new() }
    }

    /// Adds an action: its device references are extracted from the trigger
    /// expression and stored with it.
    pub fn add_action(&mut self, id: u32, expression: Vec<u8>, act_expressions: Vec<Vec<u8>>)
        ensures
            final(self).view_actions().len() == old(self).view_actions().len() + 1,
            final(self).view_actions().drop_last() == old(self).view_actions(),
            ({
                let a = final(self).view_actions().last();
                &&& a.id == id
                &&& a.expression@ == expression@
                &&& devices_view(a.devices@) == devices_of(expression@)
                &&& a.act_expressions@ == act_expressions@
            }),
    {
        let devices = parse_devices(expression.as_slice());
        self.actions.push(Action { id, expression, devices, act_expressions });
        proof {
            assert(self.actions@.drop_last() =~= old(self).actions@);
        }
    }

    /// The stored actions that mention this device and channel, in order.
    pub fn get_actions_for_device(&self, device: &[u8], channel: u32) -> (r: Vec<&Action>)
        ensures
            r@.map_values(|a: &Action| *a) == self.view_actions().filter(
                (|a: Action| action_matches(a, device@, channel)),
            ),
    {
        let ghost pred = (|a: Action| action_matches(a, device@, channel));
        let mut r: Vec<&Action> = Vec::new();
        let mut i: usize = 0;
        while i < self.actions.len()
            invariant
                i <= self.actions@.len(),
                r@.map_values(|a: &Action| *a) == self.actions@.take(i as int).filter(pred),
                pred == (|a: Action| action_matches(a, device@, channel)),
            decreases self.actions@.len() - i,
        {
            let a = &self.actions[i];
            let mut found = false;
            let mut j: usize = 0;
            while j < a.devices.len() && !found
                invariant
                    j <= a.devices@.len(),
                    a == self.actions@[i as int],
                    i < self.actions@.len(),
                    found ==> action_matches(*a, device@, channel),
                    !found ==> forall|k: int|
                        0 <= k < j ==> !((#[trigger] a.devices@[k]).0@ == device@
                            && a.devices@[k].1 == channel),
                decreases a.devices@.len() - j,
            {
                let dref = &a.devices[j];
                if dref.1 == channel && bytes_eq(dref.0.as_slice(), device) {
                    found = true;
                }
                j += 1;
            }
            let ghost prevr = r@;
            if found {
                r.push(a);
            }
            proof {
                if !found {
                    assert(!action_matches(*a, device@, channel));
                }
                assert(self.actions@.take(i + 1).drop_last() =~= self.actions@.take(i as int));
                assert(self.actions@.take(i + 1).last() == self.actions@[i as int]);
                reveal_with_fuel(Seq::filter, 2);
                assert(self.actions@.take(i + 1).filter(pred) == if pred(self.actions@[i as int]) {
                    self.actions@.take(i as int).filter(pred).push(self.actions@[i as int])
                } else {
                    self.actions@.take(i as int).filter(pred)
                });
                if found {
                    assert(r@.map_values(|a: &Action| *a) =~= prevr.map_values(|a: &Action| *a)
                        .push(self.actions@[i as int]));
                }
            }
            i += 1;
        }
        proof {
            assert(self.actions@.take(self.actions@.len() as int) =~= self.actions@);
        }
        r
    }
}

/// Compares two byte strings for equality.
fn bytes_eq(a: &[u8], b: &[u8]) -> (r: bool)
    ensures
        r == (a@ == b@),
{
    if a.len() != b.len() {
        return false;
    }
    let mut i: usize = 0;
    while i < a.len()
        invariant
            a@.len() == b@.len(),
            i <= a@.len(),
            forall|k: int| 0 <= k < i ==> a@[k] == b@[k],
        decreases a@.len() - i,
    {
        if a[i] != b[i] {
            return false;
        }
        i += 1;
    }
    proof {
        assert(a@ =~= b@);
    }
    true
}

} // verus!
