//! A structured textual report of a timer tree and its parser.
//!
//! A tree serializes to `{"timings":[...]}` where each record appears as
//! `{"name":"...","duration":N,"depth":D}`, in completion order, with `"` and
//! `\` escaped inside labels. Parsing the serialized bytes back recovers the
//! exact ordered list of (name, duration, depth) triples.
use crate::timer::TimerTree;
use crate::timer::Timing;
use crate::timer::TimingModel;
use vstd::prelude::*;
use vstd::utf8::encode_utf8;

verus! {

/// The decimal digit for `n`, which must be below ten.
pub open spec fn digit_byte(n: nat) -> u8 {
    (48 + n) as u8
}

/// The decimal digits of `n`, most significant first, never empty.
pub open spec fn spec_digits(n: nat) -> Seq<u8>
    decreases n,
{
    if n < 10 {
        seq![digit_byte(n)]
    } else {
        spec_digits(n / 10).push(digit_byte(n % 10))
    }
}

/// How one byte of a label appears inside a serialized string: a quote or a
/// backslash gains a leading backslash, everything else stands as itself.
pub open spec fn escaped_byte(b: u8) -> Seq<u8> {
    if b == 34 || b == 92 {
        seq![92u8, b]
    } else {
        seq![b]
    }
}

/// A label's bytes as they appear inside a serialized string.
pub open spec fn spec_escape(s: Seq<u8>) -> Seq<u8>
    decreases s.len(),
{
    if s.len() == 0 {
        Seq::empty()
    } else {
        escaped_byte(s.first()) + spec_escape(s.drop_first())
    }
}

/// The bytes of `{"name":"`.
pub open spec fn name_key() -> Seq<u8> {
    seq![123u8, 34u8, 110u8, 97u8, 109u8, 101u8, 34u8, 58u8, 34u8]
}

/// The bytes of `,"duration":` — the label's closing quote stands just before
/// it in a serialized record.
pub open spec fn duration_key() -> Seq<u8> {
    seq![44u8, 34u8, 100u8, 117u8, 114u8, 97u8, 116u8, 105u8, 111u8, 110u8, 34u8, 58u8]
}

/// The bytes of `,"depth":`.
pub open spec fn depth_key() -> Seq<u8> {
    seq![44u8, 34u8, 100u8, 101u8, 112u8, 116u8, 104u8, 34u8, 58u8]
}

/// The bytes of `{"timings":[`.
pub open spec fn tree_prefix() -> Seq<u8> {
    seq![123u8, 34u8, 116u8, 105u8, 109u8, 105u8, 110u8, 103u8, 115u8, 34u8, 58u8, 91u8]
}

/// The bytes of `]}`.
pub open spec fn tree_suffix() -> Seq<u8> {
    seq![93u8, 125u8]
}

/// One record as it is serialized:
/// `{"name":"<escaped label>","duration":<digits>,"depth":<digits>}`.
pub open spec fn spec_timing_json(m: TimingModel) -> Seq<u8> {
    name_key() + spec_escape(encode_utf8(m.name)) + seq![34u8] + duration_key() + spec_digits(
        m.duration as nat,
    ) + depth_key() + spec_digits(m.depth as nat) + seq![125u8]
}

/// The records in order, separated by commas.
pub open spec fn spec_records_json(rs: Seq<TimingModel>) -> Seq<u8>
    decreases rs.len(),
{
    if rs.len() == 0 {
        Seq::empty()
    } else if rs.len() == 1 {
        spec_timing_json(rs.first())
    } else {
        spec_timing_json(rs.first()) + seq![44u8] + spec_records_json(rs.drop_first())
    }
}

/// A whole tree as it is serialized: `{"timings":[<records>]}`.
pub open spec fn spec_tree_json(rs: Seq<TimingModel>) -> Seq<u8> {
    tree_prefix() + spec_records_json(rs) + tree_suffix()
}

/// A record whose numbers a `Timing` can carry: the duration non-negative and
/// within `i64`, the depth within `u32`.
pub open spec fn bounded_model(m: TimingModel) -> bool {
    &&& 0 <= m.duration <= i64::MAX
    &&& 0 <= m.depth <= u32::MAX
}

/// A decimal digit byte.
pub open spec fn is_digit(b: u8) -> bool {
    48 <= b <= 57
}

/// The first position at or after `i` that does not hold a digit.
pub open spec fn digits_end(s: Seq<u8>, i: int) -> int
    decreases s.len() - i,
{
    if 0 <= i < s.len() && is_digit(s[i]) {
        digits_end(s, i + 1)
    } else {
        i
    }
}

/// The value of a run of digit bytes, most significant first.
pub open spec fn digits_value(s: Seq<u8>) -> nat
    decreases s.len(),
{
    if s.len() == 0 {
        0
    } else {
        digits_value(s.drop_last()) * 10 + (s.last() - 48) as nat
    }
}

/// The content and end of a serialized string read from `i`: bytes up to the
/// unescaped closing quote, with `\"` and `\\` unescaped, and the position
/// just past that quote; or nothing when the string never closes or holds a
/// stray backslash.
pub open spec fn scan_string(s: Seq<u8>, i: int) -> Option<(Seq<u8>, int)>
    decreases s.len() - i,
{
    if i < 0 || i >= s.len() {
        None
    } else if s[i] == 34 {
        Some((Seq::empty(), i + 1))
    } else if s[i] == 92 {
        if i + 1 < s.len() && (s[i + 1] == 34 || s[i + 1] == 92) {
            match scan_string(s, i + 2) {
                Some((w, e)) => Some((seq![s[i + 1]] + w, e)),
                None => None,
            }
        } else {
            None
        }
    } else {
        match scan_string(s, i + 1) {
            Some((w, e)) => Some((seq![s[i]] + w, e)),
            None => None,
        }
    }
}

/// The digits of `n` are decimal digits, at least one of them, and they spell
/// `n`.
proof fn lemma_spec_digits_wf(n: nat)
    ensures
        spec_digits(n).len() >= 1,
        forall|k: int| 0 <= k < spec_digits(n).len() ==> is_digit(#[trigger] spec_digits(n)[k]),
        digits_value(spec_digits(n)) == n,
    decreases n,
{
    if n < 10 {
        let d = seq![digit_byte(n)];
        assert(spec_digits(n) == d);
        assert(d.drop_last() =~= Seq::<u8>::empty());
        assert(digits_value(d) == digits_value(d.drop_last()) * 10 + (d.last() - 48) as nat);
        assert(digits_value(d) == n);
    } else {
        lemma_spec_digits_wf(n / 10);
        assert(spec_digits(n).drop_last() =~= spec_digits(n / 10));
        assert(spec_digits(n).last() == digit_byte(n % 10));
        vstd::arithmetic::div_mod::lemma_fundamental_div_mod(n as int, 10);
        assert(digits_value(spec_digits(n)) == (n / 10) * 10 + n % 10);
    }
}

/// Where the digits stop: a run of digits followed by a non-digit (or the
/// end) ends exactly at the first non-digit.
proof fn lemma_digits_end_of_run(s: Seq<u8>, a: int, b: int)
    requires
        0 <= a <= b <= s.len(),
        forall|k: int| a <= k < b ==> is_digit(#[trigger] s[k]),
        b == s.len() || !is_digit(s[b]),
    ensures
        digits_end(s, a) == b,
    decreases b - a,
{
    if a < b {
        lemma_digits_end_of_run(s, a + 1, b);
    }
}

/// A longer prefix of a digit run never spells a smaller value.
proof fn lemma_digits_value_take_le(t: Seq<u8>, k: int)
    requires
        0 <= k <= t.len(),
    ensures
        digits_value(t.take(k)) <= digits_value(t),
    decreases t.len() - k,
{
    if k < t.len() {
        assert(t.take(k + 1).drop_last() =~= t.take(k));
        assert(digits_value(t.take(k + 1)) == digits_value(t.take(k)) * 10 + (t.take(k + 1).last()
            - 48) as nat);
        lemma_digits_value_take_le(t, k + 1);
    } else {
        assert(t.take(k) =~= t);
    }
}

/// Reading a serialized string back: where the escaped label sits at `i` with
/// its closing quote after it, the scan recovers exactly the label.
proof fn lemma_scan_of_escaped(s: Seq<u8>, i: int, w: Seq<u8>)
    requires
        0 <= i,
        i + spec_escape(w).len() + 1 <= s.len(),
        s.subrange(i, i + spec_escape(w).len()) == spec_escape(w),
        s[i + spec_escape(w).len()] == 34,
    ensures
        scan_string(s, i) == Some((w, i + spec_escape(w).len() + 1)),
    decreases w.len(),
{
    if w.len() == 0 {
        assert(spec_escape(w).len() == 0);
        assert(scan_string(s, i) == Some((Seq::<u8>::empty(), i + 1)));
        assert(w =~= Seq::<u8>::empty());
    } else {
        let b = w.first();
        let w1 = w.drop_first();
        let esc = spec_escape(w);
        assert(esc == escaped_byte(b) + spec_escape(w1));
        assert forall|k: int| 0 <= k < esc.len() implies s[i + k] == esc[k] by {
            assert(s.subrange(i, i + esc.len())[k] == esc[k]);
        }
        if b == 34 || b == 92 {
            assert(esc[0] == 92 && esc[1] == b);
            assert(s[i] == 92);
            assert(s[i + 1] == b);
            assert forall|k: int| 0 <= k < spec_escape(w1).len() implies s[i + 2 + k]
                == spec_escape(w1)[k] by {
                assert(esc[2 + k] == spec_escape(w1)[k]);
                assert(s[i + (2 + k)] == esc[2 + k]);
            }
            assert(s.subrange(i + 2, i + 2 + spec_escape(w1).len()) =~= spec_escape(w1));
            lemma_scan_of_escaped(s, i + 2, w1);
            assert(seq![b] + w1 =~= w);
            assert(scan_string(s, i) == Some((w, i + esc.len() + 1)));
        } else {
            assert(esc[0] == b);
            assert(s[i] == b);
            assert forall|k: int| 0 <= k < spec_escape(w1).len() implies s[i + 1 + k]
                == spec_escape(w1)[k] by {
                assert(esc[1 + k] == spec_escape(w1)[k]);
                assert(s[i + (1 + k)] == esc[1 + k]);
            }
            assert(s.subrange(i + 1, i + 1 + spec_escape(w1).len()) =~= spec_escape(w1));
            lemma_scan_of_escaped(s, i + 1, w1);
            assert(seq![b] + w1 =~= w);
            assert(scan_string(s, i) == Some((w, i + esc.len() + 1)));
        }
    }
}

/// Appends the decimal digits of `n`, most significant first.
fn write_u64(out: &mut Vec<u8>, n: u64)
    ensures
        final(out)@ == old(out)@ + spec_digits(n as nat),
    decreases n,
{
    if n < 10 {
        out.push(48 + (n as u8));
        proof {
            assert(out@ =~= old(out)@ + spec_digits(n as nat));
        }
    } else {
        write_u64(out, n / 10);
        out.push(48 + ((n % 10) as u8));
        proof {
            assert(out@ =~= old(out)@ + spec_digits(n as nat));
        }
    }
}

/// Appends a label's bytes, escaping quotes and backslashes.
fn write_escaped(out: &mut Vec<u8>, s: &[u8])
    ensures
        final(out)@ == old(out)@ + spec_escape(s@),
{
    let mut i: usize = 0;
    while i < s.len()
        invariant
            i <= s@.len(),
            out@ == old(out)@ + spec_escape(s@.take(i as int)),
        decreases s@.len() - i,
    {
        let b = s[i];
        if b == 34 || b == 92 {
            out.push(92);
        }
        out.push(b);
        proof {
            lemma_escape_snoc(s@.take(i as int), b);
            assert(s@.take(i + 1) =~= s@.take(i as int).push(b));
            assert(out@ =~= old(out)@ + spec_escape(s@.take(i + 1)));
        }
        i = i + 1;
    }
    proof {
        assert(s@.take(s@.len() as int) =~= s@);
    }
}

/// Escaping one more byte at the end escapes the byte at the end.
proof fn lemma_escape_snoc(s: Seq<u8>, b: u8)
    ensures
        spec_escape(s.push(b)) == spec_escape(s) + escaped_byte(b),
    decreases s.len(),
{
    assert(s.push(b).len() == s.len() + 1);
    if s.len() == 0 {
        assert(s.push(b).first() == b);
        assert(s.push(b).drop_first() =~= s);
        assert(spec_escape(s.push(b)) == escaped_byte(b) + spec_escape(s));
        assert(spec_escape(s.push(b)) =~= spec_escape(s) + escaped_byte(b));
    } else {
        assert(s.push(b).first() == s.first());
        assert(s.push(b).drop_first() =~= s.drop_first().push(b));
        lemma_escape_snoc(s.drop_first(), b);
        assert(spec_escape(s.push(b)) == escaped_byte(s.first()) + (spec_escape(s.drop_first())
            + escaped_byte(b)));
        assert(spec_escape(s.push(b)) =~= spec_escape(s) + escaped_byte(b));
    }
}

/// One more record at the end of a non-empty list appears after one more
/// comma at the end of the serialized records.
proof fn lemma_records_json_snoc(rs: Seq<TimingModel>, m: TimingModel)
    requires
        rs.len() > 0,
    ensures
        spec_records_json(rs.push(m)) == spec_records_json(rs) + seq![44u8] + spec_timing_json(m),
    decreases rs.len(),
{
    if rs.len() == 1 {
        assert(rs.push(m).drop_first() =~= seq![m]);
        assert(spec_records_json(seq![m]) == spec_timing_json(m));
        assert(spec_records_json(rs.push(m)) =~= spec_records_json(rs) + seq![44u8]
            + spec_timing_json(m));
    } else {
        assert(rs.push(m).drop_first() =~= rs.drop_first().push(m));
        lemma_records_json_snoc(rs.drop_first(), m);
        assert(spec_records_json(rs.push(m)) =~= spec_records_json(rs) + seq![44u8]
            + spec_timing_json(m));
    }
}

/// Appends the bytes of `{"name":"`.
fn write_name_key(out: &mut Vec<u8>)
    ensures
        final(out)@ == old(out)@ + name_key(),
{
    out.push(123);
    out.push(34);
    out.push(110);
    out.push(97);
    out.push(109);
    out.push(101);
    out.push(34);
    out.push(58);
    out.push(34);
    proof {
        assert(out@ =~= old(out)@ + name_key());
    }
}

/// Appends the label's closing quote and the bytes of `,"duration":`.
fn write_duration_key(out: &mut Vec<u8>)
    ensures
        final(out)@ == old(out)@ + seq![34u8] + duration_key(),
{
    out.push(34);
    out.push(44);
    out.push(34);
    out.push(100);
    out.push(117);
    out.push(114);
    out.push(97);
    out.push(116);
    out.push(105);
    out.push(111);
    out.push(110);
    out.push(34);
    out.push(58);
    proof {
        assert(out@ =~= old(out)@ + seq![34u8] + duration_key());
    }
}

/// Appends the bytes of `,"depth":`.
fn write_depth_key(out: &mut Vec<u8>)
    ensures
        final(out)@ == old(out)@ + depth_key(),
{
    out.push(44);
    out.push(34);
    out.push(100);
    out.push(101);
    out.push(112);
    out.push(116);
    out.push(104);
    out.push(34);
    out.push(58);
    proof {
        assert(out@ =~= old(out)@ + depth_key());
    }
}

/// Appends one serialized record.
fn write_timing(out: &mut Vec<u8>, t: &Timing)
    requires
        t.duration >= 0,
    ensures
        final(out)@ == old(out)@ + spec_timing_json(t@),
{
    write_name_key(out);
    write_escaped(out, t.name.as_bytes());
    write_duration_key(out);
    write_u64(out, t.duration as u64);
    write_depth_key(out);
    write_u64(out, t.depth as u64);
    out.push(125);
    proof {
        assert(out@ =~= old(out)@ + spec_timing_json(t@));
    }
}

/// The bytes of `{"name":"`, for the parser to match.
fn name_key_bytes() -> (v: Vec<u8>)
    ensures
        v@ == name_key(),
{
    let mut v: Vec<u8> = Vec::new();
    v.push(123);
    v.push(34);
    v.push(110);
    v.push(97);
    v.push(109);
    v.push(101);
    v.push(34);
    v.push(58);
    v.push(34);
    proof {
        assert(v@ =~= name_key());
    }
    v
}

/// The bytes of `,"duration":`, for the parser to match.
fn duration_key_bytes() -> (v: Vec<u8>)
    ensures
        v@ == duration_key(),
{
    let mut v: Vec<u8> = Vec::new();
    v.push(44);
    v.push(34);
    v.push(100);
    v.push(117);
    v.push(114);
    v.push(97);
    v.push(116);
    v.push(105);
    v.push(111);
    v.push(110);
    v.push(34);
    v.push(58);
    proof {
        assert(v@ =~= duration_key());
    }
    v
}

/// The bytes of `,"depth":`, for the parser to match.
fn depth_key_bytes() -> (v: Vec<u8>)
    ensures
        v@ == depth_key(),
{
    let mut v: Vec<u8> = Vec::new();
    v.push(44);
    v.push(34);
    v.push(100);
    v.push(101);
    v.push(112);
    v.push(116);
    v.push(104);
    v.push(34);
    v.push(58);
    proof {
        assert(v@ =~= depth_key());
    }
    v
}

/// The bytes of `{"timings":[`, for the parser to match.
fn tree_prefix_bytes() -> (v: Vec<u8>)
    ensures
        v@ == tree_prefix(),
{
    let mut v: Vec<u8> = Vec::new();
    v.push(123);
    v.push(34);
    v.push(116);
    v.push(105);
    v.push(109);
    v.push(105);
    v.push(110);
    v.push(103);
    v.push(115);
    v.push(34);
    v.push(58);
    v.push(91);
    proof {
        assert(v@ =~= tree_prefix());
    }
    v
}

/// Matches the exact bytes of `pat` at position `i`, telling apart a match —
/// the position just past it — from any mismatch or truncation.
fn expect(s: &[u8], i: usize, pat: &Vec<u8>) -> (r: Option<usize>)
    requires
        i <= s@.len(),
    ensures
        (r matches Some(e) ==> e as int == i + pat@.len() && i + pat@.len() <= s@.len()
            && s@.subrange(i as int, i + pat@.len()) == pat@),
        r is None ==> !(i + pat@.len() <= s@.len() && s@.subrange(i as int, i + pat@.len())
            == pat@),
{
    let n = s.len();
    if n - i < pat.len() {
        proof {
            assert(i + pat@.len() > s@.len());
        }
        return None;
    }
    let mut k: usize = 0;
    while k < pat.len()
        invariant
            0 <= k <= pat@.len(),
            n == s@.len(),
            i + pat@.len() <= s@.len(),
            forall|q: int| 0 <= q < k ==> s@[i + q] == pat@[q],
        decreases pat@.len() - k,
    {
        if s[i + k] != pat[k] {
            proof {
                assert(s@.subrange(i as int, i + pat@.len())[k as int] != pat@[k as int]);
            }
            return None;
        }
        k = k + 1;
    }
    proof {
        assert(s@.subrange(i as int, i + pat@.len()) =~= pat@);
    }
    Some(i + pat.len())
}

/// Reads a run of decimal digits at `i` as a `u64`, telling apart a value —
/// with the position just past the run — from a missing digit or a value too
/// large for a `u64`.
fn parse_u64(s: &[u8], i: usize) -> (r: Option<(u64, usize)>)
    requires
        i <= s@.len(),
    ensures
        (r matches Some(p) ==> i < p.1 <= s@.len() && p.1 as int == digits_end(s@, i as int)
            && p.0 as nat == digits_value(s@.subrange(i as int, p.1 as int))),
        r is None ==> i == s@.len() || !is_digit(s@[i as int]) || digits_value(
            s@.subrange(i as int, digits_end(s@, i as int)),
        ) > u64::MAX,
{
    if i == s.len() || s[i] < 48 || s[i] > 57 {
        return None;
    }
    proof {
        lemma_digits_end_props(s@, i as int);
    }
    let ghost end = digits_end(s@, i as int);
    let mut v: u64 = 0;
    let mut j: usize = i;
    while j < s.len() && 48 <= s[j] && s[j] <= 57
        invariant
            i <= j <= s@.len(),
            i <= end <= s@.len(),
            end == digits_end(s@, i as int),
            end == digits_end(s@, j as int),
            forall|k: int| i <= k < end ==> is_digit(#[trigger] s@[k]),
            end == s@.len() || !is_digit(s@[end as int]),
            v as nat == digits_value(s@.subrange(i as int, j as int)),
        decreases s@.len() - j,
    {
        proof {
            assert(is_digit(s@[j as int]));
            assert(j < end) by {
                lemma_digits_end_props(s@, j as int);
                if j >= end {
                    assert(j == end);
                    assert(digits_end(s@, j as int) == digits_end(s@, j + 1));
                    lemma_digits_end_props(s@, j + 1);
                    assert(false);
                }
            }
        }
        let d = s[j] - 48;
        let ghost run = s@.subrange(i as int, end as int);
        let v10 = match v.checked_mul(10) {
            Some(x) => x,
            None => {
                proof {
                    lemma_parse_u64_overflow(s@, i as int, j as int, end, (v * 10) as nat);
                }
                return None;
            },
        };
        let v1 = match v10.checked_add(d as u64) {
            Some(x) => x,
            None => {
                proof {
                    lemma_parse_u64_overflow(s@, i as int, j as int, end, (v10 + d) as nat);
                }
                return None;
            },
        };
        proof {
            assert(s@.subrange(i as int, j + 1).drop_last() =~= s@.subrange(i as int, j as int));
            assert(s@.subrange(i as int, j + 1).last() == s@[j as int]);
            assert(v1 as nat == digits_value(s@.subrange(i as int, j + 1)));
        }
        v = v1;
        j = j + 1;
    }
    proof {
        assert(digits_end(s@, j as int) == j);
    }
    Some((v, j))
}

/// From any position, the first non-digit lies between it and the end, with
/// digits and only digits before it.
proof fn lemma_digits_end_props(s: Seq<u8>, i: int)
    requires
        0 <= i <= s.len(),
    ensures
        i <= digits_end(s, i) <= s.len(),
        forall|k: int| i <= k < digits_end(s, i) ==> is_digit(#[trigger] s[k]),
        digits_end(s, i) == s.len() || !is_digit(s[digits_end(s, i)]),
    decreases s.len() - i,
{
    if i < s.len() && is_digit(s[i]) {
        lemma_digits_end_props(s, i + 1);
    }
}

/// When the value of the digits seen so far, extended by one digit, already
/// exceeds what a `u64` holds, the whole run's value does too.
proof fn lemma_parse_u64_overflow(s: Seq<u8>, i: int, j: int, end: int, big: nat)
    requires
        0 <= i <= j < end <= s.len(),
        end == digits_end(s, i),
        forall|k: int| i <= k < end ==> is_digit(#[trigger] s[k]),
        digits_value(s.subrange(i, j)) * 10 + (s[j] - 48) as nat >= big,
        big > u64::MAX,
    ensures
        digits_value(s.subrange(i, end)) > u64::MAX,
{
    let run = s.subrange(i, end);
    assert(run.take(j + 1 - i) =~= s.subrange(i, j + 1));
    assert(s.subrange(i, j + 1).drop_last() =~= s.subrange(i, j));
    assert(s.subrange(i, j + 1).last() == s[j]);
    assert(digits_value(s.subrange(i, j + 1)) == digits_value(s.subrange(i, j)) * 10 + (s[j]
        - 48) as nat);
    lemma_digits_value_take_le(run, j + 1 - i);
}

/// Reads a serialized string's content from `i` (just past the opening
/// quote), exactly as `scan_string` gives it.
fn parse_string(s: &[u8], i: usize) -> (r: Option<(Vec<u8>, usize)>)
    requires
        i <= s@.len(),
    ensures
        (match scan_string(s@, i as int) {
            Some(p) => r matches Some(q) && q.0@ == p.0 && q.1 as int == p.1,
            None => r is None,
        }),
{
    let mut acc: Vec<u8> = Vec::new();
    let mut j: usize = i;
    while j < s.len()
        invariant
            i <= j <= s@.len(),
            scan_string(s@, i as int) == (match scan_string(s@, j as int) {
                Some(p) => Some::<(Seq<u8>, int)>((acc@ + p.0, p.1)),
                None => None::<(Seq<u8>, int)>,
            }),
        decreases s@.len() - j,
    {
        let b = s[j];
        if b == 34 {
            proof {
                assert(scan_string(s@, j as int) == Some((Seq::<u8>::empty(), j + 1)));
                assert(acc@ + Seq::<u8>::empty() =~= acc@);
            }
            return Some((acc, j + 1));
        } else if b == 92 {
            if j + 1 < s.len() && (s[j + 1] == 34 || s[j + 1] == 92) {
                let c = s[j + 1];
                proof {
                    assert(scan_string(s@, j as int) == (match scan_string(s@, j + 2) {
                        Some(p) => Some::<(Seq<u8>, int)>((seq![c] + p.0, p.1)),
                        None => None::<(Seq<u8>, int)>,
                    }));
                    assert(forall|p: (Seq<u8>, int)|
                        acc@ + (seq![c] + p.0) =~= (acc@ + seq![c]) + p.0);
                    assert(acc@.push(c) =~= acc@ + seq![c]);
                }
                acc.push(c);
                j = j + 2;
            } else {
                proof {
                    assert(scan_string(s@, j as int) is None);
                }
                return None;
            }
        } else {
            proof {
                assert(scan_string(s@, j as int) == (match scan_string(s@, j + 1) {
                    Some(p) => Some::<(Seq<u8>, int)>((seq![b] + p.0, p.1)),
                    None => None::<(Seq<u8>, int)>,
                }));
                assert(forall|p: (Seq<u8>, int)| acc@ + (seq![b] + p.0) =~= (acc@ + seq![b]) + p.0);
                assert(acc@.push(b) =~= acc@ + seq![b]);
            }
            acc.push(b);
            j = j + 1;
        }
    }
    proof {
        assert(scan_string(s@, j as int) is None);
    }
    None
}

/// One record as the parser hands it back: the label's bytes exactly as they
/// stood in the serialized string, and the two numbers.
pub struct ParsedTiming {
    pub name: Vec<u8>,
    pub duration: i64,
    pub depth: u32,
}

/// The serialized record of `m` sits at position `i` of `s`.
pub open spec fn canonical_timing_at(s: Seq<u8>, i: int, m: TimingModel) -> bool {
    &&& 0 <= i
    &&& bounded_model(m)
    &&& i + spec_timing_json(m).len() <= s.len()
    &&& s.subrange(i, i + spec_timing_json(m).len()) == spec_timing_json(m)
}

/// A scan that succeeds moved forward and stayed inside the input.
proof fn lemma_scan_bounds(s: Seq<u8>, i: int)
    requires
        0 <= i,
    ensures
        scan_string(s, i) matches Some(p) ==> i < p.1 <= s.len(),
    decreases s.len() - i,
{
    if i < s.len() {
        if s[i] == 34 {
        } else if s[i] == 92 {
            if i + 1 < s.len() && (s[i + 1] == 34 || s[i + 1] == 92) {
                lemma_scan_bounds(s, i + 2);
            }
        } else {
            lemma_scan_bounds(s, i + 1);
        }
    }
}

/// Where a serialized record sits at `i`, each of its parts sits at its own
/// place: the keys match, the label scans back exactly, and each digit run
/// ends at the following key and spells its number.
proof fn lemma_timing_json_decompose(s: Seq<u8>, i: int, m: TimingModel)
    requires
        canonical_timing_at(s, i, m),
    ensures
        ({
            let esc = spec_escape(encode_utf8(m.name));
            let dd = spec_digits(m.duration as nat);
            let pd = spec_digits(m.depth as nat);
            let e0 = i + 9;
            let e1 = e0 + esc.len();
            let e2 = e1 + 1;
            let e3 = e2 + 12;
            let e4 = e3 + dd.len();
            let e5 = e4 + 9;
            let e6 = e5 + pd.len();
            &&& spec_timing_json(m).len() == 9 + esc.len() + 1 + 12 + dd.len() + 9 + pd.len() + 1
            &&& s.subrange(i, e0) == name_key()
            &&& scan_string(s, e0) == Some((encode_utf8(m.name), e2))
            &&& s.subrange(e2, e3) == duration_key()
            &&& digits_end(s, e3) == e4
            &&& is_digit(s[e3])
            &&& digits_value(s.subrange(e3, e4)) == m.duration
            &&& s.subrange(e4, e5) == depth_key()
            &&& digits_end(s, e5) == e6
            &&& is_digit(s[e5])
            &&& digits_value(s.subrange(e5, e6)) == m.depth
            &&& s[e6] == 125
            &&& e6 + 1 == i + spec_timing_json(m).len()
        }),
{
    let tj = spec_timing_json(m);
    let esc = spec_escape(encode_utf8(m.name));
    let dd = spec_digits(m.duration as nat);
    let pd = spec_digits(m.depth as nat);
    let e0 = i + 9;
    let e1 = e0 + esc.len();
    let e2 = e1 + 1;
    let e3 = e2 + 12;
    let e4 = e3 + dd.len();
    let e5 = e4 + 9;
    let e6 = e5 + pd.len();
    lemma_spec_digits_wf(m.duration as nat);
    lemma_spec_digits_wf(m.depth as nat);
    assert(tj.len() == 9 + esc.len() + 1 + 12 + dd.len() + 9 + pd.len() + 1);
    assert forall|k: int| 0 <= k < tj.len() implies s[i + k] == tj[k] by {
        assert(s.subrange(i, i + tj.len())[k] == tj[k]);
    }
    assert(s.subrange(i, e0) =~= name_key());
    assert forall|q: int| 0 <= q < esc.len() implies s[e0 + q] == esc[q] by {
        assert(tj[9 + q] == esc[q]);
        assert(s[i + (9 + q)] == tj[9 + q]);
    }
    assert(s.subrange(e0, e1) =~= esc);
    assert(s[e1] == tj[e1 - i]);
    assert(s[e1] == 34);
    lemma_scan_of_escaped(s, e0, encode_utf8(m.name));
    assert forall|q: int| 0 <= q < 12 implies s[e2 + q] == duration_key()[q] by {
        assert(tj[(e2 - i) + q] == duration_key()[q]);
        assert(s[i + ((e2 - i) + q)] == tj[(e2 - i) + q]);
    }
    assert(s.subrange(e2, e3) =~= duration_key());
    assert forall|q: int| 0 <= q < dd.len() implies s[e3 + q] == dd[q] by {
        assert(tj[(e3 - i) + q] == dd[q]);
        assert(s[i + ((e3 - i) + q)] == tj[(e3 - i) + q]);
    }
    assert(s.subrange(e3, e4) =~= dd);
    assert forall|q: int| 0 <= q < 9 implies s[e4 + q] == depth_key()[q] by {
        assert(tj[(e4 - i) + q] == depth_key()[q]);
        assert(s[i + ((e4 - i) + q)] == tj[(e4 - i) + q]);
    }
    assert(s.subrange(e4, e5) =~= depth_key());
    assert forall|q: int| 0 <= q < pd.len() implies s[e5 + q] == pd[q] by {
        assert(tj[(e5 - i) + q] == pd[q]);
        assert(s[i + ((e5 - i) + q)] == tj[(e5 - i) + q]);
    }
    assert(s.subrange(e5, e6) =~= pd);
    assert(s[e6] == tj[e6 - i]);
    assert(s[e6] == 125);
    assert(s[e4] == depth_key()[0]);
    assert(!is_digit(s[e4]));
    assert forall|k: int| e3 <= k < e4 implies is_digit(#[trigger] s[k]) by {
        assert(s[e3 + (k - e3)] == dd[k - e3]);
        assert(is_digit(spec_digits(m.duration as nat)[k - e3]));
    }
    assert forall|k: int| e5 <= k < e6 implies is_digit(#[trigger] s[k]) by {
        assert(s[e5 + (k - e5)] == pd[k - e5]);
        assert(is_digit(spec_digits(m.depth as nat)[k - e5]));
    }
    lemma_digits_end_of_run(s, e3, e4);
    lemma_digits_end_of_run(s, e5, e6);
    assert(is_digit(s[e3]));
    assert(is_digit(s[e5]));
    assert(digits_value(s.subrange(e3, e4)) == m.duration);
    assert(digits_value(s.subrange(e5, e6)) == m.depth);
}

/// Reads one serialized record at `i`. Wherever the serialized form of a
/// record `m` sits at `i`, the result is exactly `m`'s triple and the
/// position just past the record.
fn parse_timing(s: &[u8], i: usize) -> (r: Option<(ParsedTiming, usize)>)
    requires
        i <= s@.len(),
    ensures
        (r matches Some(p) ==> i < p.1 <= s@.len()),
        forall|m: TimingModel|
            #[trigger] canonical_timing_at(s@, i as int, m) ==> (r matches Some(p)
                && p.0.name@ == encode_utf8(m.name) && p.0.duration == m.duration && p.0.depth
                == m.depth && p.1 as int == i + spec_timing_json(m).len()),
{
    let nk = name_key_bytes();
    let j1 = match expect(s, i, &nk) {
        Some(e) => e,
        None => {
            proof {
                assert forall|m: TimingModel| !canonical_timing_at(s@, i as int, m) by {
                    if canonical_timing_at(s@, i as int, m) {
                        lemma_timing_json_decompose(s@, i as int, m);
                    }
                }
            }
            return None;
        },
    };
    let (nm, j2) = match parse_string(s, j1) {
        Some(p) => p,
        None => {
            proof {
                assert forall|m: TimingModel| !canonical_timing_at(s@, i as int, m) by {
                    if canonical_timing_at(s@, i as int, m) {
                        lemma_timing_json_decompose(s@, i as int, m);
                    }
                }
            }
            return None;
        },
    };
    proof {
        lemma_scan_bounds(s@, j1 as int);
    }
    let dk = duration_key_bytes();
    let j3 = match expect(s, j2, &dk) {
        Some(e) => e,
        None => {
            proof {
                assert forall|m: TimingModel| !canonical_timing_at(s@, i as int, m) by {
                    if canonical_timing_at(s@, i as int, m) {
                        lemma_timing_json_decompose(s@, i as int, m);
                    }
                }
            }
            return None;
        },
    };
    let (dur, j4) = match parse_u64(s, j3) {
        Some(p) => p,
        None => {
            proof {
                assert forall|m: TimingModel| !canonical_timing_at(s@, i as int, m) by {
                    if canonical_timing_at(s@, i as int, m) {
                        lemma_timing_json_decompose(s@, i as int, m);
                        assert(digits_value(s@.subrange(j3 as int, digits_end(s@, j3 as int)))
                            == m.duration);
                    }
                }
            }
            return None;
        },
    };
    if dur > i64::MAX as u64 {
        proof {
            assert forall|m: TimingModel| !canonical_timing_at(s@, i as int, m) by {
                if canonical_timing_at(s@, i as int, m) {
                    lemma_timing_json_decompose(s@, i as int, m);
                }
            }
        }
        return None;
    }
    let pk = depth_key_bytes();
    let j5 = match expect(s, j4, &pk) {
        Some(e) => e,
        None => {
            proof {
                assert forall|m: TimingModel| !canonical_timing_at(s@, i as int, m) by {
                    if canonical_timing_at(s@, i as int, m) {
                        lemma_timing_json_decompose(s@, i as int, m);
                    }
                }
            }
            return None;
        },
    };
    let (dep, j6) = match parse_u64(s, j5) {
        Some(p) => p,
        None => {
            proof {
                assert forall|m: TimingModel| !canonical_timing_at(s@, i as int, m) by {
                    if canonical_timing_at(s@, i as int, m) {
                        lemma_timing_json_decompose(s@, i as int, m);
                        assert(digits_value(s@.subrange(j5 as int, digits_end(s@, j5 as int)))
                            == m.depth);
                    }
                }
            }
            return None;
        },
    };
    if dep > u32::MAX as u64 {
        proof {
            assert forall|m: TimingModel| !canonical_timing_at(s@, i as int, m) by {
                if canonical_timing_at(s@, i as int, m) {
                    lemma_timing_json_decompose(s@, i as int, m);
                }
            }
        }
        return None;
    }
    if j6 == s.len() || s[j6] != 125 {
        proof {
            assert forall|m: TimingModel| !canonical_timing_at(s@, i as int, m) by {
                if canonical_timing_at(s@, i as int, m) {
                    lemma_timing_json_decompose(s@, i as int, m);
                }
            }
        }
        return None;
    }
    let t = ParsedTiming { name: nm, duration: dur as i64, depth: dep as u32 };
    proof {
        assert forall|m: TimingModel| canonical_timing_at(s@, i as int, m) implies t.name@
            == encode_utf8(m.name) && t.duration == m.duration && t.depth == m.depth && j6 + 1
            == i + spec_timing_json(m).len() by {
            lemma_timing_json_decompose(s@, i as int, m);
        }
    }
    Some((t, j6 + 1))
}

/// The serialized records from record `k` on, commas between them.
pub open spec fn records_json_from(rs: Seq<TimingModel>, k: int) -> Seq<u8>
    decreases rs.len() - k,
{
    if k < 0 || k >= rs.len() {
        Seq::empty()
    } else if k == rs.len() - 1 {
        spec_timing_json(rs[k])
    } else {
        spec_timing_json(rs[k]) + seq![44u8] + records_json_from(rs, k + 1)
    }
}

proof fn lemma_records_json_from(rs: Seq<TimingModel>, k: int)
    requires
        0 <= k <= rs.len(),
    ensures
        spec_records_json(rs.skip(k)) == records_json_from(rs, k),
    decreases rs.len() - k,
{
    if k == rs.len() {
        assert(rs.skip(k) =~= Seq::<TimingModel>::empty());
    } else if k == rs.len() - 1 {
        assert(rs.skip(k) =~= seq![rs[k]]);
        assert(rs.skip(k).first() == rs[k]);
    } else {
        assert(rs.skip(k).drop_first() =~= rs.skip(k + 1));
        assert(rs.skip(k).first() == rs[k]);
        lemma_records_json_from(rs, k + 1);
    }
}

/// Every record's numbers fit the fields a `Timing` carries.
pub open spec fn bounded_models(rs: Seq<TimingModel>) -> bool {
    forall|q: int| 0 <= q < rs.len() ==> bounded_model(#[trigger] rs[q])
}

/// `s` is exactly the serialized form of the record list `rs`.
pub open spec fn canonical_tree(s: Seq<u8>, rs: Seq<TimingModel>) -> bool {
    &&& bounded_models(rs)
    &&& s == spec_tree_json(rs)
}

/// The parsed records carry exactly the triples of `rs`: the label's encoded
/// bytes, the duration and the depth, in the same order.
pub open spec fn parsed_matches(v: Seq<ParsedTiming>, rs: Seq<TimingModel>) -> bool {
    &&& v.len() == rs.len()
    &&& forall|q: int|
        0 <= q < rs.len() ==> ((#[trigger] v[q]).name@ == encode_utf8(rs[q].name) && v[q].duration
            == rs[q].duration && v[q].depth == rs[q].depth)
}

/// Where the parser stands after `k` records of `rs`: either at the list's
/// closing bracket with only `]}` left, or — before a separating comma when
/// `k > 0` — at the serialized rest of the records, with `]}` after them.
spec fn parse_state_ok(s: Seq<u8>, rs: Seq<TimingModel>, k: int, j: int) -> bool {
    if k == rs.len() {
        &&& 0 <= j
        &&& j + 2 == s.len()
        &&& s[j] == 93
        &&& s[j + 1] == 125
    } else {
        let sep: int = if k == 0 {
            0
        } else {
            1
        };
        let body = records_json_from(rs, k);
        &&& 0 <= j
        &&& j + sep + body.len() + 2 == s.len()
        &&& (k > 0 ==> s[j] == 44)
        &&& s.subrange(j + sep, j + sep + body.len()) == body
        &&& s[j + sep + body.len()] == 93
        &&& s[j + sep + body.len() + 1] == 125
    }
}

proof fn lemma_parse_state_init(s: Seq<u8>, rs: Seq<TimingModel>)
    requires
        canonical_tree(s, rs),
    ensures
        s.len() >= 14,
        s.subrange(0, 12) == tree_prefix(),
        parse_state_ok(s, rs, 0, 12),
{
    lemma_records_json_from(rs, 0);
    assert(rs.skip(0) =~= rs);
    let body = records_json_from(rs, 0);
    assert(s == tree_prefix() + spec_records_json(rs) + tree_suffix());
    assert(s.len() == 12 + body.len() + 2);
    assert(s.subrange(0, 12) =~= tree_prefix());
    if rs.len() == 0 {
        assert(body.len() == 0);
        assert(s[12] == tree_suffix()[0]);
        assert(s[13] == tree_suffix()[1]);
    } else {
        assert forall|q: int| 0 <= q < body.len() implies s[12 + q] == body[q] by {
            assert(s[12 + q] == (tree_prefix() + spec_records_json(rs) + tree_suffix())[12 + q]);
        }
        assert(s.subrange(12, 12 + body.len() as int) =~= body);
        assert(s[12 + body.len() as int] == tree_suffix()[0]);
        assert(s[12 + body.len() as int + 1] == tree_suffix()[1]);
    }
}

proof fn lemma_parse_state_step(s: Seq<u8>, rs: Seq<TimingModel>, k: int, j: int)
    requires
        bounded_models(rs),
        0 <= k < rs.len(),
        parse_state_ok(s, rs, k, j),
    ensures
        ({
            let sep: int = if k == 0 {
                0
            } else {
                1
            };
            let e = j + sep + spec_timing_json(rs[k]).len();
            &&& canonical_timing_at(s, j + sep, rs[k])
            &&& parse_state_ok(s, rs, k + 1, e)
        }),
{
    let sep: int = if k == 0 {
        0
    } else {
        1
    };
    let body = records_json_from(rs, k);
    let jj = j + sep;
    let tj = spec_timing_json(rs[k]);
    assert(bounded_model(rs[k]));
    assert forall|q: int| 0 <= q < body.len() implies s[jj + q] == body[q] by {
        assert(s.subrange(jj, jj + body.len())[q] == body[q]);
    }
    if k == rs.len() - 1 {
        assert(body == tj);
        assert(s.subrange(jj, jj + tj.len()) =~= tj);
    } else {
        assert(body == tj + seq![44u8] + records_json_from(rs, k + 1));
        assert forall|q: int| 0 <= q < tj.len() implies s[jj + q] == tj[q] by {
            assert(body[q] == tj[q]);
        }
        assert(s.subrange(jj, jj + tj.len()) =~= tj);
        let e = jj + tj.len();
        let rest = records_json_from(rs, k + 1);
        assert(s[e] == body[tj.len() as int]);
        assert(s[e] == 44);
        assert forall|q: int| 0 <= q < rest.len() implies s[e + 1 + q] == rest[q] by {
            assert(body[tj.len() + 1 + q] == rest[q]);
            assert(s[jj + (tj.len() + 1 + q)] == body[tj.len() + 1 + q]);
        }
        assert(s.subrange(e + 1, e + 1 + rest.len()) =~= rest);
    }
}

/// Parses serialized timer-tree bytes back into the ordered record list.
/// Wherever the input is the serialized form of a record list, parsing
/// succeeds and recovers exactly that list's (name, duration, depth) triples,
/// in order — the serialization round trip loses nothing.
pub fn parse(s: &[u8]) -> (r: Option<Vec<ParsedTiming>>)
    ensures
        forall|rs: Seq<TimingModel>|
            #[trigger] canonical_tree(s@, rs) ==> (r matches Some(v) && parsed_matches(v@, rs)),
{
    let pref = tree_prefix_bytes();
    let j0 = match expect(s, 0, &pref) {
        Some(e) => e,
        None => {
            proof {
                assert forall|rs: Seq<TimingModel>| !canonical_tree(s@, rs) by {
                    if canonical_tree(s@, rs) {
                        lemma_parse_state_init(s@, rs);
                    }
                }
            }
            return None;
        },
    };
    let mut acc: Vec<ParsedTiming> = Vec::new();
    let mut j: usize = j0;
    proof {
        assert forall|rs: Seq<TimingModel>| canonical_tree(s@, rs) implies acc@.len() <= rs.len()
            && parsed_matches(acc@, rs.take(acc@.len() as int)) && parse_state_ok(
            s@,
            rs,
            acc@.len() as int,
            j as int,
        ) by {
            lemma_parse_state_init(s@, rs);
            assert(rs.take(0) =~= Seq::<TimingModel>::empty());
        }
    }
    loop
        invariant
            j <= s@.len(),
            forall|rs: Seq<TimingModel>|
                #[trigger] canonical_tree(s@, rs) ==> (acc@.len() <= rs.len() && parsed_matches(
                    acc@,
                    rs.take(acc@.len() as int),
                ) && parse_state_ok(s@, rs, acc@.len() as int, j as int)),
        decreases s@.len() - j,
    {
        let ghost k = acc@.len() as int;
        if j < s.len() && s[j] == 93 {
            if s.len() - j == 2 && s[j + 1] == 125 {
                proof {
                    assert forall|rs: Seq<TimingModel>| canonical_tree(s@, rs) implies acc@.len()
                        == rs.len() && parsed_matches(acc@, rs) by {
                        if k < rs.len() {
                            let body = records_json_from(rs, k);
                            if k > 0 {
                                assert(s@[j as int] == 44);
                            } else {
                                assert(s@[j as int] == s@.subrange(
                                    j as int,
                                    j + body.len(),
                                )[0]);
                                assert(body[0] == spec_timing_json(rs[k])[0]);
                                assert(s@[j as int] == 123);
                            }
                            assert(false);
                        }
                        assert(rs.take(rs.len() as int) =~= rs);
                    }
                }
                return Some(acc);
            } else {
                proof {
                    assert forall|rs: Seq<TimingModel>| !canonical_tree(s@, rs) by {
                        if canonical_tree(s@, rs) {
                            if k < rs.len() {
                                let body = records_json_from(rs, k);
                                if k > 0 {
                                    assert(s@[j as int] == 44);
                                } else {
                                    assert(s@[j as int] == s@.subrange(
                                        j as int,
                                        j + body.len(),
                                    )[0]);
                                    assert(body[0] == spec_timing_json(rs[k])[0]);
                                    assert(s@[j as int] == 123);
                                }
                                assert(false);
                            }
                        }
                    }
                }
                return None;
            }
        }
        let jj = if acc.len() > 0 {
            if j < s.len() && s[j] == 44 {
                j + 1
            } else {
                proof {
                    assert forall|rs: Seq<TimingModel>| !canonical_tree(s@, rs) by {
                        if canonical_tree(s@, rs) {
                            if k == rs.len() {
                                assert(s@[j as int] == 93);
                            }
                            assert(false);
                        }
                    }
                }
                return None;
            }
        } else {
            j
        };
        match parse_timing(s, jj) {
            Some((t, e)) => {
                proof {
                    assert forall|rs: Seq<TimingModel>| canonical_tree(s@, rs) implies acc@.len()
                        + 1 <= rs.len() && parsed_matches(
                        acc@.push(t),
                        rs.take(k + 1),
                    ) && parse_state_ok(s@, rs, k + 1, e as int) by {
                        if k == rs.len() {
                            assert(s@[j as int] == 93);
                            assert(false);
                        }
                        lemma_parse_state_step(s@, rs, k, j as int);
                        assert(canonical_timing_at(s@, jj as int, rs[k]));
                        assert(rs.take(k + 1) =~= rs.take(k).push(rs[k]));
                    }
                }
                acc.push(t);
                j = e;
            },
            None => {
                proof {
                    assert forall|rs: Seq<TimingModel>| !canonical_tree(s@, rs) by {
                        if canonical_tree(s@, rs) {
                            if k == rs.len() {
                                assert(s@[j as int] == 93);
                                assert(false);
                            }
                            lemma_parse_state_step(s@, rs, k, j as int);
                            assert(canonical_timing_at(s@, jj as int, rs[k]));
                            assert(false);
                        }
                    }
                }
                return None;
            },
        }
    }
}

/// Round-trip law: the bytes `serialize` produces for a well-formed tree are
/// canonical for the tree's own record list, so `parse`, by its contract,
/// recovers from them exactly the tree's ordered (name, duration, depth)
/// triples — serializing and parsing back loses nothing.
pub proof fn lemma_serialized_tree_canonical(tree: &TimerTree)
    requires
        tree.wf(),
    ensures
        canonical_tree(spec_tree_json(tree@), tree@),
{
    tree.lemma_view_bounded();
    assert forall|q: int| 0 <= q < tree@.len() implies bounded_model(#[trigger] tree@[q]) by {
        assert(tree@[q].duration >= 0);
    }
}

/// Serializes the whole tree, in completion order, to the exact byte shape
/// `spec_tree_json` gives.
pub fn serialize(tree: &TimerTree) -> (out: Vec<u8>)
    requires
        tree.wf(),
    ensures
        out@ == spec_tree_json(tree@),
{
    let mut out: Vec<u8> = Vec::new();
    out.push(123);
    out.push(34);
    out.push(116);
    out.push(105);
    out.push(109);
    out.push(105);
    out.push(110);
    out.push(103);
    out.push(115);
    out.push(34);
    out.push(58);
    out.push(91);
    proof {
        assert(out@ =~= tree_prefix());
    }
    let ts = tree.timings();
    let n = ts.len();
    let mut k: usize = 0;
    while k < n
        invariant
            n == ts@.len(),
            n == tree@.len(),
            k <= n,
            tree.wf(),
            forall|i: int| 0 <= i < tree@.len() ==> ts@[i]@ == tree@[i],
            out@ == tree_prefix() + spec_records_json(tree@.take(k as int)),
        decreases n - k,
    {
        if k > 0 {
            out.push(44);
        }
        proof {
            assert(ts@[k as int]@ == tree@[k as int]);
            assert(tree@[k as int].duration >= 0);
        }
        write_timing(&mut out, &ts[k]);
        proof {
            assert(tree@.take(k + 1) =~= tree@.take(k as int).push(tree@[k as int]));
            if k > 0 {
                lemma_records_json_snoc(tree@.take(k as int), tree@[k as int]);
            } else {
                assert(tree@.take(1) =~= seq![tree@[0]]);
            }
            assert(out@ =~= tree_prefix() + spec_records_json(tree@.take(k + 1)));
        }
        k = k + 1;
    }
    out.push(93);
    out.push(125);
    proof {
        assert(tree@.take(tree@.len() as int) =~= tree@);
        assert(out@ =~= spec_tree_json(tree@));
    }
    out
}

} // verus!
