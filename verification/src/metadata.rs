//! The persisted metadata file: settings and stats as one JSON
//! object. The emitter here renders the canonical form byte for byte;
//! the tally keys, stored as date numbers, render back to their
//! `YYYY-MM` and `YYYY-MM-DD` spellings.

use vstd::prelude::*;

use crate::dates::digit_of;
use crate::dates::digit_to_char;
use crate::stats::StatsModel;
use crate::stats::TodoMetadata;
use crate::stats::TodoStats;
use crate::text::chars_to_string;
use crate::text::push_str_chars;

verus! {

/// The mathematical value of the metadata.
#[verifier::ext_equal]
pub struct MetadataModel {
    pub daily_limit: u64,
    pub stats: StatsModel,
}

impl View for TodoMetadata {
    type V = MetadataModel;

    open spec fn view(&self) -> MetadataModel {
        MetadataModel { daily_limit: self.daily_limit, stats: self.stats@ }
    }
}

/// The decimal spelling of a number.
pub open spec fn dec_chars(n: nat) -> Seq<char>
    decreases n,
{
    if n < 10 {
        seq![digit_of(n as int)]
    } else {
        dec_chars(n / 10) + seq![digit_of((n % 10) as int)]
    }
}

/// Appends the decimal spelling of a number.
pub fn push_u64(out: &mut Vec<char>, n: u64)
    ensures
        final(out)@ == old(out)@ + dec_chars(n as nat),
    decreases n,
{
    if n < 10 {
        out.push(digit_to_char(n as u32));
        proof {
            assert(out@ =~= old(out)@ + dec_chars(n as nat));
        }
    } else {
        push_u64(out, n / 10);
        out.push(digit_to_char((n % 10) as u32));
        proof {
            assert(out@ =~= old(out)@ + dec_chars(n as nat));
        }
    }
}

/// A month number's `YYYY-MM` spelling.
pub open spec fn month_code_chars(c: int) -> Seq<char> {
    seq![
        digit_of(c / 100000 % 10),
        digit_of(c / 10000 % 10),
        digit_of(c / 1000 % 10),
        digit_of(c / 100 % 10),
        '-',
        digit_of(c / 10 % 10),
        digit_of(c % 10),
    ]
}

/// A day number's `YYYY-MM-DD` spelling.
pub open spec fn day_code_chars(c: int) -> Seq<char> {
    seq![
        digit_of(c / 10000000 % 10),
        digit_of(c / 1000000 % 10),
        digit_of(c / 100000 % 10),
        digit_of(c / 10000 % 10),
        '-',
        digit_of(c / 1000 % 10),
        digit_of(c / 100 % 10),
        '-',
        digit_of(c / 10 % 10),
        digit_of(c % 10),
    ]
}

/// Appends a month key's spelling.
fn push_month_code(out: &mut Vec<char>, c: u32)
    requires
        c <= 999999,
    ensures
        final(out)@ == old(out)@ + month_code_chars(c as int),
{
    out.push(digit_to_char(c / 100000 % 10));
    out.push(digit_to_char(c / 10000 % 10));
    out.push(digit_to_char(c / 1000 % 10));
    out.push(digit_to_char(c / 100 % 10));
    out.push('-');
    out.push(digit_to_char(c / 10 % 10));
    out.push(digit_to_char(c % 10));
    proof {
        assert(out@ =~= old(out)@ + month_code_chars(c as int));
    }
}

/// Appends a day key's spelling.
fn push_day_code(out: &mut Vec<char>, c: u32)
    requires
        c <= 99999999,
    ensures
        final(out)@ == old(out)@ + day_code_chars(c as int),
{
    out.push(digit_to_char(c / 10000000 % 10));
    out.push(digit_to_char(c / 1000000 % 10));
    out.push(digit_to_char(c / 100000 % 10));
    out.push(digit_to_char(c / 10000 % 10));
    out.push('-');
    out.push(digit_to_char(c / 1000 % 10));
    out.push(digit_to_char(c / 100 % 10));
    out.push('-');
    out.push(digit_to_char(c / 10 % 10));
    out.push(digit_to_char(c % 10));
    proof {
        assert(out@ =~= old(out)@ + day_code_chars(c as int));
    }
}

/// One `"key":count` member of a counters object.
pub open spec fn entry_chars(e: (u32, u64), day: bool) -> Seq<char> {
    seq!['"'] + (if day {
        day_code_chars(e.0 as int)
    } else {
        month_code_chars(e.0 as int)
    }) + seq!['"', ':'] + dec_chars(e.1 as nat)
}

/// The members of a counters object, comma-separated, in stored
/// order.
pub open spec fn entries_chars(s: Seq<(u32, u64)>, day: bool) -> Seq<char>
    decreases s.len(),
{
    if s.len() == 0 {
        Seq::empty()
    } else if s.len() == 1 {
        entry_chars(s[0], day)
    } else {
        entry_chars(s[0], day) + seq![','] + entries_chars(s.drop_first(), day)
    }
}

proof fn lemma_entries_push(s: Seq<(u32, u64)>, e: (u32, u64), day: bool)
    ensures
        entries_chars(s.push(e), day) =~= if s.len() == 0 {
            entry_chars(e, day)
        } else {
            entries_chars(s, day) + seq![','] + entry_chars(e, day)
        },
    decreases s.len(),
{
    if s.len() == 0 {
        assert(s.push(e)[0] == e);
    } else if s.len() == 1 {
        assert(s.push(e)[0] == s[0]);
        assert(s.push(e).drop_first() =~= seq![e]);
        assert(entries_chars(seq![e], day) == entry_chars(e, day));
    } else {
        lemma_entries_push(s.drop_first(), e, day);
        assert(s.push(e)[0] == s[0]);
        assert(s.push(e).drop_first() =~= s.drop_first().push(e));
    }
}

/// The canonical rendering of the metadata file.
pub open spec fn spec_render_metadata(m: MetadataModel) -> Seq<char> {
    "{\"dailyLimit\":"@ + dec_chars(m.daily_limit as nat) + ",\"stats\":{\"totalCompleted\":"@
        + dec_chars(m.stats.total_completed as nat) + ",\"currentStreak\":"@ + dec_chars(
        m.stats.current_streak as nat,
    ) + ",\"longestStreak\":"@ + dec_chars(m.stats.longest_streak as nat)
        + ",\"completionsByMonth\":{"@ + entries_chars(m.stats.months, false)
        + "},\"completionsByDay\":{"@ + entries_chars(m.stats.days, true) + "}}}"@
}

/// Renders the metadata to its canonical JSON text.
pub fn serialize_metadata(m: &TodoMetadata) -> (r: String)
    requires
        forall|i: int| 0 <= i < m.stats@.months.len() ==> (#[trigger] m.stats@.months[i]).0
            <= 999999,
        forall|i: int| 0 <= i < m.stats@.days.len() ==> (#[trigger] m.stats@.days[i]).0
            <= 99999999,
    ensures
        r@ == spec_render_metadata(m@),
{
    proof {
        assert forall|i: int| 0 <= i < m.stats.completions_by_month.entries@.len() implies (
        #[trigger] m.stats.completions_by_month.entries@[i]).0 <= 999999u32 by {
            assert(m.stats@.months[i] == m.stats.completions_by_month.entries@[i]);
        }
        assert forall|i: int| 0 <= i < m.stats.completions_by_day.entries@.len() implies (
        #[trigger] m.stats.completions_by_day.entries@[i]).0 <= 99999999u32 by {
            assert(m.stats@.days[i] == m.stats.completions_by_day.entries@[i]);
        }
    }
    let mut out: Vec<char> = Vec::new();
    push_str_chars(&mut out, "{\"dailyLimit\":");
    push_u64(&mut out, m.daily_limit);
    push_str_chars(&mut out, ",\"stats\":{\"totalCompleted\":");
    push_u64(&mut out, m.stats.total_completed);
    push_str_chars(&mut out, ",\"currentStreak\":");
    push_u64(&mut out, m.stats.current_streak);
    push_str_chars(&mut out, ",\"longestStreak\":");
    push_u64(&mut out, m.stats.longest_streak);
    push_str_chars(&mut out, ",\"completionsByMonth\":{");
    push_entries(&mut out, &m.stats.completions_by_month.entries, false);
    push_str_chars(&mut out, "},\"completionsByDay\":{");
    push_entries(&mut out, &m.stats.completions_by_day.entries, true);
    push_str_chars(&mut out, "}}}");
    proof {
        assert(out@ =~= spec_render_metadata(m@));
    }
    chars_to_string(&out)
}

/// Appends the members of one counters object.
fn push_entries(out: &mut Vec<char>, entries: &Vec<(u32, u64)>, day: bool)
    requires
        forall|i: int|
            0 <= i < entries@.len() ==> (#[trigger] entries@[i]).0 <= (if day {
                99999999u32
            } else {
                999999u32
            }),
    ensures
        final(out)@ == old(out)@ + entries_chars(entries@, day),
{
    let ghost out0 = out@;
    let mut i: usize = 0;
    proof {
        assert(entries@.take(0) =~= Seq::<(u32, u64)>::empty());
        assert(out@ =~= out0 + entries_chars(entries@.take(0), day));
    }
    while i < entries.len()
        invariant
            0 <= i <= entries@.len(),
            forall|j: int|
                0 <= j < entries@.len() ==> (#[trigger] entries@[j]).0 <= (if day {
                    99999999u32
                } else {
                    999999u32
                }),
            out@ =~= out0 + entries_chars(entries@.take(i as int), day),
        decreases entries@.len() - i,
    {
        if i > 0 {
            out.push(',');
        }
        out.push('"');
        let e = entries[i];
        if day {
            push_day_code(out, e.0);
        } else {
            push_month_code(out, e.0);
        }
        out.push('"');
        out.push(':');
        push_u64(out, e.1);
        proof {
            lemma_entries_push(entries@.take(i as int), entries@[i as int], day);
            assert(entries@.take(i as int).push(entries@[i as int]) =~= entries@.take(
                i as int + 1,
            ));
            assert(out@ =~= out0 + entries_chars(entries@.take(i as int + 1), day));
        }
        i += 1;
    }
    proof {
        assert(entries@.take(entries@.len() as int) =~= entries@);
    }
}

// ---------------------------------------------------------------------
// Reading the metadata file back.
// ---------------------------------------------------------------------
/// The numeric value of a run of digit characters, most significant
/// first.
pub open spec fn digits_val(ds: Seq<char>) -> int
    decreases ds.len(),
{
    if ds.len() == 0 {
        0
    } else {
        digits_val(ds.drop_last()) * 10 + crate::dates::digit_val(ds.last())
    }
}

proof fn lemma_digits_val_pos(ds: Seq<char>)
    requires
        ds.len() > 0,
        ds[0] != '0',
        forall|i: int| 0 <= i < ds.len() ==> crate::text::is_digit(#[trigger] ds[i]),
    ensures
        digits_val(ds) >= 1,
    decreases ds.len(),
{
    if ds.len() == 1 {
        lemma_digit_of_val(ds[0]);
        if crate::dates::digit_val(ds[0]) == 0 {
            assert(ds[0] == digit_of(0));
            assert(false);
        }
        assert(digits_val(Seq::<char>::empty()) == 0);
        assert(ds.drop_last() =~= Seq::<char>::empty());
    } else {
        assert(ds.drop_last()[0] == ds[0]);
        lemma_digits_val_pos(ds.drop_last());
        assert(crate::dates::digit_val(ds.last()) >= 0);
        assert(digits_val(ds) == digits_val(ds.drop_last()) * 10 + crate::dates::digit_val(
            ds.last(),
        ));
        assert(digits_val(ds.drop_last()) * 10 >= 10) by (nonlinear_arith)
            requires
                digits_val(ds.drop_last()) >= 1,
        ;
    }
}

proof fn lemma_digit_of_val(c: char)
    requires
        crate::text::is_digit(c),
    ensures
        digit_of(crate::dates::digit_val(c)) == c,
{
}

/// A digit run without a leading zero spells its own value.
proof fn lemma_digits_dec(ds: Seq<char>)
    requires
        ds.len() > 0,
        forall|i: int| 0 <= i < ds.len() ==> crate::text::is_digit(#[trigger] ds[i]),
        ds.len() > 1 ==> ds[0] != '0',
    ensures
        digits_val(ds) >= 0,
        dec_chars(digits_val(ds) as nat) =~= ds,
    decreases ds.len(),
{
    if ds.len() == 1 {
        assert(digits_val(Seq::<char>::empty()) == 0);
        assert(ds.drop_last() =~= Seq::<char>::empty());
        assert(0 <= crate::dates::digit_val(ds[0]) < 10);
        assert(digits_val(ds) == crate::dates::digit_val(ds[0]));
        lemma_digit_of_val(ds[0]);
        assert(dec_chars(digits_val(ds) as nat) =~= seq![digit_of(digits_val(ds))]);
    } else {
        let p = ds.drop_last();
        assert(p[0] == ds[0]);
        lemma_digits_dec(p);
        lemma_digits_val_pos(p);
        let v = digits_val(ds);
        let pv = digits_val(p);
        let d = crate::dates::digit_val(ds.last());
        assert(v == pv * 10 + d);
        assert(pv >= 1);
        assert(0 <= d < 10) by {
            assert(crate::text::is_digit(ds.last()));
        }
        assert(v >= 10) by (nonlinear_arith)
            requires
                v == pv * 10 + d,
                pv >= 1,
                d >= 0,
        ;
        assert(v / 10 == pv && v % 10 == d) by (nonlinear_arith)
            requires
                v == pv * 10 + d,
                0 <= d < 10,
                pv >= 0,
        ;
        lemma_digit_of_val(ds.last());
        assert(dec_chars(v as nat) =~= dec_chars(pv as nat) + seq![ds.last()]);
        assert(p + seq![ds.last()] =~= ds);
    }
}

/// A decimal spelling of `v` fills `p..e`, and the digit run stops
/// at `e`.
pub open spec fn dec_span(s: Seq<char>, p: int, v: u64, e: int) -> bool {
    &&& 0 <= p <= e <= s.len()
    &&& s.subrange(p, e) == dec_chars(v as nat)
    &&& (e == s.len() || !crate::text::is_digit(s[e]))
}

/// A decimal spelling is one or more digits, without a leading zero
/// unless it is zero itself.
proof fn lemma_dec_chars_digits(n: nat)
    ensures
        dec_chars(n).len() >= 1,
        forall|i: int| 0 <= i < dec_chars(n).len() ==> crate::text::is_digit(
            #[trigger] dec_chars(n)[i],
        ),
        n >= 1 ==> dec_chars(n)[0] != '0',
    decreases n,
{
    if n < 10 {
        crate::dates::lemma_digit_of_is_digit(n as int);
        if n >= 1 && digit_of(n as int) == '0' {
            assert(crate::dates::digit_val(digit_of(n as int)) == n);
            assert(crate::dates::digit_val('0') == 0);
            assert(false);
        }
    } else {
        lemma_dec_chars_digits(n / 10);
        crate::dates::lemma_digit_of_is_digit((n % 10) as int);
        assert forall|i: int| 0 <= i < dec_chars(n).len() implies crate::text::is_digit(
            #[trigger] dec_chars(n)[i],
        ) by {
            if i < dec_chars(n / 10).len() {
                assert(dec_chars(n)[i] == dec_chars(n / 10)[i]);
            } else {
                assert(dec_chars(n)[i] == digit_of((n % 10) as int));
            }
        }
        assert(dec_chars(n)[0] == dec_chars(n / 10)[0]);
    }
}

/// Digit values never make a run's value negative.
proof fn lemma_digits_val_nonneg(ds: Seq<char>)
    requires
        forall|i: int| 0 <= i < ds.len() ==> crate::text::is_digit(#[trigger] ds[i]),
    ensures
        digits_val(ds) >= 0,
    decreases ds.len(),
{
    if ds.len() > 0 {
        lemma_digits_val_nonneg(ds.drop_last());
        assert(crate::dates::digit_val(ds.last()) >= 0);
        assert(digits_val(ds.drop_last()) * 10 >= 0) by (nonlinear_arith)
            requires
                digits_val(ds.drop_last()) >= 0,
        ;
    }
}

/// Reading a spelling back yields the spelled value.
proof fn lemma_dec_chars_value(n: nat)
    ensures
        digits_val(dec_chars(n)) == n,
    decreases n,
{
    if n < 10 {
        assert(dec_chars(n).drop_last() =~= Seq::<char>::empty());
        assert(digits_val(Seq::<char>::empty()) == 0);
        crate::dates::lemma_digit_of_is_digit(n as int);
    } else {
        lemma_dec_chars_value(n / 10);
        let d = digit_of((n % 10) as int);
        assert(dec_chars(n).drop_last() =~= dec_chars(n / 10));
        assert(dec_chars(n).last() == d);
        assert(digits_val(dec_chars(n)) == digits_val(dec_chars(n / 10)) * 10
            + crate::dates::digit_val(d));
        crate::dates::lemma_digit_of_is_digit((n % 10) as int);
    }
}

/// A digit run's value only grows as the run extends.
proof fn lemma_digits_val_prefix(ds: Seq<char>, k: int)
    requires
        0 <= k <= ds.len(),
        forall|i: int| 0 <= i < ds.len() ==> crate::text::is_digit(#[trigger] ds[i]),
    ensures
        digits_val(ds.take(k)) <= digits_val(ds),
    decreases ds.len(),
{
    if k < ds.len() {
        assert(ds.drop_last().take(k) =~= ds.take(k));
        lemma_digits_val_prefix(ds.drop_last(), k);
        lemma_digits_val_nonneg(ds.drop_last());
        assert(crate::dates::digit_val(ds.last()) >= 0);
        assert(digits_val(ds.drop_last()) * 10 >= digits_val(ds.drop_last())) by (nonlinear_arith)
            requires
                digits_val(ds.drop_last()) >= 0,
        ;
    } else {
        assert(ds.take(k) =~= ds);
    }
}

/// Two spellings starting at one position end at the same place and
/// spell the same value.
proof fn lemma_dec_span_unique(s: Seq<char>, p: int, v1: u64, e1: int, v2: u64, e2: int)
    requires
        dec_span(s, p, v1, e1),
        dec_span(s, p, v2, e2),
    ensures
        e1 == e2,
        v1 == v2,
{
    lemma_dec_chars_digits(v1 as nat);
    lemma_dec_chars_digits(v2 as nat);
    assert(s.subrange(p, e1).len() == e1 - p);
    assert(s.subrange(p, e2).len() == e2 - p);
    assert(dec_chars(v1 as nat).len() == e1 - p);
    assert(dec_chars(v2 as nat).len() == e2 - p);
    if e1 < e2 {
        assert(crate::text::is_digit(dec_chars(v2 as nat)[e1 - p]));
        assert(dec_chars(v2 as nat)[e1 - p] == s.subrange(p, e2)[e1 - p]);
        assert(s.subrange(p, e2)[e1 - p] == s[e1]);
        assert(crate::text::is_digit(s[e1]));
        assert(false);
    }
    if e2 < e1 {
        assert(crate::text::is_digit(dec_chars(v1 as nat)[e2 - p]));
        assert(dec_chars(v1 as nat)[e2 - p] == s.subrange(p, e1)[e2 - p]);
        assert(s.subrange(p, e1)[e2 - p] == s[e2]);
        assert(crate::text::is_digit(s[e2]));
        assert(false);
    }
    assert(dec_chars(v1 as nat) == dec_chars(v2 as nat));
    lemma_dec_chars_value(v1 as nat);
    lemma_dec_chars_value(v2 as nat);
}

/// Scans a decimal number. On success the consumed characters spell
/// the returned value canonically and the run of digits ends there;
/// on failure no value has a spelling at this position.
fn scan_u64(s: &[char], p: usize) -> (r: Option<(u64, usize)>)
    requires
        p <= s@.len(),
    ensures
        r matches Some(q) ==> p < q.1 && dec_span(s@, p as int, q.0, q.1 as int),
        r is None ==> forall|v: u64, e: int| !dec_span(s@, p as int, v, e),
{
    if p >= s.len() || !crate::text::digit_char(s[p]) {
        proof {
            assert forall|v: u64, e: int| !dec_span(s@, p as int, v, e) by {
                if dec_span(s@, p as int, v, e) {
                    lemma_dec_chars_digits(v as nat);
                    assert(e - p >= 1);
                    assert(s@.subrange(p as int, e)[0] == s@[p as int]);
                    assert(crate::text::is_digit(s@[p as int]));
                    assert(false);
                }
            }
        }
        return None;
    }
    if s[p] == '0' {
        // A canonical zero stands alone.
        if p + 1 < s.len() && crate::text::digit_char(s[p + 1]) {
            proof {
                assert forall|v: u64, e: int| !dec_span(s@, p as int, v, e) by {
                    if dec_span(s@, p as int, v, e) {
                        lemma_dec_chars_digits(v as nat);
                        if v == 0 {
                            assert(dec_chars(0nat) =~= seq![digit_of(0)]);
                            assert(e == p + 1);
                            assert(!crate::text::is_digit(s@[p as int + 1]));
                        } else {
                            assert(s@.subrange(p as int, e)[0] == s@[p as int]);
                            assert(dec_chars(v as nat)[0] != '0');
                        }
                        assert(false);
                    }
                }
            }
            return None;
        }
        proof {
            assert(s@.subrange(p as int, p as int + 1) =~= seq!['0']);
            assert(dec_chars(0nat) =~= seq![digit_of(0)]);
        }
        return Some((0u64, p + 1));
    }
    let mut q: usize = p;
    let mut v: u64 = 0;
    while q < s.len() && crate::text::digit_char(s[q])
        invariant
            p <= q <= s@.len(),
            forall|i: int| p <= i < q ==> crate::text::is_digit(#[trigger] s@[i]),
            v == digits_val(s@.subrange(p as int, q as int)),
            q > p ==> s@[p as int] != '0',
            s@.len() > 0 && p < s@.len() && crate::text::is_digit(s@[p as int]) && s@[p as int]
                != '0',
        decreases s@.len() - q,
    {
        let d = crate::dates::digit_value(s[q]);
        let ghost pre = s@.subrange(p as int, q as int);
        if v > (u64::MAX - d as u64) / 10 {
            proof {
                lemma_scan_overflow(s@, p as int, q as int, v, d as int);
            }
            return None;
        }
        proof {
            assert(v * 10 + d <= u64::MAX) by {
                assert(v <= (u64::MAX - d as u64) / 10);
                assert(((u64::MAX - d as u64) / 10) * 10 + d <= u64::MAX) by (nonlinear_arith)
                    requires
                        d < 10,
                ;
                assert(v * 10 <= ((u64::MAX - d as u64) / 10) * 10) by (nonlinear_arith)
                    requires
                        v <= (u64::MAX - d as u64) / 10,
                ;
            }
        }
        v = v * 10 + d as u64;
        proof {
            let cur = s@.subrange(p as int, q as int + 1);
            assert(cur.drop_last() =~= pre);
            assert(cur.last() == s@[q as int]);
        }
        q += 1;
    }
    proof {
        lemma_digits_dec(s@.subrange(p as int, q as int));
    }
    Some((v, q))
}

/// At overflow the digit run spells a value beyond the type, so no
/// value of the type has a spelling here.
proof fn lemma_scan_overflow(s: Seq<char>, p: int, q: int, cur: u64, d: int)
    requires
        0 <= p <= q < s.len(),
        forall|i: int| p <= i < q ==> crate::text::is_digit(#[trigger] s[i]),
        crate::text::is_digit(s[q]),
        cur == digits_val(s.subrange(p, q)),
        d == crate::dates::digit_val(s[q]),
        cur > (u64::MAX - d) / 10,
        0 <= d < 10,
    ensures
        forall|v: u64, e: int| !dec_span(s, p, v, e),
{
    assert forall|v: u64, e: int| !dec_span(s, p, v, e) by {
        if dec_span(s, p, v, e) {
            lemma_dec_chars_digits(v as nat);
            // The spelling must cover the whole digit run.
            assert(e >= q + 1) by {
                if e <= q {
                    assert(e - p >= 1);
                    assert(s.subrange(p, e)[0] == s[p]);
                    assert(e < s.len());
                    assert(crate::text::is_digit(s[e]));
                    assert(false);
                }
            }
            let head = s.subrange(p, q + 1);
            let whole = s.subrange(p, e);
            assert(head =~= whole.take(q + 1 - p));
            assert forall|i: int| 0 <= i < whole.len() implies crate::text::is_digit(
                #[trigger] whole[i],
            ) by {
                assert(whole[i] == dec_chars(v as nat)[i]);
            }
            lemma_digits_val_prefix(whole, q + 1 - p);
            lemma_dec_chars_value(v as nat);
            assert(digits_val(whole) == v);
            assert(head.drop_last() =~= s.subrange(p, q));
            assert(head.last() == s[q]);
            assert(digits_val(head) == cur * 10 + d);
            // cur beyond the bound pushes the run's value past the type.
            assert(cur * 10 + d > u64::MAX) by (nonlinear_arith)
                requires
                    cur > (u64::MAX - d) / 10,
                    0 <= d < 10,
            ;
            assert(v >= digits_val(head));
            assert(false);
        }
    }
}

/// Checks a literal at a position. On failure the literal does not
/// stand there.
fn expect_lit(s: &[char], p: usize, lit: &str) -> (r: Option<usize>)
    requires
        p <= s@.len(),
    ensures
        r matches Some(q) ==> q == p + lit@.len() && q <= s@.len() && s@.subrange(
            p as int,
            q as int,
        ) =~= lit@,
        r is None ==> !(p + lit@.len() <= s@.len() && s@.subrange(p as int, p + lit@.len() as int)
            == lit@),
{
    let n = lit.unicode_len();
    let sl: usize = s.len();
    if n > sl - p {
        return None;
    }
    let mut i: usize = 0;
    while i < n
        invariant
            0 <= i <= n,
            n == lit@.len(),
            sl == s@.len(),
            p + n <= sl,
            forall|j: int| 0 <= j < i ==> s@[p + j] == lit@[j],
        decreases n - i,
    {
        if s[p + i] != lit.get_char(i) {
            proof {
                if s@.subrange(p as int, p + lit@.len() as int) == lit@ {
                    assert(s@.subrange(p as int, p + lit@.len() as int)[i as int] == s@[p + i]);
                    assert(false);
                }
            }
            return None;
        }
        i += 1;
    }
    proof {
        assert(s@.subrange(p as int, (p + n) as int) =~= lit@);
    }
    Some(p + n)
}

/// The characters of one scanned member spell that member.
#[verifier::spinoff_prover]
proof fn lemma_entry_piece(
    s: Seq<char>,
    q: int,
    key_end: int,
    vend: int,
    code: u32,
    v: u64,
    day: bool,
)
    requires
        0 <= q < key_end,
        key_end + 2 <= vend <= s.len(),
        s[q] == '"',
        key_end == q + 1 + (if day {
            10int
        } else {
            7int
        }),
        (if day {
            day_code_chars(code as int)
        } else {
            month_code_chars(code as int)
        }) =~= s.subrange(q + 1, key_end),
        s[key_end] == '"',
        s[key_end + 1] == ':',
        s.subrange(key_end + 2, vend) =~= dec_chars(v as nat),
    ensures
        s.subrange(q, vend) =~= entry_chars((code, v), day),
{
    assert(s.subrange(q, vend) =~= seq![s[q]] + s.subrange(q + 1, key_end) + seq![
        s[key_end],
        s[key_end + 1],
    ] + s.subrange(key_end + 2, vend));
}

/// Consuming one more member extends the members consumed so far.
#[verifier::spinoff_prover]
proof fn lemma_entries_step(
    s: Seq<char>,
    p: int,
    q: int,
    q2: int,
    pre: Seq<(u32, u64)>,
    e: (u32, u64),
    day: bool,
)
    requires
        0 <= p <= q <= q2 <= s.len(),
        s.subrange(p, q) =~= entries_chars(pre, day) + (if pre.len() > 0 {
            seq![',']
        } else {
            Seq::<char>::empty()
        }),
        s.subrange(q, q2) =~= entry_chars(e, day),
    ensures
        s.subrange(p, q2) =~= entries_chars(pre.push(e), day),
{
    lemma_entries_push(pre, e, day);
    assert(s.subrange(p, q2) =~= s.subrange(p, q) + s.subrange(q, q2));
}

/// The fixed width of a rendered key.
pub open spec fn key_width(day: bool) -> int {
    if day {
        10
    } else {
        7
    }
}

/// A key's spelling, of either kind.
pub open spec fn key_chars(c: u32, day: bool) -> Seq<char> {
    if day {
        day_code_chars(c as int)
    } else {
        month_code_chars(c as int)
    }
}

/// The members of a counters object fill `p..e-1` and a closing brace
/// stands at `e-1`.
pub open spec fn entries_span(s: Seq<char>, p: int, es: Seq<(u32, u64)>, e: int, day: bool) -> bool {
    &&& 0 <= p <= e <= s.len()
    &&& s.subrange(p, e) == entries_chars(es, day) + seq!['}']
}

/// One member's text stands at `q`, inside a span that ends at `e`:
/// quote, key, quote, colon, number, then a comma or the brace.
pub open spec fn member_at(s: Seq<char>, q: int, e: int, m: (u32, u64), day: bool) -> bool {
    let w = key_width(day);
    let elen = 3 + w + dec_chars(m.1 as nat).len();
    &&& 0 <= q
    &&& q + elen < e <= s.len()
    &&& s[q] == '"'
    &&& s.subrange(q + 1, q + 1 + w) == key_chars(m.0, day)
    &&& s[q + 1 + w] == '"'
    &&& s[q + 2 + w] == ':'
    &&& dec_span(s, q + 3 + w, m.1, q + elen)
    &&& (s[q + elen] == ',' || s[q + elen] == '}')
}

/// Every rendered day key has the ISO date shape, every month key the
/// month-key shape.
proof fn lemma_key_chars_shape(c: u32, day: bool)
    ensures
        key_chars(c, day).len() == key_width(day),
        day ==> crate::dates::is_date10(key_chars(c, day)),
        !day ==> crate::dates::is_month7(key_chars(c, day)),
        forall|i: int|
            0 <= i < key_chars(c, day).len() ==> crate::text::is_digit(
                #[trigger] key_chars(c, day)[i],
            ) || key_chars(c, day)[i] == '-',
{
    let v = c as int;
    crate::dates::lemma_digit_of_is_digit(v / 10000000 % 10);
    crate::dates::lemma_digit_of_is_digit(v / 1000000 % 10);
    crate::dates::lemma_digit_of_is_digit(v / 100000 % 10);
    crate::dates::lemma_digit_of_is_digit(v / 10000 % 10);
    crate::dates::lemma_digit_of_is_digit(v / 1000 % 10);
    crate::dates::lemma_digit_of_is_digit(v / 100 % 10);
    crate::dates::lemma_digit_of_is_digit(v / 10 % 10);
    crate::dates::lemma_digit_of_is_digit(v % 10);
}

/// A member's spelling opens with a quote and holds no brace.
proof fn lemma_entry_chars_shape(m: (u32, u64), day: bool)
    ensures
        entry_chars(m, day).len() == 3 + key_width(day) + dec_chars(m.1 as nat).len(),
        entry_chars(m, day)[0] == '"',
        forall|i: int| 0 <= i < entry_chars(m, day).len() ==> #[trigger] entry_chars(m, day)[i]
            != '}',
{
    let w = key_width(day);
    let ec = entry_chars(m, day);
    lemma_key_chars_shape(m.0, day);
    lemma_dec_chars_digits(m.1 as nat);
    assert(ec =~= seq!['"'] + key_chars(m.0, day) + seq!['"', ':'] + dec_chars(m.1 as nat));
    assert forall|i: int| 0 <= i < ec.len() implies #[trigger] ec[i] != '}' by {
        if i == 0 {
            assert(ec[i] == '"');
        } else if i < 1 + w {
            assert(ec[i] == key_chars(m.0, day)[i - 1]);
        } else if i == 1 + w {
            assert(ec[i] == '"');
        } else if i == 2 + w {
            assert(ec[i] == ':');
        } else {
            assert(ec[i] == dec_chars(m.1 as nat)[i - 3 - w]);
            assert(crate::text::is_digit(dec_chars(m.1 as nat)[i - 3 - w]));
        }
    }
}

/// A member list's spelling opens with a quote and holds no brace.
proof fn lemma_entries_chars_shape(es: Seq<(u32, u64)>, day: bool)
    ensures
        forall|i: int| 0 <= i < entries_chars(es, day).len() ==> #[trigger] entries_chars(
            es,
            day,
        )[i] != '}',
        es.len() > 0 ==> entries_chars(es, day).len() >= 1 && entries_chars(es, day)[0] == '"',
    decreases es.len(),
{
    if es.len() == 0 {
    } else if es.len() == 1 {
        lemma_entry_chars_shape(es[0], day);
    } else {
        lemma_entry_chars_shape(es[0], day);
        lemma_entries_chars_shape(es.drop_first(), day);
        let ec = entry_chars(es[0], day);
        let rest = entries_chars(es.drop_first(), day);
        assert(entries_chars(es, day) == ec + seq![','] + rest);
        assert forall|i: int| 0 <= i < entries_chars(es, day).len() implies #[trigger] entries_chars(
            es,
            day,
        )[i] != '}' by {
            if i < ec.len() {
                assert(entries_chars(es, day)[i] == ec[i]);
            } else if i == ec.len() {
                assert(entries_chars(es, day)[i] == ',');
            } else {
                assert(entries_chars(es, day)[i] == rest[i - ec.len() - 1]);
            }
        }
        assert(entries_chars(es, day)[0] == ec[0]);
    }
}

/// Two member-list spans from one position close at the same brace:
/// the first brace at or after the position.
proof fn lemma_entries_span_ends(
    s: Seq<char>,
    p: int,
    es1: Seq<(u32, u64)>,
    e1: int,
    es2: Seq<(u32, u64)>,
    e2: int,
    day: bool,
)
    requires
        entries_span(s, p, es1, e1, day),
        entries_span(s, p, es2, e2, day),
    ensures
        e1 == e2,
{
    lemma_entries_chars_shape(es1, day);
    lemma_entries_chars_shape(es2, day);
    assert(s.subrange(p, e1).len() == e1 - p);
    assert(s.subrange(p, e2).len() == e2 - p);
    assert(entries_chars(es1, day).len() + 1 == e1 - p);
    assert(entries_chars(es2, day).len() + 1 == e2 - p);
    assert(s.subrange(p, e1)[e1 - 1 - p] == (entries_chars(es1, day) + seq!['}'])[e1 - 1 - p]);
    assert(s.subrange(p, e2)[e2 - 1 - p] == (entries_chars(es2, day) + seq!['}'])[e2 - 1 - p]);
    assert(s[e1 - 1] == '}');
    assert(s[e2 - 1] == '}');
    if e1 < e2 {
        assert(s.subrange(p, e2)[e1 - 1 - p] == s[e1 - 1]);
        assert(s.subrange(p, e2)[e1 - 1 - p] == (entries_chars(es2, day) + seq!['}'])[e1 - 1 - p]);
        assert(entries_chars(es2, day)[e1 - 1 - p] != '}');
        assert(false);
    }
    if e2 < e1 {
        assert(s.subrange(p, e1)[e2 - 1 - p] == s[e2 - 1]);
        assert(s.subrange(p, e1)[e2 - 1 - p] == (entries_chars(es1, day) + seq!['}'])[e2 - 1 - p]);
        assert(entries_chars(es1, day)[e2 - 1 - p] != '}');
        assert(false);
    }
}

/// A non-empty span opens with its first member's text.
proof fn lemma_span_first_member(s: Seq<char>, p: int, es: Seq<(u32, u64)>, e: int, day: bool)
    requires
        entries_span(s, p, es, e, day),
        es.len() > 0,
    ensures
        member_at(s, p, e, es[0], day),
        ({
            let elen = 3 + key_width(day) + dec_chars(es[0].1 as nat).len();
            es.len() > 1 ==> entries_span(s, p + elen + 1, es.drop_first(), e, day)
        }),
        ({
            let elen = 3 + key_width(day) + dec_chars(es[0].1 as nat).len();
            es.len() == 1 ==> e == p + elen + 1
        }),
{
    let w = key_width(day);
    let m = es[0];
    let ec = entry_chars(m, day);
    let elen = 3 + w + dec_chars(m.1 as nat).len();
    lemma_entry_chars_shape(m, day);
    lemma_dec_chars_digits(m.1 as nat);
    assert(ec.len() == elen);
    let whole = s.subrange(p, e);
    assert(whole.len() == e - p);
    assert(whole == entries_chars(es, day) + seq!['}']);
    assert(whole.len() == entries_chars(es, day).len() + 1);
    if es.len() == 1 {
        assert(entries_chars(es, day) == ec);
        assert(e == p + elen + 1);
        assert(whole[elen] == (ec + seq!['}'])[elen]);
        assert(whole[elen] == '}');
    } else {
        let tail = entries_chars(es.drop_first(), day);
        assert(entries_chars(es, day) == ec + seq![','] + tail);
        assert(whole.len() == elen + 1 + tail.len() + 1);
        assert(whole[elen] == (entries_chars(es, day) + seq!['}'])[elen]);
        assert((entries_chars(es, day) + seq!['}'])[elen] == entries_chars(es, day)[elen]);
        assert(entries_chars(es, day)[elen] == (ec + seq![','] + tail)[elen]);
        assert(whole[elen] == ',');
    }
    // The first member's text is the span's prefix.
    assert forall|i: int| 0 <= i < elen implies whole[i] == ec[i] by {
        assert(whole[i] == (entries_chars(es, day) + seq!['}'])[i]);
        if es.len() == 1 {
            assert((entries_chars(es, day) + seq!['}'])[i] == ec[i]);
        } else {
            assert((entries_chars(es, day) + seq!['}'])[i] == entries_chars(es, day)[i]);
            assert(entries_chars(es, day)[i] == (ec + seq![','] + entries_chars(
                es.drop_first(),
                day,
            ))[i]);
            assert(entries_chars(es, day)[i] == ec[i]);
        }
    }
    assert(ec =~= seq!['"'] + key_chars(m.0, day) + seq!['"', ':'] + dec_chars(m.1 as nat));
    assert(s[p] == whole[0]);
    assert(whole[0] == ec[0]);
    assert(s[p] == '"');
    assert forall|i: int| 0 <= i < w implies s.subrange(p + 1, p + 1 + w)[i] == key_chars(
        m.0,
        day,
    )[i] by {
        assert(s.subrange(p + 1, p + 1 + w)[i] == s[p + 1 + i]);
        assert(s[p + 1 + i] == whole[1 + i]);
        assert(whole[1 + i] == ec[1 + i]);
        assert(ec[1 + i] == key_chars(m.0, day)[i]);
    }
    assert(s.subrange(p + 1, p + 1 + w) =~= key_chars(m.0, day));
    assert(s[p + 1 + w] == whole[1 + w]);
    assert(whole[1 + w] == ec[1 + w]);
    assert(ec[1 + w] == '"');
    assert(s[p + 2 + w] == whole[2 + w]);
    assert(whole[2 + w] == ec[2 + w]);
    assert(ec[2 + w] == ':');
    assert forall|i: int| 0 <= i < dec_chars(m.1 as nat).len() implies s.subrange(
        p + 3 + w,
        p + elen,
    )[i] == dec_chars(m.1 as nat)[i] by {
        assert(s.subrange(p + 3 + w, p + elen)[i] == s[p + 3 + w + i]);
        assert(s[p + 3 + w + i] == whole[3 + w + i]);
        assert(whole[3 + w + i] == ec[3 + w + i]);
        assert(ec[3 + w + i] == dec_chars(m.1 as nat)[i]);
    }
    assert(s.subrange(p + 3 + w, p + elen) =~= dec_chars(m.1 as nat));
    assert(s[p + elen] == whole[elen]);
    assert(s[p + elen] == ',' || s[p + elen] == '}');
    assert(!crate::text::is_digit(s[p + elen]));
    assert(dec_span(s, p + 3 + w, m.1, p + elen));
    assert(member_at(s, p, e, m, day));
    if es.len() > 1 {
        let tail = entries_chars(es.drop_first(), day);
        assert forall|i: int| 0 <= i < e - p - elen - 1 implies s.subrange(p + elen + 1, e)[i]
            == (tail + seq!['}'])[i] by {
            assert(s.subrange(p + elen + 1, e)[i] == whole[elen + 1 + i]);
            assert(whole[elen + 1 + i] == (entries_chars(es, day) + seq!['}'])[elen + 1 + i]);
            if elen + 1 + i < entries_chars(es, day).len() {
                assert((entries_chars(es, day) + seq!['}'])[elen + 1 + i] == entries_chars(
                    es,
                    day,
                )[elen + 1 + i]);
                assert(entries_chars(es, day)[elen + 1 + i] == (ec + seq![','] + tail)[elen + 1
                    + i]);
            } else {
                assert((entries_chars(es, day) + seq!['}'])[elen + 1 + i] == '}');
            }
        }
        assert(s.subrange(p + elen + 1, e) =~= tail + seq!['}']);
    }
}

/// The text the scanner has consumed opens with its first member's
/// text and the comma after it.
#[verifier::rlimit(100)]
#[verifier::spinoff_prover]
proof fn lemma_consumed_first(s: Seq<char>, p: int, q: int, acc: Seq<(u32, u64)>, day: bool)
    requires
        0 <= p <= q <= s.len(),
        acc.len() > 0,
        s.subrange(p, q) == entries_chars(acc, day) + seq![','],
    ensures
        ({
            let w = key_width(day);
            let elen = 3 + w + dec_chars(acc[0].1 as nat).len();
            &&& q >= p + elen + 1
            &&& dec_span(s, p + 3 + w, acc[0].1, p + elen)
            &&& s[p + elen] == ','
            &&& s.subrange(p + elen + 1, q) == entries_chars(acc.drop_first(), day) + (if acc.len()
                > 1 {
                seq![',']
            } else {
                Seq::<char>::empty()
            })
        }),
{
    let w = key_width(day);
    let consumed = s.subrange(p, q);
    let eca = entry_chars(acc[0], day);
    let elen = 3 + w + dec_chars(acc[0].1 as nat).len();
    lemma_entry_chars_shape(acc[0], day);
    lemma_dec_chars_digits(acc[0].1 as nat);
    assert(eca.len() == elen);
    assert(consumed.len() == q - p);
    if acc.len() == 1 {
        assert(entries_chars(acc, day) == eca);
        assert(consumed.len() == elen + 1);
    } else {
        assert(entries_chars(acc, day) == eca + seq![','] + entries_chars(acc.drop_first(), day));
    }
    assert(consumed.len() >= elen + 1);
    assert forall|i: int| 0 <= i < elen implies consumed[i] == eca[i] by {
        assert(consumed[i] == (entries_chars(acc, day) + seq![','])[i]);
        if acc.len() == 1 {
            assert((entries_chars(acc, day) + seq![','])[i] == eca[i]);
        } else {
            assert((entries_chars(acc, day) + seq![','])[i] == entries_chars(acc, day)[i]);
            assert(entries_chars(acc, day)[i] == (eca + seq![','] + entries_chars(
                acc.drop_first(),
                day,
            ))[i]);
        }
    }
    assert(consumed[elen] == ',') by {
        assert(consumed[elen] == (entries_chars(acc, day) + seq![','])[elen]);
        if acc.len() == 1 {
        } else {
            assert((entries_chars(acc, day) + seq![','])[elen] == entries_chars(acc, day)[elen]);
            assert(entries_chars(acc, day)[elen] == (eca + seq![','] + entries_chars(
                acc.drop_first(),
                day,
            ))[elen]);
        }
    }
    assert(eca =~= seq!['"'] + key_chars(acc[0].0, day) + seq!['"', ':'] + dec_chars(
        acc[0].1 as nat,
    ));
    assert forall|i: int| 0 <= i < dec_chars(acc[0].1 as nat).len() implies s.subrange(
        p + 3 + w,
        p + elen,
    )[i] == dec_chars(acc[0].1 as nat)[i] by {
        assert(s.subrange(p + 3 + w, p + elen)[i] == s[p + 3 + w + i]);
        assert(s[p + 3 + w + i] == consumed[3 + w + i]);
        assert(consumed[3 + w + i] == eca[3 + w + i]);
        assert(eca[3 + w + i] == dec_chars(acc[0].1 as nat)[i]);
    }
    assert(s.subrange(p + 3 + w, p + elen) =~= dec_chars(acc[0].1 as nat));
    assert(s[p + elen] == consumed[elen]);
    assert(!crate::text::is_digit(s[p + elen]));
    assert(dec_span(s, p + 3 + w, acc[0].1, p + elen));
    // What follows the first member and its comma is the rest.
    let acc2 = acc.drop_first();
    let target = entries_chars(acc2, day) + (if acc.len() > 1 {
        seq![',']
    } else {
        Seq::<char>::empty()
    });
    assert forall|i: int| 0 <= i < q - p - elen - 1 implies s.subrange(p + elen + 1, q)[i]
        == target[i] by {
        assert(s.subrange(p + elen + 1, q)[i] == consumed[elen + 1 + i]);
        assert(consumed[elen + 1 + i] == (entries_chars(acc, day) + seq![','])[elen + 1 + i]);
        if acc.len() == 1 {
        } else {
            if elen + 1 + i < entries_chars(acc, day).len() {
                assert((entries_chars(acc, day) + seq![','])[elen + 1 + i] == entries_chars(
                    acc,
                    day,
                )[elen + 1 + i]);
                assert(entries_chars(acc, day)[elen + 1 + i] == (eca + seq![','] + entries_chars(
                    acc2,
                    day,
                ))[elen + 1 + i]);
            } else {
                assert((entries_chars(acc, day) + seq![','])[elen + 1 + i] == ',');
            }
        }
    }
    assert(s.subrange(p + elen + 1, q).len() == target.len()) by {
        if acc.len() == 1 {
            assert(entries_chars(acc2, day) == Seq::<char>::empty());
        } else {
            assert(entries_chars(acc, day) == eca + seq![','] + entries_chars(acc2, day));
        }
    }
    assert(s.subrange(p + elen + 1, q) =~= target);
}

/// Wherever the scanner stands — some members consumed, a comma taken
/// when more follow — a hypothetical span puts a member's text next.
#[verifier::rlimit(100)]
#[verifier::spinoff_prover]
proof fn lemma_align_next(
    s: Seq<char>,
    p: int,
    q: int,
    acc: Seq<(u32, u64)>,
    es: Seq<(u32, u64)>,
    e: int,
    day: bool,
)
    requires
        0 <= p <= q <= s.len(),
        s.subrange(p, q) == entries_chars(acc, day) + (if acc.len() > 0 {
            seq![',']
        } else {
            Seq::<char>::empty()
        }),
        entries_span(s, p, es, e, day),
        acc.len() == 0 ==> q == p && !(q < s.len() && s[q] == '}'),
    ensures
        exists|m: (u32, u64)| member_at(s, q, e, m, day),
    decreases acc.len(),
{
    lemma_entries_chars_shape(acc, day);
    lemma_entries_chars_shape(es, day);
    if acc.len() == 0 {
        assert(s.subrange(p, q).len() == 0);
        assert(q == p);
        assert(es.len() > 0) by {
            if es.len() == 0 {
                assert(s.subrange(p, e) =~= seq!['}']);
                assert(e == p + 1);
                assert(s[p] == s.subrange(p, e)[0]);
                assert(s[p] == '}');
                assert(q < s.len());
            }
        }
        lemma_span_first_member(s, p, es, e, day);
        assert(member_at(s, q, e, es[0], day));
    } else {
        let consumed = s.subrange(p, q);
        assert(consumed.len() == q - p);
        assert(consumed.len() == entries_chars(acc, day).len() + 1);
        assert(entries_chars(acc, day).len() >= 1);
        assert(consumed[0] == (entries_chars(acc, day) + seq![','])[0]);
        assert(consumed[0] == entries_chars(acc, day)[0]);
        assert(s[p] == consumed[0]);
        assert(s[p] == '"');
        assert(es.len() > 0) by {
            if es.len() == 0 {
                assert(s.subrange(p, e) =~= seq!['}']);
                assert(s[p] == s.subrange(p, e)[0]);
                assert(s[p] == '}');
            }
        }
        lemma_span_first_member(s, p, es, e, day);
        lemma_consumed_first(s, p, q, acc, day);
        let w = key_width(day);
        let elen_s = 3 + w + dec_chars(es[0].1 as nat).len();
        let elen_a = 3 + w + dec_chars(acc[0].1 as nat).len();
        lemma_dec_span_unique(s, p + 3 + w, acc[0].1, p + elen_a, es[0].1, p + elen_s);
        assert(elen_a == elen_s);
        // A comma follows the first member, so the span holds more.
        assert(s[p + elen_a] == ',');
        assert(es.len() > 1) by {
            if es.len() == 1 {
                assert(e == p + elen_s + 1);
                assert(s[p + elen_s] == ',' || s[p + elen_s] == '}');
                assert(s.subrange(p, e)[elen_s] == (entries_chars(es, day) + seq!['}'])[elen_s]);
                assert(s[p + elen_s] == '}');
            }
        }
        assert(entries_span(s, p + elen_a + 1, es.drop_first(), e, day));
        let p2 = p + elen_a + 1;
        let acc2 = acc.drop_first();
        if acc2.len() == 0 {
            lemma_entries_chars_shape(es.drop_first(), day);
            assert(s.subrange(p2, q).len() == 0);
            assert(q == p2);
            assert(s.subrange(p2, e)[0] == (entries_chars(es.drop_first(), day) + seq!['}'])[0]);
            assert(s.subrange(p2, e)[0] == entries_chars(es.drop_first(), day)[0]);
            assert(s[q] == s.subrange(p2, e)[0]);
            assert(s[q] == '"');
            assert(q < s.len());
        }
        lemma_align_next(s, p2, q, acc2, es.drop_first(), e, day);
    }
}

/// Scans one counters object after its opening brace, up to and
/// including the closing brace.
#[verifier::rlimit(100)]
#[verifier::spinoff_prover]
fn scan_entries(s: &[char], p: usize, day: bool) -> (r: Option<(Vec<(u32, u64)>, usize)>)
    requires
        p <= s@.len(),
    ensures
        r matches Some(q) ==> entries_span(s@, p as int, q.0@, q.1 as int, day),
        r is None ==> forall|es: Seq<(u32, u64)>, e: int| !entries_span(s@, p as int, es, e, day),
{
    let mut entries: Vec<(u32, u64)> = Vec::new();
    let mut q: usize = p;
    if q < s.len() && s[q] == '}' {
        proof {
            assert(s@.subrange(p as int, p as int + 1) =~= entries_chars(entries@, day)
                + seq!['}']);
        }
        return Some((entries, q + 1));
    }
    loop
        invariant
            p <= q <= s@.len(),
            s@.subrange(p as int, q as int) =~= entries_chars(entries@, day) + (if entries@.len()
                > 0 {
                seq![',']
            } else {
                Seq::<char>::empty()
            }),
            entries@.len() == 0 ==> q == p && !(q < s@.len() && s@[q as int] == '}'),
        decreases s@.len() - q,
    {
        let ghost pre_entries = entries@;
        let ghost consumed = s@.subrange(p as int, q as int);
        let ghost w = key_width(day);
        if q >= s.len() || s[q] != '"' {
            proof {
                assert forall|es: Seq<(u32, u64)>, e: int| !entries_span(
                    s@,
                    p as int,
                    es,
                    e,
                    day,
                ) by {
                    if entries_span(s@, p as int, es, e, day) {
                        lemma_align_next(s@, p as int, q as int, pre_entries, es, e, day);
                        let m = choose|m: (u32, u64)| member_at(s@, q as int, e, m, day);
                        assert(s@[q as int] == '"');
                        assert(false);
                    }
                }
            }
            return None;
        }
        let key_start = q + 1;
        let shape_ok: bool = if day {
            s.len() - key_start >= 10 && crate::dates::date_shape(s, key_start)
        } else {
            s.len() - key_start >= 7 && crate::dates::month_shape(s, key_start)
        };
        if !shape_ok {
            proof {
                assert forall|es: Seq<(u32, u64)>, e: int| !entries_span(
                    s@,
                    p as int,
                    es,
                    e,
                    day,
                ) by {
                    if entries_span(s@, p as int, es, e, day) {
                        lemma_align_next(s@, p as int, q as int, pre_entries, es, e, day);
                        let m = choose|m: (u32, u64)| member_at(s@, q as int, e, m, day);
                        lemma_key_chars_shape(m.0, day);
                        assert(q + 1 + w <= s@.len());
                        assert(s@.subrange(q as int + 1, q as int + 1 + w) == key_chars(m.0, day));
                        assert(false);
                    }
                }
            }
            return None;
        }
        let (code, key_end): (u32, usize) = if day {
            let c = day_val_exec(s, key_start);
            (c, key_start + 10)
        } else {
            let c = month_val_at(s, key_start);
            (c, key_start + 7)
        };
        if key_end >= s.len() || s[key_end] != '"' || key_end + 1 >= s.len() || s[key_end + 1]
            != ':' {
            proof {
                assert forall|es: Seq<(u32, u64)>, e: int| !entries_span(
                    s@,
                    p as int,
                    es,
                    e,
                    day,
                ) by {
                    if entries_span(s@, p as int, es, e, day) {
                        lemma_align_next(s@, p as int, q as int, pre_entries, es, e, day);
                        let m = choose|m: (u32, u64)| member_at(s@, q as int, e, m, day);
                        lemma_dec_chars_digits(m.1 as nat);
                        assert(s@[q + 1 + w] == '"' && s@[q + 2 + w] == ':');
                        assert(q + 2 + w < e <= s@.len());
                        assert(false);
                    }
                }
            }
            return None;
        }
        let num = match scan_u64(s, key_end + 2) {
            Some(x) => x,
            None => {
                proof {
                    assert forall|es: Seq<(u32, u64)>, e: int| !entries_span(
                        s@,
                        p as int,
                        es,
                        e,
                        day,
                    ) by {
                        if entries_span(s@, p as int, es, e, day) {
                            lemma_align_next(s@, p as int, q as int, pre_entries, es, e, day);
                            let m = choose|m: (u32, u64)| member_at(s@, q as int, e, m, day);
                            assert(dec_span(
                                s@,
                                q as int + 3 + w,
                                m.1,
                                q as int + 3 + w + dec_chars(m.1 as nat).len(),
                            ));
                            assert(false);
                        }
                    }
                }
                return None;
            },
        };
        proof {
            lemma_entry_piece(s@, q as int, key_end as int, num.1 as int, code, num.0, day);
        }
        entries.push((code, num.0));
        let q2 = num.1;
        proof {
            lemma_entries_step(
                s@,
                p as int,
                q as int,
                q2 as int,
                pre_entries,
                (code, num.0),
                day,
            );
        }
        if q2 < s.len() && s[q2] == '}' {
            proof {
                assert(s@.subrange(p as int, q2 as int + 1) =~= s@.subrange(p as int, q2 as int)
                    + seq!['}']);
            }
            return Some((entries, q2 + 1));
        }
        if q2 < s.len() && s[q2] == ',' {
            proof {
                assert(s@.subrange(p as int, q2 as int + 1) =~= s@.subrange(p as int, q2 as int)
                    + seq![',']);
            }
            q = q2 + 1;
        } else {
            proof {
                assert forall|es: Seq<(u32, u64)>, e: int| !entries_span(
                    s@,
                    p as int,
                    es,
                    e,
                    day,
                ) by {
                    if entries_span(s@, p as int, es, e, day) {
                        lemma_align_next(s@, p as int, q as int, pre_entries, es, e, day);
                        let m = choose|m: (u32, u64)| member_at(s@, q as int, e, m, day);
                        // The scanned number and the member's number
                        // share their span, so the member ends at q2.
                        let melen = 3 + w + dec_chars(m.1 as nat).len();
                        lemma_dec_span_unique(
                            s@,
                            q as int + 3 + w,
                            num.0,
                            num.1 as int,
                            m.1,
                            q as int + melen,
                        );
                        assert(q2 == q + melen);
                        assert(s@[q2 as int] == ',' || s@[q2 as int] == '}');
                        assert(q2 < e <= s@.len());
                        assert(false);
                    }
                }
            }
            return None;
        }
    }
}

/// The numeric value of a day key's digits.
fn day_val_exec(s: &[char], i: usize) -> (r: u32)
    requires
        i + 10 <= s@.len(),
        crate::dates::is_date10(s@.subrange(i as int, i as int + 10)),
    ensures
        r <= 99999999,
        day_code_chars(r as int) =~= s@.subrange(i as int, i as int + 10),
{
    let ghost k = s@.subrange(i as int, i as int + 10);
    proof {
        assert(forall|j: int| 0 <= j < 10 ==> k[j] == s@[i + j]);
    }
    let r = crate::dates::digit_value(s[i]) * 10000000 + crate::dates::digit_value(s[i + 1])
        * 1000000 + crate::dates::digit_value(s[i + 2]) * 100000 + crate::dates::digit_value(
        s[i + 3],
    ) * 10000 + crate::dates::digit_value(s[i + 5]) * 1000 + crate::dates::digit_value(s[i + 6])
        * 100 + crate::dates::digit_value(s[i + 8]) * 10 + crate::dates::digit_value(s[i + 9]);
    proof {
        lemma_day_digits(s@, i as int, r as int);
    }
    r
}

/// The digits of a day key read back as a number spell the key again.
proof fn lemma_day_digits(s: Seq<char>, i: int, c: int)
    requires
        0 <= i,
        i + 10 <= s.len(),
        crate::dates::is_date10(s.subrange(i, i + 10)),
        c == crate::dates::digit_val(s[i]) * 10000000 + crate::dates::digit_val(s[i + 1])
            * 1000000 + crate::dates::digit_val(s[i + 2]) * 100000 + crate::dates::digit_val(
            s[i + 3],
        ) * 10000 + crate::dates::digit_val(s[i + 5]) * 1000 + crate::dates::digit_val(s[i + 6])
            * 100 + crate::dates::digit_val(s[i + 8]) * 10 + crate::dates::digit_val(s[i + 9]),
    ensures
        0 <= c <= 99999999,
        day_code_chars(c) =~= s.subrange(i, i + 10),
{
    let k = s.subrange(i, i + 10);
    assert(forall|j: int| 0 <= j < 10 ==> k[j] == s[i + j]);
    let d0 = crate::dates::digit_val(k[0]);
    let d1 = crate::dates::digit_val(k[1]);
    let d2 = crate::dates::digit_val(k[2]);
    let d3 = crate::dates::digit_val(k[3]);
    let d5 = crate::dates::digit_val(k[5]);
    let d6 = crate::dates::digit_val(k[6]);
    let d8 = crate::dates::digit_val(k[8]);
    let d9 = crate::dates::digit_val(k[9]);
    assert(0 <= d0 <= 9 && 0 <= d1 <= 9 && 0 <= d2 <= 9 && 0 <= d3 <= 9);
    assert(0 <= d5 <= 9 && 0 <= d6 <= 9 && 0 <= d8 <= 9 && 0 <= d9 <= 9);
    assert(c == d0 * 10000000 + d1 * 1000000 + d2 * 100000 + d3 * 10000 + d5 * 1000 + d6 * 100
        + d8 * 10 + d9);
    assert(c / 10000000 % 10 == d0 && c / 1000000 % 10 == d1 && c / 100000 % 10 == d2 && c / 10000
        % 10 == d3 && c / 1000 % 10 == d5 && c / 100 % 10 == d6 && c / 10 % 10 == d8 && c % 10
        == d9) by (nonlinear_arith)
        requires
            0 <= d0 <= 9 && 0 <= d1 <= 9 && 0 <= d2 <= 9 && 0 <= d3 <= 9,
            0 <= d5 <= 9 && 0 <= d6 <= 9 && 0 <= d8 <= 9 && 0 <= d9 <= 9,
            c == d0 * 10000000 + d1 * 1000000 + d2 * 100000 + d3 * 10000 + d5 * 1000 + d6 * 100
                + d8 * 10 + d9,
    ;
    assert(forall|j: int| 0 <= j < 10 ==> crate::text::is_digit(k[j]) || k[j] == '-');
    assert(day_code_chars(c)[0] == digit_of(d0) == k[0]) by {
        lemma_digit_of_val(k[0]);
    }
    assert(day_code_chars(c)[1] == k[1]) by {
        lemma_digit_of_val(k[1]);
    }
    assert(day_code_chars(c)[2] == k[2]) by {
        lemma_digit_of_val(k[2]);
    }
    assert(day_code_chars(c)[3] == k[3]) by {
        lemma_digit_of_val(k[3]);
    }
    assert(day_code_chars(c)[5] == k[5]) by {
        lemma_digit_of_val(k[5]);
    }
    assert(day_code_chars(c)[6] == k[6]) by {
        lemma_digit_of_val(k[6]);
    }
    assert(day_code_chars(c)[8] == k[8]) by {
        lemma_digit_of_val(k[8]);
    }
    assert(day_code_chars(c)[9] == k[9]) by {
        lemma_digit_of_val(k[9]);
    }
}

/// The numeric value of a month key's digits.
fn month_val_at(s: &[char], i: usize) -> (r: u32)
    requires
        i + 7 <= s@.len(),
        crate::dates::is_month7(s@.subrange(i as int, i as int + 7)),
    ensures
        r <= 999999,
        month_code_chars(r as int) =~= s@.subrange(i as int, i as int + 7),
{
    let ghost k = s@.subrange(i as int, i as int + 7);
    proof {
        assert(forall|j: int| 0 <= j < 7 ==> k[j] == s@[i + j]);
    }
    let r = crate::dates::digit_value(s[i]) * 100000 + crate::dates::digit_value(s[i + 1]) * 10000
        + crate::dates::digit_value(s[i + 2]) * 1000 + crate::dates::digit_value(s[i + 3]) * 100
        + crate::dates::digit_value(s[i + 5]) * 10 + crate::dates::digit_value(s[i + 6]);
    proof {
        lemma_month_digits(s@, i as int, r as int);
    }
    r
}

/// The digits of a month key read back as a number spell the key
/// again.
proof fn lemma_month_digits(s: Seq<char>, i: int, c: int)
    requires
        0 <= i,
        i + 7 <= s.len(),
        crate::dates::is_month7(s.subrange(i, i + 7)),
        c == crate::dates::digit_val(s[i]) * 100000 + crate::dates::digit_val(s[i + 1]) * 10000
            + crate::dates::digit_val(s[i + 2]) * 1000 + crate::dates::digit_val(s[i + 3]) * 100
            + crate::dates::digit_val(s[i + 5]) * 10 + crate::dates::digit_val(s[i + 6]),
    ensures
        0 <= c <= 999999,
        month_code_chars(c) =~= s.subrange(i, i + 7),
{
    let k = s.subrange(i, i + 7);
    assert(forall|j: int| 0 <= j < 7 ==> k[j] == s[i + j]);
    let d0 = crate::dates::digit_val(k[0]);
    let d1 = crate::dates::digit_val(k[1]);
    let d2 = crate::dates::digit_val(k[2]);
    let d3 = crate::dates::digit_val(k[3]);
    let d5 = crate::dates::digit_val(k[5]);
    let d6 = crate::dates::digit_val(k[6]);
    assert(0 <= d0 <= 9 && 0 <= d1 <= 9 && 0 <= d2 <= 9 && 0 <= d3 <= 9 && 0 <= d5 <= 9 && 0 <= d6
        <= 9);
    assert(c == d0 * 100000 + d1 * 10000 + d2 * 1000 + d3 * 100 + d5 * 10 + d6);
    assert(c / 100000 % 10 == d0 && c / 10000 % 10 == d1 && c / 1000 % 10 == d2 && c / 100 % 10
        == d3 && c / 10 % 10 == d5 && c % 10 == d6) by (nonlinear_arith)
        requires
            0 <= d0 <= 9 && 0 <= d1 <= 9 && 0 <= d2 <= 9 && 0 <= d3 <= 9 && 0 <= d5 <= 9 && 0 <= d6
                <= 9,
            c == d0 * 100000 + d1 * 10000 + d2 * 1000 + d3 * 100 + d5 * 10 + d6,
    ;
    assert(month_code_chars(c)[0] == k[0]) by {
        lemma_digit_of_val(k[0]);
    }
    assert(month_code_chars(c)[1] == k[1]) by {
        lemma_digit_of_val(k[1]);
    }
    assert(month_code_chars(c)[2] == k[2]) by {
        lemma_digit_of_val(k[2]);
    }
    assert(month_code_chars(c)[3] == k[3]) by {
        lemma_digit_of_val(k[3]);
    }
    assert(month_code_chars(c)[5] == k[5]) by {
        lemma_digit_of_val(k[5]);
    }
    assert(month_code_chars(c)[6] == k[6]) by {
        lemma_digit_of_val(k[6]);
    }
}

/// Subranges within a prefix survive an append.
proof fn lemma_subrange_prefix(x: Seq<char>, y: Seq<char>, i: int, j: int)
    requires
        0 <= i <= j <= x.len(),
    ensures
        (x + y).subrange(i, j) =~= x.subrange(i, j),
{
}

/// The appended part of a concatenation is its tail subrange.
proof fn lemma_concat_tail(x: Seq<char>, y: Seq<char>)
    ensures
        (x + y).subrange(x.len() as int, (x.len() + y.len()) as int) =~= y,
{
}

/// How a rendered metadata text decomposes: each literal, number and
/// counters object at its fixed offset, numbers bounded by a comma,
/// objects closed by their brace.
#[verifier::rlimit(100)]
#[verifier::spinoff_prover]
proof fn lemma_render_structure(s: Seq<char>, m: MetadataModel)
    requires
        s == spec_render_metadata(m),
    ensures
        ({
            let o1 = "{\"dailyLimit\":"@.len() as int;
            let o2 = o1 + dec_chars(m.daily_limit as nat).len();
            let o3 = o2 + ",\"stats\":{\"totalCompleted\":"@.len();
            let o4 = o3 + dec_chars(m.stats.total_completed as nat).len();
            let o5 = o4 + ",\"currentStreak\":"@.len();
            let o6 = o5 + dec_chars(m.stats.current_streak as nat).len();
            let o7 = o6 + ",\"longestStreak\":"@.len();
            let o8 = o7 + dec_chars(m.stats.longest_streak as nat).len();
            let o9 = o8 + ",\"completionsByMonth\":{"@.len();
            let o10 = o9 + entries_chars(m.stats.months, false).len();
            let o11 = o10 + 1 + ",\"completionsByDay\":{"@.len();
            let o12 = o11 + entries_chars(m.stats.days, true).len();
            let o13 = o12 + 1 + "}}"@.len();
            &&& s.len() == o13
            &&& s.subrange(0, o1) == "{\"dailyLimit\":"@
            &&& dec_span(s, o1, m.daily_limit, o2)
            &&& s.subrange(o2, o3) == ",\"stats\":{\"totalCompleted\":"@
            &&& dec_span(s, o3, m.stats.total_completed, o4)
            &&& s.subrange(o4, o5) == ",\"currentStreak\":"@
            &&& dec_span(s, o5, m.stats.current_streak, o6)
            &&& s.subrange(o6, o7) == ",\"longestStreak\":"@
            &&& dec_span(s, o7, m.stats.longest_streak, o8)
            &&& s.subrange(o8, o9) == ",\"completionsByMonth\":{"@
            &&& entries_span(s, o9, m.stats.months, o10 + 1, false)
            &&& s.subrange(o10 + 1, o11) == ",\"completionsByDay\":{"@
            &&& entries_span(s, o11, m.stats.days, o12 + 1, true)
            &&& s.subrange(o12 + 1, o13) == "}}"@
        }),
{
    reveal_strlit("{\"dailyLimit\":");
    reveal_strlit(",\"stats\":{\"totalCompleted\":");
    reveal_strlit(",\"currentStreak\":");
    reveal_strlit(",\"longestStreak\":");
    reveal_strlit(",\"completionsByMonth\":{");
    reveal_strlit("},\"completionsByDay\":{");
    reveal_strlit(",\"completionsByDay\":{");
    reveal_strlit("}}}");
    reveal_strlit("}}");
    let x1 = "{\"dailyLimit\":"@;
    let x2 = dec_chars(m.daily_limit as nat);
    let x3 = ",\"stats\":{\"totalCompleted\":"@;
    let x4 = dec_chars(m.stats.total_completed as nat);
    let x5 = ",\"currentStreak\":"@;
    let x6 = dec_chars(m.stats.current_streak as nat);
    let x7 = ",\"longestStreak\":"@;
    let x8 = dec_chars(m.stats.longest_streak as nat);
    let x9 = ",\"completionsByMonth\":{"@;
    let x10 = entries_chars(m.stats.months, false);
    let x11 = "},\"completionsByDay\":{"@;
    let x12 = entries_chars(m.stats.days, true);
    let x13 = "}}}"@;
    let c1 = x1;
    let c2 = c1 + x2;
    let c3 = c2 + x3;
    let c4 = c3 + x4;
    let c5 = c4 + x5;
    let c6 = c5 + x6;
    let c7 = c6 + x7;
    let c8 = c7 + x8;
    let c9 = c8 + x9;
    let c10 = c9 + x10;
    let c11 = c10 + x11;
    let c12 = c11 + x12;
    let c13 = c12 + x13;
    let n0: int = 0;
    let n1 = c1.len() as int;
    let n2 = c2.len() as int;
    let n3 = c3.len() as int;
    let n4 = c4.len() as int;
    let n5 = c5.len() as int;
    let n6 = c6.len() as int;
    let n7 = c7.len() as int;
    let n8 = c8.len() as int;
    let n9 = c9.len() as int;
    let n10 = c10.len() as int;
    let n11 = c11.len() as int;
    let n12 = c12.len() as int;
    let n13 = c13.len() as int;
    assert(s == c13);
    assert(c1.subrange(n0, n1) =~= x1);
    lemma_subrange_prefix(c1, x2, n0, n1);
    assert(c2.subrange(n0, n1) =~= c1.subrange(n0, n1));
    lemma_subrange_prefix(c2, x3, n0, n1);
    assert(c3.subrange(n0, n1) =~= c2.subrange(n0, n1));
    lemma_subrange_prefix(c3, x4, n0, n1);
    assert(c4.subrange(n0, n1) =~= c3.subrange(n0, n1));
    lemma_subrange_prefix(c4, x5, n0, n1);
    assert(c5.subrange(n0, n1) =~= c4.subrange(n0, n1));
    lemma_subrange_prefix(c5, x6, n0, n1);
    assert(c6.subrange(n0, n1) =~= c5.subrange(n0, n1));
    lemma_subrange_prefix(c6, x7, n0, n1);
    assert(c7.subrange(n0, n1) =~= c6.subrange(n0, n1));
    lemma_subrange_prefix(c7, x8, n0, n1);
    assert(c8.subrange(n0, n1) =~= c7.subrange(n0, n1));
    lemma_subrange_prefix(c8, x9, n0, n1);
    assert(c9.subrange(n0, n1) =~= c8.subrange(n0, n1));
    lemma_subrange_prefix(c9, x10, n0, n1);
    assert(c10.subrange(n0, n1) =~= c9.subrange(n0, n1));
    lemma_subrange_prefix(c10, x11, n0, n1);
    assert(c11.subrange(n0, n1) =~= c10.subrange(n0, n1));
    lemma_subrange_prefix(c11, x12, n0, n1);
    assert(c12.subrange(n0, n1) =~= c11.subrange(n0, n1));
    lemma_subrange_prefix(c12, x13, n0, n1);
    assert(c13.subrange(n0, n1) =~= c12.subrange(n0, n1));
    assert(s.subrange(n0, n1) == x1);
    lemma_concat_tail(c1, x2);
    assert(c2.subrange(n1, n2) =~= x2);
    lemma_subrange_prefix(c2, x3, n1, n2);
    assert(c3.subrange(n1, n2) =~= c2.subrange(n1, n2));
    lemma_subrange_prefix(c3, x4, n1, n2);
    assert(c4.subrange(n1, n2) =~= c3.subrange(n1, n2));
    lemma_subrange_prefix(c4, x5, n1, n2);
    assert(c5.subrange(n1, n2) =~= c4.subrange(n1, n2));
    lemma_subrange_prefix(c5, x6, n1, n2);
    assert(c6.subrange(n1, n2) =~= c5.subrange(n1, n2));
    lemma_subrange_prefix(c6, x7, n1, n2);
    assert(c7.subrange(n1, n2) =~= c6.subrange(n1, n2));
    lemma_subrange_prefix(c7, x8, n1, n2);
    assert(c8.subrange(n1, n2) =~= c7.subrange(n1, n2));
    lemma_subrange_prefix(c8, x9, n1, n2);
    assert(c9.subrange(n1, n2) =~= c8.subrange(n1, n2));
    lemma_subrange_prefix(c9, x10, n1, n2);
    assert(c10.subrange(n1, n2) =~= c9.subrange(n1, n2));
    lemma_subrange_prefix(c10, x11, n1, n2);
    assert(c11.subrange(n1, n2) =~= c10.subrange(n1, n2));
    lemma_subrange_prefix(c11, x12, n1, n2);
    assert(c12.subrange(n1, n2) =~= c11.subrange(n1, n2));
    lemma_subrange_prefix(c12, x13, n1, n2);
    assert(c13.subrange(n1, n2) =~= c12.subrange(n1, n2));
    assert(s.subrange(n1, n2) == x2);
    lemma_concat_tail(c2, x3);
    assert(c3.subrange(n2, n3) =~= x3);
    lemma_subrange_prefix(c3, x4, n2, n3);
    assert(c4.subrange(n2, n3) =~= c3.subrange(n2, n3));
    lemma_subrange_prefix(c4, x5, n2, n3);
    assert(c5.subrange(n2, n3) =~= c4.subrange(n2, n3));
    lemma_subrange_prefix(c5, x6, n2, n3);
    assert(c6.subrange(n2, n3) =~= c5.subrange(n2, n3));
    lemma_subrange_prefix(c6, x7, n2, n3);
    assert(c7.subrange(n2, n3) =~= c6.subrange(n2, n3));
    lemma_subrange_prefix(c7, x8, n2, n3);
    assert(c8.subrange(n2, n3) =~= c7.subrange(n2, n3));
    lemma_subrange_prefix(c8, x9, n2, n3);
    assert(c9.subrange(n2, n3) =~= c8.subrange(n2, n3));
    lemma_subrange_prefix(c9, x10, n2, n3);
    assert(c10.subrange(n2, n3) =~= c9.subrange(n2, n3));
    lemma_subrange_prefix(c10, x11, n2, n3);
    assert(c11.subrange(n2, n3) =~= c10.subrange(n2, n3));
    lemma_subrange_prefix(c11, x12, n2, n3);
    assert(c12.subrange(n2, n3) =~= c11.subrange(n2, n3));
    lemma_subrange_prefix(c12, x13, n2, n3);
    assert(c13.subrange(n2, n3) =~= c12.subrange(n2, n3));
    assert(s.subrange(n2, n3) == x3);
    lemma_concat_tail(c3, x4);
    assert(c4.subrange(n3, n4) =~= x4);
    lemma_subrange_prefix(c4, x5, n3, n4);
    assert(c5.subrange(n3, n4) =~= c4.subrange(n3, n4));
    lemma_subrange_prefix(c5, x6, n3, n4);
    assert(c6.subrange(n3, n4) =~= c5.subrange(n3, n4));
    lemma_subrange_prefix(c6, x7, n3, n4);
    assert(c7.subrange(n3, n4) =~= c6.subrange(n3, n4));
    lemma_subrange_prefix(c7, x8, n3, n4);
    assert(c8.subrange(n3, n4) =~= c7.subrange(n3, n4));
    lemma_subrange_prefix(c8, x9, n3, n4);
    assert(c9.subrange(n3, n4) =~= c8.subrange(n3, n4));
    lemma_subrange_prefix(c9, x10, n3, n4);
    assert(c10.subrange(n3, n4) =~= c9.subrange(n3, n4));
    lemma_subrange_prefix(c10, x11, n3, n4);
    assert(c11.subrange(n3, n4) =~= c10.subrange(n3, n4));
    lemma_subrange_prefix(c11, x12, n3, n4);
    assert(c12.subrange(n3, n4) =~= c11.subrange(n3, n4));
    lemma_subrange_prefix(c12, x13, n3, n4);
    assert(c13.subrange(n3, n4) =~= c12.subrange(n3, n4));
    assert(s.subrange(n3, n4) == x4);
    lemma_concat_tail(c4, x5);
    assert(c5.subrange(n4, n5) =~= x5);
    lemma_subrange_prefix(c5, x6, n4, n5);
    assert(c6.subrange(n4, n5) =~= c5.subrange(n4, n5));
    lemma_subrange_prefix(c6, x7, n4, n5);
    assert(c7.subrange(n4, n5) =~= c6.subrange(n4, n5));
    lemma_subrange_prefix(c7, x8, n4, n5);
    assert(c8.subrange(n4, n5) =~= c7.subrange(n4, n5));
    lemma_subrange_prefix(c8, x9, n4, n5);
    assert(c9.subrange(n4, n5) =~= c8.subrange(n4, n5));
    lemma_subrange_prefix(c9, x10, n4, n5);
    assert(c10.subrange(n4, n5) =~= c9.subrange(n4, n5));
    lemma_subrange_prefix(c10, x11, n4, n5);
    assert(c11.subrange(n4, n5) =~= c10.subrange(n4, n5));
    lemma_subrange_prefix(c11, x12, n4, n5);
    assert(c12.subrange(n4, n5) =~= c11.subrange(n4, n5));
    lemma_subrange_prefix(c12, x13, n4, n5);
    assert(c13.subrange(n4, n5) =~= c12.subrange(n4, n5));
    assert(s.subrange(n4, n5) == x5);
    lemma_concat_tail(c5, x6);
    assert(c6.subrange(n5, n6) =~= x6);
    lemma_subrange_prefix(c6, x7, n5, n6);
    assert(c7.subrange(n5, n6) =~= c6.subrange(n5, n6));
    lemma_subrange_prefix(c7, x8, n5, n6);
    assert(c8.subrange(n5, n6) =~= c7.subrange(n5, n6));
    lemma_subrange_prefix(c8, x9, n5, n6);
    assert(c9.subrange(n5, n6) =~= c8.subrange(n5, n6));
    lemma_subrange_prefix(c9, x10, n5, n6);
    assert(c10.subrange(n5, n6) =~= c9.subrange(n5, n6));
    lemma_subrange_prefix(c10, x11, n5, n6);
    assert(c11.subrange(n5, n6) =~= c10.subrange(n5, n6));
    lemma_subrange_prefix(c11, x12, n5, n6);
    assert(c12.subrange(n5, n6) =~= c11.subrange(n5, n6));
    lemma_subrange_prefix(c12, x13, n5, n6);
    assert(c13.subrange(n5, n6) =~= c12.subrange(n5, n6));
    assert(s.subrange(n5, n6) == x6);
    lemma_concat_tail(c6, x7);
    assert(c7.subrange(n6, n7) =~= x7);
    lemma_subrange_prefix(c7, x8, n6, n7);
    assert(c8.subrange(n6, n7) =~= c7.subrange(n6, n7));
    lemma_subrange_prefix(c8, x9, n6, n7);
    assert(c9.subrange(n6, n7) =~= c8.subrange(n6, n7));
    lemma_subrange_prefix(c9, x10, n6, n7);
    assert(c10.subrange(n6, n7) =~= c9.subrange(n6, n7));
    lemma_subrange_prefix(c10, x11, n6, n7);
    assert(c11.subrange(n6, n7) =~= c10.subrange(n6, n7));
    lemma_subrange_prefix(c11, x12, n6, n7);
    assert(c12.subrange(n6, n7) =~= c11.subrange(n6, n7));
    lemma_subrange_prefix(c12, x13, n6, n7);
    assert(c13.subrange(n6, n7) =~= c12.subrange(n6, n7));
    assert(s.subrange(n6, n7) == x7);
    lemma_concat_tail(c7, x8);
    assert(c8.subrange(n7, n8) =~= x8);
    lemma_subrange_prefix(c8, x9, n7, n8);
    assert(c9.subrange(n7, n8) =~= c8.subrange(n7, n8));
    lemma_subrange_prefix(c9, x10, n7, n8);
    assert(c10.subrange(n7, n8) =~= c9.subrange(n7, n8));
    lemma_subrange_prefix(c10, x11, n7, n8);
    assert(c11.subrange(n7, n8) =~= c10.subrange(n7, n8));
    lemma_subrange_prefix(c11, x12, n7, n8);
    assert(c12.subrange(n7, n8) =~= c11.subrange(n7, n8));
    lemma_subrange_prefix(c12, x13, n7, n8);
    assert(c13.subrange(n7, n8) =~= c12.subrange(n7, n8));
    assert(s.subrange(n7, n8) == x8);
    lemma_concat_tail(c8, x9);
    assert(c9.subrange(n8, n9) =~= x9);
    lemma_subrange_prefix(c9, x10, n8, n9);
    assert(c10.subrange(n8, n9) =~= c9.subrange(n8, n9));
    lemma_subrange_prefix(c10, x11, n8, n9);
    assert(c11.subrange(n8, n9) =~= c10.subrange(n8, n9));
    lemma_subrange_prefix(c11, x12, n8, n9);
    assert(c12.subrange(n8, n9) =~= c11.subrange(n8, n9));
    lemma_subrange_prefix(c12, x13, n8, n9);
    assert(c13.subrange(n8, n9) =~= c12.subrange(n8, n9));
    assert(s.subrange(n8, n9) == x9);
    lemma_concat_tail(c9, x10);
    assert(c10.subrange(n9, n10) =~= x10);
    lemma_subrange_prefix(c10, x11, n9, n10);
    assert(c11.subrange(n9, n10) =~= c10.subrange(n9, n10));
    lemma_subrange_prefix(c11, x12, n9, n10);
    assert(c12.subrange(n9, n10) =~= c11.subrange(n9, n10));
    lemma_subrange_prefix(c12, x13, n9, n10);
    assert(c13.subrange(n9, n10) =~= c12.subrange(n9, n10));
    assert(s.subrange(n9, n10) == x10);
    lemma_concat_tail(c10, x11);
    assert(c11.subrange(n10, n11) =~= x11);
    lemma_subrange_prefix(c11, x12, n10, n11);
    assert(c12.subrange(n10, n11) =~= c11.subrange(n10, n11));
    lemma_subrange_prefix(c12, x13, n10, n11);
    assert(c13.subrange(n10, n11) =~= c12.subrange(n10, n11));
    assert(s.subrange(n10, n11) == x11);
    lemma_concat_tail(c11, x12);
    assert(c12.subrange(n11, n12) =~= x12);
    lemma_subrange_prefix(c12, x13, n11, n12);
    assert(c13.subrange(n11, n12) =~= c12.subrange(n11, n12));
    assert(s.subrange(n11, n12) == x12);
    lemma_concat_tail(c12, x13);
    assert(c13.subrange(n12, n13) =~= x13);
    assert(s.subrange(n12, n13) == x13);
    let o1 = "{\"dailyLimit\":"@.len() as int;
    let o2 = o1 + dec_chars(m.daily_limit as nat).len();
    let o3 = o2 + ",\"stats\":{\"totalCompleted\":"@.len();
    let o4 = o3 + dec_chars(m.stats.total_completed as nat).len();
    let o5 = o4 + ",\"currentStreak\":"@.len();
    let o6 = o5 + dec_chars(m.stats.current_streak as nat).len();
    let o7 = o6 + ",\"longestStreak\":"@.len();
    let o8 = o7 + dec_chars(m.stats.longest_streak as nat).len();
    let o9 = o8 + ",\"completionsByMonth\":{"@.len();
    let o10 = o9 + entries_chars(m.stats.months, false).len();
    let o11 = o10 + 1 + ",\"completionsByDay\":{"@.len();
    let o12 = o11 + entries_chars(m.stats.days, true).len();
    let o13 = o12 + 1 + "}}"@.len();
    assert(o1 == n1 && o2 == n2 && o3 == n3 && o4 == n4 && o5 == n5 && o6 == n6 && o7 == n7
        && o8 == n8 && o9 == n9 && o10 == n10 && o11 == n11 && o12 == n12 && o13 == n13);
    assert(s.len() == o13);
    assert(s[o2] == s.subrange(n2, n3)[0]);
    assert(s[o2] == ',');
    assert(!crate::text::is_digit(','));
    assert(s[o4] == s.subrange(n4, n5)[0]);
    assert(s[o4] == ',');
    assert(!crate::text::is_digit(','));
    assert(s[o6] == s.subrange(n6, n7)[0]);
    assert(s[o6] == ',');
    assert(!crate::text::is_digit(','));
    assert(s[o8] == s.subrange(n8, n9)[0]);
    assert(s[o8] == ',');
    assert(!crate::text::is_digit(','));
    assert(dec_span(s, o1, m.daily_limit, o2));
    assert(dec_span(s, o3, m.stats.total_completed, o4));
    assert(dec_span(s, o5, m.stats.current_streak, o6));
    assert(dec_span(s, o7, m.stats.longest_streak, o8));
    assert(s[o10] == s.subrange(n10, n11)[0]);
    assert(s[o10] == '}');
    assert(s.subrange(o9, o10 + 1) =~= entries_chars(m.stats.months, false) + seq!['}']) by {
        assert forall|i: int| 0 <= i < o10 + 1 - o9 implies s.subrange(o9, o10 + 1)[i] == (entries_chars(m.stats.months, false) + seq!['}'])[i] by {
            assert(s.subrange(o9, o10 + 1)[i] == s[o9 + i]);
            if i < o10 - o9 {
                assert(s[o9 + i] == s.subrange(n9, n10)[i]);
            }
        }
    }
    assert(entries_span(s, o9, m.stats.months, o10 + 1, false));
    assert(s.subrange(o10 + 1, o11) =~= ",\"completionsByDay\":{"@) by {
        assert forall|i: int| 0 <= i < o11 - o10 - 1 implies s.subrange(o10 + 1, o11)[i] == ",\"completionsByDay\":{"@[i] by {
            assert(s.subrange(o10 + 1, o11)[i] == s[o10 + 1 + i]);
            assert(s[o10 + 1 + i] == s.subrange(n10, n11)[1 + i]);
            assert(s.subrange(n10, n11)[1 + i] == x11[1 + i]);
        }
    }
    assert(s[o12] == s.subrange(n12, n13)[0]);
    assert(s[o12] == '}');
    assert(s.subrange(o11, o12 + 1) =~= entries_chars(m.stats.days, true) + seq!['}']) by {
        assert forall|i: int| 0 <= i < o12 + 1 - o11 implies s.subrange(o11, o12 + 1)[i] == (entries_chars(m.stats.days, true) + seq!['}'])[i] by {
            assert(s.subrange(o11, o12 + 1)[i] == s[o11 + i]);
            if i < o12 - o11 {
                assert(s[o11 + i] == s.subrange(n11, n12)[i]);
            }
        }
    }
    assert(entries_span(s, o11, m.stats.days, o12 + 1, true));
    assert(s.subrange(o12 + 1, o13) =~= "}}"@) by {
        assert forall|i: int| 0 <= i < o13 - o12 - 1 implies s.subrange(o12 + 1, o13)[i] == "}}"@[i] by {
            assert(s.subrange(o12 + 1, o13)[i] == s[o12 + 1 + i]);
            assert(s[o12 + 1 + i] == s.subrange(n12, n13)[1 + i]);
            assert(s.subrange(n12, n13)[1 + i] == x13[1 + i]);
        }
    }
}

/// Reads the metadata file back. Exactly the canonical renderings are
/// accepted: whatever comes back `Ok` spells, rendered again, the text
/// that was read, and a refusal means no metadata value renders to
/// this text — a corrupt file aborts the load, an intact one never
/// does.
#[verifier::rlimit(100)]
#[verifier::spinoff_prover]
pub fn parse_metadata(content: &str) -> (r: Result<TodoMetadata, String>)
    ensures
        r matches Ok(m) ==> content@ == spec_render_metadata(m@),
        r is Err ==> forall|m: MetadataModel| content@ != spec_render_metadata(m),
{
    let chars = crate::text::str_to_chars(content);
    let s = chars.as_slice();
    let corrupt: &str = "metadata file is corrupt";
    let p0 = match expect_lit(s, 0, "{\"dailyLimit\":") {
        Some(q) => q,
        None => {
            proof {
                assert forall|mh: MetadataModel| chars@ != spec_render_metadata(mh) by {
                    if chars@ == spec_render_metadata(mh) {
                        lemma_render_structure(chars@, mh);
                        let o1 = "{\"dailyLimit\":"@.len() as int;
                        let o2 = o1 + dec_chars(mh.daily_limit as nat).len();
                        let o3 = o2 + ",\"stats\":{\"totalCompleted\":"@.len();
                        let o4 = o3 + dec_chars(mh.stats.total_completed as nat).len();
                        let o5 = o4 + ",\"currentStreak\":"@.len();
                        let o6 = o5 + dec_chars(mh.stats.current_streak as nat).len();
                        let o7 = o6 + ",\"longestStreak\":"@.len();
                        let o8 = o7 + dec_chars(mh.stats.longest_streak as nat).len();
                        let o9 = o8 + ",\"completionsByMonth\":{"@.len();
                        let o10 = o9 + entries_chars(mh.stats.months, false).len();
                        let o11 = o10 + 1 + ",\"completionsByDay\":{"@.len();
                        let o12 = o11 + entries_chars(mh.stats.days, true).len();
                        let o13 = o12 + 1 + "}}"@.len();
                        assert(o1 <= chars@.len());
                        assert(chars@.subrange(0, o1) == "{\"dailyLimit\":"@);
                        assert(false);
                    }
                }
            }
            return Err(corrupt.to_owned());
        },
    };
    let daily = match scan_u64(s, p0) {
        Some(x) => x,
        None => {
            proof {
                assert forall|mh: MetadataModel| chars@ != spec_render_metadata(mh) by {
                    if chars@ == spec_render_metadata(mh) {
                        lemma_render_structure(chars@, mh);
                        let o1 = "{\"dailyLimit\":"@.len() as int;
                        let o2 = o1 + dec_chars(mh.daily_limit as nat).len();
                        let o3 = o2 + ",\"stats\":{\"totalCompleted\":"@.len();
                        let o4 = o3 + dec_chars(mh.stats.total_completed as nat).len();
                        let o5 = o4 + ",\"currentStreak\":"@.len();
                        let o6 = o5 + dec_chars(mh.stats.current_streak as nat).len();
                        let o7 = o6 + ",\"longestStreak\":"@.len();
                        let o8 = o7 + dec_chars(mh.stats.longest_streak as nat).len();
                        let o9 = o8 + ",\"completionsByMonth\":{"@.len();
                        let o10 = o9 + entries_chars(mh.stats.months, false).len();
                        let o11 = o10 + 1 + ",\"completionsByDay\":{"@.len();
                        let o12 = o11 + entries_chars(mh.stats.days, true).len();
                        let o13 = o12 + 1 + "}}"@.len();
                            assert(p0 == o1);
                        assert(dec_span(s@, p0 as int, mh.daily_limit, o2));
                        assert(false);
                    }
                }
            }
            return Err(corrupt.to_owned());
        },
    };
    let p1 = match expect_lit(s, daily.1, ",\"stats\":{\"totalCompleted\":") {
        Some(q) => q,
        None => {
            proof {
                assert forall|mh: MetadataModel| chars@ != spec_render_metadata(mh) by {
                    if chars@ == spec_render_metadata(mh) {
                        lemma_render_structure(chars@, mh);
                        let o1 = "{\"dailyLimit\":"@.len() as int;
                        let o2 = o1 + dec_chars(mh.daily_limit as nat).len();
                        let o3 = o2 + ",\"stats\":{\"totalCompleted\":"@.len();
                        let o4 = o3 + dec_chars(mh.stats.total_completed as nat).len();
                        let o5 = o4 + ",\"currentStreak\":"@.len();
                        let o6 = o5 + dec_chars(mh.stats.current_streak as nat).len();
                        let o7 = o6 + ",\"longestStreak\":"@.len();
                        let o8 = o7 + dec_chars(mh.stats.longest_streak as nat).len();
                        let o9 = o8 + ",\"completionsByMonth\":{"@.len();
                        let o10 = o9 + entries_chars(mh.stats.months, false).len();
                        let o11 = o10 + 1 + ",\"completionsByDay\":{"@.len();
                        let o12 = o11 + entries_chars(mh.stats.days, true).len();
                        let o13 = o12 + 1 + "}}"@.len();
                            assert(p0 == o1);
                            lemma_dec_span_unique(chars@, o1, daily.0, daily.1 as int, mh.daily_limit, o2);
                        assert(daily.1 == o2);
                        assert(daily.1 + ",\"stats\":{\"totalCompleted\":"@.len() <= s@.len());
                        assert(s@.subrange(daily.1 as int, daily.1 + ",\"stats\":{\"totalCompleted\":"@.len() as int) == ",\"stats\":{\"totalCompleted\":"@);
                        assert(false);
                    }
                }
            }
            return Err(corrupt.to_owned());
        },
    };
    let total = match scan_u64(s, p1) {
        Some(x) => x,
        None => {
            proof {
                assert forall|mh: MetadataModel| chars@ != spec_render_metadata(mh) by {
                    if chars@ == spec_render_metadata(mh) {
                        lemma_render_structure(chars@, mh);
                        let o1 = "{\"dailyLimit\":"@.len() as int;
                        let o2 = o1 + dec_chars(mh.daily_limit as nat).len();
                        let o3 = o2 + ",\"stats\":{\"totalCompleted\":"@.len();
                        let o4 = o3 + dec_chars(mh.stats.total_completed as nat).len();
                        let o5 = o4 + ",\"currentStreak\":"@.len();
                        let o6 = o5 + dec_chars(mh.stats.current_streak as nat).len();
                        let o7 = o6 + ",\"longestStreak\":"@.len();
                        let o8 = o7 + dec_chars(mh.stats.longest_streak as nat).len();
                        let o9 = o8 + ",\"completionsByMonth\":{"@.len();
                        let o10 = o9 + entries_chars(mh.stats.months, false).len();
                        let o11 = o10 + 1 + ",\"completionsByDay\":{"@.len();
                        let o12 = o11 + entries_chars(mh.stats.days, true).len();
                        let o13 = o12 + 1 + "}}"@.len();
                            assert(p0 == o1);
                            lemma_dec_span_unique(chars@, o1, daily.0, daily.1 as int, mh.daily_limit, o2);
                            assert(p1 == o3);
                        assert(dec_span(s@, p1 as int, mh.stats.total_completed, o4));
                        assert(false);
                    }
                }
            }
            return Err(corrupt.to_owned());
        },
    };
    let p2 = match expect_lit(s, total.1, ",\"currentStreak\":") {
        Some(q) => q,
        None => {
            proof {
                assert forall|mh: MetadataModel| chars@ != spec_render_metadata(mh) by {
                    if chars@ == spec_render_metadata(mh) {
                        lemma_render_structure(chars@, mh);
                        let o1 = "{\"dailyLimit\":"@.len() as int;
                        let o2 = o1 + dec_chars(mh.daily_limit as nat).len();
                        let o3 = o2 + ",\"stats\":{\"totalCompleted\":"@.len();
                        let o4 = o3 + dec_chars(mh.stats.total_completed as nat).len();
                        let o5 = o4 + ",\"currentStreak\":"@.len();
                        let o6 = o5 + dec_chars(mh.stats.current_streak as nat).len();
                        let o7 = o6 + ",\"longestStreak\":"@.len();
                        let o8 = o7 + dec_chars(mh.stats.longest_streak as nat).len();
                        let o9 = o8 + ",\"completionsByMonth\":{"@.len();
                        let o10 = o9 + entries_chars(mh.stats.months, false).len();
                        let o11 = o10 + 1 + ",\"completionsByDay\":{"@.len();
                        let o12 = o11 + entries_chars(mh.stats.days, true).len();
                        let o13 = o12 + 1 + "}}"@.len();
                            assert(p0 == o1);
                            lemma_dec_span_unique(chars@, o1, daily.0, daily.1 as int, mh.daily_limit, o2);
                            assert(p1 == o3);
                            lemma_dec_span_unique(chars@, o3, total.0, total.1 as int, mh.stats.total_completed, o4);
                        assert(total.1 == o4);
                        assert(total.1 + ",\"currentStreak\":"@.len() <= s@.len());
                        assert(s@.subrange(total.1 as int, total.1 + ",\"currentStreak\":"@.len() as int) == ",\"currentStreak\":"@);
                        assert(false);
                    }
                }
            }
            return Err(corrupt.to_owned());
        },
    };
    let cur = match scan_u64(s, p2) {
        Some(x) => x,
        None => {
            proof {
                assert forall|mh: MetadataModel| chars@ != spec_render_metadata(mh) by {
                    if chars@ == spec_render_metadata(mh) {
                        lemma_render_structure(chars@, mh);
                        let o1 = "{\"dailyLimit\":"@.len() as int;
                        let o2 = o1 + dec_chars(mh.daily_limit as nat).len();
                        let o3 = o2 + ",\"stats\":{\"totalCompleted\":"@.len();
                        let o4 = o3 + dec_chars(mh.stats.total_completed as nat).len();
                        let o5 = o4 + ",\"currentStreak\":"@.len();
                        let o6 = o5 + dec_chars(mh.stats.current_streak as nat).len();
                        let o7 = o6 + ",\"longestStreak\":"@.len();
                        let o8 = o7 + dec_chars(mh.stats.longest_streak as nat).len();
                        let o9 = o8 + ",\"completionsByMonth\":{"@.len();
                        let o10 = o9 + entries_chars(mh.stats.months, false).len();
                        let o11 = o10 + 1 + ",\"completionsByDay\":{"@.len();
                        let o12 = o11 + entries_chars(mh.stats.days, true).len();
                        let o13 = o12 + 1 + "}}"@.len();
                            assert(p0 == o1);
                            lemma_dec_span_unique(chars@, o1, daily.0, daily.1 as int, mh.daily_limit, o2);
                            assert(p1 == o3);
                            lemma_dec_span_unique(chars@, o3, total.0, total.1 as int, mh.stats.total_completed, o4);
                            assert(p2 == o5);
                        assert(dec_span(s@, p2 as int, mh.stats.current_streak, o6));
                        assert(false);
                    }
                }
            }
            return Err(corrupt.to_owned());
        },
    };
    let p3 = match expect_lit(s, cur.1, ",\"longestStreak\":") {
        Some(q) => q,
        None => {
            proof {
                assert forall|mh: MetadataModel| chars@ != spec_render_metadata(mh) by {
                    if chars@ == spec_render_metadata(mh) {
                        lemma_render_structure(chars@, mh);
                        let o1 = "{\"dailyLimit\":"@.len() as int;
                        let o2 = o1 + dec_chars(mh.daily_limit as nat).len();
                        let o3 = o2 + ",\"stats\":{\"totalCompleted\":"@.len();
                        let o4 = o3 + dec_chars(mh.stats.total_completed as nat).len();
                        let o5 = o4 + ",\"currentStreak\":"@.len();
                        let o6 = o5 + dec_chars(mh.stats.current_streak as nat).len();
                        let o7 = o6 + ",\"longestStreak\":"@.len();
                        let o8 = o7 + dec_chars(mh.stats.longest_streak as nat).len();
                        let o9 = o8 + ",\"completionsByMonth\":{"@.len();
                        let o10 = o9 + entries_chars(mh.stats.months, false).len();
                        let o11 = o10 + 1 + ",\"completionsByDay\":{"@.len();
                        let o12 = o11 + entries_chars(mh.stats.days, true).len();
                        let o13 = o12 + 1 + "}}"@.len();
                            assert(p0 == o1);
                            lemma_dec_span_unique(chars@, o1, daily.0, daily.1 as int, mh.daily_limit, o2);
                            assert(p1 == o3);
                            lemma_dec_span_unique(chars@, o3, total.0, total.1 as int, mh.stats.total_completed, o4);
                            assert(p2 == o5);
                            lemma_dec_span_unique(chars@, o5, cur.0, cur.1 as int, mh.stats.current_streak, o6);
                        assert(cur.1 == o6);
                        assert(cur.1 + ",\"longestStreak\":"@.len() <= s@.len());
                        assert(s@.subrange(cur.1 as int, cur.1 + ",\"longestStreak\":"@.len() as int) == ",\"longestStreak\":"@);
                        assert(false);
                    }
                }
            }
            return Err(corrupt.to_owned());
        },
    };
    let longest = match scan_u64(s, p3) {
        Some(x) => x,
        None => {
            proof {
                assert forall|mh: MetadataModel| chars@ != spec_render_metadata(mh) by {
                    if chars@ == spec_render_metadata(mh) {
                        lemma_render_structure(chars@, mh);
                        let o1 = "{\"dailyLimit\":"@.len() as int;
                        let o2 = o1 + dec_chars(mh.daily_limit as nat).len();
                        let o3 = o2 + ",\"stats\":{\"totalCompleted\":"@.len();
                        let o4 = o3 + dec_chars(mh.stats.total_completed as nat).len();
                        let o5 = o4 + ",\"currentStreak\":"@.len();
                        let o6 = o5 + dec_chars(mh.stats.current_streak as nat).len();
                        let o7 = o6 + ",\"longestStreak\":"@.len();
                        let o8 = o7 + dec_chars(mh.stats.longest_streak as nat).len();
                        let o9 = o8 + ",\"completionsByMonth\":{"@.len();
                        let o10 = o9 + entries_chars(mh.stats.months, false).len();
                        let o11 = o10 + 1 + ",\"completionsByDay\":{"@.len();
                        let o12 = o11 + entries_chars(mh.stats.days, true).len();
                        let o13 = o12 + 1 + "}}"@.len();
                            assert(p0 == o1);
                            lemma_dec_span_unique(chars@, o1, daily.0, daily.1 as int, mh.daily_limit, o2);
                            assert(p1 == o3);
                            lemma_dec_span_unique(chars@, o3, total.0, total.1 as int, mh.stats.total_completed, o4);
                            assert(p2 == o5);
                            lemma_dec_span_unique(chars@, o5, cur.0, cur.1 as int, mh.stats.current_streak, o6);
                            assert(p3 == o7);
                        assert(dec_span(s@, p3 as int, mh.stats.longest_streak, o8));
                        assert(false);
                    }
                }
            }
            return Err(corrupt.to_owned());
        },
    };
    let p4 = match expect_lit(s, longest.1, ",\"completionsByMonth\":{") {
        Some(q) => q,
        None => {
            proof {
                assert forall|mh: MetadataModel| chars@ != spec_render_metadata(mh) by {
                    if chars@ == spec_render_metadata(mh) {
                        lemma_render_structure(chars@, mh);
                        let o1 = "{\"dailyLimit\":"@.len() as int;
                        let o2 = o1 + dec_chars(mh.daily_limit as nat).len();
                        let o3 = o2 + ",\"stats\":{\"totalCompleted\":"@.len();
                        let o4 = o3 + dec_chars(mh.stats.total_completed as nat).len();
                        let o5 = o4 + ",\"currentStreak\":"@.len();
                        let o6 = o5 + dec_chars(mh.stats.current_streak as nat).len();
                        let o7 = o6 + ",\"longestStreak\":"@.len();
                        let o8 = o7 + dec_chars(mh.stats.longest_streak as nat).len();
                        let o9 = o8 + ",\"completionsByMonth\":{"@.len();
                        let o10 = o9 + entries_chars(mh.stats.months, false).len();
                        let o11 = o10 + 1 + ",\"completionsByDay\":{"@.len();
                        let o12 = o11 + entries_chars(mh.stats.days, true).len();
                        let o13 = o12 + 1 + "}}"@.len();
                            assert(p0 == o1);
                            lemma_dec_span_unique(chars@, o1, daily.0, daily.1 as int, mh.daily_limit, o2);
                            assert(p1 == o3);
                            lemma_dec_span_unique(chars@, o3, total.0, total.1 as int, mh.stats.total_completed, o4);
                            assert(p2 == o5);
                            lemma_dec_span_unique(chars@, o5, cur.0, cur.1 as int, mh.stats.current_streak, o6);
                            assert(p3 == o7);
                            lemma_dec_span_unique(chars@, o7, longest.0, longest.1 as int, mh.stats.longest_streak, o8);
                        assert(longest.1 == o8);
                        assert(longest.1 + ",\"completionsByMonth\":{"@.len() <= s@.len());
                        assert(s@.subrange(longest.1 as int, longest.1 + ",\"completionsByMonth\":{"@.len() as int) == ",\"completionsByMonth\":{"@);
                        assert(false);
                    }
                }
            }
            return Err(corrupt.to_owned());
        },
    };
    let months = match scan_entries(s, p4, false) {
        Some(x) => x,
        None => {
            proof {
                assert forall|mh: MetadataModel| chars@ != spec_render_metadata(mh) by {
                    if chars@ == spec_render_metadata(mh) {
                        lemma_render_structure(chars@, mh);
                        let o1 = "{\"dailyLimit\":"@.len() as int;
                        let o2 = o1 + dec_chars(mh.daily_limit as nat).len();
                        let o3 = o2 + ",\"stats\":{\"totalCompleted\":"@.len();
                        let o4 = o3 + dec_chars(mh.stats.total_completed as nat).len();
                        let o5 = o4 + ",\"currentStreak\":"@.len();
                        let o6 = o5 + dec_chars(mh.stats.current_streak as nat).len();
                        let o7 = o6 + ",\"longestStreak\":"@.len();
                        let o8 = o7 + dec_chars(mh.stats.longest_streak as nat).len();
                        let o9 = o8 + ",\"completionsByMonth\":{"@.len();
                        let o10 = o9 + entries_chars(mh.stats.months, false).len();
                        let o11 = o10 + 1 + ",\"completionsByDay\":{"@.len();
                        let o12 = o11 + entries_chars(mh.stats.days, true).len();
                        let o13 = o12 + 1 + "}}"@.len();
                            assert(p0 == o1);
                            lemma_dec_span_unique(chars@, o1, daily.0, daily.1 as int, mh.daily_limit, o2);
                            assert(p1 == o3);
                            lemma_dec_span_unique(chars@, o3, total.0, total.1 as int, mh.stats.total_completed, o4);
                            assert(p2 == o5);
                            lemma_dec_span_unique(chars@, o5, cur.0, cur.1 as int, mh.stats.current_streak, o6);
                            assert(p3 == o7);
                            lemma_dec_span_unique(chars@, o7, longest.0, longest.1 as int, mh.stats.longest_streak, o8);
                            assert(p4 == o9);
                        assert(entries_span(s@, p4 as int, mh.stats.months, o10 + 1, false));
                        assert(false);
                    }
                }
            }
            return Err(corrupt.to_owned());
        },
    };
    let p5 = match expect_lit(s, months.1, ",\"completionsByDay\":{") {
        Some(q) => q,
        None => {
            proof {
                assert forall|mh: MetadataModel| chars@ != spec_render_metadata(mh) by {
                    if chars@ == spec_render_metadata(mh) {
                        lemma_render_structure(chars@, mh);
                        let o1 = "{\"dailyLimit\":"@.len() as int;
                        let o2 = o1 + dec_chars(mh.daily_limit as nat).len();
                        let o3 = o2 + ",\"stats\":{\"totalCompleted\":"@.len();
                        let o4 = o3 + dec_chars(mh.stats.total_completed as nat).len();
                        let o5 = o4 + ",\"currentStreak\":"@.len();
                        let o6 = o5 + dec_chars(mh.stats.current_streak as nat).len();
                        let o7 = o6 + ",\"longestStreak\":"@.len();
                        let o8 = o7 + dec_chars(mh.stats.longest_streak as nat).len();
                        let o9 = o8 + ",\"completionsByMonth\":{"@.len();
                        let o10 = o9 + entries_chars(mh.stats.months, false).len();
                        let o11 = o10 + 1 + ",\"completionsByDay\":{"@.len();
                        let o12 = o11 + entries_chars(mh.stats.days, true).len();
                        let o13 = o12 + 1 + "}}"@.len();
                            assert(p0 == o1);
                            lemma_dec_span_unique(chars@, o1, daily.0, daily.1 as int, mh.daily_limit, o2);
                            assert(p1 == o3);
                            lemma_dec_span_unique(chars@, o3, total.0, total.1 as int, mh.stats.total_completed, o4);
                            assert(p2 == o5);
                            lemma_dec_span_unique(chars@, o5, cur.0, cur.1 as int, mh.stats.current_streak, o6);
                            assert(p3 == o7);
                            lemma_dec_span_unique(chars@, o7, longest.0, longest.1 as int, mh.stats.longest_streak, o8);
                            assert(p4 == o9);
                            lemma_entries_span_ends(chars@, o9, months.0@, months.1 as int, mh.stats.months, o10 + 1, false);
                            assert(months.1 == o10 + 1);
                        assert(months.1 + ",\"completionsByDay\":{"@.len() <= s@.len());
                        assert(s@.subrange(months.1 as int, months.1 + ",\"completionsByDay\":{"@.len() as int) == ",\"completionsByDay\":{"@);
                        assert(false);
                    }
                }
            }
            return Err(corrupt.to_owned());
        },
    };
    let days = match scan_entries(s, p5, true) {
        Some(x) => x,
        None => {
            proof {
                assert forall|mh: MetadataModel| chars@ != spec_render_metadata(mh) by {
                    if chars@ == spec_render_metadata(mh) {
                        lemma_render_structure(chars@, mh);
                        let o1 = "{\"dailyLimit\":"@.len() as int;
                        let o2 = o1 + dec_chars(mh.daily_limit as nat).len();
                        let o3 = o2 + ",\"stats\":{\"totalCompleted\":"@.len();
                        let o4 = o3 + dec_chars(mh.stats.total_completed as nat).len();
                        let o5 = o4 + ",\"currentStreak\":"@.len();
                        let o6 = o5 + dec_chars(mh.stats.current_streak as nat).len();
                        let o7 = o6 + ",\"longestStreak\":"@.len();
                        let o8 = o7 + dec_chars(mh.stats.longest_streak as nat).len();
                        let o9 = o8 + ",\"completionsByMonth\":{"@.len();
                        let o10 = o9 + entries_chars(mh.stats.months, false).len();
                        let o11 = o10 + 1 + ",\"completionsByDay\":{"@.len();
                        let o12 = o11 + entries_chars(mh.stats.days, true).len();
                        let o13 = o12 + 1 + "}}"@.len();
                            assert(p0 == o1);
                            lemma_dec_span_unique(chars@, o1, daily.0, daily.1 as int, mh.daily_limit, o2);
                            assert(p1 == o3);
                            lemma_dec_span_unique(chars@, o3, total.0, total.1 as int, mh.stats.total_completed, o4);
                            assert(p2 == o5);
                            lemma_dec_span_unique(chars@, o5, cur.0, cur.1 as int, mh.stats.current_streak, o6);
                            assert(p3 == o7);
                            lemma_dec_span_unique(chars@, o7, longest.0, longest.1 as int, mh.stats.longest_streak, o8);
                            assert(p4 == o9);
                            lemma_entries_span_ends(chars@, o9, months.0@, months.1 as int, mh.stats.months, o10 + 1, false);
                            assert(months.1 == o10 + 1);
                            assert(p5 == o11);
                        assert(entries_span(s@, p5 as int, mh.stats.days, o12 + 1, true));
                        assert(false);
                    }
                }
            }
            return Err(corrupt.to_owned());
        },
    };
    let p6 = match expect_lit(s, days.1, "}}") {
        Some(q) => q,
        None => {
            proof {
                assert forall|mh: MetadataModel| chars@ != spec_render_metadata(mh) by {
                    if chars@ == spec_render_metadata(mh) {
                        lemma_render_structure(chars@, mh);
                        let o1 = "{\"dailyLimit\":"@.len() as int;
                        let o2 = o1 + dec_chars(mh.daily_limit as nat).len();
                        let o3 = o2 + ",\"stats\":{\"totalCompleted\":"@.len();
                        let o4 = o3 + dec_chars(mh.stats.total_completed as nat).len();
                        let o5 = o4 + ",\"currentStreak\":"@.len();
                        let o6 = o5 + dec_chars(mh.stats.current_streak as nat).len();
                        let o7 = o6 + ",\"longestStreak\":"@.len();
                        let o8 = o7 + dec_chars(mh.stats.longest_streak as nat).len();
                        let o9 = o8 + ",\"completionsByMonth\":{"@.len();
                        let o10 = o9 + entries_chars(mh.stats.months, false).len();
                        let o11 = o10 + 1 + ",\"completionsByDay\":{"@.len();
                        let o12 = o11 + entries_chars(mh.stats.days, true).len();
                        let o13 = o12 + 1 + "}}"@.len();
                            assert(p0 == o1);
                            lemma_dec_span_unique(chars@, o1, daily.0, daily.1 as int, mh.daily_limit, o2);
                            assert(p1 == o3);
                            lemma_dec_span_unique(chars@, o3, total.0, total.1 as int, mh.stats.total_completed, o4);
                            assert(p2 == o5);
                            lemma_dec_span_unique(chars@, o5, cur.0, cur.1 as int, mh.stats.current_streak, o6);
                            assert(p3 == o7);
                            lemma_dec_span_unique(chars@, o7, longest.0, longest.1 as int, mh.stats.longest_streak, o8);
                            assert(p4 == o9);
                            lemma_entries_span_ends(chars@, o9, months.0@, months.1 as int, mh.stats.months, o10 + 1, false);
                            assert(months.1 == o10 + 1);
                            assert(p5 == o11);
                            lemma_entries_span_ends(chars@, o11, days.0@, days.1 as int, mh.stats.days, o12 + 1, true);
                            assert(days.1 == o12 + 1);
                        assert(days.1 + "}}"@.len() <= s@.len());
                        assert(s@.subrange(days.1 as int, days.1 + "}}"@.len() as int) == "}}"@);
                        assert(false);
                    }
                }
            }
            return Err(corrupt.to_owned());
        },
    };
    if p6 != s.len() {
            proof {
                assert forall|mh: MetadataModel| chars@ != spec_render_metadata(mh) by {
                    if chars@ == spec_render_metadata(mh) {
                        lemma_render_structure(chars@, mh);
                        let o1 = "{\"dailyLimit\":"@.len() as int;
                        let o2 = o1 + dec_chars(mh.daily_limit as nat).len();
                        let o3 = o2 + ",\"stats\":{\"totalCompleted\":"@.len();
                        let o4 = o3 + dec_chars(mh.stats.total_completed as nat).len();
                        let o5 = o4 + ",\"currentStreak\":"@.len();
                        let o6 = o5 + dec_chars(mh.stats.current_streak as nat).len();
                        let o7 = o6 + ",\"longestStreak\":"@.len();
                        let o8 = o7 + dec_chars(mh.stats.longest_streak as nat).len();
                        let o9 = o8 + ",\"completionsByMonth\":{"@.len();
                        let o10 = o9 + entries_chars(mh.stats.months, false).len();
                        let o11 = o10 + 1 + ",\"completionsByDay\":{"@.len();
                        let o12 = o11 + entries_chars(mh.stats.days, true).len();
                        let o13 = o12 + 1 + "}}"@.len();
                            assert(p0 == o1);
                            lemma_dec_span_unique(chars@, o1, daily.0, daily.1 as int, mh.daily_limit, o2);
                            assert(p1 == o3);
                            lemma_dec_span_unique(chars@, o3, total.0, total.1 as int, mh.stats.total_completed, o4);
                            assert(p2 == o5);
                            lemma_dec_span_unique(chars@, o5, cur.0, cur.1 as int, mh.stats.current_streak, o6);
                            assert(p3 == o7);
                            lemma_dec_span_unique(chars@, o7, longest.0, longest.1 as int, mh.stats.longest_streak, o8);
                            assert(p4 == o9);
                            lemma_entries_span_ends(chars@, o9, months.0@, months.1 as int, mh.stats.months, o10 + 1, false);
                            assert(months.1 == o10 + 1);
                            assert(p5 == o11);
                            lemma_entries_span_ends(chars@, o11, days.0@, days.1 as int, mh.stats.days, o12 + 1, true);
                            assert(days.1 == o12 + 1);
                            assert(p6 == o13);
                        assert(o13 == chars@.len());
                        assert(false);
                    }
                }
            }
        return Err(corrupt.to_owned());
    }
    let m = TodoMetadata {
        daily_limit: daily.0,
        stats: TodoStats {
            total_completed: total.0,
            current_streak: cur.0,
            longest_streak: longest.0,
            completions_by_month: crate::stats::Tally { entries: months.0 },
            completions_by_day: crate::stats::Tally { entries: days.0 },
        },
    };
    proof {
        lemma_concat_pieces(chars@, m@, p0 as int, daily.1 as int, p1 as int, total.1 as int,
            p2 as int, cur.1 as int, p3 as int, longest.1 as int, p4 as int, months.1 as int,
            p5 as int, days.1 as int, p6 as int);
    }
    Ok(m)
}

/// Stitches the scanned pieces back into the canonical rendering.
#[verifier::spinoff_prover]
#[verifier::rlimit(100)]
proof fn lemma_concat_pieces(
    s: Seq<char>,
    m: MetadataModel,
    p0: int,
    e0: int,
    p1: int,
    e1: int,
    p2: int,
    e2: int,
    p3: int,
    e3: int,
    p4: int,
    e4: int,
    p5: int,
    e5: int,
    p6: int,
)
    requires
        0 <= p0 <= e0 <= p1 <= e1 <= p2 <= e2 <= p3 <= e3 <= p4 <= e4 <= p5 <= e5 <= p6
            == s.len(),
        s.subrange(0, p0) =~= "{\"dailyLimit\":"@,
        s.subrange(p0, e0) =~= dec_chars(m.daily_limit as nat),
        s.subrange(e0, p1) =~= ",\"stats\":{\"totalCompleted\":"@,
        s.subrange(p1, e1) =~= dec_chars(m.stats.total_completed as nat),
        s.subrange(e1, p2) =~= ",\"currentStreak\":"@,
        s.subrange(p2, e2) =~= dec_chars(m.stats.current_streak as nat),
        s.subrange(e2, p3) =~= ",\"longestStreak\":"@,
        s.subrange(p3, e3) =~= dec_chars(m.stats.longest_streak as nat),
        s.subrange(e3, p4) =~= ",\"completionsByMonth\":{"@,
        s.subrange(p4, e4) =~= entries_chars(m.stats.months, false) + seq!['}'],
        s.subrange(e4, p5) =~= ",\"completionsByDay\":{"@,
        s.subrange(p5, e5) =~= entries_chars(m.stats.days, true) + seq!['}'],
        s.subrange(e5, p6) =~= "}}"@,
    ensures
        s =~= spec_render_metadata(m),
{
    reveal_strlit("{\"dailyLimit\":");
    reveal_strlit(",\"stats\":{\"totalCompleted\":");
    reveal_strlit(",\"currentStreak\":");
    reveal_strlit(",\"longestStreak\":");
    reveal_strlit(",\"completionsByMonth\":{");
    reveal_strlit("},\"completionsByDay\":{");
    reveal_strlit(",\"completionsByDay\":{");
    reveal_strlit("}}}");
    reveal_strlit("}}");
    assert(s =~= s.subrange(0, p0) + s.subrange(p0, e0) + s.subrange(e0, p1) + s.subrange(p1, e1)
        + s.subrange(e1, p2) + s.subrange(p2, e2) + s.subrange(e2, p3) + s.subrange(p3, e3)
        + s.subrange(e3, p4) + s.subrange(p4, e4) + s.subrange(e4, p5) + s.subrange(p5, e5)
        + s.subrange(e5, p6));
}

} // verus!
