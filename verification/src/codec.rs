//! The serialized form of the cache store: one compact JSON document,
//!
//! `{"entries":{"<identity>":{"calendar":{"weeks":[{"contributionDays":
//! [{"date":"YYYY-MM-DD","contributionCount":N},...]},...]},
//! "fetched_at":"<RFC 3339>"},...}}`
//!
//! and its parser. Serializing any store and parsing the result yields the
//! store back; the parser rejects everything else.

use crate::cache::{unique_keys, Cache, CachedEntry, EntryV};
use crate::models::{ContributionCalendar, ContributionDay, DayV, Week};
use vstd::prelude::*;
use vstd::string::StrSliceExecFns;

verus! {

/// Why a cache file was refused.
#[derive(Clone, Copy, Debug, PartialEq, Eq)]
pub enum CacheError {
    /// The file exists but is not a serialized store.
    CorruptCache,
}

// ---------------------------------------------------------------------------
// Fixed pieces of the document.
// ---------------------------------------------------------------------------
/// `{"entries":{`
pub open spec fn lit_store_open() -> Seq<char> {
    seq!['{', '"', 'e', 'n', 't', 'r', 'i', 'e', 's', '"', ':', '{']
}

/// `{"calendar":`
pub open spec fn lit_entry_open() -> Seq<char> {
    seq!['{', '"', 'c', 'a', 'l', 'e', 'n', 'd', 'a', 'r', '"', ':']
}

/// `,"fetched_at":`
pub open spec fn lit_entry_mid() -> Seq<char> {
    seq![',', '"', 'f', 'e', 't', 'c', 'h', 'e', 'd', '_', 'a', 't', '"', ':']
}

/// `{"weeks":[`
pub open spec fn lit_calendar_open() -> Seq<char> {
    seq!['{', '"', 'w', 'e', 'e', 'k', 's', '"', ':', '[']
}

/// `{"contributionDays":[`
pub open spec fn lit_week_open() -> Seq<char> {
    seq![
        '{',
        '"',
        'c',
        'o',
        'n',
        't',
        'r',
        'i',
        'b',
        'u',
        't',
        'i',
        'o',
        'n',
        'D',
        'a',
        'y',
        's',
        '"',
        ':',
        '[',
    ]
}

/// `{"date":`
pub open spec fn lit_day_open() -> Seq<char> {
    seq!['{', '"', 'd', 'a', 't', 'e', '"', ':']
}

/// `,"contributionCount":`
pub open spec fn lit_day_mid() -> Seq<char> {
    seq![
        ',',
        '"',
        'c',
        'o',
        'n',
        't',
        'r',
        'i',
        'b',
        'u',
        't',
        'i',
        'o',
        'n',
        'C',
        'o',
        'u',
        'n',
        't',
        '"',
        ':',
    ]
}

// ---------------------------------------------------------------------------
// Serialization, as a mathematical function of the store's image.
// ---------------------------------------------------------------------------
/// A quote or backslash is written behind a backslash; all else verbatim.
pub open spec fn esc_char(c: char) -> Seq<char> {
    if c == '"' || c == '\\' {
        seq!['\\', c]
    } else {
        seq![c]
    }
}

pub open spec fn esc(s: Seq<char>) -> Seq<char>
    decreases s.len(),
{
    if s.len() == 0 {
        Seq::empty()
    } else {
        esc_char(s[0]) + esc(s.skip(1))
    }
}

/// A string value: its escaped characters between quotes.
pub open spec fn ser_string(s: Seq<char>) -> Seq<char> {
    seq!['"'] + esc(s) + seq!['"']
}

pub open spec fn digit_char(n: u32) -> char {
    if n == 0 {
        '0'
    } else if n == 1 {
        '1'
    } else if n == 2 {
        '2'
    } else if n == 3 {
        '3'
    } else if n == 4 {
        '4'
    } else if n == 5 {
        '5'
    } else if n == 6 {
        '6'
    } else if n == 7 {
        '7'
    } else if n == 8 {
        '8'
    } else {
        '9'
    }
}

/// A count in decimal, most significant digit first, no leading zero.
pub open spec fn ser_number(n: u32) -> Seq<char>
    decreases n,
{
    if n < 10 {
        seq![digit_char(n)]
    } else {
        ser_number(n / 10) + seq![digit_char(n % 10)]
    }
}

pub open spec fn ser_day(d: DayV) -> Seq<char> {
    lit_day_open() + ser_string(d.date) + lit_day_mid() + ser_number(d.count) + seq!['}']
}

/// Days joined by commas.
pub open spec fn ser_days(ds: Seq<DayV>) -> Seq<char>
    decreases ds.len(),
{
    if ds.len() == 0 {
        Seq::empty()
    } else if ds.len() == 1 {
        ser_day(ds[0])
    } else {
        ser_day(ds[0]) + seq![','] + ser_days(ds.skip(1))
    }
}

pub open spec fn ser_week(w: Seq<DayV>) -> Seq<char> {
    lit_week_open() + ser_days(w) + seq![']', '}']
}

/// Weeks joined by commas.
pub open spec fn ser_weeks(ws: Seq<Seq<DayV>>) -> Seq<char>
    decreases ws.len(),
{
    if ws.len() == 0 {
        Seq::empty()
    } else if ws.len() == 1 {
        ser_week(ws[0])
    } else {
        ser_week(ws[0]) + seq![','] + ser_weeks(ws.skip(1))
    }
}

pub open spec fn ser_calendar(ws: Seq<Seq<DayV>>) -> Seq<char> {
    lit_calendar_open() + ser_weeks(ws) + seq![']', '}']
}

pub open spec fn ser_entry(e: EntryV) -> Seq<char> {
    lit_entry_open() + ser_calendar(e.weeks) + lit_entry_mid() + ser_string(e.fetched_at)
        + seq!['}']
}

pub open spec fn ser_pair(p: (Seq<char>, EntryV)) -> Seq<char> {
    ser_string(p.0) + seq![':'] + ser_entry(p.1)
}

/// Identity/entry pairs joined by commas.
pub open spec fn ser_pairs(v: Seq<(Seq<char>, EntryV)>) -> Seq<char>
    decreases v.len(),
{
    if v.len() == 0 {
        Seq::empty()
    } else if v.len() == 1 {
        ser_pair(v[0])
    } else {
        ser_pair(v[0]) + seq![','] + ser_pairs(v.skip(1))
    }
}

/// The whole document.
pub open spec fn ser_store(v: Seq<(Seq<char>, EntryV)>) -> Seq<char> {
    lit_store_open() + ser_pairs(v) + seq!['}', '}']
}

// ---------------------------------------------------------------------------
// Parsing, as a mathematical function of the text. Each function yields the
// parsed value and the position after it, or nothing if the text does not
// fit the format.
// ---------------------------------------------------------------------------
/// The literal `lit` stands at position `i`.
pub open spec fn match_at(s: Seq<char>, i: int, lit: Seq<char>) -> Option<int> {
    if 0 <= i && i + lit.len() <= s.len() && s.subrange(i, i + lit.len() as int) == lit {
        Some(i + lit.len() as int)
    } else {
        None
    }
}

pub open spec fn is_digit(c: char) -> bool {
    '0' as u32 <= c as u32 && c as u32 <= '9' as u32
}

pub open spec fn digit_val(c: char) -> int {
    c as u32 - '0' as u32
}

/// Greedy digits, folding left onto `acc`; refuses a value above `u32::MAX`.
pub open spec fn parse_digits(s: Seq<char>, i: int, acc: int) -> Option<(u32, int)>
    decreases s.len() - i,
{
    if !(0 <= i <= s.len()) {
        None
    } else if i == s.len() {
        Some((acc as u32, i))
    } else if is_digit(s[i]) {
        if acc * 10 + digit_val(s[i]) <= 0xffff_ffff {
            parse_digits(s, i + 1, acc * 10 + digit_val(s[i]))
        } else {
            None
        }
    } else {
        Some((acc as u32, i))
    }
}

/// A number: one digit at least, then greedy digits.
pub open spec fn parse_number(s: Seq<char>, i: int) -> Option<(u32, int)> {
    if 0 <= i < s.len() && is_digit(s[i]) {
        parse_digits(s, i, 0)
    } else {
        None
    }
}

/// The inside of a string value, after the opening quote: characters up to
/// an unescaped closing quote, unescaping pairs on the way.
pub open spec fn parse_string_body(s: Seq<char>, i: int, acc: Seq<char>) -> Option<
    (Seq<char>, int),
>
    decreases s.len() - i,
{
    if !(0 <= i < s.len()) {
        None
    } else if s[i] == '"' {
        Some((acc, i + 1))
    } else if s[i] == '\\' {
        if i + 1 < s.len() && (s[i + 1] == '"' || s[i + 1] == '\\') {
            parse_string_body(s, i + 2, acc.push(s[i + 1]))
        } else {
            None
        }
    } else {
        parse_string_body(s, i + 1, acc.push(s[i]))
    }
}

pub open spec fn parse_string(s: Seq<char>, i: int) -> Option<(Seq<char>, int)> {
    if 0 <= i < s.len() && s[i] == '"' {
        parse_string_body(s, i + 1, Seq::empty())
    } else {
        None
    }
}

pub open spec fn parse_day(s: Seq<char>, i: int) -> Option<(DayV, int)> {
    match match_at(s, i, lit_day_open()) {
        None => None,
        Some(j1) => match parse_string(s, j1) {
            None => None,
            Some((date, j2)) => match match_at(s, j2, lit_day_mid()) {
                None => None,
                Some(j3) => match parse_number(s, j3) {
                    None => None,
                    Some((n, j4)) => match match_at(s, j4, seq!['}']) {
                        None => None,
                        Some(j5) => Some((DayV { date, count: n }, j5)),
                    },
                },
            },
        },
    }
}

/// A day list together with its closing `]`.
pub open spec fn parse_days(s: Seq<char>, i: int, acc: Seq<DayV>) -> Option<(Seq<DayV>, int)>
    decreases s.len() - i,
{
    if !(0 <= i < s.len()) {
        None
    } else if s[i] == ']' && acc.len() == 0 {
        Some((acc, i + 1))
    } else {
        match parse_day(s, i) {
            None => None,
            Some((d, j)) => if !(i < j < s.len()) {
                None
            } else if s[j] == ',' {
                parse_days(s, j + 1, acc.push(d))
            } else if s[j] == ']' {
                Some((acc.push(d), j + 1))
            } else {
                None
            },
        }
    }
}

pub open spec fn parse_week(s: Seq<char>, i: int) -> Option<(Seq<DayV>, int)> {
    match match_at(s, i, lit_week_open()) {
        None => None,
        Some(j1) => match parse_days(s, j1, Seq::empty()) {
            None => None,
            Some((ds, j2)) => match match_at(s, j2, seq!['}']) {
                None => None,
                Some(j3) => Some((ds, j3)),
            },
        },
    }
}

/// A week list together with its closing `]`.
pub open spec fn parse_weeks(s: Seq<char>, i: int, acc: Seq<Seq<DayV>>) -> Option<
    (Seq<Seq<DayV>>, int),
>
    decreases s.len() - i,
{
    if !(0 <= i < s.len()) {
        None
    } else if s[i] == ']' && acc.len() == 0 {
        Some((acc, i + 1))
    } else {
        match parse_week(s, i) {
            None => None,
            Some((w, j)) => if !(i < j < s.len()) {
                None
            } else if s[j] == ',' {
                parse_weeks(s, j + 1, acc.push(w))
            } else if s[j] == ']' {
                Some((acc.push(w), j + 1))
            } else {
                None
            },
        }
    }
}

pub open spec fn parse_calendar(s: Seq<char>, i: int) -> Option<(Seq<Seq<DayV>>, int)> {
    match match_at(s, i, lit_calendar_open()) {
        None => None,
        Some(j1) => match parse_weeks(s, j1, Seq::empty()) {
            None => None,
            Some((ws, j2)) => match match_at(s, j2, seq!['}']) {
                None => None,
                Some(j3) => Some((ws, j3)),
            },
        },
    }
}

pub open spec fn parse_entry(s: Seq<char>, i: int) -> Option<(EntryV, int)> {
    match match_at(s, i, lit_entry_open()) {
        None => None,
        Some(j1) => match parse_calendar(s, j1) {
            None => None,
            Some((ws, j2)) => match match_at(s, j2, lit_entry_mid()) {
                None => None,
                Some(j3) => match parse_string(s, j3) {
                    None => None,
                    Some((ts, j4)) => match match_at(s, j4, seq!['}']) {
                        None => None,
                        Some(j5) => Some((EntryV { weeks: ws, fetched_at: ts }, j5)),
                    },
                },
            },
        },
    }
}

/// The identity/entry pairs together with their closing `}`.
pub open spec fn parse_pairs(s: Seq<char>, i: int, acc: Seq<(Seq<char>, EntryV)>) -> Option<
    (Seq<(Seq<char>, EntryV)>, int),
>
    decreases s.len() - i,
{
    if !(0 <= i < s.len()) {
        None
    } else if s[i] == '}' && acc.len() == 0 {
        Some((acc, i + 1))
    } else {
        match parse_string(s, i) {
            None => None,
            Some((k, j1)) => match match_at(s, j1, seq![':']) {
                None => None,
                Some(j2) => match parse_entry(s, j2) {
                    None => None,
                    Some((e, j3)) => if !(i < j3 < s.len()) {
                        None
                    } else if s[j3] == ',' {
                        parse_pairs(s, j3 + 1, acc.push((k, e)))
                    } else if s[j3] == '}' {
                        Some((acc.push((k, e)), j3 + 1))
                    } else {
                        None
                    },
                },
            },
        }
    }
}

/// The whole document: the store's pairs, with nothing left over.
pub open spec fn spec_load(s: Seq<char>) -> Option<Seq<(Seq<char>, EntryV)>> {
    match match_at(s, 0, lit_store_open()) {
        None => None,
        Some(j1) => match parse_pairs(s, j1, Seq::empty()) {
            None => None,
            Some((v, j2)) => match match_at(s, j2, seq!['}']) {
                None => None,
                Some(j3) => if j3 == s.len() {
                    Some(v)
                } else {
                    None
                },
            },
        },
    }
}

// ---------------------------------------------------------------------------
// Round trip: parsing a serialized store yields the store back.
// ---------------------------------------------------------------------------
/// A region of `s` equal to `x + y` splits into a region equal to `x` and
/// one equal to `y`.
proof fn lemma_region_split(s: Seq<char>, i: int, x: Seq<char>, y: Seq<char>)
    requires
        0 <= i,
        i + x.len() + y.len() <= s.len(),
        s.subrange(i, i + x.len() + y.len()) == x + y,
    ensures
        s.subrange(i, i + x.len() as int) == x,
        s.subrange(i + x.len() as int, i + x.len() + y.len()) == y,
{
    let xy = s.subrange(i, i + x.len() + y.len());
    assert forall|k: int| 0 <= k < x.len() implies s[i + k] == x[k] by {
        assert(xy[k] == s[i + k]);
        assert(xy[k] == (x + y)[k]);
    }
    assert forall|k: int| 0 <= k < y.len() implies s[i + x.len() + k] == y[k] by {
        assert(xy[x.len() + k] == s[i + x.len() + k]);
        assert(xy[x.len() + k] == (x + y)[x.len() + k]);
    }
    assert(s.subrange(i, i + x.len() as int) =~= x);
    assert(s.subrange(i + x.len() as int, i + x.len() + y.len()) =~= y);
}

/// Unescaping an escaped string yields the string back.
proof fn lemma_rt_string_body(s: Seq<char>, i: int, v: Seq<char>, acc: Seq<char>)
    requires
        0 <= i,
        i + esc(v).len() + 1 <= s.len(),
        s.subrange(i, i + esc(v).len() as int) == esc(v),
        s[i + esc(v).len() as int] == '"',
    ensures
        parse_string_body(s, i, acc) == Some((acc + v, i + esc(v).len() + 1)),
    decreases v.len(),
{
    if v.len() == 0 {
        assert(esc(v).len() == 0);
        assert(acc + v =~= acc);
    } else {
        let c = v[0];
        let rest = v.skip(1);
        assert(esc(v) == esc_char(c) + esc(rest));
        lemma_region_split(s, i, esc_char(c), esc(rest));
        if c == '"' || c == '\\' {
            assert(esc_char(c) == seq!['\\', c]);
            assert(s[i] == '\\') by {
                assert(s.subrange(i, i + 2)[0] == s[i]);
            }
            assert(s[i + 1] == c) by {
                assert(s.subrange(i, i + 2)[1] == s[i + 1]);
            }
            assert(s.subrange(i + 2, i + 2 + esc(rest).len()) == esc(rest));
            lemma_rt_string_body(s, i + 2, rest, acc.push(c));
            assert(acc.push(c) + rest =~= acc + v);
        } else {
            assert(esc_char(c) == seq![c]);
            assert(s[i] == c) by {
                assert(s.subrange(i, i + 1)[0] == s[i]);
            }
            lemma_rt_string_body(s, i + 1, rest, acc.push(c));
            assert(acc.push(c) + rest =~= acc + v);
        }
    }
}

/// Parsing a serialized string value yields the string back.
proof fn lemma_rt_string(s: Seq<char>, i: int, v: Seq<char>)
    requires
        0 <= i,
        i + ser_string(v).len() <= s.len(),
        s.subrange(i, i + ser_string(v).len() as int) == ser_string(v),
    ensures
        parse_string(s, i) == Some((v, i + ser_string(v).len())),
{
    assert(ser_string(v) =~= seq!['"'] + (esc(v) + seq!['"']));
    lemma_region_split(s, i, seq!['"'], esc(v) + seq!['"']);
    assert(s[i] == '"') by {
        assert(s.subrange(i, i + 1)[0] == s[i]);
    }
    lemma_region_split(s, i + 1, esc(v), seq!['"']);
    assert(s[i + 1 + esc(v).len()] == '"') by {
        assert(s.subrange(i + 1 + esc(v).len() as int, i + 1 + esc(v).len() + 1)[0] == s[i + 1
            + esc(v).len()]);
    }
    lemma_rt_string_body(s, i + 1, v, Seq::empty());
    assert(Seq::empty() + v =~= v);
}

/// Ten to the `k`.
pub open spec fn pow10(k: nat) -> int
    decreases k,
{
    if k == 0 {
        1
    } else {
        10 * pow10((k - 1) as nat)
    }
}

proof fn lemma_pow10_pos(k: nat)
    ensures
        pow10(k) >= 1,
        k >= 1 ==> pow10(k) >= 10,
    decreases k,
{
    if k > 0 {
        lemma_pow10_pos((k - 1) as nat);
    }
}

pub open spec fn all_digits(ds: Seq<char>) -> bool {
    forall|k: int| 0 <= k < ds.len() ==> is_digit(ds[k])
}

/// The number a digit sequence denotes, most significant digit first.
pub open spec fn digits_val(ds: Seq<char>) -> int
    decreases ds.len(),
{
    if ds.len() == 0 {
        0
    } else {
        digits_val(ds.drop_last()) * 10 + digit_val(ds.last())
    }
}

proof fn lemma_digits_val_nonneg(ds: Seq<char>)
    requires
        all_digits(ds),
    ensures
        digits_val(ds) >= 0,
    decreases ds.len(),
{
    if ds.len() > 0 {
        assert(all_digits(ds.drop_last())) by {
            assert forall|k: int| 0 <= k < ds.drop_last().len() implies is_digit(
                ds.drop_last()[k],
            ) by {
                assert(ds.drop_last()[k] == ds[k]);
            }
        }
        lemma_digits_val_nonneg(ds.drop_last());
        assert(is_digit(ds.last()));
    }
}

/// Peeling the most significant digit off the front.
proof fn lemma_digits_val_left(ds: Seq<char>)
    requires
        ds.len() > 0,
    ensures
        digits_val(ds) == digit_val(ds[0]) * pow10((ds.len() - 1) as nat) + digits_val(ds.skip(1)),
    decreases ds.len(),
{
    if ds.len() == 1 {
        assert(ds.drop_last().len() == 0);
        assert(digits_val(ds.drop_last()) == 0);
        assert(ds.skip(1).len() == 0);
        assert(digits_val(ds.skip(1)) == 0);
        assert(ds.last() == ds[0]);
        assert(digits_val(ds) == digits_val(ds.drop_last()) * 10 + digit_val(ds.last()));
    } else {
        let dl = ds.drop_last();
        lemma_digits_val_left(dl);
        assert(dl[0] == ds[0]);
        assert(ds.skip(1).drop_last() =~= dl.skip(1));
        assert(ds.skip(1).last() == ds.last());
        assert(digits_val(ds.skip(1)) == digits_val(ds.skip(1).drop_last()) * 10 + digit_val(
            ds.skip(1).last(),
        ));
        assert(digits_val(ds.skip(1)) == digits_val(dl.skip(1)) * 10 + digit_val(ds.last()));
        let d0 = digit_val(ds[0]);
        let p = pow10((ds.len() - 2) as nat);
        assert(pow10((ds.len() - 1) as nat) == 10 * p);
        assert(digits_val(dl) == d0 * p + digits_val(dl.skip(1)));
        assert(digits_val(ds) == digits_val(dl) * 10 + digit_val(ds.last()));
        assert((d0 * p + digits_val(dl.skip(1))) * 10 == d0 * (10 * p) + digits_val(dl.skip(1))
            * 10) by (nonlinear_arith);
        assert(digits_val(ds) == d0 * (10 * p) + (digits_val(dl.skip(1)) * 10 + digit_val(
            ds.last(),
        )));
    }
}

/// Left-folding over a digit region yields the denoted number scaled onto
/// the accumulator, and stops exactly at the region's end.
proof fn lemma_rt_digits(s: Seq<char>, i: int, ds: Seq<char>, acc: int)
    requires
        0 <= i,
        i + ds.len() <= s.len(),
        s.subrange(i, i + ds.len() as int) == ds,
        all_digits(ds),
        i + ds.len() == s.len() || !is_digit(s[i + ds.len()]),
        0 <= acc,
        acc * pow10(ds.len() as nat) + digits_val(ds) <= 0xffff_ffff,
    ensures
        parse_digits(s, i, acc) == Some(
            ((acc * pow10(ds.len() as nat) + digits_val(ds)) as u32, i + ds.len()),
        ),
    decreases ds.len(),
{
    if ds.len() == 0 {
        assert(pow10(0) == 1);
    } else {
        let d0 = digit_val(ds[0]);
        assert(s[i] == ds[0]) by {
            assert(s.subrange(i, i + ds.len() as int)[0] == s[i]);
        }
        assert(is_digit(ds[0]));
        lemma_digits_val_left(ds);
        assert(all_digits(ds.skip(1))) by {
            assert forall|k: int| 0 <= k < ds.skip(1).len() implies is_digit(ds.skip(1)[k]) by {
                assert(ds.skip(1)[k] == ds[k + 1]);
            }
        }
        lemma_digits_val_nonneg(ds.skip(1));
        let p = pow10((ds.len() - 1) as nat);
        lemma_pow10_pos((ds.len() - 1) as nat);
        lemma_pow10_pos(ds.len() as nat);
        assert(pow10(ds.len() as nat) == 10 * p);
        let acc1 = acc * 10 + d0;
        assert((acc * 10 + d0) * p + digits_val(ds.skip(1)) == acc * (10 * p) + (d0 * p
            + digits_val(ds.skip(1)))) by (nonlinear_arith);
        assert(acc1 * p + digits_val(ds.skip(1)) == acc * pow10(ds.len() as nat) + digits_val(ds));
        assert(acc * 10 + d0 <= acc * (10 * p) + (d0 * p + digits_val(ds.skip(1)))) by (nonlinear_arith)
            requires
                p >= 1,
                acc >= 0,
                d0 >= 0,
                digits_val(ds.skip(1)) >= 0,
        ;
        assert(ds =~= seq![ds[0]] + ds.skip(1));
        lemma_region_split(s, i, seq![ds[0]], ds.skip(1));
        lemma_rt_digits(s, i + 1, ds.skip(1), acc1);
    }
}

/// A serialized count is all digits and denotes the count.
proof fn lemma_ser_number(n: u32)
    ensures
        ser_number(n).len() >= 1,
        all_digits(ser_number(n)),
        digits_val(ser_number(n)) == n,
    decreases n,
{
    assert(digit_val(digit_char(n % 10)) == n % 10);
    if n < 10 {
        assert(ser_number(n) == seq![digit_char(n)]);
        assert(ser_number(n).drop_last().len() == 0);
        assert(digits_val(ser_number(n).drop_last()) == 0);
        assert(ser_number(n).last() == digit_char(n));
        assert(digit_val(digit_char(n)) == n);
        assert(is_digit(digit_char(n)));
        assert(digits_val(ser_number(n)) == digits_val(ser_number(n).drop_last()) * 10
            + digit_val(ser_number(n).last()));
    } else {
        lemma_ser_number(n / 10);
        let a = ser_number(n / 10);
        assert(ser_number(n) == a + seq![digit_char(n % 10)]);
        assert(ser_number(n).drop_last() =~= a);
        assert(ser_number(n).last() == digit_char(n % 10));
        assert(digits_val(ser_number(n)) == digits_val(ser_number(n).drop_last()) * 10
            + digit_val(ser_number(n).last()));
        assert(digits_val(ser_number(n)) == digits_val(a) * 10 + n % 10);
        assert((n / 10) * 10 + n % 10 == n);
        assert(all_digits(ser_number(n))) by {
            assert forall|k: int| 0 <= k < ser_number(n).len() implies is_digit(
                ser_number(n)[k],
            ) by {
                if k < a.len() {
                    assert(ser_number(n)[k] == a[k]);
                } else {
                    assert(ser_number(n)[k] == digit_char(n % 10));
                    assert(is_digit(digit_char(n % 10)));
                }
            }
        }
    }
}

/// Parsing a serialized count yields the count back.
proof fn lemma_rt_number(s: Seq<char>, i: int, n: u32)
    requires
        0 <= i,
        i + ser_number(n).len() <= s.len(),
        s.subrange(i, i + ser_number(n).len() as int) == ser_number(n),
        i + ser_number(n).len() == s.len() || !is_digit(s[i + ser_number(n).len()]),
    ensures
        parse_number(s, i) == Some((n, i + ser_number(n).len())),
{
    lemma_ser_number(n);
    assert(s[i] == ser_number(n)[0]) by {
        assert(s.subrange(i, i + ser_number(n).len() as int)[0] == s[i]);
    }
    assert(is_digit(s[i]));
    lemma_pow10_pos(ser_number(n).len() as nat);
    lemma_rt_digits(s, i, ser_number(n), 0);
}

/// One position of a matched region.
proof fn lemma_region_char(s: Seq<char>, i: int, x: Seq<char>, k: int)
    requires
        0 <= i,
        i + x.len() <= s.len(),
        s.subrange(i, i + x.len() as int) == x,
        0 <= k < x.len(),
    ensures
        s[i + k] == x[k],
{
    assert(s.subrange(i, i + x.len() as int)[k] == s[i + k]);
}

/// Parsing a serialized day yields the day back.
proof fn lemma_rt_day(s: Seq<char>, i: int, d: DayV)
    requires
        0 <= i,
        i + ser_day(d).len() <= s.len(),
        s.subrange(i, i + ser_day(d).len() as int) == ser_day(d),
    ensures
        parse_day(s, i) == Some((d, i + ser_day(d).len())),
{
    let l1 = lit_day_open();
    let sv = ser_string(d.date);
    let l2 = lit_day_mid();
    let nv = ser_number(d.count);
    let b = seq!['}'];
    assert(ser_day(d) =~= l1 + (sv + (l2 + (nv + b))));
    lemma_region_split(s, i, l1, sv + (l2 + (nv + b)));
    let j1 = i + l1.len() as int;
    lemma_region_split(s, j1, sv, l2 + (nv + b));
    let j2 = j1 + sv.len() as int;
    lemma_region_split(s, j2, l2, nv + b);
    let j3 = j2 + l2.len() as int;
    lemma_region_split(s, j3, nv, b);
    let j4 = j3 + nv.len() as int;
    assert(match_at(s, i, lit_day_open()) == Some(j1));
    lemma_rt_string(s, j1, d.date);
    assert(match_at(s, j2, lit_day_mid()) == Some(j3));
    lemma_region_char(s, j4, b, 0);
    assert(s[j4] == '}');
    assert(!is_digit('}'));
    lemma_rt_number(s, j3, d.count);
    assert(match_at(s, j4, seq!['}']) == Some(j4 + 1)) by {
        assert(s.subrange(j4, j4 + 1) =~= seq!['}']);
    }
    assert((DayV { date: d.date, count: d.count }) == d);
}

/// Parsing a serialized day list (with its closing bracket) appends the
/// days onto the accumulator.
proof fn lemma_rt_days(s: Seq<char>, i: int, ds: Seq<DayV>, acc: Seq<DayV>)
    requires
        0 <= i,
        i + ser_days(ds).len() + 1 <= s.len(),
        s.subrange(i, i + ser_days(ds).len() as int) == ser_days(ds),
        s[i + ser_days(ds).len()] == ']',
        ds.len() > 0 || acc.len() == 0,
    ensures
        parse_days(s, i, acc) == Some((acc + ds, i + ser_days(ds).len() + 1)),
    decreases ds.len(),
{
    if ds.len() == 0 {
        assert(ser_days(ds).len() == 0);
        assert(acc + ds =~= acc);
    } else if ds.len() == 1 {
        assert(ser_days(ds) == ser_day(ds[0]));
        lemma_rt_day(s, i, ds[0]);
        let j = i + ser_day(ds[0]).len() as int;
        assert(ser_day(ds[0])[0] == '{') by {
            assert(ser_day(ds[0]) == lit_day_open() + ser_string(ds[0].date) + lit_day_mid()
                + ser_number(ds[0].count) + seq!['}']);
        }
        lemma_region_char(s, i, ser_days(ds), 0);
        assert(s[i] == '{');
        assert(s[j] == ']');
        assert(acc.push(ds[0]) =~= acc + ds);
    } else {
        let head = ser_day(ds[0]);
        let rest = ser_days(ds.skip(1));
        assert(ser_days(ds) =~= head + (seq![','] + rest));
        lemma_region_split(s, i, head, seq![','] + rest);
        let j = i + head.len() as int;
        lemma_region_split(s, j, seq![','], rest);
        lemma_rt_day(s, i, ds[0]);
        assert(ser_day(ds[0])[0] == '{') by {
            assert(ser_day(ds[0]) == lit_day_open() + ser_string(ds[0].date) + lit_day_mid()
                + ser_number(ds[0].count) + seq!['}']);
        }
        lemma_region_char(s, i, head, 0);
        assert(s[i] == '{');
        lemma_region_char(s, j, seq![','], 0);
        assert(s[j] == ',');
        lemma_rt_days(s, j + 1, ds.skip(1), acc.push(ds[0]));
        assert(acc.push(ds[0]) + ds.skip(1) =~= acc + ds);
    }
}

/// Parsing a serialized week yields the week back.
proof fn lemma_rt_week(s: Seq<char>, i: int, w: Seq<DayV>)
    requires
        0 <= i,
        i + ser_week(w).len() <= s.len(),
        s.subrange(i, i + ser_week(w).len() as int) == ser_week(w),
    ensures
        parse_week(s, i) == Some((w, i + ser_week(w).len())),
{
    let l = lit_week_open();
    let dv = ser_days(w);
    assert(ser_week(w) =~= l + (dv + (seq![']'] + seq!['}'])));
    lemma_region_split(s, i, l, dv + (seq![']'] + seq!['}']));
    let j1 = i + l.len() as int;
    lemma_region_split(s, j1, dv, seq![']'] + seq!['}']);
    let j2 = j1 + dv.len() as int;
    lemma_region_split(s, j2, seq![']'], seq!['}']);
    assert(match_at(s, i, lit_week_open()) == Some(j1));
    lemma_region_char(s, j2, seq![']'], 0);
    assert(s[j2] == ']');
    lemma_rt_days(s, j1, w, Seq::empty());
    assert(Seq::empty() + w =~= w);
    lemma_region_char(s, j2 + 1, seq!['}'], 0);
    assert(match_at(s, j2 + 1, seq!['}']) == Some(j2 + 2)) by {
        assert(s.subrange(j2 + 1, j2 + 2) =~= seq!['}']);
    }
}

/// Parsing a serialized week list (with its closing bracket) appends the
/// weeks onto the accumulator.
proof fn lemma_rt_weeks(s: Seq<char>, i: int, ws: Seq<Seq<DayV>>, acc: Seq<Seq<DayV>>)
    requires
        0 <= i,
        i + ser_weeks(ws).len() + 1 <= s.len(),
        s.subrange(i, i + ser_weeks(ws).len() as int) == ser_weeks(ws),
        s[i + ser_weeks(ws).len()] == ']',
        ws.len() > 0 || acc.len() == 0,
    ensures
        parse_weeks(s, i, acc) == Some((acc + ws, i + ser_weeks(ws).len() + 1)),
    decreases ws.len(),
{
    if ws.len() == 0 {
        assert(ser_weeks(ws).len() == 0);
        assert(acc + ws =~= acc);
    } else if ws.len() == 1 {
        assert(ser_weeks(ws) == ser_week(ws[0]));
        lemma_rt_week(s, i, ws[0]);
        let j = i + ser_week(ws[0]).len() as int;
        assert(ser_week(ws[0])[0] == '{') by {
            assert(ser_week(ws[0]) == lit_week_open() + ser_days(ws[0]) + seq![']', '}']);
        }
        lemma_region_char(s, i, ser_weeks(ws), 0);
        assert(s[i] == '{');
        assert(s[j] == ']');
        assert(acc.push(ws[0]) =~= acc + ws);
    } else {
        let head = ser_week(ws[0]);
        let rest = ser_weeks(ws.skip(1));
        assert(ser_weeks(ws) =~= head + (seq![','] + rest));
        lemma_region_split(s, i, head, seq![','] + rest);
        let j = i + head.len() as int;
        lemma_region_split(s, j, seq![','], rest);
        lemma_rt_week(s, i, ws[0]);
        assert(ser_week(ws[0])[0] == '{') by {
            assert(ser_week(ws[0]) == lit_week_open() + ser_days(ws[0]) + seq![']', '}']);
        }
        lemma_region_char(s, i, head, 0);
        assert(s[i] == '{');
        lemma_region_char(s, j, seq![','], 0);
        assert(s[j] == ',');
        lemma_rt_weeks(s, j + 1, ws.skip(1), acc.push(ws[0]));
        assert(acc.push(ws[0]) + ws.skip(1) =~= acc + ws);
    }
}

/// Parsing a serialized calendar yields the weeks back.
proof fn lemma_rt_calendar(s: Seq<char>, i: int, ws: Seq<Seq<DayV>>)
    requires
        0 <= i,
        i + ser_calendar(ws).len() <= s.len(),
        s.subrange(i, i + ser_calendar(ws).len() as int) == ser_calendar(ws),
    ensures
        parse_calendar(s, i) == Some((ws, i + ser_calendar(ws).len())),
{
    let l = lit_calendar_open();
    let wv = ser_weeks(ws);
    assert(ser_calendar(ws) =~= l + (wv + (seq![']'] + seq!['}'])));
    lemma_region_split(s, i, l, wv + (seq![']'] + seq!['}']));
    let j1 = i + l.len() as int;
    lemma_region_split(s, j1, wv, seq![']'] + seq!['}']);
    let j2 = j1 + wv.len() as int;
    lemma_region_split(s, j2, seq![']'], seq!['}']);
    assert(match_at(s, i, lit_calendar_open()) == Some(j1));
    lemma_region_char(s, j2, seq![']'], 0);
    assert(s[j2] == ']');
    lemma_rt_weeks(s, j1, ws, Seq::empty());
    assert(Seq::empty() + ws =~= ws);
    lemma_region_char(s, j2 + 1, seq!['}'], 0);
    assert(match_at(s, j2 + 1, seq!['}']) == Some(j2 + 2)) by {
        assert(s.subrange(j2 + 1, j2 + 2) =~= seq!['}']);
    }
}

/// Parsing a serialized entry yields the entry back.
proof fn lemma_rt_entry(s: Seq<char>, i: int, e: EntryV)
    requires
        0 <= i,
        i + ser_entry(e).len() <= s.len(),
        s.subrange(i, i + ser_entry(e).len() as int) == ser_entry(e),
    ensures
        parse_entry(s, i) == Some((e, i + ser_entry(e).len())),
{
    let l1 = lit_entry_open();
    let cv = ser_calendar(e.weeks);
    let l2 = lit_entry_mid();
    let sv = ser_string(e.fetched_at);
    let b = seq!['}'];
    assert(ser_entry(e) =~= l1 + (cv + (l2 + (sv + b))));
    lemma_region_split(s, i, l1, cv + (l2 + (sv + b)));
    let j1 = i + l1.len() as int;
    lemma_region_split(s, j1, cv, l2 + (sv + b));
    let j2 = j1 + cv.len() as int;
    lemma_region_split(s, j2, l2, sv + b);
    let j3 = j2 + l2.len() as int;
    lemma_region_split(s, j3, sv, b);
    let j4 = j3 + sv.len() as int;
    assert(match_at(s, i, lit_entry_open()) == Some(j1));
    lemma_rt_calendar(s, j1, e.weeks);
    assert(match_at(s, j2, lit_entry_mid()) == Some(j3));
    lemma_rt_string(s, j3, e.fetched_at);
    lemma_region_char(s, j4, b, 0);
    assert(match_at(s, j4, seq!['}']) == Some(j4 + 1)) by {
        assert(s.subrange(j4, j4 + 1) =~= seq!['}']);
    }
    assert((EntryV { weeks: e.weeks, fetched_at: e.fetched_at }) == e);
}

/// Parsing serialized identity/entry pairs (with their closing brace)
/// appends the pairs onto the accumulator.
#[verifier::rlimit(100)]
proof fn lemma_rt_pairs(
    s: Seq<char>,
    i: int,
    v: Seq<(Seq<char>, EntryV)>,
    acc: Seq<(Seq<char>, EntryV)>,
)
    requires
        0 <= i,
        i + ser_pairs(v).len() + 1 <= s.len(),
        s.subrange(i, i + ser_pairs(v).len() as int) == ser_pairs(v),
        s[i + ser_pairs(v).len()] == '}',
        v.len() > 0 || acc.len() == 0,
    ensures
        parse_pairs(s, i, acc) == Some((acc + v, i + ser_pairs(v).len() + 1)),
    decreases v.len(),
{
    if v.len() == 0 {
        assert(ser_pairs(v).len() == 0);
        assert(acc + v =~= acc);
    } else {
        let kv = ser_string(v[0].0);
        let ev = ser_entry(v[0].1);
        assert(ser_pair(v[0]) == kv + seq![':'] + ev);
        assert(ser_pair(v[0])[0] == '"') by {
            assert(kv == seq!['"'] + esc(v[0].0) + seq!['"']);
            assert(kv[0] == '"');
            assert((kv + seq![':'] + ev)[0] == kv[0]);
        }
        if v.len() == 1 {
            assert(ser_pairs(v) == ser_pair(v[0]));
            assert(ser_pairs(v) =~= kv + (seq![':'] + ev));
            lemma_region_split(s, i, kv, seq![':'] + ev);
            let j1 = i + kv.len() as int;
            lemma_region_split(s, j1, seq![':'], ev);
            let j2 = j1 + 1;
            lemma_rt_string(s, i, v[0].0);
            lemma_region_char(s, i, ser_pairs(v), 0);
            assert(s[i] == '"');
            lemma_region_char(s, j1, seq![':'], 0);
            assert(match_at(s, j1, seq![':']) == Some(j2)) by {
                assert(s.subrange(j1, j1 + 1) =~= seq![':']);
            }
            lemma_rt_entry(s, j2, v[0].1);
            let j3 = j2 + ev.len() as int;
            assert(s[j3] == '}');
            assert(acc.push((v[0].0, v[0].1)) =~= acc + v);
        } else {
            let head = ser_pair(v[0]);
            let rest = ser_pairs(v.skip(1));
            assert(ser_pairs(v) =~= head + (seq![','] + rest));
            lemma_region_split(s, i, head, seq![','] + rest);
            let jh = i + head.len() as int;
            lemma_region_split(s, jh, seq![','], rest);
            assert(head =~= kv + (seq![':'] + ev));
            lemma_region_split(s, i, kv, seq![':'] + ev);
            let j1 = i + kv.len() as int;
            lemma_region_split(s, j1, seq![':'], ev);
            let j2 = j1 + 1;
            lemma_rt_string(s, i, v[0].0);
            lemma_region_char(s, i, head, 0);
            assert(s[i] == '"');
            lemma_region_char(s, j1, seq![':'], 0);
            assert(match_at(s, j1, seq![':']) == Some(j2)) by {
                assert(s.subrange(j1, j1 + 1) =~= seq![':']);
            }
            lemma_rt_entry(s, j2, v[0].1);
            let j3 = j2 + ev.len() as int;
            assert(j3 == jh);
            lemma_region_char(s, jh, seq![','], 0);
            assert(s[jh] == ',');
            lemma_rt_pairs(s, jh + 1, v.skip(1), acc.push((v[0].0, v[0].1)));
            assert(acc.push((v[0].0, v[0].1)) + v.skip(1) =~= acc + v);
        }
    }
}

/// The round trip: parsing a serialized store yields exactly the store's
/// pairs, in order, timestamps included.
pub proof fn lemma_store_round_trip(v: Seq<(Seq<char>, EntryV)>)
    ensures
        spec_load(ser_store(v)) == Some(v),
{
    let s = ser_store(v);
    let l = lit_store_open();
    let pv = ser_pairs(v);
    assert(s =~= l + (pv + (seq!['}'] + seq!['}'])));
    assert(s.subrange(0, s.len() as int) =~= s);
    lemma_region_split(s, 0, l, pv + (seq!['}'] + seq!['}']));
    let j1 = l.len() as int;
    lemma_region_split(s, j1, pv, seq!['}'] + seq!['}']);
    let j2 = j1 + pv.len() as int;
    lemma_region_split(s, j2, seq!['}'], seq!['}']);
    assert(match_at(s, 0, lit_store_open()) == Some(j1));
    lemma_region_char(s, j2, seq!['}'], 0);
    assert(s[j2] == '}');
    lemma_rt_pairs(s, j1, v, Seq::empty());
    assert(Seq::empty() + v =~= v);
    lemma_region_char(s, j2 + 1, seq!['}'], 0);
    assert(match_at(s, j2 + 1, seq!['}']) == Some(j2 + 2)) by {
        assert(s.subrange(j2 + 1, j2 + 2) =~= seq!['}']);
    }
    assert(j2 + 2 == s.len());
}

/// The same, said of a store: loading what a well-formed store saves
/// yields the store back, entries, order and timestamps included.
pub proof fn lemma_save_then_load(c: Cache)
    requires
        c.wf(),
    ensures
        spec_load(ser_store(c@)) == Some(c@),
        unique_keys(c@),
{
    lemma_store_round_trip(c@);
}

// ---------------------------------------------------------------------------
// The serializer.
// ---------------------------------------------------------------------------
/// Relies on `str::chars`: the characters of the string, in order.
#[verifier::external_body]
pub(crate) fn str_chars(s: &str) -> (v: Vec<char>)
    ensures
        v@ == s@,
{
    s.chars().collect()
}

/// Relies on `String`'s `FromIterator<char>`: the string of exactly these
/// characters, in order.
#[verifier::external_body]
pub(crate) fn string_from_chars(v: &Vec<char>) -> (r: String)
    ensures
        r@ == v@,
{
    v.iter().collect()
}

proof fn lemma_esc_snoc(a: Seq<char>, c: char)
    ensures
        esc(a.push(c)) == esc(a) + esc_char(c),
    decreases a.len(),
{
    if a.len() == 0 {
        assert(a.push(c) =~= seq![c]);
        assert(esc(seq![c]) == esc_char(c) + esc(seq![c].skip(1)));
        assert(seq![c].skip(1).len() == 0);
        assert(esc(seq![c].skip(1)) == Seq::<char>::empty());
        assert(esc_char(c) + Seq::<char>::empty() =~= esc_char(c));
        assert(esc(a) + esc_char(c) =~= esc_char(c));
    } else {
        assert(a.push(c).len() == a.len() + 1);
        assert(a.push(c)[0] == a[0]);
        assert(a.push(c).skip(1) =~= a.skip(1).push(c));
        lemma_esc_snoc(a.skip(1), c);
        assert(esc(a.push(c)) == esc_char(a[0]) + (esc(a.skip(1)) + esc_char(c)));
        assert(esc_char(a[0]) + (esc(a.skip(1)) + esc_char(c)) =~= (esc_char(a[0]) + esc(
            a.skip(1),
        )) + esc_char(c));
    }
}

proof fn lemma_ser_days_snoc(a: Seq<DayV>, d: DayV)
    ensures
        ser_days(a.push(d)) == if a.len() == 0 {
            ser_day(d)
        } else {
            ser_days(a) + seq![','] + ser_day(d)
        },
    decreases a.len(),
{
    let ap = a.push(d);
    if a.len() == 0 {
        assert(ap.len() == 1);
        assert(ap[0] == d);
    } else {
        assert(ap[0] == a[0]);
        assert(ap.skip(1) =~= a.skip(1).push(d));
        lemma_ser_days_snoc(a.skip(1), d);
        if a.len() == 1 {
            assert(ser_days(ap) == ser_day(ap[0]) + seq![','] + ser_days(ap.skip(1)));
            assert(ser_days(ap.skip(1)) == ser_day(d));
            assert(ser_days(a) == ser_day(a[0]));
        } else {
            assert(ser_days(ap) == ser_day(ap[0]) + seq![','] + ser_days(ap.skip(1)));
            assert(ser_days(ap.skip(1)) == ser_days(a.skip(1)) + seq![','] + ser_day(d));
            assert(ser_days(a) == ser_day(a[0]) + seq![','] + ser_days(a.skip(1)));
            assert(ser_day(a[0]) + seq![','] + (ser_days(a.skip(1)) + seq![','] + ser_day(d))
                =~= (ser_day(a[0]) + seq![','] + ser_days(a.skip(1))) + seq![','] + ser_day(d));
        }
    }
}

proof fn lemma_ser_weeks_snoc(a: Seq<Seq<DayV>>, w: Seq<DayV>)
    ensures
        ser_weeks(a.push(w)) == if a.len() == 0 {
            ser_week(w)
        } else {
            ser_weeks(a) + seq![','] + ser_week(w)
        },
    decreases a.len(),
{
    let ap = a.push(w);
    if a.len() == 0 {
        assert(ap.len() == 1);
        assert(ap[0] == w);
    } else {
        assert(ap[0] == a[0]);
        assert(ap.skip(1) =~= a.skip(1).push(w));
        lemma_ser_weeks_snoc(a.skip(1), w);
        if a.len() == 1 {
            assert(ser_weeks(ap) == ser_week(ap[0]) + seq![','] + ser_weeks(ap.skip(1)));
            assert(ser_weeks(ap.skip(1)) == ser_week(w));
            assert(ser_weeks(a) == ser_week(a[0]));
        } else {
            assert(ser_weeks(ap) == ser_week(ap[0]) + seq![','] + ser_weeks(ap.skip(1)));
            assert(ser_weeks(ap.skip(1)) == ser_weeks(a.skip(1)) + seq![','] + ser_week(w));
            assert(ser_weeks(a) == ser_week(a[0]) + seq![','] + ser_weeks(a.skip(1)));
            assert(ser_week(a[0]) + seq![','] + (ser_weeks(a.skip(1)) + seq![','] + ser_week(w))
                =~= (ser_week(a[0]) + seq![','] + ser_weeks(a.skip(1))) + seq![','] + ser_week(
                w,
            ));
        }
    }
}

proof fn lemma_ser_pairs_snoc(a: Seq<(Seq<char>, EntryV)>, p: (Seq<char>, EntryV))
    ensures
        ser_pairs(a.push(p)) == if a.len() == 0 {
            ser_pair(p)
        } else {
            ser_pairs(a) + seq![','] + ser_pair(p)
        },
    decreases a.len(),
{
    let ap = a.push(p);
    if a.len() == 0 {
        assert(ap.len() == 1);
        assert(ap[0] == p);
    } else {
        assert(ap[0] == a[0]);
        assert(ap.skip(1) =~= a.skip(1).push(p));
        lemma_ser_pairs_snoc(a.skip(1), p);
        if a.len() == 1 {
            assert(ser_pairs(ap) == ser_pair(ap[0]) + seq![','] + ser_pairs(ap.skip(1)));
            assert(ser_pairs(ap.skip(1)) == ser_pair(p));
            assert(ser_pairs(a) == ser_pair(a[0]));
        } else {
            assert(ser_pairs(ap) == ser_pair(ap[0]) + seq![','] + ser_pairs(ap.skip(1)));
            assert(ser_pairs(ap.skip(1)) == ser_pairs(a.skip(1)) + seq![','] + ser_pair(p));
            assert(ser_pairs(a) == ser_pair(a[0]) + seq![','] + ser_pairs(a.skip(1)));
            assert(ser_pair(a[0]) + seq![','] + (ser_pairs(a.skip(1)) + seq![','] + ser_pair(p))
                =~= (ser_pair(a[0]) + seq![','] + ser_pairs(a.skip(1))) + seq![','] + ser_pair(
                p,
            ));
        }
    }
}

/// Appends the characters of `lit` to `out`.
pub(crate) fn write_lit(out: &mut Vec<char>, lit: &str)
    ensures
        final(out)@ == old(out)@ + lit@,
{
    let cs = str_chars(lit);
    let mut k: usize = 0;
    proof {
        assert(out@ + cs@.take(0) =~= out@);
    }
    while k < cs.len()
        invariant
            k <= cs.len(),
            cs@ == lit@,
            out@ == old(out)@ + cs@.take(k as int),
        decreases cs.len() - k,
    {
        out.push(cs[k]);
        proof {
            assert(cs@.take(k + 1) =~= cs@.take(k as int).push(cs@[k as int]));
            assert(old(out)@ + cs@.take(k + 1) =~= (old(out)@ + cs@.take(k as int)).push(
                cs@[k as int],
            ));
        }
        k += 1;
    }
    proof {
        assert(cs@.take(cs@.len() as int) =~= cs@);
    }
}

/// Appends a string value: its escaped characters between quotes.
fn write_string(out: &mut Vec<char>, s: &str)
    ensures
        final(out)@ == old(out)@ + ser_string(s@),
{
    out.push('"');
    let cs = str_chars(s);
    let mut k: usize = 0;
    proof {
        assert(esc(cs@.take(0)) == Seq::<char>::empty());
        assert(out@ =~= old(out)@ + seq!['"'] + esc(cs@.take(0)));
    }
    while k < cs.len()
        invariant
            k <= cs.len(),
            cs@ == s@,
            out@ == old(out)@ + seq!['"'] + esc(cs@.take(k as int)),
        decreases cs.len() - k,
    {
        let c = cs[k];
        if c == '"' || c == '\\' {
            out.push('\\');
            out.push(c);
        } else {
            out.push(c);
        }
        proof {
            assert(cs@.take(k + 1) =~= cs@.take(k as int).push(c));
            lemma_esc_snoc(cs@.take(k as int), c);
            assert(out@ =~= old(out)@ + seq!['"'] + esc(cs@.take(k + 1)));
        }
        k += 1;
    }
    out.push('"');
    proof {
        assert(cs@.take(cs@.len() as int) =~= cs@);
        assert(out@ =~= old(out)@ + ser_string(s@));
    }
}

fn digit_to_char(n: u32) -> (c: char)
    requires
        n < 10,
    ensures
        c == digit_char(n),
{
    if n == 0 {
        '0'
    } else if n == 1 {
        '1'
    } else if n == 2 {
        '2'
    } else if n == 3 {
        '3'
    } else if n == 4 {
        '4'
    } else if n == 5 {
        '5'
    } else if n == 6 {
        '6'
    } else if n == 7 {
        '7'
    } else if n == 8 {
        '8'
    } else {
        '9'
    }
}

/// Appends a count in decimal.
pub(crate) fn write_number(out: &mut Vec<char>, n: u32)
    ensures
        final(out)@ == old(out)@ + ser_number(n),
    decreases n,
{
    if n < 10 {
        out.push(digit_to_char(n));
        proof {
            assert(old(out)@ + ser_number(n) =~= old(out)@.push(digit_char(n)));
        }
    } else {
        write_number(out, n / 10);
        out.push(digit_to_char(n % 10));
        proof {
            assert(old(out)@ + ser_number(n) =~= (old(out)@ + ser_number(n / 10)).push(
                digit_char(n % 10),
            ));
        }
    }
}

/// Appends one serialized day.
fn write_day(out: &mut Vec<char>, d: &ContributionDay)
    ensures
        final(out)@ == old(out)@ + ser_day(d@),
{
    proof {
        reveal_strlit("{\"date\":");
        assert("{\"date\":"@ =~= lit_day_open());
        reveal_strlit(",\"contributionCount\":");
        assert(",\"contributionCount\":"@ =~= lit_day_mid());
    }
    write_lit(out, "{\"date\":");
    write_string(out, date_str(d));
    write_lit(out, ",\"contributionCount\":");
    write_number(out, d.contribution_count);
    out.push('}');
    proof {
        assert(out@ =~= old(out)@ + ser_day(d@));
    }
}

/// The date field, read as a borrowed string.
fn date_str(d: &ContributionDay) -> (r: &str)
    ensures
        r@ == d.date@,
{
    d.date.as_str()
}

/// Appends one serialized week.
fn write_week(out: &mut Vec<char>, w: &Week)
    ensures
        final(out)@ == old(out)@ + ser_week(w@),
{
    proof {
        reveal_strlit("{\"contributionDays\":[");
        assert("{\"contributionDays\":["@ =~= lit_week_open());
    }
    write_lit(out, "{\"contributionDays\":[");
    let mut k: usize = 0;
    proof {
        assert(ser_days(w@.take(0)) == Seq::<char>::empty());
        assert(out@ =~= old(out)@ + lit_week_open() + ser_days(w@.take(0)));
    }
    while k < w.contribution_days.len()
        invariant
            k <= w.contribution_days.len(),
            out@ == old(out)@ + lit_week_open() + ser_days(w@.take(k as int)),
        decreases w.contribution_days.len() - k,
    {
        if k > 0 {
            out.push(',');
        }
        write_day(out, &w.contribution_days[k]);
        proof {
            assert(w@[k as int] == w.contribution_days@[k as int]@);
            assert(w@.take(k + 1) =~= w@.take(k as int).push(w@[k as int]));
            lemma_ser_days_snoc(w@.take(k as int), w@[k as int]);
            assert(out@ =~= old(out)@ + lit_week_open() + ser_days(w@.take(k + 1)));
        }
        k += 1;
    }
    out.push(']');
    out.push('}');
    proof {
        assert(w@.take(w@.len() as int) =~= w@);
        assert(out@ =~= old(out)@ + ser_week(w@));
    }
}

/// Appends one serialized calendar.
fn write_calendar(out: &mut Vec<char>, c: &ContributionCalendar)
    ensures
        final(out)@ == old(out)@ + ser_calendar(c@),
{
    proof {
        reveal_strlit("{\"weeks\":[");
        assert("{\"weeks\":["@ =~= lit_calendar_open());
    }
    write_lit(out, "{\"weeks\":[");
    let mut k: usize = 0;
    proof {
        assert(ser_weeks(c@.take(0)) == Seq::<char>::empty());
        assert(out@ =~= old(out)@ + lit_calendar_open() + ser_weeks(c@.take(0)));
    }
    while k < c.weeks.len()
        invariant
            k <= c.weeks.len(),
            out@ == old(out)@ + lit_calendar_open() + ser_weeks(c@.take(k as int)),
        decreases c.weeks.len() - k,
    {
        if k > 0 {
            out.push(',');
        }
        write_week(out, &c.weeks[k]);
        proof {
            assert(c@[k as int] == c.weeks@[k as int]@);
            assert(c@.take(k + 1) =~= c@.take(k as int).push(c@[k as int]));
            lemma_ser_weeks_snoc(c@.take(k as int), c@[k as int]);
            assert(out@ =~= old(out)@ + lit_calendar_open() + ser_weeks(c@.take(k + 1)));
        }
        k += 1;
    }
    out.push(']');
    out.push('}');
    proof {
        assert(c@.take(c@.len() as int) =~= c@);
        assert(out@ =~= old(out)@ + ser_calendar(c@));
    }
}

/// Appends one serialized entry.
fn write_entry(out: &mut Vec<char>, e: &CachedEntry)
    ensures
        final(out)@ == old(out)@ + ser_entry(e@),
{
    proof {
        reveal_strlit("{\"calendar\":");
        assert("{\"calendar\":"@ =~= lit_entry_open());
        reveal_strlit(",\"fetched_at\":");
        assert(",\"fetched_at\":"@ =~= lit_entry_mid());
    }
    write_lit(out, "{\"calendar\":");
    write_calendar(out, &e.calendar);
    write_lit(out, ",\"fetched_at\":");
    write_string(out, e.fetched_at.as_str());
    out.push('}');
    proof {
        assert(out@ =~= old(out)@ + ser_entry(e@));
    }
}

// ---------------------------------------------------------------------------
// The parser.
// ---------------------------------------------------------------------------
/// The literal's characters stand at position `i`, or nothing.
fn eat_lit(s: &Vec<char>, i: usize, lit: &str) -> (r: Option<usize>)
    ensures
        r is Some <==> match_at(s@, i as int, lit@) is Some,
        r matches Some(j) ==> match_at(s@, i as int, lit@) == Some(j as int) && i <= j <= s@.len(),
{
    let n = lit.unicode_len();
    if i > s.len() || n > s.len() - i {
        return None;
    }
    let n_s = s.len();
    let mut k: usize = 0;
    while k < n
        invariant
            k <= n,
            n == lit@.len(),
            n_s == s@.len(),
            i + n <= n_s,
            forall|t: int| 0 <= t < k ==> s@[i + t] == lit@[t],
        decreases n - k,
    {
        if s[i + k] != lit.get_char(k) {
            proof {
                let sub = s@.subrange(i as int, i + lit@.len() as int);
                assert(sub[k as int] == s@[i + k]);
                assert(match_at(s@, i as int, lit@) is None) by {
                    if sub == lit@ {
                        assert(sub[k as int] == lit@[k as int]);
                    }
                }
            }
            return None;
        }
        k += 1;
    }
    proof {
        assert(s@.subrange(i as int, i + lit@.len() as int) =~= lit@);
    }
    Some(i + n)
}

/// The single character stands at position `i`, or nothing.
fn eat_char(s: &Vec<char>, i: usize, c: char) -> (r: Option<usize>)
    ensures
        r is Some <==> match_at(s@, i as int, seq![c]) is Some,
        r matches Some(j) ==> match_at(s@, i as int, seq![c]) == Some(j as int) && j == i + 1 && j
            <= s@.len(),
{
    if i < s.len() && s[i] == c {
        proof {
            assert(s@.subrange(i as int, i + 1) =~= seq![c]);
        }
        Some(i + 1)
    } else {
        proof {
            if i < s@.len() {
                assert(match_at(s@, i as int, seq![c]) is None) by {
                    if s@.subrange(i as int, i + 1) == seq![c] {
                        assert(s@.subrange(i as int, i + 1)[0] == s@[i as int]);
                    }
                }
            }
        }
        None
    }
}

/// A string value at position `i`, unescaped.
fn read_string(s: &Vec<char>, i: usize) -> (r: Option<(String, usize)>)
    ensures
        r is Some <==> parse_string(s@, i as int) is Some,
        r matches Some(p) ==> parse_string(s@, i as int) == Some((p.0@, p.1 as int)) && i < p.1
            <= s@.len(),
{
    if i >= s.len() || s[i] != '"' {
        return None;
    }
    let mut acc: Vec<char> = Vec::new();
    let mut k: usize = i + 1;
    proof {
        assert(acc@ =~= Seq::<char>::empty());
    }
    loop
        invariant
            i + 1 <= k <= s@.len(),
            parse_string(s@, i as int) == parse_string_body(s@, k as int, acc@),
        decreases s@.len() - k,
    {
        if k >= s.len() {
            return None;
        }
        let c = s[k];
        if c == '"' {
            let st = string_from_chars(&acc);
            return Some((st, k + 1));
        } else if c == '\\' {
            if k + 1 < s.len() {
                let c2 = s[k + 1];
                if c2 == '"' || c2 == '\\' {
                    acc.push(c2);
                    k += 2;
                } else {
                    return None;
                }
            } else {
                return None;
            }
        } else {
            acc.push(c);
            k += 1;
        }
    }
}

/// A count at position `i`: one digit at least, value at most `u32::MAX`.
fn read_number(s: &Vec<char>, i: usize) -> (r: Option<(u32, usize)>)
    ensures
        r is Some <==> parse_number(s@, i as int) is Some,
        r matches Some(p) ==> parse_number(s@, i as int) == Some((p.0, p.1 as int)) && i < p.1
            <= s@.len(),
{
    if i >= s.len() {
        return None;
    }
    let c0 = s[i];
    if !(c0 as u32 >= '0' as u32 && c0 as u32 <= '9' as u32) {
        return None;
    }
    let mut acc: u64 = 0;
    let mut k: usize = i;
    loop
        invariant
            i <= k <= s@.len(),
            acc <= 0xffff_ffff,
            parse_number(s@, i as int) == parse_digits(s@, k as int, acc as int),
        decreases s@.len() - k,
    {
        if k >= s.len() {
            return Some((acc as u32, k));
        }
        let c = s[k];
        if c as u32 >= '0' as u32 && c as u32 <= '9' as u32 {
            let d = (c as u32 - '0' as u32) as u64;
            if acc * 10 + d > 0xffff_ffff {
                return None;
            }
            acc = acc * 10 + d;
            k += 1;
        } else {
            return Some((acc as u32, k));
        }
    }
}

/// One day object at position `i`.
fn read_day(s: &Vec<char>, i: usize) -> (r: Option<(ContributionDay, usize)>)
    ensures
        r is Some <==> parse_day(s@, i as int) is Some,
        r matches Some(p) ==> parse_day(s@, i as int) == Some((p.0@, p.1 as int)) && i < p.1
            <= s@.len(),
{
    proof {
        reveal_strlit("{\"date\":");
        assert("{\"date\":"@ =~= lit_day_open());
        reveal_strlit(",\"contributionCount\":");
        assert(",\"contributionCount\":"@ =~= lit_day_mid());
    }
    let j1 = match eat_lit(s, i, "{\"date\":") {
        Some(j) => j,
        None => {
            return None;
        },
    };
    let (date, j2) = match read_string(s, j1) {
        Some(p) => p,
        None => {
            return None;
        },
    };
    let j3 = match eat_lit(s, j2, ",\"contributionCount\":") {
        Some(j) => j,
        None => {
            return None;
        },
    };
    let (n, j4) = match read_number(s, j3) {
        Some(p) => p,
        None => {
            return None;
        },
    };
    let j5 = match eat_char(s, j4, '}') {
        Some(j) => j,
        None => {
            return None;
        },
    };
    Some((ContributionDay { date, contribution_count: n }, j5))
}

/// A day list at position `i`, through its closing `]`.
fn read_days(s: &Vec<char>, i: usize) -> (r: Option<(Vec<ContributionDay>, usize)>)
    ensures
        r is Some <==> parse_days(s@, i as int, Seq::<DayV>::empty()) is Some,
        r matches Some(p) ==> parse_days(s@, i as int, Seq::<DayV>::empty()) == Some(
            (p.0@.map_values(|d: ContributionDay| d@), p.1 as int),
        ) && i < p.1 <= s@.len(),
{
    if i >= s.len() {
        return None;
    }
    let mut acc: Vec<ContributionDay> = Vec::new();
    let mut k: usize = i;
    proof {
        assert(acc@.map_values(|d: ContributionDay| d@) =~= Seq::<DayV>::empty());
    }
    loop
        invariant
            i <= k <= s@.len(),
            parse_days(s@, i as int, Seq::<DayV>::empty()) == parse_days(
                s@,
                k as int,
                acc@.map_values(|d: ContributionDay| d@),
            ),
        decreases s@.len() - k,
    {
        if k >= s.len() {
            return None;
        }
        if s[k] == ']' && acc.len() == 0 {
            return Some((acc, k + 1));
        }
        let (d, j) = match read_day(s, k) {
            Some(p) => p,
            None => {
                return None;
            },
        };
        if !(k < j && j < s.len()) {
            return None;
        }
        let ghost pre = acc@.map_values(|d: ContributionDay| d@);
        if s[j] == ',' {
            acc.push(d);
            proof {
                assert(acc@.map_values(|d: ContributionDay| d@) =~= pre.push(d@));
            }
            k = j + 1;
        } else if s[j] == ']' {
            acc.push(d);
            proof {
                assert(acc@.map_values(|d: ContributionDay| d@) =~= pre.push(d@));
            }
            return Some((acc, j + 1));
        } else {
            return None;
        }
    }
}

/// One week object at position `i`.
fn read_week(s: &Vec<char>, i: usize) -> (r: Option<(Week, usize)>)
    ensures
        r is Some <==> parse_week(s@, i as int) is Some,
        r matches Some(p) ==> parse_week(s@, i as int) == Some((p.0@, p.1 as int)) && i < p.1
            <= s@.len(),
{
    proof {
        reveal_strlit("{\"contributionDays\":[");
        assert("{\"contributionDays\":["@ =~= lit_week_open());
    }
    let j1 = match eat_lit(s, i, "{\"contributionDays\":[") {
        Some(j) => j,
        None => {
            return None;
        },
    };
    let (days, j2) = match read_days(s, j1) {
        Some(p) => p,
        None => {
            return None;
        },
    };
    let j3 = match eat_char(s, j2, '}') {
        Some(j) => j,
        None => {
            return None;
        },
    };
    Some((Week { contribution_days: days }, j3))
}

/// A week list at position `i`, through its closing `]`.
fn read_weeks(s: &Vec<char>, i: usize) -> (r: Option<(Vec<Week>, usize)>)
    ensures
        r is Some <==> parse_weeks(s@, i as int, Seq::<Seq<DayV>>::empty()) is Some,
        r matches Some(p) ==> parse_weeks(s@, i as int, Seq::<Seq<DayV>>::empty()) == Some(
            (p.0@.map_values(|w: Week| w@), p.1 as int),
        ) && i < p.1 <= s@.len(),
{
    if i >= s.len() {
        return None;
    }
    let mut acc: Vec<Week> = Vec::new();
    let mut k: usize = i;
    proof {
        assert(acc@.map_values(|w: Week| w@) =~= Seq::<Seq<DayV>>::empty());
    }
    loop
        invariant
            i <= k <= s@.len(),
            parse_weeks(s@, i as int, Seq::<Seq<DayV>>::empty()) == parse_weeks(
                s@,
                k as int,
                acc@.map_values(|w: Week| w@),
            ),
        decreases s@.len() - k,
    {
        if k >= s.len() {
            return None;
        }
        if s[k] == ']' && acc.len() == 0 {
            return Some((acc, k + 1));
        }
        let (w, j) = match read_week(s, k) {
            Some(p) => p,
            None => {
                return None;
            },
        };
        if !(k < j && j < s.len()) {
            return None;
        }
        let ghost pre = acc@.map_values(|w: Week| w@);
        if s[j] == ',' {
            acc.push(w);
            proof {
                assert(acc@.map_values(|w: Week| w@) =~= pre.push(w@));
            }
            k = j + 1;
        } else if s[j] == ']' {
            acc.push(w);
            proof {
                assert(acc@.map_values(|w: Week| w@) =~= pre.push(w@));
            }
            return Some((acc, j + 1));
        } else {
            return None;
        }
    }
}

/// One calendar object at position `i`.
fn read_calendar(s: &Vec<char>, i: usize) -> (r: Option<(ContributionCalendar, usize)>)
    ensures
        r is Some <==> parse_calendar(s@, i as int) is Some,
        r matches Some(p) ==> parse_calendar(s@, i as int) == Some((p.0@, p.1 as int)) && i < p.1
            <= s@.len(),
{
    proof {
        reveal_strlit("{\"weeks\":[");
        assert("{\"weeks\":["@ =~= lit_calendar_open());
    }
    let j1 = match eat_lit(s, i, "{\"weeks\":[") {
        Some(j) => j,
        None => {
            return None;
        },
    };
    let (weeks, j2) = match read_weeks(s, j1) {
        Some(p) => p,
        None => {
            return None;
        },
    };
    let j3 = match eat_char(s, j2, '}') {
        Some(j) => j,
        None => {
            return None;
        },
    };
    Some((ContributionCalendar { weeks }, j3))
}

/// One entry object at position `i`.
fn read_entry(s: &Vec<char>, i: usize) -> (r: Option<(CachedEntry, usize)>)
    ensures
        r is Some <==> parse_entry(s@, i as int) is Some,
        r matches Some(p) ==> parse_entry(s@, i as int) == Some((p.0@, p.1 as int)) && i < p.1
            <= s@.len(),
{
    proof {
        reveal_strlit("{\"calendar\":");
        assert("{\"calendar\":"@ =~= lit_entry_open());
        reveal_strlit(",\"fetched_at\":");
        assert(",\"fetched_at\":"@ =~= lit_entry_mid());
    }
    let j1 = match eat_lit(s, i, "{\"calendar\":") {
        Some(j) => j,
        None => {
            return None;
        },
    };
    let (calendar, j2) = match read_calendar(s, j1) {
        Some(p) => p,
        None => {
            return None;
        },
    };
    let j3 = match eat_lit(s, j2, ",\"fetched_at\":") {
        Some(j) => j,
        None => {
            return None;
        },
    };
    let (fetched_at, j4) = match read_string(s, j3) {
        Some(p) => p,
        None => {
            return None;
        },
    };
    let j5 = match eat_char(s, j4, '}') {
        Some(j) => j,
        None => {
            return None;
        },
    };
    Some((CachedEntry { calendar, fetched_at }, j5))
}

/// The identity/entry pairs at position `i`, through their closing `}`.
fn read_pairs(s: &Vec<char>, i: usize) -> (r: Option<(Vec<(String, CachedEntry)>, usize)>)
    ensures
        r is Some <==> parse_pairs(s@, i as int, Seq::<(Seq<char>, EntryV)>::empty()) is Some,
        r matches Some(p) ==> parse_pairs(s@, i as int, Seq::<(Seq<char>, EntryV)>::empty())
            == Some(
            (p.0@.map_values(|q: (String, CachedEntry)| (q.0@, q.1@)), p.1 as int),
        ) && i < p.1 <= s@.len(),
{
    if i >= s.len() {
        return None;
    }
    let mut acc: Vec<(String, CachedEntry)> = Vec::new();
    let mut k: usize = i;
    proof {
        assert(acc@.map_values(|q: (String, CachedEntry)| (q.0@, q.1@)) =~= Seq::<
            (Seq<char>, EntryV),
        >::empty());
    }
    loop
        invariant
            i <= k <= s@.len(),
            parse_pairs(s@, i as int, Seq::<(Seq<char>, EntryV)>::empty()) == parse_pairs(
                s@,
                k as int,
                acc@.map_values(|q: (String, CachedEntry)| (q.0@, q.1@)),
            ),
        decreases s@.len() - k,
    {
        if k >= s.len() {
            return None;
        }
        if s[k] == '}' && acc.len() == 0 {
            return Some((acc, k + 1));
        }
        let (key, j1) = match read_string(s, k) {
            Some(p) => p,
            None => {
                return None;
            },
        };
        let j2 = match eat_char(s, j1, ':') {
            Some(j) => j,
            None => {
                return None;
            },
        };
        let (e, j3) = match read_entry(s, j2) {
            Some(p) => p,
            None => {
                return None;
            },
        };
        if !(k < j3 && j3 < s.len()) {
            return None;
        }
        let ghost pre = acc@.map_values(|q: (String, CachedEntry)| (q.0@, q.1@));
        let ghost kv = key@;
        let ghost ev = e@;
        if s[j3] == ',' {
            acc.push((key, e));
            proof {
                assert(acc@.map_values(|q: (String, CachedEntry)| (q.0@, q.1@)) =~= pre.push(
                    (kv, ev),
                ));
            }
            k = j3 + 1;
        } else if s[j3] == '}' {
            acc.push((key, e));
            proof {
                assert(acc@.map_values(|q: (String, CachedEntry)| (q.0@, q.1@)) =~= pre.push(
                    (kv, ev),
                ));
            }
            return Some((acc, j3 + 1));
        } else {
            return None;
        }
    }
}

/// The identities in `data` are pairwise distinct.
fn check_unique(data: &Vec<(String, CachedEntry)>) -> (r: bool)
    ensures
        r == unique_keys(data@.map_values(|q: (String, CachedEntry)| (q.0@, q.1@))),
{
    let ghost v = data@.map_values(|q: (String, CachedEntry)| (q.0@, q.1@));
    let n = data.len();
    let mut a: usize = 0;
    while a < n
        invariant
            a <= n,
            n == data.len(),
            v == data@.map_values(|q: (String, CachedEntry)| (q.0@, q.1@)),
            forall|x: int, y: int| 0 <= x < y < n && x < a ==> v[x].0 != v[y].0,
        decreases n - a,
    {
        let mut b: usize = a + 1;
        while b < n
            invariant
                a < n,
                a < b <= n,
                n == data.len(),
                v == data@.map_values(|q: (String, CachedEntry)| (q.0@, q.1@)),
                forall|y: int| a < y < b ==> v[a as int].0 != v[y].0,
            decreases n - b,
        {
            if data[a].0 == data[b].0 {
                proof {
                    assert(v[a as int].0 == v[b as int].0);
                    assert(!unique_keys(v));
                }
                return false;
            }
            b += 1;
        }
        a += 1;
    }
    true
}

impl Cache {
    /// The store read back from the durable file's content: no file at all
    /// yields the empty store; text that is not a serialized store with
    /// pairwise distinct identities is refused as corrupt.
    pub fn load(content: Option<&str>) -> (r: Result<Cache, CacheError>)
        ensures
            content is None ==> (r matches Ok(c) && c@ == Seq::<(Seq<char>, EntryV)>::empty()),
            content matches Some(text) ==> (match spec_load(text@) {
                Some(v) => if unique_keys(v) {
                    r matches Ok(c) && c@ == v
                } else {
                    r == Err::<Cache, CacheError>(CacheError::CorruptCache)
                },
                None => r == Err::<Cache, CacheError>(CacheError::CorruptCache),
            }),
            r matches Ok(c) ==> c.wf(),
    {
        let text = match content {
            Some(t) => t,
            None => {
                return Ok(Cache::new());
            },
        };
        let s = str_chars(text);
        proof {
            reveal_strlit("{\"entries\":{");
            assert("{\"entries\":{"@ =~= lit_store_open());
        }
        let j1 = match eat_lit(&s, 0, "{\"entries\":{") {
            Some(j) => j,
            None => {
                return Err(CacheError::CorruptCache);
            },
        };
        let (data, j2) = match read_pairs(&s, j1) {
            Some(p) => p,
            None => {
                return Err(CacheError::CorruptCache);
            },
        };
        let j3 = match eat_char(&s, j2, '}') {
            Some(j) => j,
            None => {
                return Err(CacheError::CorruptCache);
            },
        };
        if j3 != s.len() {
            return Err(CacheError::CorruptCache);
        }
        if !check_unique(&data) {
            return Err(CacheError::CorruptCache);
        }
        Ok(Cache { data })
    }

    /// The serialized store: the whole document as one compact line.
    pub fn save(&self) -> (r: String)
        ensures
            r@ == ser_store(self@),
    {
        let mut out: Vec<char> = Vec::new();
        proof {
            reveal_strlit("{\"entries\":{");
            assert("{\"entries\":{"@ =~= lit_store_open());
        }
        write_lit(&mut out, "{\"entries\":{");
        let mut k: usize = 0;
        proof {
            assert(ser_pairs(self@.take(0)) == Seq::<char>::empty());
            assert(out@ =~= lit_store_open() + ser_pairs(self@.take(0)));
        }
        while k < self.data.len()
            invariant
                k <= self.data.len(),
                out@ == lit_store_open() + ser_pairs(self@.take(k as int)),
            decreases self.data.len() - k,
        {
            if k > 0 {
                out.push(',');
            }
            write_string(&mut out, self.data[k].0.as_str());
            out.push(':');
            write_entry(&mut out, &self.data[k].1);
            proof {
                assert(self@[k as int] == (self.data@[k as int].0@, self.data@[k as int].1@));
                assert(self@.take(k + 1) =~= self@.take(k as int).push(self@[k as int]));
                lemma_ser_pairs_snoc(self@.take(k as int), self@[k as int]);
                assert(out@ =~= lit_store_open() + ser_pairs(self@.take(k + 1)));
            }
            k += 1;
        }
        out.push('}');
        out.push('}');
        proof {
            assert(self@.take(self@.len() as int) =~= self@);
            assert(out@ =~= ser_store(self@));
        }
        string_from_chars(&out)
    }
}

} // verus!
