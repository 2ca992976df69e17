//! The render engine: color bucketing, month-label placement, and the
//! heatmap layout for a given viewport. A pure function of the calendar
//! and the viewport size; painting happens outside the library.

use crate::app::App;
use crate::codec::{digit_val, is_digit, ser_number, string_from_chars, str_chars, write_lit, write_number};
use crate::models::{ContributionDay, DayV, Week};
use vstd::prelude::*;
use vstd::string::StrSliceExecFns;

verus! {

/// The viewport floor: anything narrower shows a diagnostic instead.
pub const MIN_WIDTH: u16 = 30;

/// The viewport floor: anything shorter shows a diagnostic instead.
pub const MIN_HEIGHT: u16 = 12;

// ---------------------------------------------------------------------------
// Color bucketing.
// ---------------------------------------------------------------------------
/// One of the five intensity tiers.
#[derive(PartialEq, Eq, Structural, Clone, Copy, Debug)]
pub enum Tier {
    Tier0,
    Tier1,
    Tier2,
    Tier3,
    Tier4,
}

/// The tier a day count falls in: fixed thresholds, total over the counts.
pub open spec fn spec_tier(c: u32) -> Tier {
    if c == 0 {
        Tier::Tier0
    } else if c <= 3 {
        Tier::Tier1
    } else if c <= 6 {
        Tier::Tier2
    } else if c <= 10 {
        Tier::Tier3
    } else {
        Tier::Tier4
    }
}

/// A tier's place on the intensity scale.
pub open spec fn tier_rank(t: Tier) -> int {
    match t {
        Tier::Tier0 => 0,
        Tier::Tier1 => 1,
        Tier::Tier2 => 2,
        Tier::Tier3 => 3,
        Tier::Tier4 => 4,
    }
}

/// The counts a tier covers, written as its interval.
pub open spec fn in_tier(t: Tier, c: u32) -> bool {
    match t {
        Tier::Tier0 => c == 0,
        Tier::Tier1 => 1 <= c <= 3,
        Tier::Tier2 => 4 <= c <= 6,
        Tier::Tier3 => 7 <= c <= 10,
        Tier::Tier4 => c > 10,
    }
}

/// Every count falls in exactly one tier: a tier covers a count just when
/// it is the count's tier.
pub proof fn lemma_tier_exactly_one(c: u32, t: Tier)
    ensures
        in_tier(t, c) <==> t == spec_tier(c),
{
}

/// Bucketing is monotonic: a larger count never falls in a lesser tier.
pub proof fn lemma_tier_monotonic(a: u32, b: u32)
    requires
        a <= b,
    ensures
        tier_rank(spec_tier(a)) <= tier_rank(spec_tier(b)),
{
}

/// A terminal color: a fixed RGB value, or a named UI color.
#[derive(PartialEq, Eq, Structural, Clone, Copy, Debug)]
pub enum UiColor {
    Rgb(u8, u8, u8),
    White,
    Red,
}

/// Each tier's fixed color.
pub open spec fn spec_tier_color(t: Tier) -> UiColor {
    match t {
        Tier::Tier0 => UiColor::Rgb(55, 55, 55),
        Tier::Tier1 => UiColor::Rgb(90, 140, 120),
        Tier::Tier2 => UiColor::Rgb(120, 180, 130),
        Tier::Tier3 => UiColor::Rgb(160, 210, 150),
        Tier::Tier4 => UiColor::Rgb(220, 240, 170),
    }
}

/// The color for a day count: the fixed color of the count's tier.
pub fn get_contribution_color(count: u32) -> (c: UiColor)
    ensures
        c == spec_tier_color(spec_tier(count)),
{
    if count == 0 {
        UiColor::Rgb(55, 55, 55)
    } else if count <= 3 {
        UiColor::Rgb(90, 140, 120)
    } else if count <= 6 {
        UiColor::Rgb(120, 180, 130)
    } else if count <= 10 {
        UiColor::Rgb(160, 210, 150)
    } else {
        UiColor::Rgb(220, 240, 170)
    }
}

// ---------------------------------------------------------------------------
// Dates and month labels.
// ---------------------------------------------------------------------------
pub open spec fn spec_is_leap(y: int) -> bool {
    y % 4 == 0 && (y % 100 != 0 || y % 400 == 0)
}

pub open spec fn spec_days_in_month(y: int, m: int) -> int {
    if m == 2 {
        if spec_is_leap(y) {
            29
        } else {
            28
        }
    } else if m == 4 || m == 6 || m == 9 || m == 11 {
        30
    } else {
        31
    }
}

/// `YYYY-MM-DD` as year, month and day, when the text has exactly that
/// shape and the date exists in the calendar.
pub open spec fn spec_parse_date(s: Seq<char>) -> Option<(int, int, int)> {
    if s.len() == 10 && is_digit(s[0]) && is_digit(s[1]) && is_digit(s[2]) && is_digit(s[3])
        && s[4] == '-' && is_digit(s[5]) && is_digit(s[6]) && s[7] == '-' && is_digit(s[8])
        && is_digit(s[9]) {
        let y = digit_val(s[0]) * 1000 + digit_val(s[1]) * 100 + digit_val(s[2]) * 10 + digit_val(
            s[3],
        );
        let m = digit_val(s[5]) * 10 + digit_val(s[6]);
        let d = digit_val(s[8]) * 10 + digit_val(s[9]);
        if 1 <= m <= 12 && 1 <= d <= spec_days_in_month(y, m) {
            Some((y, m, d))
        } else {
            None
        }
    } else {
        None
    }
}

fn digit_of(c: char) -> (r: Option<u32>)
    ensures
        r is Some <==> is_digit(c),
        r matches Some(d) ==> d == digit_val(c) && d < 10,
{
    let u = c as u32;
    if u >= 48 && u <= 57 {
        Some(u - 48)
    } else {
        None
    }
}

/// Reads a date written `YYYY-MM-DD`, rejecting days that do not exist.
pub fn parse_date(s: &str) -> (r: Option<(u32, u32, u32)>)
    ensures
        r is Some <==> spec_parse_date(s@) is Some,
        r matches Some(t) ==> spec_parse_date(s@) == Some((t.0 as int, t.1 as int, t.2 as int)),
{
    if s.unicode_len() != 10 {
        return None;
    }
    let d0 = match digit_of(s.get_char(0)) {
        Some(d) => d,
        None => {
            return None;
        },
    };
    let d1 = match digit_of(s.get_char(1)) {
        Some(d) => d,
        None => {
            return None;
        },
    };
    let d2 = match digit_of(s.get_char(2)) {
        Some(d) => d,
        None => {
            return None;
        },
    };
    let d3 = match digit_of(s.get_char(3)) {
        Some(d) => d,
        None => {
            return None;
        },
    };
    if s.get_char(4) != '-' {
        return None;
    }
    let d5 = match digit_of(s.get_char(5)) {
        Some(d) => d,
        None => {
            return None;
        },
    };
    let d6 = match digit_of(s.get_char(6)) {
        Some(d) => d,
        None => {
            return None;
        },
    };
    if s.get_char(7) != '-' {
        return None;
    }
    let d8 = match digit_of(s.get_char(8)) {
        Some(d) => d,
        None => {
            return None;
        },
    };
    let d9 = match digit_of(s.get_char(9)) {
        Some(d) => d,
        None => {
            return None;
        },
    };
    let y = d0 * 1000 + d1 * 100 + d2 * 10 + d3;
    let m = d5 * 10 + d6;
    let d = d8 * 10 + d9;
    if m < 1 || m > 12 {
        return None;
    }
    let dim = days_in_month(y, m);
    if d < 1 || d > dim {
        return None;
    }
    Some((y, m, d))
}

fn days_in_month(y: u32, m: u32) -> (r: u32)
    requires
        1 <= m <= 12,
    ensures
        r == spec_days_in_month(y as int, m as int),
{
    if m == 2 {
        if y % 4 == 0 && (y % 100 != 0 || y % 400 == 0) {
            29
        } else {
            28
        }
    } else if m == 4 || m == 6 || m == 9 || m == 11 {
        30
    } else {
        31
    }
}

/// The three-letter English abbreviation of a month.
pub open spec fn spec_month_abbr(m: int) -> Seq<char> {
    if m == 1 {
        seq!['J', 'a', 'n']
    } else if m == 2 {
        seq!['F', 'e', 'b']
    } else if m == 3 {
        seq!['M', 'a', 'r']
    } else if m == 4 {
        seq!['A', 'p', 'r']
    } else if m == 5 {
        seq!['M', 'a', 'y']
    } else if m == 6 {
        seq!['J', 'u', 'n']
    } else if m == 7 {
        seq!['J', 'u', 'l']
    } else if m == 8 {
        seq!['A', 'u', 'g']
    } else if m == 9 {
        seq!['S', 'e', 'p']
    } else if m == 10 {
        seq!['O', 'c', 't']
    } else if m == 11 {
        seq!['N', 'o', 'v']
    } else if m == 12 {
        seq!['D', 'e', 'c']
    } else {
        Seq::empty()
    }
}

fn month_abbr(m: u32) -> (r: &'static str)
    requires
        1 <= m <= 12,
    ensures
        r@ == spec_month_abbr(m as int),
{
    proof {
        reveal_strlit("Jan");
        reveal_strlit("Feb");
        reveal_strlit("Mar");
        reveal_strlit("Apr");
        reveal_strlit("May");
        reveal_strlit("Jun");
        reveal_strlit("Jul");
        reveal_strlit("Aug");
        reveal_strlit("Sep");
        reveal_strlit("Oct");
        reveal_strlit("Nov");
        reveal_strlit("Dec");
    }
    if m == 1 {
        "Jan"
    } else if m == 2 {
        "Feb"
    } else if m == 3 {
        "Mar"
    } else if m == 4 {
        "Apr"
    } else if m == 5 {
        "May"
    } else if m == 6 {
        "Jun"
    } else if m == 7 {
        "Jul"
    } else if m == 8 {
        "Aug"
    } else if m == 9 {
        "Sep"
    } else if m == 10 {
        "Oct"
    } else if m == 11 {
        "Nov"
    } else {
        "Dec"
    }
}

/// The date of a week: its first day's, when the day list is not empty and
/// the text parses.
pub open spec fn spec_week_date(w: Seq<DayV>) -> Option<(int, int, int)> {
    if w.len() > 0 {
        spec_parse_date(w[0].date)
    } else {
        None
    }
}

/// The qualifying labels from week `k` on: a week labels its month when its
/// first day's month is not the one most recently labeled and that day is
/// within the month's first seven days. Yields (week index, month) pairs.
pub open spec fn spec_labels(ws: Seq<Seq<DayV>>, k: int, last: Option<(int, int)>) -> Seq<
    (int, int),
>
    decreases ws.len() - k,
{
    if !(0 <= k < ws.len()) {
        Seq::empty()
    } else {
        match spec_week_date(ws[k]) {
            Some(ymd) => if last != Some((ymd.0, ymd.1)) && ymd.2 <= 7 {
                seq![(k, ymd.1)] + spec_labels(ws, k + 1, Some((ymd.0, ymd.1)))
            } else {
                spec_labels(ws, k + 1, last)
            },
            None => spec_labels(ws, k + 1, last),
        }
    }
}

/// `n` spaces.
pub open spec fn spaces(n: int) -> Seq<char> {
    if n <= 0 {
        Seq::empty()
    } else {
        Seq::new(n as nat, |i: int| ' ')
    }
}

/// Lays the labels out behind `acc`: each label is padded out to the
/// column three times its week index, or placed right after the text so
/// far when that column is already passed.
pub open spec fn spec_place(acc: Seq<char>, labels: Seq<(int, int)>) -> Seq<char>
    decreases labels.len(),
{
    if labels.len() == 0 {
        acc
    } else {
        let target = labels[0].0 * 3;
        let padded = if target > acc.len() {
            acc + spaces(target - acc.len())
        } else {
            acc
        };
        spec_place(padded + spec_month_abbr(labels[0].1), labels.skip(1))
    }
}

/// The month header for the given weeks.
pub open spec fn spec_month_labels(ws: Seq<Seq<DayV>>) -> Seq<char> {
    spec_place(Seq::empty(), spec_labels(ws, 0, None))
}

/// Where each label starts once laid out: the larger of its target column
/// and the end of the text already placed.
pub open spec fn spec_label_starts(acc_len: int, labels: Seq<(int, int)>) -> Seq<int>
    decreases labels.len(),
{
    if labels.len() == 0 {
        Seq::empty()
    } else {
        let start = if labels[0].0 * 3 > acc_len {
            labels[0].0 * 3
        } else {
            acc_len
        };
        seq![start] + spec_label_starts(
            start + spec_month_abbr(labels[0].1).len(),
            labels.skip(1),
        )
    }
}

/// Laying labels out never touches what is already placed.
proof fn lemma_place_prefix(acc: Seq<char>, labels: Seq<(int, int)>)
    ensures
        spec_place(acc, labels).len() >= acc.len(),
        spec_place(acc, labels).subrange(0, acc.len() as int) == acc,
    decreases labels.len(),
{
    if labels.len() == 0 {
        assert(spec_place(acc, labels).subrange(0, acc.len() as int) =~= acc);
    } else {
        let target = labels[0].0 * 3;
        let padded = if target > acc.len() {
            acc + spaces(target - acc.len())
        } else {
            acc
        };
        let acc2 = padded + spec_month_abbr(labels[0].1);
        lemma_place_prefix(acc2, labels.skip(1));
        assert(spec_place(acc, labels) == spec_place(acc2, labels.skip(1)));
        assert(spec_place(acc2, labels.skip(1)).subrange(0, acc2.len() as int) == acc2);
        assert forall|t: int| 0 <= t < acc.len() implies spec_place(acc, labels)[t] == acc[t] by {
            assert(spec_place(acc, labels)[t] == spec_place(acc2, labels.skip(1)).subrange(
                0,
                acc2.len() as int,
            )[t]);
            assert(acc2[t] == acc[t]);
        }
        assert(spec_place(acc, labels).subrange(0, acc.len() as int) =~= acc);
    }
}

/// Month labels never overlap: each label starts at or after the one
/// before it ends, the columns are non-decreasing, and each label's text
/// stands at its column in the laid-out header.
pub proof fn lemma_month_label_monotonic(acc: Seq<char>, labels: Seq<(int, int)>)
    requires
        forall|j: int| 0 <= j < labels.len() ==> 1 <= #[trigger] labels[j].1 <= 12,
    ensures
        spec_label_starts(acc.len() as int, labels).len() == labels.len(),
        forall|a: int, b: int|
            0 <= a <= b < labels.len() ==> spec_label_starts(acc.len() as int, labels)[a]
                <= spec_label_starts(acc.len() as int, labels)[b],
        forall|j: int|
            0 <= j < labels.len() ==> spec_place(acc, labels).subrange(
                #[trigger] spec_label_starts(acc.len() as int, labels)[j],
                spec_label_starts(acc.len() as int, labels)[j] + 3,
            ) == spec_month_abbr(labels[j].1),
    decreases labels.len(),
{
    if labels.len() == 0 {
    } else {
        let target = labels[0].0 * 3;
        let padded = if target > acc.len() {
            acc + spaces(target - acc.len())
        } else {
            acc
        };
        let abbr = spec_month_abbr(labels[0].1);
        assert(abbr.len() == 3);
        let acc2 = padded + abbr;
        let start0 = if target > acc.len() {
            target
        } else {
            acc.len() as int
        };
        assert(padded.len() == start0);
        assert(acc2.len() == start0 + 3);
        let starts = spec_label_starts(acc.len() as int, labels);
        let rest_starts = spec_label_starts(acc2.len() as int, labels.skip(1));
        assert(starts == seq![start0] + rest_starts);
        assert forall|j: int| 0 <= j < labels.skip(1).len() implies 1 <= #[trigger] labels.skip(
            1,
        )[j].1 <= 12 by {
            assert(labels.skip(1)[j] == labels[j + 1]);
        }
        lemma_month_label_monotonic(acc2, labels.skip(1));
        // the first label's text stands at its column
        lemma_place_prefix(acc2, labels.skip(1));
        assert(spec_place(acc, labels) == spec_place(acc2, labels.skip(1)));
        assert(spec_place(acc, labels).subrange(0, acc2.len() as int) == acc2);
        assert forall|t: int| 0 <= t < 3 implies spec_place(acc, labels)[start0 + t] == abbr[t] by {
            assert(spec_place(acc, labels).subrange(0, acc2.len() as int)[start0 + t] == spec_place(
                acc,
                labels,
            )[start0 + t]);
            assert(acc2[start0 + t] == abbr[t]);
        }
        assert(spec_place(acc, labels).subrange(start0, start0 + 3) =~= abbr);
        // later labels: carry the recursion's facts up through the prepend
        assert forall|j: int| 0 <= j < labels.len() implies spec_place(acc, labels).subrange(
            #[trigger] starts[j],
            starts[j] + 3,
        ) == spec_month_abbr(labels[j].1) by {
            if j == 0 {
                assert(starts[0] == start0);
            } else {
                assert(starts[j] == rest_starts[j - 1]);
                assert(labels.skip(1)[j - 1] == labels[j]);
                assert(spec_place(acc2, labels.skip(1)).subrange(
                    rest_starts[j - 1],
                    rest_starts[j - 1] + 3,
                ) == spec_month_abbr(labels.skip(1)[j - 1].1));
            }
        }
        // starts are non-decreasing
        assert forall|a: int, b: int| 0 <= a <= b < labels.len() implies starts[a] <= starts[b] by {
            if a == 0 && b > 0 {
                assert(starts[b] == rest_starts[b - 1]);
                assert(rest_starts.len() > 0);
                assert(rest_starts[0] >= acc2.len());
                assert(forall|x: int, y: int|
                    0 <= x <= y < labels.skip(1).len() ==> rest_starts[x] <= rest_starts[y]);
                assert(rest_starts[0] <= rest_starts[b - 1]);
                assert(starts[0] == start0 <= acc2.len());
            } else if a > 0 {
                assert(starts[a] == rest_starts[a - 1]);
                assert(starts[b] == rest_starts[b - 1]);
            }
        }
    }
}

/// The month header for the given weeks, as the renderer shows it.
pub fn get_month_labels(weeks: &Vec<Week>) -> (r: String)
    requires
        3 * weeks@.len() + 4 <= usize::MAX,
    ensures
        r@ == spec_month_labels(weeks@.map_values(|w: Week| w@)),
{
    let ghost wsv = weeks@.map_values(|w: Week| w@);
    let mut labels: Vec<(usize, u32)> = Vec::new();
    let mut last: Option<(u32, u32)> = None;
    let ghost lastv: Option<(int, int)> = None;
    let mut k: usize = 0;
    proof {
        assert(labels@.map_values(|p: (usize, u32)| (p.0 as int, p.1 as int)) =~= Seq::<
            (int, int),
        >::empty());
        assert(Seq::<(int, int)>::empty() + spec_labels(wsv, 0, None) =~= spec_labels(
            wsv,
            0,
            None,
        ));
    }
    while k < weeks.len()
        invariant
            k <= weeks.len(),
            wsv == weeks@.map_values(|w: Week| w@),
            3 * weeks@.len() + 4 <= usize::MAX,
            spec_labels(wsv, 0, None) == labels@.map_values(|p: (usize, u32)| (p.0 as int, p.1 as int))
                + spec_labels(wsv, k as int, lastv),
            lastv == (match last {
                Some(p) => Some((p.0 as int, p.1 as int)),
                None => None::<(int, int)>,
            }),
            forall|j: int|
                0 <= j < labels@.len() ==> 1 <= (#[trigger] labels@[j]).1 <= 12 && labels@[j].0
                    < weeks@.len(),
        decreases weeks.len() - k,
    {
        let ghost labelsv = labels@.map_values(|p: (usize, u32)| (p.0 as int, p.1 as int));
        let week = &weeks[k];
        proof {
            assert(wsv[k as int] == weeks@[k as int]@);
        }
        if week.contribution_days.len() > 0 {
            proof {
                assert(wsv[k as int][0] == week.contribution_days@[0]@);
            }
            match parse_date(week.contribution_days[0].date.as_str()) {
                Some((y, m, d)) => {
                    let is_new = match last {
                        Some((ly, lm)) => !(ly == y && lm == m),
                        None => true,
                    };
                    if is_new && d <= 7 {
                        labels.push((k, m));
                        last = Some((y, m));
                        proof {
                            lastv = Some((y as int, m as int));
                            assert(labels@.map_values(
                                |p: (usize, u32)| (p.0 as int, p.1 as int),
                            ) =~= labelsv.push((k as int, m as int)));
                            assert(labelsv + (seq![(k as int, m as int)] + spec_labels(
                                wsv,
                                k as int + 1,
                                lastv,
                            )) =~= labelsv.push((k as int, m as int)) + spec_labels(
                                wsv,
                                k as int + 1,
                                lastv,
                            ));
                        }
                    }
                },
                None => {},
            }
        }
        k += 1;
    }
    proof {
        assert(spec_labels(wsv, weeks@.len() as int, lastv) =~= Seq::<(int, int)>::empty());
        assert(labels@.map_values(|p: (usize, u32)| (p.0 as int, p.1 as int)) + Seq::<
            (int, int),
        >::empty() =~= labels@.map_values(|p: (usize, u32)| (p.0 as int, p.1 as int)));
    }
    let ghost all_labels = labels@.map_values(|p: (usize, u32)| (p.0 as int, p.1 as int));
    let mut out: Vec<char> = Vec::new();
    let mut t: usize = 0;
    proof {
        assert(all_labels.skip(0) =~= all_labels);
        assert(out@ =~= Seq::<char>::empty());
    }
    while t < labels.len()
        invariant
            t <= labels.len(),
            all_labels == labels@.map_values(|p: (usize, u32)| (p.0 as int, p.1 as int)),
            3 * weeks@.len() + 4 <= usize::MAX,
            forall|j: int|
                0 <= j < labels@.len() ==> 1 <= (#[trigger] labels@[j]).1 <= 12 && labels@[j].0
                    < weeks@.len(),
            spec_place(Seq::empty(), all_labels) == spec_place(out@, all_labels.skip(t as int)),
        decreases labels.len() - t,
    {
        let (wk, m) = labels[t];
        let ghost pre = out@;
        let ghost rest = all_labels.skip(t as int);
        proof {
            assert(rest[0] == all_labels[t as int]);
            assert(all_labels[t as int] == (wk as int, m as int));
        }
        let target: usize = wk * 3;
        while out.len() < target
            invariant
                out@.len() >= pre.len(),
                out@.len() <= target || out@.len() == pre.len(),
                out@ == pre + spaces(out@.len() - pre.len()),
                target <= usize::MAX,
            decreases target - out.len(),
        {
            out.push(' ');
            proof {
                assert(spaces(out@.len() - pre.len()) =~= spaces(
                    out@.len() - 1 - pre.len(),
                ).push(' '));
                assert(pre + spaces(out@.len() - pre.len()) =~= (pre + spaces(
                    out@.len() - 1 - pre.len(),
                )).push(' '));
            }
        }
        proof {
            assert(spaces(0) =~= Seq::<char>::empty());
            if target as int > pre.len() {
                assert(out@.len() == target);
            } else {
                assert(out@.len() == pre.len());
                assert(out@ =~= pre);
            }
            let padded = if target as int > pre.len() {
                pre + spaces(target - pre.len())
            } else {
                pre
            };
            assert(out@ == padded);
        }
        let abbr = month_abbr(m);
        write_lit(&mut out, abbr);
        proof {
            assert(rest.skip(1) =~= all_labels.skip(t as int + 1));
        }
        t += 1;
    }
    proof {
        assert(all_labels.skip(labels@.len() as int) =~= Seq::<(int, int)>::empty());
    }
    string_from_chars(&out)
}

// ---------------------------------------------------------------------------
// The heatmap layout.
// ---------------------------------------------------------------------------
/// One run of text drawn in one style.
#[derive(Debug)]
pub struct Span {
    pub text: String,
    pub color: UiColor,
    pub bold: bool,
}

/// One row of the output.
#[derive(Debug)]
pub struct Line {
    pub spans: Vec<Span>,
}

/// The heatmap: a block at a screen position with the rows inside it.
#[derive(Debug)]
pub struct Heatmap {
    pub x: u16,
    pub y: u16,
    pub width: u16,
    pub height: u16,
    pub title: String,
    pub lines: Vec<Line>,
}

/// What rendering yields.
#[derive(Debug)]
pub enum RenderOutput {
    /// The viewport is below the floor: show a centered diagnostic with
    /// these measurements instead of a heatmap. A defined degraded state,
    /// not an error.
    TooSmall { min_width: u16, min_height: u16, width: u16, height: u16 },
    /// Nothing to draw: no calendar yet, or one with no weeks.
    Blank,
    /// The heatmap itself.
    Heatmap(Heatmap),
}

/// The viewport cannot hold a heatmap.
pub open spec fn too_small(width: u16, height: u16) -> bool {
    width < 30 || height < 12
}

/// How many whole weeks fit: borders, then the left labels, then three
/// columns per week.
pub open spec fn spec_max_weeks(width: u16) -> int {
    (width - 7) / 3
}

/// The first visible week: the most recent ones win.
pub open spec fn spec_start(total: int, maxw: int) -> int {
    if total > maxw {
        total - maxw
    } else {
        0
    }
}

/// One heatmap cell: a full block in the tier's color where the week has
/// the day, blank filler where it does not.
pub open spec fn spec_cell(span: Span, week: Seq<DayV>, d: int) -> bool {
    if d < week.len() {
        &&& span.text@ == seq!['█', '█']
        &&& span.color == spec_tier_color(spec_tier(week[d].count))
    } else {
        &&& span.text@ == seq![' ', ' ']
        &&& span.color == UiColor::White
    }
}

/// The gutter text beside a day row.
pub open spec fn spec_left_label(d: int) -> Seq<char> {
    if d == 1 {
        seq![' ', 'M', 'o', 'n', ' ']
    } else if d == 3 {
        seq![' ', 'W', 'e', 'd', ' ']
    } else if d == 5 {
        seq![' ', 'F', 'r', 'i', ' ']
    } else {
        seq![' ', ' ', ' ', ' ', ' ']
    }
}

/// One day row: the gutter label, then the week cells separated by single
/// spaces.
pub open spec fn spec_row_ok(line: Line, shown: Seq<Seq<DayV>>, d: int) -> bool {
    let n = shown.len() as int;
    &&& line.spans@.len() == 2 * n
    &&& line.spans@[0].text@ == spec_left_label(d)
    &&& line.spans@[0].color == UiColor::White
    &&& forall|k: int| 0 <= k < n ==> spec_cell(#[trigger] line.spans@[1 + 2 * k], shown[k], d)
    &&& forall|k: int| 0 <= k < n - 1 ==> (#[trigger] line.spans@[2 + 2 * k]).text@ == seq![' ']
}

/// The sample counts shown in the legend, least to most intense.
pub open spec fn spec_legend_level(j: int) -> u32 {
    if j == 0 {
        0
    } else if j == 1 {
        1
    } else if j == 2 {
        4
    } else if j == 3 {
        7
    } else {
        11
    }
}

/// The legend row: `Less`, the five tier swatches, `More`.
pub open spec fn spec_legend_ok(line: Line) -> bool {
    &&& line.spans@.len() == 12
    &&& line.spans@[0].text@ == seq![' ', ' ', 'L', 'e', 's', 's', ' ']
    &&& forall|j: int|
        0 <= j < 5 ==> (#[trigger] line.spans@[1 + 2 * j]).text@ == seq!['█', '█']
            && line.spans@[1 + 2 * j].color == spec_tier_color(spec_tier(spec_legend_level(j)))
    &&& forall|j: int| 0 <= j < 5 ==> (#[trigger] line.spans@[2 + 2 * j]).text@ == seq![' ']
    &&& line.spans@[11].text@ == seq!['M', 'o', 'r', 'e']
}

/// The block's title.
pub open spec fn spec_title(user: Seq<char>) -> Seq<char> {
    seq!['t', 'r', 'e', 'x', 'a', 'n', 'h', ' ', '-', ' ', '@'] + user
}

/// Everything the heatmap promises: the visible window is the most recent
/// weeks that fit, the block is centered, and every row is as
/// `spec_row_ok` says.
pub open spec fn spec_heatmap_ok(
    hm: Heatmap,
    ws: Seq<Seq<DayV>>,
    user: Seq<char>,
    width: u16,
    height: u16,
) -> bool {
    let maxw = spec_max_weeks(width);
    let start = spec_start(ws.len() as int, maxw);
    let shown = ws.skip(start);
    let n = shown.len() as int;
    &&& n == if ws.len() <= maxw {
        ws.len() as int
    } else {
        maxw
    }
    &&& hm.width == 7 + 3 * n
    &&& hm.height == 12
    &&& hm.x == ((width - hm.width) as u16) / 2
    &&& hm.y == ((height - 12) as u16) / 2
    &&& hm.title@ == spec_title(user)
    &&& hm.lines@.len() == 10
    &&& hm.lines@[0].spans@.len() == 2
    &&& hm.lines@[0].spans@[0].text@ == spec_left_label(0)
    &&& hm.lines@[0].spans@[1].text@ == spec_month_labels(shown)
    &&& hm.lines@[0].spans@[1].color == UiColor::White
    &&& forall|d: int| 0 <= d < 7 ==> spec_row_ok(#[trigger] hm.lines@[d + 1], shown, d)
    &&& hm.lines@[8].spans@.len() == 0
    &&& spec_legend_ok(hm.lines@[9])
}

fn left_label(d: usize) -> (r: String)
    requires
        d < 7,
    ensures
        r@ == spec_left_label(d as int),
{
    proof {
        reveal_strlit(" Mon ");
        reveal_strlit(" Wed ");
        reveal_strlit(" Fri ");
        reveal_strlit("     ");
        assert(" Mon "@ =~= seq![' ', 'M', 'o', 'n', ' ']);
        assert(" Wed "@ =~= seq![' ', 'W', 'e', 'd', ' ']);
        assert(" Fri "@ =~= seq![' ', 'F', 'r', 'i', ' ']);
        assert("     "@ =~= seq![' ', ' ', ' ', ' ', ' ']);
    }
    if d == 1 {
        String::from_str(" Mon ")
    } else if d == 3 {
        String::from_str(" Wed ")
    } else if d == 5 {
        String::from_str(" Fri ")
    } else {
        String::from_str("     ")
    }
}

fn block_text() -> (r: String)
    ensures
        r@ == seq!['█', '█'],
{
    proof {
        reveal_strlit("██");
        assert("██"@ =~= seq!['█', '█']);
    }
    String::from_str("██")
}

fn blank_cell_text() -> (r: String)
    ensures
        r@ == seq![' ', ' '],
{
    proof {
        reveal_strlit("  ");
        assert("  "@ =~= seq![' ', ' ']);
    }
    String::from_str("  ")
}

fn sep_text() -> (r: String)
    ensures
        r@ == seq![' '],
{
    proof {
        reveal_strlit(" ");
        assert(" "@ =~= seq![' ']);
    }
    String::from_str(" ")
}

fn legend_level(j: usize) -> (r: u32)
    requires
        j < 5,
    ensures
        r == spec_legend_level(j as int),
{
    if j == 0 {
        0
    } else if j == 1 {
        1
    } else if j == 2 {
        4
    } else if j == 3 {
        7
    } else {
        11
    }
}

/// Maps the calendar and the viewport to the heatmap, the blank state, or
/// the too-small diagnostic. A pure function of its arguments.
pub fn render(app: &App, width: u16, height: u16) -> (r: RenderOutput)
    ensures
        r is TooSmall <==> too_small(width, height),
        r matches RenderOutput::TooSmall { min_width, min_height, width: gw, height: gh } ==> (
        min_width == 30 && min_height == 12 && gw == width && gh == height),
        !too_small(width, height) ==> (match app.calendar {
            Some(cal) => if cal@.len() == 0 {
                r is Blank
            } else {
                r matches RenderOutput::Heatmap(hm) && spec_heatmap_ok(
                    hm,
                    cal@,
                    app.config.username@,
                    width,
                    height,
                )
            },
            None => r is Blank,
        }),
{
    if width < MIN_WIDTH || height < MIN_HEIGHT {
        return RenderOutput::TooSmall {
            min_width: MIN_WIDTH,
            min_height: MIN_HEIGHT,
            width,
            height,
        };
    }
    let calendar = match &app.calendar {
        Some(c) => c,
        None => {
            return RenderOutput::Blank;
        },
    };
    let total = calendar.weeks.len();
    if total == 0 {
        return RenderOutput::Blank;
    }
    let ghost ws = app.calendar->Some_0@;
    let max_weeks: usize = ((width - 7) as usize) / 3;
    let start = if total > max_weeks {
        total - max_weeks
    } else {
        0
    };
    let ghost shown_v = ws.skip(start as int);
    let mut shown: Vec<Week> = Vec::new();
    let mut i: usize = start;
    while i < total
        invariant
            start <= i <= total,
            total == calendar.weeks@.len(),
            ws == calendar@,
            app.calendar matches Some(c) && c == calendar,
            shown@.len() == i - start,
            forall|j: int| 0 <= j < i - start ==> (#[trigger] shown@[j])@ == ws[start + j],
        decreases total - i,
    {
        proof {
            assert(ws[i as int] == calendar.weeks@[i as int]@);
        }
        shown.push(calendar.weeks[i].clone());
        i += 1;
    }
    let n = shown.len();
    proof {
        assert(shown@.map_values(|w: Week| w@) =~= shown_v);
        assert(n == shown_v.len());
    }
    proof {
        assert(n >= 1);
    }
    let labels_str = get_month_labels(&shown);
    let mut lines: Vec<Line> = Vec::new();
    let mut header_spans: Vec<Span> = Vec::new();
    header_spans.push(Span { text: left_label(0), color: UiColor::White, bold: false });
    header_spans.push(Span { text: labels_str, color: UiColor::White, bold: false });
    lines.push(Line { spans: header_spans });
    let mut d: usize = 0;
    while d < 7
        invariant
            d <= 7,
            1 <= n,
            n == shown_v.len(),
            n == shown@.len(),
            shown@.map_values(|w: Week| w@) == shown_v,
            lines@.len() == 1 + d,
            lines@[0].spans@.len() == 2,
            lines@[0].spans@[0].text@ == spec_left_label(0),
            lines@[0].spans@[1].text@ == spec_month_labels(shown_v),
            lines@[0].spans@[1].color == UiColor::White,
            forall|rr: int| 1 <= rr <= d ==> spec_row_ok(#[trigger] lines@[rr], shown_v, rr - 1),
        decreases 7 - d,
    {
        let mut spans: Vec<Span> = Vec::new();
        spans.push(Span { text: left_label(d), color: UiColor::White, bold: false });
        let mut k: usize = 0;
        while k < n
            invariant
                k <= n,
                1 <= n,
                n == shown_v.len(),
                n == shown@.len(),
                shown@.map_values(|w: Week| w@) == shown_v,
                d < 7,
                spans@.len() == if k < n {
                    2 * k + 1
                } else {
                    2 * n
                },
                spans@[0].text@ == spec_left_label(d as int),
                spans@[0].color == UiColor::White,
                forall|t: int|
                    0 <= t < k ==> spec_cell(#[trigger] spans@[1 + 2 * t], shown_v[t], d as int),
                forall|t: int|
                    0 <= t < k && t + 1 < n ==> (#[trigger] spans@[2 + 2 * t]).text@ == seq![' '],
            decreases n - k,
        {
            proof {
                assert(shown@[k as int]@ == shown_v[k as int]);
            }
            if d < shown[k].contribution_days.len() {
                let c = shown[k].contribution_days[d].contribution_count;
                proof {
                    assert(shown_v[k as int][d as int] == shown@[k as int].contribution_days@[
                        d as int]@);
                }
                spans.push(
                    Span { text: block_text(), color: get_contribution_color(c), bold: false },
                );
            } else {
                spans.push(Span { text: blank_cell_text(), color: UiColor::White, bold: false });
            }
            if k + 1 < n {
                spans.push(Span { text: sep_text(), color: UiColor::White, bold: false });
            }
            k += 1;
        }
        lines.push(Line { spans });
        d += 1;
    }
    lines.push(Line { spans: Vec::new() });
    let mut lg: Vec<Span> = Vec::new();
    proof {
        reveal_strlit("  Less ");
        assert("  Less "@ =~= seq![' ', ' ', 'L', 'e', 's', 's', ' ']);
        reveal_strlit("More");
        assert("More"@ =~= seq!['M', 'o', 'r', 'e']);
    }
    lg.push(Span { text: String::from_str("  Less "), color: UiColor::White, bold: false });
    let mut j: usize = 0;
    while j < 5
        invariant
            j <= 5,
            lg@.len() == 1 + 2 * j,
            lg@[0].text@ == seq![' ', ' ', 'L', 'e', 's', 's', ' '],
            forall|t: int|
                0 <= t < j ==> (#[trigger] lg@[1 + 2 * t]).text@ == seq!['█', '█'] && lg@[1 + 2
                    * t].color == spec_tier_color(spec_tier(spec_legend_level(t))),
            forall|t: int| 0 <= t < j ==> (#[trigger] lg@[2 + 2 * t]).text@ == seq![' '],
        decreases 5 - j,
    {
        let lv = legend_level(j);
        lg.push(Span { text: block_text(), color: get_contribution_color(lv), bold: false });
        lg.push(Span { text: sep_text(), color: UiColor::White, bold: false });
        j += 1;
    }
    lg.push(Span { text: String::from_str("More"), color: UiColor::White, bold: false });
    lines.push(Line { spans: lg });
    let cal_width: usize = 5 + 3 * n;
    let hm_width: u16 = (cal_width + 2) as u16;
    let mut title = String::from_str("trexanh - @");
    proof {
        reveal_strlit("trexanh - @");
        assert("trexanh - @"@ =~= seq!['t', 'r', 'e', 'x', 'a', 'n', 'h', ' ', '-', ' ', '@']);
    }
    title.append(username_str(app));
    let hm = Heatmap {
        x: (width - hm_width) / 2,
        y: (height - 12) / 2,
        width: hm_width,
        height: 12,
        title,
        lines,
    };
    proof {
        assert(spec_heatmap_ok(hm, ws, app.config.username@, width, height));
    }
    RenderOutput::Heatmap(hm)
}

/// The identity, read as a borrowed string.
fn username_str(app: &App) -> (r: &str)
    ensures
        r@ == app.config.username@,
{
    app.config.username.as_str()
}

// ---------------------------------------------------------------------------
// The text form of a rendered heatmap.
// ---------------------------------------------------------------------------
/// The escape that selects a color as the foreground.
pub open spec fn spec_color_code(c: UiColor) -> Seq<char> {
    match c {
        UiColor::Rgb(r, g, b) => seq!['\u{1b}', '[', '3', '8', ';', '2', ';'] + ser_number(
            r as u32,
        ) + seq![';'] + ser_number(g as u32) + seq![';'] + ser_number(b as u32) + seq!['m'],
        UiColor::White => seq!['\u{1b}', '[', '3', '7', 'm'],
        UiColor::Red => seq!['\u{1b}', '[', '3', '1', 'm'],
    }
}

/// The bold attribute.
pub open spec fn spec_bold_code() -> Seq<char> {
    seq!['\u{1b}', '[', '1', 'm']
}

/// The reset that ends a styled run.
pub open spec fn spec_reset_code() -> Seq<char> {
    seq!['\u{1b}', '[', '0', 'm']
}

pub open spec fn all_spaces(s: Seq<char>) -> bool {
    forall|i: int| 0 <= i < s.len() ==> s[i] == ' '
}

/// One span in the dump: bare text when it is only spaces (so that rows
/// can be trimmed), else the text behind its color and bold escapes,
/// closed by a reset.
pub open spec fn spec_span_text(s: Span) -> Seq<char> {
    if all_spaces(s.text@) {
        s.text@
    } else {
        spec_color_code(s.color) + (if s.bold {
            spec_bold_code()
        } else {
            Seq::empty()
        }) + s.text@ + spec_reset_code()
    }
}

/// A row's spans, in order.
pub open spec fn spec_spans_text(spans: Seq<Span>) -> Seq<char>
    decreases spans.len(),
{
    if spans.len() == 0 {
        Seq::empty()
    } else {
        spec_spans_text(spans.drop_last()) + spec_span_text(spans.last())
    }
}

/// The text without its trailing spaces.
pub open spec fn spec_trim_right(s: Seq<char>) -> Seq<char>
    decreases s.len(),
{
    if s.len() > 0 && s.last() == ' ' {
        spec_trim_right(s.drop_last())
    } else {
        s
    }
}

/// The grid as text: one line per row, top to bottom, each trimmed on the
/// right, separated by newlines.
pub open spec fn spec_lines_text(lines: Seq<Line>) -> Seq<char>
    decreases lines.len(),
{
    if lines.len() == 0 {
        Seq::empty()
    } else {
        let row = spec_trim_right(spec_spans_text(lines.last().spans@));
        if lines.len() == 1 {
            row
        } else {
            spec_lines_text(lines.drop_last()) + seq!['\n'] + row
        }
    }
}

fn push_color_code(out: &mut Vec<char>, c: UiColor)
    ensures
        final(out)@ == old(out)@ + spec_color_code(c),
{
    match c {
        UiColor::Rgb(r, g, b) => {
            out.push('\u{1b}');
            out.push('[');
            out.push('3');
            out.push('8');
            out.push(';');
            out.push('2');
            out.push(';');
            write_number(out, r as u32);
            out.push(';');
            write_number(out, g as u32);
            out.push(';');
            write_number(out, b as u32);
            out.push('m');
            proof {
                assert(out@ =~= old(out)@ + spec_color_code(c));
            }
        },
        UiColor::White => {
            out.push('\u{1b}');
            out.push('[');
            out.push('3');
            out.push('7');
            out.push('m');
            proof {
                assert(out@ =~= old(out)@ + spec_color_code(c));
            }
        },
        UiColor::Red => {
            out.push('\u{1b}');
            out.push('[');
            out.push('3');
            out.push('1');
            out.push('m');
            proof {
                assert(out@ =~= old(out)@ + spec_color_code(c));
            }
        },
    }
}

fn is_all_spaces(s: &str) -> (r: bool)
    ensures
        r == all_spaces(s@),
{
    let cs = str_chars(s);
    let mut i: usize = 0;
    while i < cs.len()
        invariant
            i <= cs.len(),
            cs@ == s@,
            forall|t: int| 0 <= t < i ==> s@[t] == ' ',
        decreases cs.len() - i,
    {
        if cs[i] != ' ' {
            return false;
        }
        i += 1;
    }
    true
}

fn push_span_text(out: &mut Vec<char>, s: &Span)
    ensures
        final(out)@ == old(out)@ + spec_span_text(*s),
{
    if is_all_spaces(s.text.as_str()) {
        write_lit(out, s.text.as_str());
    } else {
        push_color_code(out, s.color);
        if s.bold {
            out.push('\u{1b}');
            out.push('[');
            out.push('1');
            out.push('m');
        }
        write_lit(out, s.text.as_str());
        out.push('\u{1b}');
        out.push('[');
        out.push('0');
        out.push('m');
        proof {
            assert(out@ =~= old(out)@ + spec_span_text(*s));
        }
    }
}

impl Heatmap {
    /// The grid as one deterministic text block: rows top to bottom, each
    /// span's text behind its color (and bold) escape, space-only spans
    /// bare, trailing whitespace trimmed — the golden form of the render
    /// engine's output.
    pub fn to_text(&self) -> (r: String)
        ensures
            r@ == spec_lines_text(self.lines@),
    {
        let mut out: Vec<char> = Vec::new();
        let mut li: usize = 0;
        proof {
            assert(self.lines@.take(0).len() == 0);
            assert(out@ =~= spec_lines_text(self.lines@.take(0)));
        }
        while li < self.lines.len()
            invariant
                li <= self.lines@.len(),
                out@ == spec_lines_text(self.lines@.take(li as int)),
            decreases self.lines@.len() - li,
        {
            let line = &self.lines[li];
            let mut lb: Vec<char> = Vec::new();
            let mut k: usize = 0;
            proof {
                assert(line.spans@.take(0).len() == 0);
                assert(lb@ =~= spec_spans_text(line.spans@.take(0)));
            }
            while k < line.spans.len()
                invariant
                    k <= line.spans@.len(),
                    lb@ == spec_spans_text(line.spans@.take(k as int)),
                decreases line.spans@.len() - k,
            {
                push_span_text(&mut lb, &line.spans[k]);
                proof {
                    assert(line.spans@.take(k + 1).drop_last() =~= line.spans@.take(k as int));
                    assert(line.spans@.take(k + 1).last() == line.spans@[k as int]);
                }
                k += 1;
            }
            proof {
                assert(line.spans@.take(line.spans@.len() as int) =~= line.spans@);
            }
            let ghost full_row = lb@;
            while lb.len() > 0 && lb[lb.len() - 1] == ' '
                invariant
                    spec_trim_right(full_row) == spec_trim_right(lb@),
                decreases lb@.len(),
            {
                lb.pop();
            }
            proof {
                assert(spec_trim_right(full_row) == lb@);
            }
            if li > 0 {
                out.push('\n');
            }
            let ghost base = out@;
            let mut t: usize = 0;
            proof {
                assert(out@ =~= base + lb@.take(0));
            }
            while t < lb.len()
                invariant
                    t <= lb@.len(),
                    out@ == base + lb@.take(t as int),
                decreases lb@.len() - t,
            {
                out.push(lb[t]);
                proof {
                    assert(lb@.take(t + 1) =~= lb@.take(t as int).push(lb@[t as int]));
                    assert(base + lb@.take(t + 1) =~= (base + lb@.take(t as int)).push(
                        lb@[t as int],
                    ));
                }
                t += 1;
            }
            proof {
                assert(lb@.take(lb@.len() as int) =~= lb@);
                assert(self.lines@.take(li + 1).drop_last() =~= self.lines@.take(li as int));
                assert(self.lines@.take(li + 1).last() == self.lines@[li as int]);
                assert(out@ =~= spec_lines_text(self.lines@.take(li + 1)));
            }
            li += 1;
        }
        proof {
            assert(self.lines@.take(self.lines@.len() as int) =~= self.lines@);
        }
        string_from_chars(&out)
    }
}

} // verus!
