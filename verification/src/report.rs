//! The listing: entries sorted by date, grouped by month, each balance and
//! the grand total printed as a sign, hours and minutes.

use vstd::prelude::*;
use vstd::string::*;
use crate::dates::{dotted_rep, push_dotted, Date};
use crate::digits::dec_rep;
use crate::store::{OvertimeData, OvertimeEntry};
use crate::text::{chars_to_string, num_string};

verus! {

/// `e` placed before the first entry of `s` it does not follow.
pub open spec fn insert_by_date(e: OvertimeEntry, s: Seq<OvertimeEntry>) -> Seq<OvertimeEntry>
    decreases s.len(),
{
    if s.len() == 0 {
        seq![e]
    } else if e.date.spec_before_eq(s[0].date) {
        seq![e] + s
    } else {
        seq![s[0]] + insert_by_date(e, s.skip(1))
    }
}

/// Insertion sort by date, stable and deterministic.
pub open spec fn sort_by_date(s: Seq<OvertimeEntry>) -> Seq<OvertimeEntry>
    decreases s.len(),
{
    if s.len() == 0 {
        Seq::empty()
    } else {
        insert_by_date(s.last(), sort_by_date(s.drop_last()))
    }
}

/// Signed sum of all balances.
pub open spec fn total_minutes(s: Seq<OvertimeEntry>) -> int
    decreases s.len(),
{
    if s.len() == 0 {
        0
    } else {
        s[0].minutes + total_minutes(s.skip(1))
    }
}

pub open spec fn abs_of(m: int) -> nat {
    if m < 0 {
        (-m) as nat
    } else {
        m as nat
    }
}

/// The sign column of an entry row: `-` for deficits, a space otherwise.
pub open spec fn entry_sign(m: int) -> Seq<char> {
    if m < 0 {
        "-"@
    } else {
        " "@
    }
}

/// The sign of the grand total: `-` for deficits, nothing otherwise.
pub open spec fn total_sign(m: int) -> Seq<char> {
    if m < 0 {
        "-"@
    } else {
        ""@
    }
}

/// One table row: `dd.mm.yyyy | ±Hh Mm`.
pub open spec fn row_line(e: OvertimeEntry) -> Seq<char> {
    dotted_rep(e.date) + " | "@ + entry_sign(e.minutes as int) + dec_rep(
        abs_of(e.minutes as int) / 60,
    ) + "h "@ + dec_rep(abs_of(e.minutes as int) % 60) + "m"@
}

/// Two dates of one report group.
pub open spec fn same_month(a: Date, b: Date) -> bool {
    a.year == b.year && a.month == b.month
}

/// The four lines that open a month's table.
pub open spec fn group_header(d: Date) -> Seq<Seq<char>> {
    seq![
        Seq::<char>::empty(),
        dec_rep(d.year as nat) + "-"@ + dec_rep(d.month as nat) + ":"@,
        "Date       | Overtime"@,
        "-----------+---------"@,
    ]
}

/// The table body over date-sorted entries: a header whenever the month
/// changes, then one row per entry.
pub open spec fn body_lines(s: Seq<OvertimeEntry>, prev: Option<Date>) -> Seq<Seq<char>>
    decreases s.len(),
{
    if s.len() == 0 {
        Seq::empty()
    } else {
        let e = s[0];
        let hdr = match prev {
            Option::Some(p) => if same_month(p, e.date) {
                Seq::<Seq<char>>::empty()
            } else {
                group_header(e.date)
            },
            Option::None => group_header(e.date),
        };
        hdr + seq![row_line(e)] + body_lines(s.skip(1), Option::Some(e.date))
    }
}

/// The closing line with the signed grand total.
pub open spec fn total_line(t: int) -> Seq<char> {
    "Total overtime: "@ + total_sign(t) + dec_rep(abs_of(t) / 60) + " hours and "@ + dec_rep(
        abs_of(t) % 60,
    ) + " minutes"@
}

/// Everything `list_overtime` prints, one line per element.
pub open spec fn report_lines(s: Seq<OvertimeEntry>) -> Seq<Seq<char>> {
    if s.len() == 0 {
        seq!["No overtime entries found."@]
    } else {
        body_lines(sort_by_date(s), Option::None) + seq![
            Seq::<char>::empty(),
            total_line(total_minutes(s)),
        ]
    }
}

/// Inserting an entry adds its minutes to the sum.
proof fn lemma_total_insert(e: OvertimeEntry, s: Seq<OvertimeEntry>)
    ensures
        total_minutes(insert_by_date(e, s)) == e.minutes + total_minutes(s),
    decreases s.len(),
{
    reveal_with_fuel(total_minutes, 3);
    if s.len() == 0 {
        assert(insert_by_date(e, s) =~= seq![e]);
        assert(seq![e].skip(1) =~= Seq::<OvertimeEntry>::empty());
    } else if e.date.spec_before_eq(s[0].date) {
        assert((seq![e] + s).skip(1) =~= s);
        assert((seq![e] + s)[0] == e);
    } else {
        lemma_total_insert(e, s.skip(1));
        assert((seq![s[0]] + insert_by_date(e, s.skip(1))).skip(1) =~= insert_by_date(e, s.skip(1)));
        assert((seq![s[0]] + insert_by_date(e, s.skip(1)))[0] == s[0]);
    }
}

/// Appending an entry adds its minutes to the sum.
proof fn lemma_total_push(s: Seq<OvertimeEntry>, e: OvertimeEntry)
    ensures
        total_minutes(s.push(e)) == total_minutes(s) + e.minutes,
    decreases s.len(),
{
    reveal_with_fuel(total_minutes, 3);
    if s.len() == 0 {
        assert(s.push(e) =~= seq![e]);
        assert(seq![e].skip(1) =~= Seq::<OvertimeEntry>::empty());
    } else {
        assert(s.push(e).skip(1) =~= s.skip(1).push(e));
        assert(s.push(e)[0] == s[0]);
        lemma_total_push(s.skip(1), e);
    }
}

/// Sorting does not change the sum of minutes.
pub proof fn lemma_total_sorted(s: Seq<OvertimeEntry>)
    ensures
        total_minutes(sort_by_date(s)) == total_minutes(s),
    decreases s.len(),
{
    if s.len() > 0 {
        lemma_total_sorted(s.drop_last());
        lemma_total_insert(s.last(), sort_by_date(s.drop_last()));
        assert(s =~= s.drop_last().push(s.last()));
        lemma_total_push(s.drop_last(), s.last());
    }
}

/// An empty store reports the no-entries message and nothing else.
pub proof fn lemma_report_empty(s: Seq<OvertimeEntry>)
    requires
        s.len() == 0,
    ensures
        report_lines(s) == seq!["No overtime entries found."@],
{
}

/// A non-empty report closes with the grand total line: the signed sum of
/// all entries' minutes, split into hours and minutes with its sign.
pub proof fn lemma_report_total(s: Seq<OvertimeEntry>)
    requires
        s.len() > 0,
    ensures
        report_lines(s).len() > 0,
        report_lines(s).last() == total_line(total_minutes(s)),
{
}

/// `insert_by_date` at the first fitting position is a slice splice.
proof fn lemma_insert_by_date_at(e: OvertimeEntry, s: Seq<OvertimeEntry>, j: int)
    requires
        0 <= j <= s.len(),
        forall|k: int| 0 <= k < j ==> !e.date.spec_before_eq((#[trigger] s[k]).date),
        j < s.len() ==> e.date.spec_before_eq(s[j].date),
    ensures
        insert_by_date(e, s) == s.take(j) + seq![e] + s.skip(j),
    decreases s.len(),
{
    if s.len() == 0 {
        assert(insert_by_date(e, s) =~= s.take(0) + seq![e] + s.skip(0));
    } else if j == 0 {
        assert(seq![e] + s =~= s.take(0) + seq![e] + s.skip(0));
    } else {
        assert(!e.date.spec_before_eq(s[0].date));
        assert forall|k: int| 0 <= k < j - 1 implies !e.date.spec_before_eq(
            (#[trigger] s.skip(1)[k]).date,
        ) by {
            assert(s.skip(1)[k] == s[k + 1]);
        }
        if j - 1 < s.skip(1).len() {
            assert(s.skip(1)[j - 1] == s[j]);
        }
        lemma_insert_by_date_at(e, s.skip(1), j - 1);
        assert(seq![s[0]] + insert_by_date(e, s.skip(1)) =~= s.take(j) + seq![e] + s.skip(j));
    }
}

/// One insertion-sort step on vectors.
fn insert_sorted_vec(e: OvertimeEntry, v: &Vec<OvertimeEntry>) -> (r: Vec<OvertimeEntry>)
    ensures
        r@ == insert_by_date(e, v@),
{
    let n = v.len();
    let mut j: usize = 0;
    while j < n && !e.date.before_eq(&v[j].date)
        invariant
            n == v@.len(),
            0 <= j <= n,
            forall|k: int| 0 <= k < j ==> !e.date.spec_before_eq((#[trigger] v@[k]).date),
        decreases n - j,
    {
        j += 1;
    }
    proof {
        assert(j < n ==> e.date.spec_before_eq(v@[j as int].date));
    }
    let mut out: Vec<OvertimeEntry> = Vec::new();
    let mut k: usize = 0;
    proof {
        assert(out@ =~= v@.take(0));
    }
    while k < j
        invariant
            0 <= k <= j <= v@.len(),
            out@ == v@.take(k as int),
        decreases j - k,
    {
        out.push(v[k]);
        proof {
            assert(out@ =~= v@.take(k + 1));
        }
        k += 1;
    }
    out.push(e);
    let mut k2: usize = j;
    while k2 < n
        invariant
            n == v@.len(),
            0 <= j <= k2 <= n,
            out@ == v@.take(j as int) + seq![e] + v@.subrange(j as int, k2 as int),
        decreases n - k2,
    {
        out.push(v[k2]);
        proof {
            assert(out@ =~= v@.take(j as int) + seq![e] + v@.subrange(j as int, k2 + 1));
        }
        k2 += 1;
    }
    proof {
        assert(v@.subrange(j as int, n as int) =~= v@.skip(j as int));
        lemma_insert_by_date_at(e, v@, j as int);
    }
    out
}

/// Date-sorted copy of the entries.
fn sorted_by_date_vec(v: &Vec<OvertimeEntry>) -> (r: Vec<OvertimeEntry>)
    ensures
        r@ == sort_by_date(v@),
{
    let mut out: Vec<OvertimeEntry> = Vec::new();
    let mut i: usize = 0;
    let n = v.len();
    proof {
        assert(v@.take(0) =~= Seq::<OvertimeEntry>::empty());
    }
    while i < n
        invariant
            n == v@.len(),
            0 <= i <= n,
            out@ == sort_by_date(v@.take(i as int)),
        decreases n - i,
    {
        out = insert_sorted_vec(v[i], &out);
        proof {
            assert(v@.take(i + 1).drop_last() =~= v@.take(i as int));
            assert(v@.take(i + 1).last() == v@[i as int]);
        }
        i += 1;
    }
    proof {
        assert(v@.take(n as int) =~= v@);
    }
    out
}

/// One table row as a string.
fn row_string(e: OvertimeEntry) -> (r: String)
    ensures
        r@ == row_line(e),
{
    let mut v: Vec<char> = Vec::new();
    push_dotted(&mut v, e.date);
    let mut s = chars_to_string(&v);
    s.append(" | ");
    if e.minutes < 0 {
        s.append("-");
    } else {
        s.append(" ");
    }
    let m64: i64 = e.minutes as i64;
    let a: u64 = if m64 < 0 {
        (-m64) as u64
    } else {
        m64 as u64
    };
    s.append(num_string(a as u128 / 60).as_str());
    s.append("h ");
    s.append(num_string(a as u128 % 60).as_str());
    s.append("m");
    s
}

/// The closing total line as a string.
fn total_string(t: i128) -> (r: String)
    requires
        t != i128::MIN,
    ensures
        r@ == total_line(t as int),
{
    proof {
        reveal_strlit("");
        assert(""@ =~= Seq::<char>::empty());
    }
    let mut s = String::new();
    s.append("Total overtime: ");
    if t < 0 {
        s.append("-");
    }
    let a: u128 = if t < 0 {
        (-t) as u128
    } else {
        t as u128
    };
    s.append(num_string(a / 60).as_str());
    s.append(" hours and ");
    s.append(num_string(a % 60).as_str());
    s.append(" minutes");
    s
}

impl OvertimeData {
    /// The full listing, line by line: entries sorted by date, grouped by
    /// month in chronological order, then the signed grand total.
    pub fn list_overtime(&self) -> (r: Vec<String>)
        ensures
            r.deep_view() == report_lines(self.entries@),
    {
        let mut lines: Vec<String> = Vec::new();
        if self.entries.len() == 0 {
            lines.push("No overtime entries found.".to_owned());
            proof {
                assert(lines.deep_view() =~= report_lines(self.entries@));
            }
            return lines;
        }
        let sorted = sorted_by_date_vec(&self.entries);
        let n = sorted.len();
        let mut total: i128 = 0;
        let mut prev: Option<Date> = None;
        let mut i: usize = 0;
        proof {
            assert(sorted@.skip(0) =~= sorted@);
            assert(sorted@.take(0) =~= Seq::<OvertimeEntry>::empty());
            assert(lines.deep_view() =~= Seq::<Seq<char>>::empty());
        }
        while i < n
            invariant
                n == sorted@.len(),
                0 <= i <= n,
                sorted@ == sort_by_date(self.entries@),
                lines.deep_view() + body_lines(sorted@.skip(i as int), prev) == body_lines(
                    sorted@,
                    Option::None,
                ),
                total == total_minutes(sorted@.take(i as int)),
                -(i as int) * 0x8000_0000 <= total <= (i as int) * 0x8000_0000,
            decreases n - i,
        {
            let e = sorted[i];
            let ghost lines_before = lines.deep_view();
            let ghost hdr: Seq<Seq<char>> = match prev {
                Option::Some(p) => if same_month(p, e.date) {
                    Seq::<Seq<char>>::empty()
                } else {
                    group_header(e.date)
                },
                Option::None => group_header(e.date),
            };
            let need_hdr = match prev {
                Option::Some(p) => !(p.year == e.date.year && p.month == e.date.month),
                Option::None => true,
            };
            if need_hdr {
                lines.push(String::new());
                let mut h = num_string(e.date.year as u128);
                h.append("-");
                h.append(num_string(e.date.month as u128).as_str());
                h.append(":");
                lines.push(h);
                lines.push("Date       | Overtime".to_owned());
                lines.push("-----------+---------".to_owned());
            }
            lines.push(row_string(e));
            proof {
                assert(lines.deep_view() =~= lines_before + hdr + seq![row_line(e)]);
                assert(sorted@.skip(i as int)[0] == e);
                assert(sorted@.skip(i as int).skip(1) =~= sorted@.skip(i + 1));
                assert(lines_before + hdr + seq![row_line(e)] + body_lines(
                    sorted@.skip(i + 1),
                    Option::Some(e.date),
                ) =~= lines_before + (hdr + seq![row_line(e)] + body_lines(
                    sorted@.skip(i + 1),
                    Option::Some(e.date),
                )));
                assert(sorted@.take(i + 1).drop_last() =~= sorted@.take(i as int));
                lemma_total_push(sorted@.take(i as int), e);
                assert(sorted@.take(i + 1) =~= sorted@.take(i as int).push(e));
                assert(usize::MAX as int <= 0xffff_ffff_ffff_ffff);
            }
            total = total + e.minutes as i128;
            prev = Some(e.date);
            i += 1;
        }
        proof {
            assert(sorted@.skip(n as int) =~= Seq::<OvertimeEntry>::empty());
            assert(sorted@.take(n as int) =~= sorted@);
            lemma_total_sorted(self.entries@);
            assert(total != i128::MIN) by {
                assert(-(n as int) * 0x8000_0000 <= total);
                assert(usize::MAX as int <= 0xffff_ffff_ffff_ffff);
            }
        }
        let ghost body = lines.deep_view();
        lines.push(String::new());
        lines.push(total_string(total));
        proof {
            assert(lines.deep_view() =~= body + seq![
                Seq::<char>::empty(),
                total_line(total_minutes(self.entries@)),
            ]);
        }
        lines
    }
}

} // verus!
