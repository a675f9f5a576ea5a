//! The persisted text: one object holding the entry sequence, written in a
//! fixed shape and read back with surrounding whitespace allowed.

use vstd::prelude::*;
use vstd::string::*;
use crate::dates::{iso_rep, push_iso, Date};
use crate::digits::{
    all_digits, dec_pad, dec_rep, digits_val, is_dec_digit, is_dec_digit_exec, parse_digits_vec,
    pow10,
};
use crate::digits::{lemma_char_at, lemma_split_at};
use crate::store::{OvertimeData, OvertimeEntry};
use crate::text::{chars_to_string, num_string, str_to_chars};

verus! {

/// Why a persisted file was rejected.
#[derive(Clone, Copy, Debug, PartialEq, Eq, Structural)]
pub enum CodecError {
    /// The text does not have the stored shape, or holds values out of range.
    Malformed,
    /// Two stored entries name the same date.
    DuplicateDate,
}

/// No two entries share a date.
pub open spec fn distinct_dates(s: Seq<OvertimeEntry>) -> bool {
    forall|i: int, j: int| 0 <= i < j < s.len() ==> s[i].date != s[j].date
}

/// A signed minute count as decimal text.
pub open spec fn int_rep(m: int) -> Seq<char> {
    if m < 0 {
        "-"@ + dec_rep((-m) as nat)
    } else {
        dec_rep(m as nat)
    }
}

/// One stored entry.
pub open spec fn json_entry_rep(e: OvertimeEntry) -> Seq<char> {
    "{\"date\":\""@ + iso_rep(e.date) + "\",\"minutes\":"@ + int_rep(e.minutes as int) + "}"@
}

/// The stored entries, comma separated.
pub open spec fn json_items_rep(s: Seq<OvertimeEntry>) -> Seq<char>
    decreases s.len(),
{
    if s.len() == 0 {
        Seq::empty()
    } else if s.len() == 1 {
        json_entry_rep(s[0])
    } else {
        json_entry_rep(s[0]) + ","@ + json_items_rep(s.skip(1))
    }
}

/// The whole stored file.
pub open spec fn json_rep(s: Seq<OvertimeEntry>) -> Seq<char> {
    "{\"entries\":["@ + json_items_rep(s) + "]}"@
}

proof fn lemma_items_rep_push(s: Seq<OvertimeEntry>, e: OvertimeEntry)
    ensures
        json_items_rep(s.push(e)) == if s.len() == 0 {
            json_entry_rep(e)
        } else {
            json_items_rep(s) + ","@ + json_entry_rep(e)
        },
    decreases s.len(),
{
    reveal_with_fuel(json_items_rep, 3);
    if s.len() == 0 {
        assert(s.push(e) =~= seq![e]);
    } else {
        assert(s.push(e).skip(1) =~= s.skip(1).push(e));
        assert(s.push(e)[0] == s[0]);
        lemma_items_rep_push(s.skip(1), e);
        if s.len() == 1 {
            assert(s.skip(1).len() == 0);
            assert(json_items_rep(s) == json_entry_rep(s[0]));
        } else {
            assert(json_entry_rep(s[0]) + ","@ + (json_items_rep(s.skip(1)) + ","@
                + json_entry_rep(e)) =~= (json_entry_rep(s[0]) + ","@ + json_items_rep(s.skip(1)))
                + ","@ + json_entry_rep(e));
        }
    }
}

/// One entry as stored text.
fn entry_string(e: &OvertimeEntry) -> (r: String)
    ensures
        r@ == json_entry_rep(*e),
{
    let mut s = String::new();
    s.append("{\"date\":\"");
    let mut v: Vec<char> = Vec::new();
    push_iso(&mut v, e.date);
    s.append(chars_to_string(&v).as_str());
    s.append("\",\"minutes\":");
    let m64: i64 = e.minutes as i64;
    if m64 < 0 {
        s.append("-");
        s.append(num_string((-m64) as u128).as_str());
    } else {
        s.append(num_string(m64 as u128).as_str());
    }
    s.append("}");
    proof {
        assert(Seq::<char>::empty() + "{\"date\":\""@ =~= "{\"date\":\""@);
        assert(s@ =~= json_entry_rep(*e));
    }
    s
}

impl OvertimeData {
    /// Serializes the store; `from_json` reads this text back unchanged.
    pub fn to_json(&self) -> (r: String)
        ensures
            r@ == json_rep(self.entries@),
    {
        let mut s = String::new();
        s.append("{\"entries\":[");
        proof {
            assert(Seq::<char>::empty() + "{\"entries\":["@ =~= "{\"entries\":["@);
            assert(self.entries@.take(0) =~= Seq::<OvertimeEntry>::empty());
        }
        let n = self.entries.len();
        let mut i: usize = 0;
        while i < n
            invariant
                n == self.entries@.len(),
                0 <= i <= n,
                s@ == "{\"entries\":["@ + json_items_rep(self.entries@.take(i as int)),
            decreases n - i,
        {
            if i > 0 {
                s.append(",");
            }
            s.append(entry_string(&self.entries[i]).as_str());
            proof {
                let pre = self.entries@.take(i as int);
                assert(self.entries@.take(i + 1) =~= pre.push(self.entries@[i as int]));
                lemma_items_rep_push(pre, self.entries@[i as int]);
                if i > 0 {
                    assert(s@ =~= "{\"entries\":["@ + json_items_rep(self.entries@.take(i + 1)));
                } else {
                    assert(s@ =~= "{\"entries\":["@ + json_items_rep(self.entries@.take(i + 1)));
                }
            }
            i += 1;
        }
        s.append("]}");
        proof {
            assert(self.entries@.take(n as int) =~= self.entries@);
            assert(s@ =~= json_rep(self.entries@));
        }
        s
    }
}

/// Whitespace allowed between stored tokens.
pub open spec fn is_ws(c: char) -> bool {
    c == ' ' || c == '\n' || c == '\t' || c == '\r'
}

/// First position at or after `i` that holds no whitespace.
pub open spec fn skip_ws(s: Seq<char>, i: int) -> int
    decreases s.len() - i,
{
    if 0 <= i < s.len() && is_ws(s[i]) {
        skip_ws(s, i + 1)
    } else {
        i
    }
}

fn is_ws_exec(c: char) -> (r: bool)
    ensures
        r == is_ws(c),
{
    c == ' ' || c == '\n' || c == '\t' || c == '\r'
}

fn skip_ws_exec(v: &Vec<char>, i: usize) -> (j: usize)
    requires
        i <= v@.len(),
    ensures
        j as int == skip_ws(v@, i as int),
        i <= j <= v@.len(),
{
    let n = v.len();
    let mut j: usize = i;
    while j < n && is_ws_exec(v[j])
        invariant
            n == v@.len(),
            i <= j <= n,
            skip_ws(v@, i as int) == skip_ws(v@, j as int),
        decreases n - j,
    {
        j += 1;
    }
    j
}

/// `lit` stands at position `i` of `s`.
pub open spec fn has_lit(s: Seq<char>, i: int, lit: Seq<char>) -> bool {
    0 <= i && i + lit.len() <= s.len() && s.subrange(i, i + lit.len()) == lit
}

fn expect_lit(v: &Vec<char>, i: usize, lit: &str) -> (r: bool)
    requires
        i <= v@.len(),
    ensures
        r == has_lit(v@, i as int, lit@),
{
    let ln = lit.unicode_len();
    if ln > v.len() - i {
        return false;
    }
    let mut k: usize = 0;
    while k < ln
        invariant
            i + ln <= v@.len(),
            v@.len() <= usize::MAX,
            ln == lit@.len(),
            0 <= k <= ln,
            forall|m: int| 0 <= m < k ==> v@[i + m] == lit@[m],
        decreases ln - k,
    {
        let c = v[i + k];
        if c != lit.get_char(k) {
            proof {
                assert(v@.subrange(i as int, i + ln)[k as int] == c);
            }
            return false;
        }
        k += 1;
    }
    proof {
        assert(v@.subrange(i as int, i + ln) =~= lit@);
    }
    true
}

/// End of the digit run starting at `i`.
pub open spec fn digits_end(s: Seq<char>, i: int) -> int
    decreases s.len() - i,
{
    if 0 <= i < s.len() && is_dec_digit(s[i]) {
        digits_end(s, i + 1)
    } else {
        i
    }
}

/// A signed decimal number at `i`: an optional `-`, then a non-empty digit
/// run, whose value must fit an `i32`.
pub open spec fn parse_i32_at(s: Seq<char>, i: int) -> Option<(int, int)> {
    let neg = 0 <= i < s.len() && s[i] == '-';
    let i0 = if neg {
        i + 1
    } else {
        i
    };
    let e = digits_end(s, i0);
    if e == i0 {
        None
    } else {
        let m = digits_val(s.subrange(i0, e));
        let v = if neg {
            -m
        } else {
            m
        };
        if i32::MIN <= v <= i32::MAX {
            Some((v, e))
        } else {
            None
        }
    }
}

fn parse_i32_exec(v: &Vec<char>, i: usize) -> (r: Option<(i32, usize)>)
    requires
        i <= v@.len(),
    ensures
        match r {
            Some((x, j)) => parse_i32_at(v@, i as int) == Some((x as int, j as int)) && i < j
                <= v@.len(),
            None => parse_i32_at(v@, i as int) is None,
        },
{
    let n = v.len();
    let neg = i < n && v[i] == '-';
    let i0: usize = if neg {
        i + 1
    } else {
        i
    };
    let mut j: usize = i0;
    let mut mag: u64 = 0;
    let mut over: bool = false;
    let ghost mut gmag: int = 0;
    proof {
        assert(v@.subrange(i0 as int, i0 as int) =~= Seq::<char>::empty());
    }
    while j < n && is_dec_digit_exec(v[j])
        invariant
            n == v@.len(),
            i0 <= j <= n,
            digits_end(v@, i0 as int) == digits_end(v@, j as int),
            all_digits(v@.subrange(i0 as int, j as int)),
            gmag == digits_val(v@.subrange(i0 as int, j as int)),
            gmag >= 0,
            !over ==> mag == gmag && gmag <= 0x8000_0000,
            over ==> gmag > 0x8000_0000,
        decreases n - j,
    {
        let c = v[j];
        let d: u64 = (c as u32 - '0' as u32) as u64;
        proof {
            let pre = v@.subrange(i0 as int, j as int);
            assert(v@.subrange(i0 as int, j + 1) =~= pre.push(c));
            crate::digits::lemma_digits_val_push(pre, c);
            gmag = gmag * 10 + crate::digits::digit_val(c);
        }
        if over {
        } else {
            let nm: u64 = mag * 10 + d;
            if nm > 0x8000_0000 {
                over = true;
            } else {
                mag = nm;
            }
        }
        j += 1;
    }
    proof {
        assert(j < n ==> !is_dec_digit(v@[j as int]));
    }
    if j == i0 {
        return None;
    }
    if over {
        return None;
    }
    if neg {
        if mag > 0x8000_0000 {
            return None;
        }
        let x: i32 = if mag == 0x8000_0000 {
            i32::MIN
        } else {
            -(mag as i64) as i32
        };
        Some((x, j))
    } else {
        if mag > 0x7fff_ffff {
            return None;
        }
        Some((mag as i32, j))
    }
}

/// A stored date at `i`: exactly `yyyy-mm-dd`, naming a real day.
pub open spec fn parse_iso_at(s: Seq<char>, i: int) -> Option<(Date, int)> {
    if 0 <= i && i + 10 <= s.len() && all_digits(s.subrange(i, i + 4)) && s[i + 4] == '-'
        && all_digits(s.subrange(i + 5, i + 7)) && s[i + 7] == '-' && all_digits(
        s.subrange(i + 8, i + 10),
    ) {
        let d = Date {
            year: digits_val(s.subrange(i, i + 4)) as u32,
            month: digits_val(s.subrange(i + 5, i + 7)) as u32,
            day: digits_val(s.subrange(i + 8, i + 10)) as u32,
        };
        if d.wf() {
            Some((d, i + 10))
        } else {
            None
        }
    } else {
        None
    }
}

fn parse_iso_exec(v: &Vec<char>, i: usize) -> (r: Option<(Date, usize)>)
    requires
        i <= v@.len(),
    ensures
        match r {
            Some((d, j)) => parse_iso_at(v@, i as int) == Some((d, j as int)) && d.wf() && i < j
                <= v@.len(),
            None => parse_iso_at(v@, i as int) is None,
        },
{
    if v.len() - i < 10 {
        return None;
    }
    if v[i + 4] != '-' || v[i + 7] != '-' {
        return None;
    }
    let year = match parse_digits_vec(v, i, i + 4) {
        Some(y) => y,
        None => {
            return None;
        },
    };
    let month = match parse_digits_vec(v, i + 5, i + 7) {
        Some(m) => m,
        None => {
            return None;
        },
    };
    let day = match parse_digits_vec(v, i + 8, i + 10) {
        Some(d) => d,
        None => {
            return None;
        },
    };
    match Date::new(year, month, day) {
        Some(d) => Some((d, i + 10)),
        None => None,
    }
}

/// One stored entry object at `i`.
pub open spec fn parse_entry_at(s: Seq<char>, i: int) -> Option<(OvertimeEntry, int)> {
    if !(0 <= i < s.len() && s[i] == '{') {
        None
    } else {
        let a1 = skip_ws(s, i + 1);
        if !has_lit(s, a1, "\"date\""@) {
            None
        } else {
            let a2 = skip_ws(s, a1 + "\"date\""@.len());
            if !(a2 < s.len() && s[a2] == ':') {
                None
            } else {
                let a3 = skip_ws(s, a2 + 1);
                if !(a3 < s.len() && s[a3] == '"') {
                    None
                } else {
                    match parse_iso_at(s, a3 + 1) {
                        Option::None => None,
                        Option::Some((d, p)) => {
                            if !(p < s.len() && s[p] == '"') {
                                None
                            } else {
                                let a4 = skip_ws(s, p + 1);
                                if !(a4 < s.len() && s[a4] == ',') {
                                    None
                                } else {
                                    let a5 = skip_ws(s, a4 + 1);
                                    if !has_lit(s, a5, "\"minutes\""@) {
                                        None
                                    } else {
                                        let a6 = skip_ws(s, a5 + "\"minutes\""@.len());
                                        if !(a6 < s.len() && s[a6] == ':') {
                                            None
                                        } else {
                                            let a7 = skip_ws(s, a6 + 1);
                                            match parse_i32_at(s, a7) {
                                                Option::None => None,
                                                Option::Some((m, q)) => {
                                                    let a8 = skip_ws(s, q);
                                                    if !(a8 < s.len() && s[a8] == '}') {
                                                        None
                                                    } else {
                                                        Some(
                                                            (
                                                                OvertimeEntry {
                                                                    date: d,
                                                                    minutes: m as i32,
                                                                },
                                                                a8 + 1,
                                                            ),
                                                        )
                                                    }
                                                },
                                            }
                                        }
                                    }
                                }
                            }
                        },
                    }
                }
            }
        }
    }
}

fn parse_entry_exec(v: &Vec<char>, i: usize) -> (r: Option<(OvertimeEntry, usize)>)
    requires
        i <= v@.len(),
    ensures
        match r {
            Some((e, j)) => parse_entry_at(v@, i as int) == Some((e, j as int)) && e.date.wf() && i
                < j <= v@.len(),
            None => parse_entry_at(v@, i as int) is None,
        },
{
    let n = v.len();
    if !(i < n && v[i] == '{') {
        return None;
    }
    let a1 = skip_ws_exec(v, i + 1);
    if !expect_lit(v, a1, "\"date\"") {
        return None;
    }
    proof {
        reveal_strlit("\"date\"");
    }
    let a2 = skip_ws_exec(v, a1 + 6);
    if !(a2 < n && v[a2] == ':') {
        return None;
    }
    let a3 = skip_ws_exec(v, a2 + 1);
    if !(a3 < n && v[a3] == '"') {
        return None;
    }
    let (d, p) = match parse_iso_exec(v, a3 + 1) {
        Some(x) => x,
        None => {
            return None;
        },
    };
    if !(p < n && v[p] == '"') {
        return None;
    }
    let a4 = skip_ws_exec(v, p + 1);
    if !(a4 < n && v[a4] == ',') {
        return None;
    }
    let a5 = skip_ws_exec(v, a4 + 1);
    if !expect_lit(v, a5, "\"minutes\"") {
        return None;
    }
    proof {
        reveal_strlit("\"minutes\"");
    }
    let a6 = skip_ws_exec(v, a5 + 9);
    if !(a6 < n && v[a6] == ':') {
        return None;
    }
    let a7 = skip_ws_exec(v, a6 + 1);
    let (m, q) = match parse_i32_exec(v, a7) {
        Some(x) => x,
        None => {
            return None;
        },
    };
    let a8 = skip_ws_exec(v, q);
    if !(a8 < n && v[a8] == '}') {
        return None;
    }
    Some((OvertimeEntry { date: d, minutes: m }, a8 + 1))
}

/// The stored entries after the first one: a comma before each further
/// entry, gathered into `acc`; stops before anything that is not a comma.
pub open spec fn parse_rest_at(s: Seq<char>, i: int, acc: Seq<OvertimeEntry>) -> Option<
    (Seq<OvertimeEntry>, int),
>
    decreases s.len() - i,
{
    let k = skip_ws(s, i);
    if 0 <= k < s.len() && s[k] == ',' {
        let k2 = skip_ws(s, k + 1);
        match parse_entry_at(s, k2) {
            Option::None => None,
            Option::Some((e, j)) => if i < j <= s.len() {
                parse_rest_at(s, j, acc.push(e))
            } else {
                None
            },
        }
    } else {
        Some((acc, i))
    }
}

/// The whole stored file: empty text is the empty store; otherwise the
/// object with its entry list, nothing after it, and no date twice.
pub open spec fn json_value(s: Seq<char>) -> Result<Seq<OvertimeEntry>, CodecError> {
    let a = skip_ws(s, 0);
    if a == s.len() {
        Ok(Seq::empty())
    } else if !(s[a] == '{') {
        Err(CodecError::Malformed)
    } else {
        let b = skip_ws(s, a + 1);
        if !has_lit(s, b, "\"entries\""@) {
            Err(CodecError::Malformed)
        } else {
            let c = skip_ws(s, b + "\"entries\""@.len());
            if !(c < s.len() && s[c] == ':') {
                Err(CodecError::Malformed)
            } else {
                let d = skip_ws(s, c + 1);
                if !(d < s.len() && s[d] == '[') {
                    Err(CodecError::Malformed)
                } else {
                    let e0 = skip_ws(s, d + 1);
                    if e0 < s.len() && s[e0] == ']' {
                        let q = skip_ws(s, e0 + 1);
                        if q < s.len() && s[q] == '}' && skip_ws(s, q + 1) == s.len() {
                            Ok(Seq::empty())
                        } else {
                            Err(CodecError::Malformed)
                        }
                    } else {
                        match parse_entry_at(s, e0) {
                            Option::None => Err(CodecError::Malformed),
                            Option::Some((e1, j1)) => match parse_rest_at(s, j1, seq![e1]) {
                                Option::None => Err(CodecError::Malformed),
                                Option::Some((items, p)) => {
                                    let q = skip_ws(s, p);
                                    if !(q < s.len() && s[q] == ']') {
                                        Err(CodecError::Malformed)
                                    } else {
                                        let q2 = skip_ws(s, q + 1);
                                        if !(q2 < s.len() && s[q2] == '}' && skip_ws(s, q2 + 1)
                                            == s.len()) {
                                            Err(CodecError::Malformed)
                                        } else if distinct_dates(items) {
                                            Ok(items)
                                        } else {
                                            Err(CodecError::DuplicateDate)
                                        }
                                    }
                                },
                            },
                        }
                    }
                }
            }
        }
    }
}

/// Gathers the remaining comma-led entries, mirroring `parse_rest_at`.
fn parse_rest_exec(v: &Vec<char>, start: usize, items: Vec<OvertimeEntry>) -> (r: Option<
    (Vec<OvertimeEntry>, usize),
>)
    requires
        start <= v@.len(),
        forall|k: int| 0 <= k < items@.len() ==> (#[trigger] items@[k]).date.wf(),
    ensures
        match r {
            Some((out, p)) => parse_rest_at(v@, start as int, items@) == Some(
                (out@, p as int),
            ) && p <= v@.len() && forall|k: int|
                0 <= k < out@.len() ==> (#[trigger] out@[k]).date.wf(),
            None => parse_rest_at(v@, start as int, items@) is None,
        },
{
    let n = v.len();
    let mut cur: usize = start;
    let mut out = items;
    loop
        invariant
            n == v@.len(),
            cur <= n,
            forall|k: int| 0 <= k < out@.len() ==> (#[trigger] out@[k]).date.wf(),
            parse_rest_at(v@, cur as int, out@) == parse_rest_at(v@, start as int, items@),
        decreases v@.len() - cur,
    {
        let k = skip_ws_exec(v, cur);
        if !(k < n && v[k] == ',') {
            return Some((out, cur));
        }
        let k2 = skip_ws_exec(v, k + 1);
        match parse_entry_exec(v, k2) {
            None => {
                return None;
            },
            Some((e, j)) => {
                proof {
                    assert(cur < j);
                }
                out.push(e);
                cur = j;
            },
        }
    }
}

/// A digit run bounded by a non-digit (or the end) is a maximal run.
proof fn lemma_digits_end_of_run(s: Seq<char>, a: int, b: int)
    requires
        0 <= a <= b <= s.len(),
        all_digits(s.subrange(a, b)),
        b < s.len() ==> !is_dec_digit(s[b]),
    ensures
        digits_end(s, a) == b,
    decreases b - a,
{
    if a < b {
        assert(is_dec_digit(s[a])) by {
            assert(s.subrange(a, b)[0] == s[a]);
        }
        assert(s.subrange(a + 1, b) =~= s.subrange(a, b).skip(1));
        lemma_digits_end_of_run(s, a + 1, b);
    }
}

/// Printed numbers read back: `int_rep(m)` followed by a non-digit parses
/// to `m` exactly.
proof fn lemma_parse_i32_embed(s: Seq<char>, i: int, m: i32)
    requires
        0 <= i,
        i + int_rep(m as int).len() <= s.len(),
        s.subrange(i, i + int_rep(m as int).len()) == int_rep(m as int),
        i + int_rep(m as int).len() < s.len() ==> !is_dec_digit(s[i + int_rep(m as int).len()]),
    ensures
        parse_i32_at(s, i) == Some((m as int, i + int_rep(m as int).len())),
{
    let rep = int_rep(m as int);
    let e = i + rep.len();
    reveal_strlit("-");
    if m < 0 {
        let mag = (-(m as int)) as nat;
        crate::digits::lemma_dec_rep_val(mag);
        assert(rep == "-"@ + dec_rep(mag));
        lemma_split_at(s, i, "-"@, dec_rep(mag));
        assert("-"@ =~= seq!['-']);
        lemma_char_at(s, i, '-');
        assert(all_digits(s.subrange(i + 1, e)));
        lemma_digits_end_of_run(s, i + 1, e);
        assert(digits_val(s.subrange(i + 1, e)) == mag);
    } else {
        let mag = (m as int) as nat;
        crate::digits::lemma_dec_rep_val(mag);
        assert(rep == dec_rep(mag));
        assert(all_digits(s.subrange(i, e)));
        assert(is_dec_digit(s[i])) by {
            assert(s.subrange(i, e)[0] == s[i]);
            assert(dec_rep(mag).len() > 0);
        }
        assert(s[i] != '-');
        lemma_digits_end_of_run(s, i, e);
        assert(digits_val(s.subrange(i, e)) == mag);
        assert(e > i) by {
            assert(dec_rep(mag).len() > 0);
        }
    }
}

/// Printed dates read back: `iso_rep(d)` at `i` parses to `d` exactly.
proof fn lemma_parse_iso_embed(s: Seq<char>, i: int, d: Date)
    requires
        d.wf(),
        0 <= i,
        i + 10 <= s.len(),
        s.subrange(i, i + 10) == iso_rep(d),
    ensures
        parse_iso_at(s, i) == Some((d, i + 10)),
{
    let rep = iso_rep(d);
    assert(pow10(4) == 10000 && pow10(2) == 100) by {
        reveal_with_fuel(pow10, 5);
    }
    crate::digits::lemma_dec_pad_val(d.year as nat, 4);
    crate::digits::lemma_dec_pad_val(d.month as nat, 2);
    crate::digits::lemma_dec_pad_val(d.day as nat, 2);
    let a = dec_pad(d.year as nat, 4);
    let dash = seq!['-'];
    let b = dec_pad(d.month as nat, 2);
    let c = dec_pad(d.day as nat, 2);
    lemma_split_at(s, i, a + dash + b + dash, c);
    lemma_split_at(s, i, a + dash + b, dash);
    lemma_split_at(s, i, a + dash, b);
    lemma_split_at(s, i, a, dash);
    lemma_char_at(s, i + 4, '-');
    lemma_char_at(s, i + 7, '-');
    assert(digits_val(s.subrange(i, i + 4)) == d.year);
    assert(digits_val(s.subrange(i + 5, i + 7)) == d.month);
    assert(digits_val(s.subrange(i + 8, i + 10)) == d.day);
}

/// A stored entry reads back: `json_entry_rep(e)` at `i` parses to `e`
/// exactly, ending right after it.
proof fn lemma_parse_entry_embed(s: Seq<char>, i: int, e: OvertimeEntry)
    requires
        e.date.wf(),
        0 <= i,
        i + json_entry_rep(e).len() <= s.len(),
        s.subrange(i, i + json_entry_rep(e).len()) == json_entry_rep(e),
    ensures
        parse_entry_at(s, i) == Some((e, i + json_entry_rep(e).len())),
{
    let p1 = "{\"date\":\""@;
    let iso = iso_rep(e.date);
    let p2 = "\",\"minutes\":"@;
    let ir = int_rep(e.minutes as int);
    let p3 = "}"@;
    let rep = json_entry_rep(e);
    reveal_strlit("{\"date\":\"");
    reveal_strlit("\",\"minutes\":");
    reveal_strlit("}");
    reveal_strlit("\"date\"");
    reveal_strlit("\"minutes\"");
    assert(pow10(4) == 10000 && pow10(2) == 100) by {
        reveal_with_fuel(pow10, 5);
    }
    crate::digits::lemma_dec_pad_val(e.date.year as nat, 4);
    crate::digits::lemma_dec_pad_val(e.date.month as nat, 2);
    crate::digits::lemma_dec_pad_val(e.date.day as nat, 2);
    assert(iso.len() == 10);
    assert(p1.len() == 9);
    assert(p2.len() == 12);
    assert(p3.len() == 1);
    let il = ir.len() as int;
    assert(rep == p1 + iso + p2 + ir + p3);
    lemma_split_at(s, i, p1 + iso + p2 + ir, p3);
    lemma_split_at(s, i, p1 + iso + p2, ir);
    lemma_split_at(s, i, p1 + iso, p2);
    lemma_split_at(s, i, p1, iso);
    assert(s[i] == '{') by {
        assert(s.subrange(i, i + 9)[0] == s[i]);
    }
    assert(s.subrange(i + 1, i + 7) =~= "\"date\""@) by {
        assert forall|k: int| 0 <= k < 6 implies s.subrange(i + 1, i + 7)[k] == "\"date\""@[k] by {
            assert(s.subrange(i + 1, i + 7)[k] == s[i + 1 + k]);
            assert(s.subrange(i, i + 9)[1 + k] == s[i + 1 + k]);
        }
    }
    assert(s[i + 7] == ':') by {
        assert(s.subrange(i, i + 9)[7] == s[i + 7]);
    }
    assert(s[i + 8] == '"') by {
        assert(s.subrange(i, i + 9)[8] == s[i + 8]);
    }
    assert(skip_ws(s, i + 1) == i + 1) by {
        assert(s.subrange(i, i + 9)[1] == s[i + 1]);
    }
    assert(has_lit(s, i + 1, "\"date\""@));
    assert(skip_ws(s, i + 7) == i + 7);
    assert(skip_ws(s, i + 8) == i + 8);
    lemma_parse_iso_embed(s, i + 9, e.date);
    assert(parse_iso_at(s, i + 9) == Some((e.date, i + 19)));
    assert(s[i + 19] == '"') by {
        assert(s.subrange(i + 19, i + 31)[0] == s[i + 19]);
    }
    assert(s[i + 20] == ',') by {
        assert(s.subrange(i + 19, i + 31)[1] == s[i + 20]);
    }
    assert(s[i + 21] == '"') by {
        assert(s.subrange(i + 19, i + 31)[2] == s[i + 21]);
    }
    assert(skip_ws(s, i + 20) == i + 20);
    assert(skip_ws(s, i + 21) == i + 21);
    assert(s.subrange(i + 21, i + 30) =~= "\"minutes\""@) by {
        assert forall|k: int| 0 <= k < 9 implies s.subrange(i + 21, i + 30)[k]
            == "\"minutes\""@[k] by {
            assert(s.subrange(i + 21, i + 30)[k] == s[i + 21 + k]);
            assert(s.subrange(i + 19, i + 31)[2 + k] == s[i + 21 + k]);
        }
    }
    assert(has_lit(s, i + 21, "\"minutes\""@));
    assert(s[i + 30] == ':') by {
        assert(s.subrange(i + 19, i + 31)[11] == s[i + 30]);
    }
    assert(skip_ws(s, i + 30) == i + 30);
    assert(!is_ws(s[i + 31])) by {
        assert(s.subrange(i + 31, i + 31 + il)[0] == s[i + 31]);
        if e.minutes < 0 {
            reveal_strlit("-");
            assert(ir[0] == '-');
        } else {
            crate::digits::lemma_dec_rep_val(e.minutes as nat);
            assert(is_dec_digit(ir[0]));
        }
    }
    assert(skip_ws(s, i + 31) == i + 31);
    assert(s[i + 31 + il] == '}') by {
        assert(s.subrange(i + 31 + il, i + 32 + il)[0] == s[i + 31 + il]);
    }
    lemma_parse_i32_embed(s, i + 31, e.minutes);
    assert(parse_i32_at(s, i + 31) == Some((e.minutes as int, i + 31 + il)));
    assert(skip_ws(s, i + 31 + il) == i + 31 + il);
}

/// The stored text of the entries after the first: a comma before each.
pub open spec fn json_more_rep(rest: Seq<OvertimeEntry>) -> Seq<char>
    decreases rest.len(),
{
    if rest.len() == 0 {
        Seq::empty()
    } else {
        ","@ + json_entry_rep(rest[0]) + json_more_rep(rest.skip(1))
    }
}

/// A non-empty item list is its first entry followed by the comma-led rest.
proof fn lemma_items_rep_split(s: Seq<OvertimeEntry>)
    requires
        s.len() >= 1,
    ensures
        json_items_rep(s) == json_entry_rep(s[0]) + json_more_rep(s.skip(1)),
    decreases s.len(),
{
    reveal_with_fuel(json_items_rep, 3);
    reveal_with_fuel(json_more_rep, 3);
    if s.len() == 1 {
        assert(json_more_rep(s.skip(1)) =~= Seq::<char>::empty());
        assert(json_entry_rep(s[0]) + Seq::<char>::empty() =~= json_entry_rep(s[0]));
    } else {
        lemma_items_rep_split(s.skip(1));
        assert(s.skip(1)[0] == s[1]);
        assert(s.skip(1).skip(1) =~= s.skip(2));
        assert(json_entry_rep(s[0]) + ","@ + (json_entry_rep(s[1]) + json_more_rep(s.skip(2)))
            =~= json_entry_rep(s[0]) + (","@ + json_entry_rep(s[1]) + json_more_rep(s.skip(2))));
    }
}

/// Comma-led entries read back in order, stopping at the closing bracket.
proof fn lemma_parse_rest_embed(
    s: Seq<char>,
    i: int,
    acc: Seq<OvertimeEntry>,
    rest: Seq<OvertimeEntry>,
)
    requires
        forall|k: int| 0 <= k < rest.len() ==> (#[trigger] rest[k]).date.wf(),
        0 <= i,
        i + json_more_rep(rest).len() < s.len(),
        s.subrange(i, i + json_more_rep(rest).len()) == json_more_rep(rest),
        s[i + json_more_rep(rest).len()] == ']',
    ensures
        parse_rest_at(s, i, acc) == Some((acc + rest, i + json_more_rep(rest).len())),
    decreases rest.len(),
{
    let e = i + json_more_rep(rest).len();
    if rest.len() == 0 {
        assert(s.subrange(i, i) =~= Seq::<char>::empty());
        assert(skip_ws(s, i) == i);
        assert(s[i] == ']');
        assert(acc + rest =~= acc);
    } else {
        let er = json_entry_rep(rest[0]);
        let more = json_more_rep(rest.skip(1));
        assert(json_more_rep(rest) == ","@ + er + more);
        reveal_strlit(",");
        lemma_split_at(s, i, ","@ + er, more);
        lemma_split_at(s, i, ","@, er);
        assert(","@ =~= seq![',']);
        lemma_char_at(s, i, ',');
        assert(skip_ws(s, i) == i);
        lemma_parse_entry_embed(s, i + 1, rest[0]);
        let j = i + 1 + er.len();
        assert(parse_entry_at(s, i + 1) == Some((rest[0], j)));
        assert(s[i + 1] == '{') by {
            if s[i + 1] != '{' {
                assert(parse_entry_at(s, i + 1) is None);
            }
        }
        assert(skip_ws(s, i + 1) == i + 1);
        assert forall|k: int| 0 <= k < rest.skip(1).len() implies (
        #[trigger] rest.skip(1)[k]).date.wf() by {
            assert(rest.skip(1)[k] == rest[k + 1]);
        }
        assert(s.subrange(j, j + more.len()) == more);
        assert(j + more.len() == e);
        lemma_parse_rest_embed(s, j, acc.push(rest[0]), rest.skip(1));
        assert(acc.push(rest[0]) + rest.skip(1) =~= acc + rest);
    }
}

/// The shared opening of every stored file: the object head, the key, the
/// colon and the bracket stand at fixed places, and the tail closes it.
proof fn lemma_round_trip_head(entries: Seq<OvertimeEntry>)
    ensures
        ({
            let s = json_rep(entries);
            let items = json_items_rep(entries);
            let p = 12 + items.len() as int;
            &&& s.len() == 14 + items.len()
            &&& s.subrange(12, p) == items
            &&& skip_ws(s, 0) == 0 && s[0] == '{'
            &&& skip_ws(s, 1) == 1 && has_lit(s, 1, "\"entries\""@)
            &&& skip_ws(s, 10) == 10 && s[10] == ':'
            &&& skip_ws(s, 11) == 11 && s[11] == '['
            &&& s[p] == ']'
            &&& s[p + 1] == '}'
        }),
{
    let h = "{\"entries\":["@;
    let t = "]}"@;
    let items = json_items_rep(entries);
    let s = json_rep(entries);
    reveal_strlit("{\"entries\":[");
    reveal_strlit("]}");
    reveal_strlit("\"entries\"");
    assert(h.len() == 12);
    assert(t.len() == 2);
    assert(s == h + items + t);
    assert(s.subrange(0, s.len() as int) =~= s);
    lemma_split_at(s, 0, h + items, t);
    lemma_split_at(s, 0, h, items);
    let p = 12 + items.len() as int;
    assert(s[0] == '{') by {
        assert(s.subrange(0, 12)[0] == s[0]);
    }
    assert(s[1] == '"') by {
        assert(s.subrange(0, 12)[1] == s[1]);
    }
    assert(s[10] == ':') by {
        assert(s.subrange(0, 12)[10] == s[10]);
    }
    assert(s[11] == '[') by {
        assert(s.subrange(0, 12)[11] == s[11]);
    }
    assert(s[p] == ']') by {
        assert(s.subrange(p, p + 2)[0] == s[p]);
    }
    assert(s[p + 1] == '}') by {
        assert(s.subrange(p, p + 2)[1] == s[p + 1]);
    }
    assert(skip_ws(s, 0) == 0);
    assert(skip_ws(s, 1) == 1);
    assert(s.subrange(1, 10) =~= "\"entries\""@) by {
        assert forall|k: int| 0 <= k < 9 implies s.subrange(1, 10)[k] == "\"entries\""@[k] by {
            assert(s.subrange(1, 10)[k] == s[1 + k]);
            assert(s.subrange(0, 12)[1 + k] == s[1 + k]);
        }
    }
    assert(has_lit(s, 1, "\"entries\""@));
    assert(skip_ws(s, 10) == 10);
    assert(skip_ws(s, 11) == 11);
}

/// The non-empty case of the round trip.
#[verifier::rlimit(100)]
proof fn lemma_json_round_trip_nonempty(entries: Seq<OvertimeEntry>)
    requires
        entries.len() > 0,
        forall|k: int| 0 <= k < entries.len() ==> (#[trigger] entries[k]).date.wf(),
        distinct_dates(entries),
    ensures
        json_value(json_rep(entries)) == Ok::<Seq<OvertimeEntry>, CodecError>(entries),
{
    let items = json_items_rep(entries);
    let s = json_rep(entries);
    let er = json_entry_rep(entries[0]);
    let more = json_more_rep(entries.skip(1));
    let j1 = 12 + er.len() as int;
    let p = 12 + items.len() as int;
    reveal_strlit("\"entries\"");
    assert("\"entries\""@.len() == 9);
    lemma_round_trip_head(entries);
    assert(j1 + more.len() == p && parse_entry_at(s, 12) == Some((entries[0], j1)) && s.subrange(
        j1,
        p,
    ) == more) by {
        lemma_round_trip_head(entries);
        lemma_items_rep_split(entries);
        lemma_split_at(s, 12, er, more);
        lemma_parse_entry_embed(s, 12, entries[0]);
    }
    assert(s[12] == '{') by {
        if s[12] != '{' {
            assert(parse_entry_at(s, 12) is None);
        }
    }
    assert(skip_ws(s, 12) == 12);
    assert(parse_rest_at(s, j1, seq![entries[0]]) == Some((entries, p))) by {
        assert forall|k: int| 0 <= k < entries.skip(1).len() implies (
        #[trigger] entries.skip(1)[k]).date.wf() by {
            assert(entries.skip(1)[k] == entries[k + 1]);
        }
        lemma_parse_rest_embed(s, j1, seq![entries[0]], entries.skip(1));
        assert(seq![entries[0]] + entries.skip(1) =~= entries);
    }
    assert(skip_ws(s, p) == p);
    assert(skip_ws(s, p + 1) == p + 1);
    assert(skip_ws(s, p + 2) == p + 2 == s.len());
}

/// Stored text reads back: decoding an encoded store yields exactly its
/// entries, in their stored order.
#[verifier::rlimit(100)]
pub proof fn lemma_json_round_trip(entries: Seq<OvertimeEntry>)
    requires
        forall|k: int| 0 <= k < entries.len() ==> (#[trigger] entries[k]).date.wf(),
        distinct_dates(entries),
    ensures
        json_value(json_rep(entries)) == Ok::<Seq<OvertimeEntry>, CodecError>(entries),
{
    let items = json_items_rep(entries);
    let s = json_rep(entries);
    if entries.len() == 0 {
        reveal_strlit("\"entries\"");
        assert("\"entries\""@.len() == 9);
        lemma_round_trip_head(entries);
        assert(items =~= Seq::<char>::empty());
        assert(skip_ws(s, 12) == 12);
        assert(skip_ws(s, 13) == 13);
        assert(skip_ws(s, 14) == 14 == s.len());
        assert(entries =~= Seq::<OvertimeEntry>::empty());
    } else {
        lemma_json_round_trip_nonempty(entries);
    }
}

/// `true` exactly when no date repeats.
fn all_distinct(v: &Vec<OvertimeEntry>) -> (r: bool)
    ensures
        r == distinct_dates(v@),
{
    let n = v.len();
    let mut i: usize = 0;
    while i < n
        invariant
            n == v@.len(),
            0 <= i <= n,
            forall|a: int, b: int| 0 <= a < b < n && a < i ==> v@[a].date != v@[b].date,
        decreases n - i,
    {
        let mut j: usize = i + 1;
        while j < n
            invariant
                n == v@.len(),
                0 <= i < j,
                i + 1 <= j <= n,
                forall|b: int| i < b < j ==> v@[i as int].date != (#[trigger] v@[b]).date,
            decreases n - j,
        {
            if v[i].date == v[j].date {
                return false;
            }
            j += 1;
        }
        i += 1;
    }
    true
}

impl OvertimeData {
    /// Reads stored text back into a store.
    ///
    /// Succeeds exactly on the texts that `json_value` accepts — blank text
    /// included, as the empty store — and then returns a well-formed store
    /// holding exactly the stored entries, in their stored order.
    pub fn from_json(content: &str) -> (r: Result<OvertimeData, CodecError>)
        ensures
            match r {
                Ok(data) => json_value(content@) == Ok::<Seq<OvertimeEntry>, CodecError>(
                    data.entries@,
                ) && data.wf(),
                Err(err) => json_value(content@) == Err::<Seq<OvertimeEntry>, CodecError>(err),
            },
    {
        let v = str_to_chars(content);
        let n = v.len();
        let a = skip_ws_exec(&v, 0);
        if a == n {
            let data = OvertimeData { entries: Vec::new() };
            proof {
                assert(data.entries@ =~= Seq::<OvertimeEntry>::empty());
            }
            return Ok(data);
        }
        if !(v[a] == '{') {
            return Err(CodecError::Malformed);
        }
        let b = skip_ws_exec(&v, a + 1);
        if !expect_lit(&v, b, "\"entries\"") {
            return Err(CodecError::Malformed);
        }
        proof {
            reveal_strlit("\"entries\"");
        }
        let c = skip_ws_exec(&v, b + 9);
        if !(c < n && v[c] == ':') {
            return Err(CodecError::Malformed);
        }
        let d = skip_ws_exec(&v, c + 1);
        if !(d < n && v[d] == '[') {
            return Err(CodecError::Malformed);
        }
        let e0 = skip_ws_exec(&v, d + 1);
        if e0 < n && v[e0] == ']' {
            let q = skip_ws_exec(&v, e0 + 1);
            if q < n && v[q] == '}' && skip_ws_exec(&v, q + 1) == n {
                let data = OvertimeData { entries: Vec::new() };
                proof {
                    assert(data.entries@ =~= Seq::<OvertimeEntry>::empty());
                }
                return Ok(data);
            }
            return Err(CodecError::Malformed);
        }
        let (e1, j1) = match parse_entry_exec(&v, e0) {
            Some(x) => x,
            None => {
                return Err(CodecError::Malformed);
            },
        };
        let mut items: Vec<OvertimeEntry> = Vec::new();
        items.push(e1);
        proof {
            assert(items@ =~= seq![e1]);
        }
        let (items, p) = match parse_rest_exec(&v, j1, items) {
            Some(x) => x,
            None => {
                return Err(CodecError::Malformed);
            },
        };
        let q = skip_ws_exec(&v, p);
        if !(q < n && v[q] == ']') {
            return Err(CodecError::Malformed);
        }
        let q2 = skip_ws_exec(&v, q + 1);
        if !(q2 < n && v[q2] == '}' && skip_ws_exec(&v, q2 + 1) == n) {
            return Err(CodecError::Malformed);
        }
        if !all_distinct(&items) {
            return Err(CodecError::DuplicateDate);
        }
        let data = OvertimeData { entries: items };
        Ok(data)
    }
}

} // verus!
