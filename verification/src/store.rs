//! The overtime store: one signed minute balance per calendar date, held as
//! an ordered sequence of entries.

use vstd::prelude::*;
use crate::dates::Date;

verus! {

/// One recorded balance: a date and its signed minutes.
#[derive(Clone, Copy, Debug, PartialEq, Eq, Structural)]
pub struct OvertimeEntry {
    pub date: Date,
    pub minutes: i32,
}

/// The whole store: the entry sequence in insertion order.
#[derive(Debug)]
pub struct OvertimeData {
    pub entries: Vec<OvertimeEntry>,
}

/// Index of the first entry for `d`, or `-1` when none exists.
pub open spec fn index_of_date(s: Seq<OvertimeEntry>, d: Date) -> int
    decreases s.len(),
{
    if s.len() == 0 {
        -1
    } else if s[0].date == d {
        0
    } else {
        let r = index_of_date(s.skip(1), d);
        if r < 0 {
            -1
        } else {
            r + 1
        }
    }
}

/// Some entry carries `d`.
pub open spec fn has_date(s: Seq<OvertimeEntry>, d: Date) -> bool {
    index_of_date(s, d) >= 0
}

/// What `index_of_date` points at: the first entry for `d` when one exists,
/// nothing otherwise.
pub proof fn lemma_index_of_date(s: Seq<OvertimeEntry>, d: Date)
    ensures
        index_of_date(s, d) >= 0 ==> index_of_date(s, d) < s.len() && s[index_of_date(s, d)].date
            == d,
        index_of_date(s, d) < 0 ==> forall|i: int|
            0 <= i < s.len() ==> (#[trigger] s[i]).date != d,
    decreases s.len(),
{
    if s.len() > 0 {
        lemma_index_of_date(s.skip(1), d);
        if s[0].date != d && index_of_date(s.skip(1), d) < 0 {
            assert forall|i: int| 0 <= i < s.len() implies (#[trigger] s[i]).date != d by {
                if i > 0 {
                    assert(s.skip(1)[i - 1] == s[i]);
                }
            }
        }
    }
}

/// A match at `i` with no match before it is the first match.
pub proof fn lemma_index_of_date_first(s: Seq<OvertimeEntry>, d: Date, i: int)
    requires
        0 <= i < s.len(),
        s[i].date == d,
        forall|k: int| 0 <= k < i ==> (#[trigger] s[k]).date != d,
    ensures
        index_of_date(s, d) == i,
    decreases i,
{
    if i > 0 {
        assert(s[0].date != d);
        assert(s.skip(1)[i - 1] == s[i]);
        assert forall|k: int| 0 <= k < i - 1 implies (#[trigger] s.skip(1)[k]).date != d by {
            assert(s.skip(1)[k] == s[k + 1]);
        }
        lemma_index_of_date_first(s.skip(1), d, i - 1);
    }
}

/// No match anywhere means no first match.
pub proof fn lemma_index_of_date_none(s: Seq<OvertimeEntry>, d: Date)
    requires
        forall|i: int| 0 <= i < s.len() ==> (#[trigger] s[i]).date != d,
    ensures
        index_of_date(s, d) == -1,
    decreases s.len(),
{
    if s.len() > 0 {
        assert forall|i: int| 0 <= i < s.skip(1).len() implies (#[trigger] s.skip(1)[i]).date != d by {
            assert(s.skip(1)[i] == s[i + 1]);
        }
        lemma_index_of_date_none(s.skip(1), d);
    }
}

/// What a successful credit of `m` minutes to `d` leaves behind: the
/// existing entry grown in place, or a new entry at the end.
pub open spec fn spec_add(s: Seq<OvertimeEntry>, d: Date, m: int) -> Seq<OvertimeEntry> {
    let ix = index_of_date(s, d);
    if ix >= 0 {
        s.update(ix, OvertimeEntry { date: d, minutes: (s[ix].minutes + m) as i32 })
    } else {
        s.push(OvertimeEntry { date: d, minutes: m as i32 })
    }
}

/// Crediting one date twice merges: starting without an entry for `d`, two
/// credits leave exactly one new entry, carrying the sum of both amounts.
pub proof fn lemma_add_merges(s: Seq<OvertimeEntry>, d: Date, m1: i32, m2: i32)
    requires
        index_of_date(s, d) < 0,
        i32::MIN <= m1 + m2 <= i32::MAX,
    ensures
        spec_add(spec_add(s, d, m1 as int), d, m2 as int) == s.push(
            OvertimeEntry { date: d, minutes: (m1 + m2) as i32 },
        ),
        spec_add(spec_add(s, d, m1 as int), d, m2 as int).len() == s.len() + 1,
{
    let s1 = spec_add(s, d, m1 as int);
    lemma_index_of_date(s, d);
    assert(s1 == s.push(OvertimeEntry { date: d, minutes: m1 }));
    assert(s1[s.len() as int].date == d);
    assert forall|k: int| 0 <= k < s.len() implies (#[trigger] s1[k]).date != d by {
        assert(s1[k] == s[k]);
    }
    lemma_index_of_date_first(s1, d, s.len() as int);
    assert(spec_add(s1, d, m2 as int) =~= s.push(
        OvertimeEntry { date: d, minutes: (m1 + m2) as i32 },
    ));
}

/// Why a store mutation was refused.
#[derive(Clone, Copy, Debug, PartialEq, Eq, Structural)]
pub enum StoreError {
    /// No entry for the given date.
    NotFound,
    /// The entry's new balance does not fit the entry type.
    Overflow,
}

impl Default for OvertimeData {
    /// The empty store.
    fn default() -> (r: OvertimeData)
        ensures
            r.entries@ == Seq::<OvertimeEntry>::empty(),
            r.wf(),
    {
        let r = OvertimeData { entries: Vec::new() };
        proof {
            assert(r.entries@ =~= Seq::<OvertimeEntry>::empty());
        }
        r
    }
}

impl OvertimeData {
    /// Every entry names a real date, and no two entries share one.
    pub open spec fn wf(self) -> bool {
        &&& forall|i: int|
            0 <= i < self.entries@.len() ==> (#[trigger] self.entries@[i]).date.wf()
        &&& forall|i: int, j: int|
            0 <= i < j < self.entries@.len() ==> self.entries@[i].date != self.entries@[j].date
    }

    /// Decides `wf`: every date valid, no date twice.
    pub fn is_wf(&self) -> (r: bool)
        ensures
            r == self.wf(),
    {
        let n = self.entries.len();
        let mut i: usize = 0;
        while i < n
            invariant
                n == self.entries@.len(),
                0 <= i <= n,
                forall|k: int| 0 <= k < i ==> (#[trigger] self.entries@[k]).date.wf(),
                forall|a: int, b: int|
                    0 <= a < b < n && a < i ==> self.entries@[a].date != self.entries@[b].date,
            decreases n - i,
        {
            if !self.entries[i].date.is_valid() {
                return false;
            }
            let mut j: usize = i + 1;
            while j < n
                invariant
                    n == self.entries@.len(),
                    0 <= i < j,
                    i + 1 <= j <= n,
                    forall|b: int|
                        i < b < j ==> self.entries@[i as int].date != (
                        #[trigger] self.entries@[b]).date,
                decreases n - j,
            {
                if self.entries[i].date == self.entries[j].date {
                    return false;
                }
                j += 1;
            }
            i += 1;
        }
        true
    }

    /// Position of the entry for `date`, if any.
    fn find_date(&self, date: Date) -> (r: Option<usize>)
        ensures
            match r {
                Some(i) => i == index_of_date(self.entries@, date),
                None => index_of_date(self.entries@, date) == -1,
            },
    {
        let n = self.entries.len();
        let mut i: usize = 0;
        while i < n
            invariant
                n == self.entries@.len(),
                0 <= i <= n,
                forall|k: int| 0 <= k < i ==> (#[trigger] self.entries@[k]).date != date,
            decreases n - i,
        {
            if self.entries[i].date == date {
                proof {
                    lemma_index_of_date_first(self.entries@, date, i as int);
                }
                return Some(i);
            }
            i += 1;
        }
        proof {
            lemma_index_of_date_none(self.entries@, date);
        }
        None
    }

    /// Credits `minutes` to `date`: an existing entry grows in place, and a
    /// missing one is appended; fails only when the new balance leaves the
    /// entry type's range.
    pub fn add_overtime(&mut self, date: Date, minutes: i32) -> (r: Result<(), StoreError>)
        requires
            old(self).wf(),
            date.wf(),
        ensures
            final(self).wf(),
            r is Ok ==> final(self).entries@ == spec_add(
                old(self).entries@,
                date,
                minutes as int,
            ),
            ({
                let s = old(self).entries@;
                let ix = index_of_date(s, date);
                match r {
                    Ok(()) => if ix >= 0 {
                        &&& i32::MIN <= s[ix].minutes + minutes <= i32::MAX
                        &&& final(self).entries@ == s.update(
                            ix,
                            OvertimeEntry { date, minutes: (s[ix].minutes + minutes) as i32 },
                        )
                    } else {
                        final(self).entries@ == s.push(OvertimeEntry { date, minutes })
                    },
                    Err(StoreError::Overflow) => {
                        &&& final(self).entries@ == s
                        &&& ix >= 0
                        &&& !(i32::MIN <= s[ix].minutes + minutes <= i32::MAX)
                    },
                    Err(StoreError::NotFound) => false,
                }
            }),
    {
        proof {
            lemma_index_of_date(self.entries@, date);
        }
        match self.find_date(date) {
            Some(i) => {
                let sum: i64 = self.entries[i].minutes as i64 + minutes as i64;
                if sum < i32::MIN as i64 || sum > i32::MAX as i64 {
                    return Err(StoreError::Overflow);
                }
                self.entries[i] = OvertimeEntry { date, minutes: sum as i32 };
                proof {
                    let s = old(self).entries@;
                    let ix = index_of_date(s, date);
                    assert(self.entries@ =~= s.update(
                        ix,
                        OvertimeEntry { date, minutes: (s[ix].minutes + minutes) as i32 },
                    ));
                }
                Ok(())
            },
            None => {
                self.entries.push(OvertimeEntry { date, minutes });
                proof {
                    let s = old(self).entries@;
                    lemma_index_of_date(s, date);
                    assert forall|i: int, j: int|
                        0 <= i < j < self.entries@.len() implies self.entries@[i].date
                        != self.entries@[j].date by {
                        if j == s.len() {
                            assert(self.entries@[i] == s[i]);
                        }
                    }
                }
                Ok(())
            },
        }
    }

    /// Debits `minutes` from the entry for `date`, which may drive its
    /// balance negative; fails when no entry exists, or when the new balance
    /// leaves the entry type's range, and then changes nothing.
    pub fn remove_overtime(&mut self, date: Date, minutes: i32) -> (r: Result<(), StoreError>)
        requires
            old(self).wf(),
        ensures
            final(self).wf(),
            ({
                let s = old(self).entries@;
                let ix = index_of_date(s, date);
                match r {
                    Ok(()) => {
                        &&& ix >= 0
                        &&& i32::MIN <= s[ix].minutes - minutes <= i32::MAX
                        &&& final(self).entries@ == s.update(
                            ix,
                            OvertimeEntry { date, minutes: (s[ix].minutes - minutes) as i32 },
                        )
                    },
                    Err(StoreError::NotFound) => {
                        &&& final(self).entries@ == s
                        &&& ix < 0
                    },
                    Err(StoreError::Overflow) => {
                        &&& final(self).entries@ == s
                        &&& ix >= 0
                        &&& !(i32::MIN <= s[ix].minutes - minutes <= i32::MAX)
                    },
                }
            }),
    {
        proof {
            lemma_index_of_date(self.entries@, date);
        }
        match self.find_date(date) {
            Some(i) => {
                let diff: i64 = self.entries[i].minutes as i64 - minutes as i64;
                if diff < i32::MIN as i64 || diff > i32::MAX as i64 {
                    return Err(StoreError::Overflow);
                }
                self.entries[i] = OvertimeEntry { date, minutes: diff as i32 };
                proof {
                    let s = old(self).entries@;
                    let ix = index_of_date(s, date);
                    assert(self.entries@ =~= s.update(
                        ix,
                        OvertimeEntry { date, minutes: (s[ix].minutes - minutes) as i32 },
                    ));
                }
                Ok(())
            },
            None => Err(StoreError::NotFound),
        }
    }
}

} // verus!
