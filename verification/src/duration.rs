//! The duration token: `"1h30m"`, `"90"`, `"2h"` and the like, scanned left
//! to right into a minute count.

use vstd::prelude::*;
use vstd::string::*;
use crate::digits::{all_digits, digit_val, digits_val, is_dec_digit, pow10};

verus! {

/// Why a duration token was rejected.
#[derive(Clone, Copy, Debug, PartialEq, Eq, Structural)]
pub enum TimeError {
    /// The token was empty.
    Empty,
    /// A unit letter (`h` or `m`) had no digits before it.
    MissingNumber { unit: char },
    /// A character that is neither a digit nor a unit letter.
    InvalidCharacter { found: char },
    /// The minute count does not fit the result type.
    Overflow,
    /// The token parsed but its total was zero.
    Zero,
}

/// One pass over the token: `total` minutes gathered so far, `buf` the value
/// of the pending digit run, `has_buf` whether that run is non-empty.
/// Digits extend the run; `h`/`H` turns it into hours, `m`/`M` into minutes;
/// a leftover run at the end counts as minutes.
pub open spec fn scan_time(s: Seq<char>, total: int, buf: int, has_buf: bool) -> Result<
    int,
    TimeError,
>
    decreases s.len(),
{
    if s.len() == 0 {
        Ok(total + if has_buf { buf } else { 0 })
    } else {
        let c = s[0];
        if is_dec_digit(c) {
            scan_time(s.skip(1), total, buf * 10 + digit_val(c), true)
        } else if c == 'h' || c == 'H' {
            if !has_buf {
                Err(TimeError::MissingNumber { unit: 'h' })
            } else {
                scan_time(s.skip(1), total + buf * 60, 0, false)
            }
        } else if c == 'm' || c == 'M' {
            if !has_buf {
                Err(TimeError::MissingNumber { unit: 'm' })
            } else {
                scan_time(s.skip(1), total + buf, 0, false)
            }
        } else {
            Err(TimeError::InvalidCharacter { found: c })
        }
    }
}

/// Mathematical reading of a duration token: empty and zero totals are
/// rejected, otherwise the scanned minute count.
pub open spec fn time_value(s: Seq<char>) -> Result<int, TimeError> {
    if s.len() == 0 {
        Err(TimeError::Empty)
    } else {
        match scan_time(s, 0, 0, false) {
            Ok(v) => if v == 0 {
                Err(TimeError::Zero)
            } else {
                Ok(v)
            },
            Err(e) => Err(e),
        }
    }
}

/// What `parse_time` returns: `time_value`, with totals beyond `i32` mapped
/// to an overflow error.
pub open spec fn time_result(s: Seq<char>) -> Result<int, TimeError> {
    match time_value(s) {
        Ok(v) => if v <= i32::MAX {
            Ok(v)
        } else {
            Err(TimeError::Overflow)
        },
        Err(e) => Err(e),
    }
}

/// Scanning a digit run folds its value into the pending buffer.
proof fn lemma_scan_digits(d: Seq<char>, rest: Seq<char>, total: int, buf: int, hb: bool)
    requires
        all_digits(d),
    ensures
        scan_time(d + rest, total, buf, hb) == scan_time(
            rest,
            total,
            buf * pow10(d.len()) + digits_val(d),
            hb || d.len() > 0,
        ),
    decreases d.len(),
{
    reveal_with_fuel(scan_time, 6);
    if d.len() == 0 {
        assert(d + rest =~= rest);
        assert(pow10(0) == 1);
    } else {
        let c = d[0];
        assert((d + rest)[0] == c);
        assert((d + rest).skip(1) =~= d.skip(1) + rest);
        lemma_scan_digits(d.skip(1), rest, total, buf * 10 + digit_val(c), true);
        let n: nat = (d.len() - 1) as nat;
        assert(pow10(n + 1) == 10 * pow10(n));
        assert((buf * 10 + digit_val(c)) * pow10(n) == buf * (10 * pow10(n)) + digit_val(c) * pow10(
            n,
        )) by (nonlinear_arith);
    }
}

/// A duration written as a digit run, `h`, a digit run, `m` scans to sixty
/// times the first run plus the second; a zero total is refused.
pub proof fn lemma_time_hours_minutes(h: Seq<char>, m: Seq<char>)
    requires
        h.len() > 0,
        m.len() > 0,
        all_digits(h),
        all_digits(m),
    ensures
        ({
            let v = digits_val(h) * 60 + digits_val(m);
            time_value(h + seq!['h'] + m + seq!['m']) == if v == 0 {
                Err::<int, TimeError>(TimeError::Zero)
            } else {
                Ok::<int, TimeError>(v)
            }
        }),
{
    reveal_with_fuel(scan_time, 6);
    let tail = seq!['h'] + m + seq!['m'];
    let s = h + seq!['h'] + m + seq!['m'];
    assert(s =~= h + tail);
    lemma_scan_digits(h, tail, 0, 0, false);
    assert(tail[0] == 'h');
    assert(!is_dec_digit('h'));
    assert(tail.skip(1) =~= m + seq!['m']);
    lemma_scan_digits(m, seq!['m'], digits_val(h) * 60, 0, false);
    assert(seq!['m'][0] == 'm');
    assert(!is_dec_digit('m'));
    assert(seq!['m'].skip(1) =~= Seq::<char>::empty());
}

/// A duration written as a digit run, `m`, a digit run, `h` scans to the
/// same total as the other order.
pub proof fn lemma_time_minutes_hours(h: Seq<char>, m: Seq<char>)
    requires
        h.len() > 0,
        m.len() > 0,
        all_digits(h),
        all_digits(m),
    ensures
        ({
            let v = digits_val(h) * 60 + digits_val(m);
            time_value(m + seq!['m'] + h + seq!['h']) == if v == 0 {
                Err::<int, TimeError>(TimeError::Zero)
            } else {
                Ok::<int, TimeError>(v)
            }
        }),
{
    reveal_with_fuel(scan_time, 6);
    let tail = seq!['m'] + h + seq!['h'];
    let s = m + seq!['m'] + h + seq!['h'];
    assert(s =~= m + tail);
    lemma_scan_digits(m, tail, 0, 0, false);
    assert(tail[0] == 'm');
    assert(!is_dec_digit('m'));
    assert(tail.skip(1) =~= h + seq!['h']);
    lemma_scan_digits(h, seq!['h'], digits_val(m), 0, false);
    assert(seq!['h'][0] == 'h');
    assert(!is_dec_digit('h'));
    assert(seq!['h'].skip(1) =~= Seq::<char>::empty());
}

/// A digit run followed by `h` alone is hours; one followed by `m`, and a
/// bare digit run, are minutes.
pub proof fn lemma_time_single_run(d: Seq<char>)
    requires
        d.len() > 0,
        all_digits(d),
    ensures
        time_value(d + seq!['h']) == if digits_val(d) == 0 {
            Err::<int, TimeError>(TimeError::Zero)
        } else {
            Ok::<int, TimeError>(digits_val(d) * 60)
        },
        time_value(d + seq!['m']) == if digits_val(d) == 0 {
            Err::<int, TimeError>(TimeError::Zero)
        } else {
            Ok::<int, TimeError>(digits_val(d))
        },
        time_value(d) == if digits_val(d) == 0 {
            Err::<int, TimeError>(TimeError::Zero)
        } else {
            Ok::<int, TimeError>(digits_val(d))
        },
{
    reveal_with_fuel(scan_time, 6);
    lemma_scan_digits(d, seq!['h'], 0, 0, false);
    assert(seq!['h'][0] == 'h');
    assert(!is_dec_digit('h'));
    assert(seq!['h'].skip(1) =~= Seq::<char>::empty());
    lemma_scan_digits(d, seq!['m'], 0, 0, false);
    assert(seq!['m'][0] == 'm');
    assert(!is_dec_digit('m'));
    assert(seq!['m'].skip(1) =~= Seq::<char>::empty());
    lemma_scan_digits(d, Seq::<char>::empty(), 0, 0, false);
    assert(d + Seq::<char>::empty() =~= d);
}

/// Parses a duration token into minutes.
///
/// Succeeds exactly on the tokens that `time_value` accepts whose total fits
/// an `i32`; the result is then positive and equals the scanned total.
pub fn parse_time(time_str: &str) -> (r: Result<i32, TimeError>)
    ensures
        match r {
            Ok(v) => time_result(time_str@) == Ok::<int, TimeError>(v as int) && v > 0,
            Err(e) => time_result(time_str@) == Err::<int, TimeError>(e),
        },
{
    let n = time_str.unicode_len();
    if n == 0 {
        return Err(TimeError::Empty);
    }
    let mut i: usize = 0;
    let mut total: u64 = 0;
    let mut buf: u64 = 0;
    let mut has_buf: bool = false;
    let mut t_over: bool = false;
    let mut b_over: bool = false;
    let ghost mut gt: int = 0;
    let ghost mut gb: int = 0;
    proof {
        assert(time_str@.skip(0) =~= time_str@);
    }
    while i < n
        invariant
            n == time_str@.len(),
            0 <= i <= n,
            scan_time(time_str@.skip(i as int), gt, gb, has_buf) == scan_time(
                time_str@,
                0,
                0,
                false,
            ),
            gt >= 0,
            gb >= 0,
            !t_over ==> total == gt && gt <= i32::MAX,
            t_over ==> gt > i32::MAX,
            !b_over ==> buf == gb && gb <= i32::MAX,
            b_over ==> gb > i32::MAX,
            !has_buf ==> gb == 0 && buf == 0 && !b_over,
        decreases n - i,
    {
        let c = time_str.get_char(i);
        proof {
            assert(time_str@.skip(i as int)[0] == c);
            assert(time_str@.skip(i as int).skip(1) =~= time_str@.skip(i + 1));
        }
        if let Some(d) = crate::digits::dec_digit_of(c) {
            proof {
                gb = gb * 10 + digit_val(c);
            }
            if b_over {
                // the pending run is already beyond range; it only grows
            } else {
                let nb: u64 = buf * 10 + d as u64;
                if nb > i32::MAX as u64 {
                    b_over = true;
                } else {
                    buf = nb;
                }
            }
            has_buf = true;
        } else if c == 'h' || c == 'H' {
            if !has_buf {
                return Err(TimeError::MissingNumber { unit: 'h' });
            }
            proof {
                gt = gt + gb * 60;
                gb = 0;
            }
            if t_over || b_over {
                t_over = true;
            } else {
                let nt: u64 = total + buf * 60;
                if nt > i32::MAX as u64 {
                    t_over = true;
                } else {
                    total = nt;
                }
            }
            buf = 0;
            b_over = false;
            has_buf = false;
        } else if c == 'm' || c == 'M' {
            if !has_buf {
                return Err(TimeError::MissingNumber { unit: 'm' });
            }
            proof {
                gt = gt + gb;
                gb = 0;
            }
            if t_over || b_over {
                t_over = true;
            } else {
                let nt: u64 = total + buf;
                if nt > i32::MAX as u64 {
                    t_over = true;
                } else {
                    total = nt;
                }
            }
            buf = 0;
            b_over = false;
            has_buf = false;
        } else {
            return Err(TimeError::InvalidCharacter { found: c });
        }
        i += 1;
    }
    proof {
        assert(time_str@.skip(n as int) =~= Seq::<char>::empty());
    }
    if t_over || b_over {
        return Err(TimeError::Overflow);
    }
    let v: u64 = total + if has_buf {
        buf
    } else {
        0
    };
    if v > i32::MAX as u64 {
        Err(TimeError::Overflow)
    } else if v == 0 {
        Err(TimeError::Zero)
    } else {
        Ok(v as i32)
    }
}

} // verus!
