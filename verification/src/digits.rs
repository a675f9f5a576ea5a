//! Decimal text: the value of a digit string, and the digit string of a value.

use vstd::prelude::*;

verus! {

/// `c` is one of `'0'..='9'`.
pub open spec fn is_dec_digit(c: char) -> bool {
    '0' <= c && c <= '9'
}

/// Numeric value of a single decimal digit character.
pub open spec fn digit_val(c: char) -> int {
    c as int - '0' as int
}

/// Every character of `s` is a decimal digit.
pub open spec fn all_digits(s: Seq<char>) -> bool {
    forall|i: int| 0 <= i < s.len() ==> is_dec_digit(#[trigger] s[i])
}

pub open spec fn pow10(n: nat) -> int
    decreases n,
{
    if n == 0 {
        1
    } else {
        10 * pow10((n - 1) as nat)
    }
}

/// Value of a digit string, most significant digit first.
pub open spec fn digits_val(s: Seq<char>) -> int
    decreases s.len(),
{
    if s.len() == 0 {
        0
    } else {
        digit_val(s[0]) * pow10((s.len() - 1) as nat) + digits_val(s.skip(1))
    }
}

/// The digit character for a value in `0..=9`.
pub open spec fn digit_char(d: int) -> char {
    if d == 0 { '0' }
    else if d == 1 { '1' }
    else if d == 2 { '2' }
    else if d == 3 { '3' }
    else if d == 4 { '4' }
    else if d == 5 { '5' }
    else if d == 6 { '6' }
    else if d == 7 { '7' }
    else if d == 8 { '8' }
    else { '9' }
}

/// Shortest decimal representation of `n` (no leading zeros).
pub open spec fn dec_rep(n: nat) -> Seq<char>
    decreases n,
{
    if n < 10 {
        seq![digit_char(n as int)]
    } else {
        dec_rep(n / 10).push(digit_char((n % 10) as int))
    }
}

/// Fixed-width decimal representation of `n`, `w` digits, zero padded
/// (meaningful when `n < pow10(w)`).
pub open spec fn dec_pad(n: nat, w: nat) -> Seq<char>
    decreases w,
{
    if w == 0 {
        Seq::empty()
    } else {
        dec_pad(n / 10, (w - 1) as nat).push(digit_char((n % 10) as int))
    }
}

pub proof fn lemma_pow10_pos(n: nat)
    ensures
        pow10(n) >= 1,
    decreases n,
{
    if n > 0 {
        lemma_pow10_pos((n - 1) as nat);
    }
}

/// Appending a digit multiplies the value by ten and adds the digit.
pub proof fn lemma_digits_val_push(s: Seq<char>, c: char)
    ensures
        digits_val(s.push(c)) == digits_val(s) * 10 + digit_val(c),
    decreases s.len(),
{
    if s.len() == 0 {
        assert(s.push(c) =~= seq![c]);
        assert(digits_val(seq![c].skip(1)) == 0) by {
            assert(seq![c].skip(1) =~= Seq::<char>::empty());
        }
    } else {
        assert(s.push(c).skip(1) =~= s.skip(1).push(c));
        lemma_digits_val_push(s.skip(1), c);
        let n: nat = (s.len() - 1) as nat;
        assert(pow10(n + 1) == 10 * pow10(n));
        assert(digit_val(s[0]) * pow10(n + 1) == (digit_val(s[0]) * pow10(n)) * 10)
            by (nonlinear_arith);
        assert(digits_val(s.push(c)) == digit_val(s[0]) * pow10(n + 1) + digits_val(s.skip(1)) * 10
            + digit_val(c));
    }
}

/// Exec digit test, mirroring `is_dec_digit`.
pub fn dec_digit_of(c: char) -> (r: Option<u32>)
    ensures
        match r {
            Some(v) => is_dec_digit(c) && v == digit_val(c) && v <= 9,
            None => !is_dec_digit(c),
        },
{
    if '0' <= c && c <= '9' {
        Some(c as u32 - '0' as u32)
    } else {
        None
    }
}

/// Exec mirror of `is_dec_digit`.
pub fn is_dec_digit_exec(c: char) -> (r: bool)
    ensures
        r == is_dec_digit(c),
{
    '0' <= c && c <= '9'
}

/// Exec digit character, mirroring `digit_char`.
pub fn char_of_digit(d: u32) -> (r: char)
    requires
        d <= 9,
    ensures
        r == digit_char(d as int),
{
    if d == 0 { '0' }
    else if d == 1 { '1' }
    else if d == 2 { '2' }
    else if d == 3 { '3' }
    else if d == 4 { '4' }
    else if d == 5 { '5' }
    else if d == 6 { '6' }
    else if d == 7 { '7' }
    else if d == 8 { '8' }
    else { '9' }
}

/// Reading a printed number gives the number back: the shortest decimal
/// representation is all digits and denotes its value.
pub proof fn lemma_dec_rep_val(n: nat)
    ensures
        all_digits(dec_rep(n)),
        digits_val(dec_rep(n)) == n,
        dec_rep(n).len() > 0,
    decreases n,
{
    reveal_with_fuel(digits_val, 3);
    if n < 10 {
        assert(pow10(0) == 1);
        assert(dec_rep(n) =~= seq![digit_char(n as int)]);
        assert(seq![digit_char(n as int)].skip(1) =~= Seq::<char>::empty());
        assert(is_dec_digit(digit_char(n as int)) && digit_val(digit_char(n as int)) == n);
    } else {
        lemma_dec_rep_val(n / 10);
        lemma_digits_val_push(dec_rep(n / 10), digit_char((n % 10) as int));
        assert(is_dec_digit(digit_char((n % 10) as int)) && digit_val(
            digit_char((n % 10) as int),
        ) == n % 10);
        assert forall|i: int| 0 <= i < dec_rep(n).len() implies is_dec_digit(
            #[trigger] dec_rep(n)[i],
        ) by {
            if i < dec_rep(n / 10).len() {
                assert(dec_rep(n)[i] == dec_rep(n / 10)[i]);
            }
        }
    }
}

/// Reading a zero-padded number gives the number back, when it fits the
/// width.
pub proof fn lemma_dec_pad_val(n: nat, w: nat)
    requires
        n < pow10(w),
    ensures
        all_digits(dec_pad(n, w)),
        digits_val(dec_pad(n, w)) == n,
        dec_pad(n, w).len() == w,
    decreases w,
{
    reveal_with_fuel(digits_val, 3);
    if w == 0 {
    } else {
        assert(pow10(w) == 10 * pow10((w - 1) as nat));
        lemma_dec_pad_val(n / 10, (w - 1) as nat);
        lemma_digits_val_push(dec_pad(n / 10, (w - 1) as nat), digit_char((n % 10) as int));
        assert(is_dec_digit(digit_char((n % 10) as int)) && digit_val(
            digit_char((n % 10) as int),
        ) == n % 10);
        assert forall|i: int| 0 <= i < dec_pad(n, w).len() implies is_dec_digit(
            #[trigger] dec_pad(n, w)[i],
        ) by {
            if i < dec_pad(n / 10, (w - 1) as nat).len() {
                assert(dec_pad(n, w)[i] == dec_pad(n / 10, (w - 1) as nat)[i]);
            }
        }
    }
}

/// A longer digit string can denote no smaller value range.
pub proof fn lemma_pow10_mono(a: nat, b: nat)
    requires
        a <= b,
    ensures
        pow10(a) <= pow10(b),
    decreases b,
{
    if a < b {
        lemma_pow10_mono(a, (b - 1) as nat);
        lemma_pow10_pos((b - 1) as nat);
    }
}

/// Splits a known concatenation inside `s` into its two parts.
pub proof fn lemma_split_at(s: Seq<char>, i: int, a: Seq<char>, b: Seq<char>)
    requires
        0 <= i,
        i + a.len() + b.len() <= s.len(),
        s.subrange(i, i + a.len() + b.len()) == a + b,
    ensures
        s.subrange(i, i + a.len()) == a,
        s.subrange(i + a.len(), i + a.len() + b.len()) == b,
{
    let ab = a + b;
    assert forall|k: int| 0 <= k < a.len() implies s.subrange(i, i + a.len())[k] == a[k] by {
        assert(s.subrange(i, i + ab.len())[k] == ab[k]);
        assert(ab[k] == a[k]);
        assert(s.subrange(i, i + ab.len())[k] == s[i + k]);
        assert(s.subrange(i, i + a.len())[k] == s[i + k]);
    }
    assert(s.subrange(i, i + a.len()) =~= a);
    assert forall|k: int| 0 <= k < b.len() implies s.subrange(
        i + a.len(),
        i + a.len() + b.len(),
    )[k] == b[k] by {
        assert(s.subrange(i, i + ab.len())[a.len() + k] == ab[a.len() + k]);
        assert(ab[a.len() + k] == b[k]);
        assert(s.subrange(i, i + ab.len())[a.len() + k] == s[i + a.len() + k]);
        assert(s.subrange(i + a.len(), i + a.len() + b.len())[k] == s[i + a.len() + k]);
    }
    assert(s.subrange(i + a.len(), i + a.len() + b.len()) =~= b);
}

/// A one-character slice pins the character.
pub proof fn lemma_char_at(s: Seq<char>, i: int, c: char)
    requires
        0 <= i,
        i + 1 <= s.len(),
        s.subrange(i, i + 1) == seq![c],
    ensures
        s[i] == c,
{
    assert(s.subrange(i, i + 1)[0] == s[i]);
}

/// Reads the digit run `s[from..to]` as a decimal number.
///
/// Returns its value exactly when every character in the range is a digit.
pub fn parse_digits(s: &str, from: usize, to: usize) -> (r: Option<u32>)
    requires
        from <= to <= s@.len(),
        to - from <= 8,
    ensures
        match r {
            Some(v) => all_digits(s@.subrange(from as int, to as int)) && v as int == digits_val(
                s@.subrange(from as int, to as int),
            ),
            None => !all_digits(s@.subrange(from as int, to as int)),
        },
{
    let mut acc: u32 = 0;
    let mut i: usize = from;
    proof {
        assert(s@.subrange(from as int, from as int) =~= Seq::<char>::empty());
    }
    while i < to
        invariant
            from <= i <= to <= s@.len(),
            to - from <= 8,
            all_digits(s@.subrange(from as int, i as int)),
            acc as int == digits_val(s@.subrange(from as int, i as int)),
            (acc as int) < pow10((i - from) as nat),
        decreases to - i,
    {
        let c = vstd::string::StrSliceExecFns::get_char(s, i);
        match dec_digit_of(c) {
            None => {
                proof {
                    assert(s@.subrange(from as int, to as int)[i - from] == c);
                }
                return None;
            },
            Some(d) => {
                proof {
                    reveal_with_fuel(pow10, 9);
                    lemma_pow10_mono((i - from) as nat, 7);
                    assert(pow10(7) == 10000000);
                    let pre = s@.subrange(from as int, i as int);
                    assert(s@.subrange(from as int, i + 1) =~= pre.push(c));
                    lemma_digits_val_push(pre, c);
                }
                acc = acc * 10 + d;
                i += 1;
            },
        }
    }
    proof {
        assert(s@.subrange(from as int, to as int) =~= s@.subrange(from as int, i as int));
    }
    Some(acc)
}

/// Reads the digit run `v[from..to]` as a decimal number, as `parse_digits`
/// does on a string.
pub fn parse_digits_vec(v: &Vec<char>, from: usize, to: usize) -> (r: Option<u32>)
    requires
        from <= to <= v@.len(),
        to - from <= 8,
    ensures
        match r {
            Some(n) => all_digits(v@.subrange(from as int, to as int)) && n as int == digits_val(
                v@.subrange(from as int, to as int),
            ),
            None => !all_digits(v@.subrange(from as int, to as int)),
        },
{
    let mut acc: u32 = 0;
    let mut i: usize = from;
    proof {
        assert(v@.subrange(from as int, from as int) =~= Seq::<char>::empty());
    }
    while i < to
        invariant
            from <= i <= to <= v@.len(),
            to - from <= 8,
            all_digits(v@.subrange(from as int, i as int)),
            acc as int == digits_val(v@.subrange(from as int, i as int)),
            (acc as int) < pow10((i - from) as nat),
        decreases to - i,
    {
        let c = v[i];
        match dec_digit_of(c) {
            None => {
                proof {
                    assert(v@.subrange(from as int, to as int)[i - from] == c);
                }
                return None;
            },
            Some(d) => {
                proof {
                    reveal_with_fuel(pow10, 9);
                    lemma_pow10_mono((i - from) as nat, 7);
                    assert(pow10(7) == 10000000);
                    let pre = v@.subrange(from as int, i as int);
                    assert(v@.subrange(from as int, i + 1) =~= pre.push(c));
                    lemma_digits_val_push(pre, c);
                }
                acc = acc * 10 + d;
                i += 1;
            },
        }
    }
    proof {
        assert(v@.subrange(from as int, to as int) =~= v@.subrange(from as int, i as int));
    }
    Some(acc)
}

/// Appends the shortest decimal representation of `n` to `out`.
pub fn push_dec_u128(out: &mut Vec<char>, n: u128)
    ensures
        final(out)@ == old(out)@ + dec_rep(n as nat),
    decreases n,
{
    if n < 10 {
        out.push(char_of_digit(n as u32));
        assert(out@ =~= old(out)@ + dec_rep(n as nat));
    } else {
        push_dec_u128(out, n / 10);
        out.push(char_of_digit((n % 10) as u32));
        assert(out@ =~= old(out)@ + dec_rep(n as nat));
    }
}

/// Appends exactly `w` decimal digits of `n`, zero padded.
pub fn push_dec_pad(out: &mut Vec<char>, n: u32, w: u32)
    ensures
        final(out)@ == old(out)@ + dec_pad(n as nat, w as nat),
    decreases w,
{
    if w == 0 {
        assert(out@ =~= old(out)@ + dec_pad(n as nat, 0));
    } else {
        push_dec_pad(out, n / 10, w - 1);
        out.push(char_of_digit(n % 10));
        assert(out@ =~= old(out)@ + dec_pad(n as nat, w as nat));
    }
}

} // verus!
