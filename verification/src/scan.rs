//! The numeric scanner: extracts the digit run that a left-to-right scan of a
//! string leaves in its accumulator, and parses it as a machine integer.
//!
//! The scan keeps only the most recently seen contiguous digit run, so the
//! run that survives to the end of the string is the last maximal run, not
//! the first.  That behaviour is part of the component's contract.

use vstd::prelude::*;
use vstd::arithmetic::div_mod::lemma_fundamental_div_mod;
use crate::text::{is_digit_char, digit_val, is_digit, str_to_chars};

verus! {

/// Why a scan produced no number.
#[derive(Debug, Clone, Copy, PartialEq, Eq, Structural)]
pub enum ScanError {
    /// The string holds no decimal digit at all.
    NoDigits,
    /// The final digit run does not fit in the target integer width.
    Overflow,
}

/// The scan accumulator after reading all of `s`: the position of the last
/// digit seen and the digit run it closes, or nothing if no digit occurred.
/// A digit adjacent to the tracked run extends it; a digit after a gap
/// replaces the run; a non-digit leaves the accumulator unchanged.
pub open spec fn scan_state(s: Seq<char>) -> Option<(int, Seq<char>)>
    decreases s.len(),
{
    if s.len() == 0 {
        None
    } else {
        let prev = scan_state(s.drop_last());
        let pos = s.len() as int - 1;
        let c = s[s.len() - 1];
        if is_digit_char(c) {
            match prev {
                Some(p) => if p.0 == pos - 1 {
                    Some((pos, p.1.push(c)))
                } else {
                    Some((pos, seq![c]))
                },
                None => Some((pos, seq![c])),
            }
        } else {
            prev
        }
    }
}

/// The value of a digit string read in base ten.
pub open spec fn digits_val(ds: Seq<char>) -> int
    decreases ds.len(),
{
    if ds.len() == 0 {
        0
    } else {
        digits_val(ds.drop_last()) * 10 + digit_val(ds[ds.len() - 1])
    }
}

/// What scanning `s` yields: the value of the surviving digit run, absence
/// if no digit occurred, or an overflow failure if the run does not fit.
pub open spec fn scan_spec(s: Seq<char>) -> Result<usize, ScanError> {
    match scan_state(s) {
        None => Err(ScanError::NoDigits),
        Some(st) => if digits_val(st.1) <= usize::MAX as int {
            Ok(digits_val(st.1) as usize)
        } else {
            Err(ScanError::Overflow)
        },
    }
}

/// A digit string of nonnegative value never shrinks when extended.
proof fn lemma_digits_val_take_le(ds: Seq<char>, k: int)
    requires
        0 <= k <= ds.len(),
        forall|j: int| 0 <= j < ds.len() ==> is_digit_char(ds[j]),
    ensures
        0 <= digits_val(ds.take(k)) <= digits_val(ds),
    decreases ds.len(),
{
    if ds.len() == 0 {
        assert(ds.take(k) =~= ds);
    } else if k == ds.len() {
        assert(ds.take(k) =~= ds);
        lemma_digits_val_take_le(ds.drop_last(), ds.len() - 1);
        assert(ds.drop_last().take(ds.len() - 1) =~= ds.drop_last());
    } else {
        assert(ds.drop_last().take(k) =~= ds.take(k));
        lemma_digits_val_take_le(ds.drop_last(), k);
    }
}

/// The digit character of a value between zero and nine.
pub open spec fn digit_char(d: int) -> char {
    if d == 0 {
        '0'
    } else if d == 1 {
        '1'
    } else if d == 2 {
        '2'
    } else if d == 3 {
        '3'
    } else if d == 4 {
        '4'
    } else if d == 5 {
        '5'
    } else if d == 6 {
        '6'
    } else if d == 7 {
        '7'
    } else if d == 8 {
        '8'
    } else {
        '9'
    }
}

/// The decimal form of a nonnegative integer, most significant digit first.
pub open spec fn dec_str(n: int) -> Seq<char>
    decreases n,
{
    if n <= 9 {
        seq![digit_char(n)]
    } else {
        dec_str(n / 10).push(digit_char(n % 10))
    }
}

/// The decimal form of `n` consists of digits and reads back as `n`.
proof fn lemma_dec_str_val(n: int)
    requires
        0 <= n,
    ensures
        dec_str(n).len() >= 1,
        forall|j: int| 0 <= j < dec_str(n).len() ==> is_digit_char(dec_str(n)[j]),
        digits_val(dec_str(n)) == n,
    decreases n,
{
    if n <= 9 {
        let ds = dec_str(n);
        assert(digit_val(digit_char(n)) == n);
        assert(ds.drop_last() =~= Seq::<char>::empty());
        assert(digits_val(ds) == digits_val(ds.drop_last()) * 10 + digit_val(ds[0]));
        assert(digits_val(ds) == n);
    } else {
        lemma_dec_str_val(n / 10);
        lemma_fundamental_div_mod(n, 10);
        let ds = dec_str(n);
        assert(ds.drop_last() =~= dec_str(n / 10));
        assert(digit_val(digit_char(n % 10)) == n % 10);
        assert(digits_val(ds) == digits_val(ds.drop_last()) * 10 + digit_val(ds[ds.len() - 1]));
        assert(digits_val(ds) == (n / 10) * 10 + n % 10);
        assert(digits_val(ds) == n);
    }
}

/// Over a string made of digits alone, the scan's surviving run is the
/// whole string.
proof fn lemma_scan_all_digits(s: Seq<char>)
    requires
        s.len() >= 1,
        forall|j: int| 0 <= j < s.len() ==> is_digit_char(s[j]),
    ensures
        scan_state(s) == Some((s.len() as int - 1, s)),
    decreases s.len(),
{
    if s.len() == 1 {
        assert(s.drop_last() =~= Seq::<char>::empty());
        assert(seq![s[0]] =~= s);
    } else {
        lemma_scan_all_digits(s.drop_last());
        assert(s.drop_last().push(s[s.len() - 1]) =~= s);
    }
}

/// Scanning the decimal form of any machine integer gives back that
/// integer: the scan and the decimal notation are mutually inverse on
/// strings that hold one number and nothing else.
pub proof fn lemma_scan_round_trip(n: usize)
    ensures
        scan_spec(dec_str(n as int)) == Ok::<usize, ScanError>(n),
{
    lemma_dec_str_val(n as int);
    lemma_scan_all_digits(dec_str(n as int));
}

/// The scan over `v`, with the exact result `scan_spec` describes.
pub fn scan_chars(v: &Vec<char>) -> (r: Result<usize, ScanError>)
    ensures
        r == scan_spec(v@),
{
    let mut run: Option<(usize, usize)> = None;
    let mut i: usize = 0;
    proof {
        assert(v@.take(0) =~= Seq::<char>::empty());
    }
    while i < v.len()
        invariant
            0 <= i <= v.len(),
            match run {
                None => scan_state(v@.take(i as int)) is None,
                Some((st, lp)) => st <= lp < i && scan_state(v@.take(i as int)) == Some(
                    (lp as int, v@.subrange(st as int, lp as int + 1)),
                ) && (forall|k: int| st <= k <= lp ==> is_digit_char(v@[k])),
            },
        decreases v.len() - i,
    {
        proof {
            assert(v@.take(i as int + 1).drop_last() =~= v@.take(i as int));
            assert(v@.take(i as int + 1)[i as int] == v@[i as int]);
        }
        if is_digit(v[i]) {
            run = match run {
                Some((st, lp)) => if lp == i - 1 && i >= 1 {
                    proof {
                        assert(v@.subrange(st as int, lp as int + 1).push(v@[i as int])
                            =~= v@.subrange(st as int, i as int + 1));
                    }
                    Some((st, i))
                } else {
                    proof {
                        assert(seq![v@[i as int]] =~= v@.subrange(i as int, i as int + 1));
                    }
                    Some((i, i))
                },
                None => {
                    proof {
                        assert(seq![v@[i as int]] =~= v@.subrange(i as int, i as int + 1));
                    }
                    Some((i, i))
                },
            };
        }
        i = i + 1;
    }
    proof {
        assert(v@.take(v@.len() as int) =~= v@);
    }
    match run {
        None => Err(ScanError::NoDigits),
        Some((st, lp)) => {
            let ghost ds = v@.subrange(st as int, lp as int + 1);
            let mut acc: usize = 0;
            let mut j: usize = st;
            proof {
                assert(ds.take(0) =~= Seq::<char>::empty());
            }
            while j <= lp
                invariant
                    st <= j <= lp + 1,
                    lp < v.len(),
                    ds == v@.subrange(st as int, lp as int + 1),
                    scan_state(v@) == Some((lp as int, ds)),
                    forall|k: int| 0 <= k < ds.len() ==> is_digit_char(ds[k]),
                    acc as int == digits_val(ds.take(j - st)),
                decreases lp + 1 - j,
            {
                proof {
                    assert(ds[j - st] == v@[j as int]);
                    assert(is_digit_char(v@[j as int]));
                    assert(ds.take(j - st + 1).drop_last() =~= ds.take(j - st));
                }
                let u = v[j] as u32;
                let d: usize = (u - 48) as usize;
                proof {
                    assert(d as int == digit_val(ds[j - st]));
                }
                let next = match acc.checked_mul(10) {
                    Some(m) => m.checked_add(d),
                    None => None,
                };
                match next {
                    Some(a2) => {
                        acc = a2;
                    },
                    None => {
                        proof {
                            assert(digits_val(ds.take(j - st + 1)) > usize::MAX as int);
                            lemma_digits_val_take_le(ds, j - st + 1);
                            assert(digits_val(ds) > usize::MAX as int);
                        }
                        return Err(ScanError::Overflow);
                    },
                }
                j = j + 1;
            }
            proof {
                assert(ds.take(lp + 1 - st) =~= ds);
            }
            Ok(acc)
        },
    }
}

/// The first number a stateful left-to-right scan of `s` leaves behind,
/// which is the value of the last maximal contiguous digit run.
pub fn scan_num(s: &str) -> (r: Result<usize, ScanError>)
    ensures
        r == scan_spec(s@),
{
    let chars = str_to_chars(s);
    scan_chars(&chars)
}

} // verus!
