//! Decimal numerals as they appear in the textual wire encoding: the
//! canonical digit string of a number, the value of a digit string, and a
//! verified scanner for a numeral inside a byte string.
//!
//! Canonical means what the JSON grammar demands of an unsigned integer: at
//! least one digit, and no leading zero except for the numeral `0` itself.

use vstd::arithmetic::div_mod::lemma_fundamental_div_mod_converse;
use vstd::prelude::*;

verus! {

/// The byte code of the digit zero.
pub const DIGIT_ZERO: u8 = 48;

/// Whether a byte is an ASCII decimal digit.
pub open spec fn is_digit(b: u8) -> bool {
    48 <= b && b <= 57
}

/// Every byte of `s` is a decimal digit.
pub open spec fn all_digits(s: Seq<u8>) -> bool {
    forall|i: int| 0 <= i < s.len() ==> is_digit(#[trigger] s[i])
}

/// A canonical decimal numeral: non-empty, all digits, and no leading zero
/// unless it is exactly `0`.
pub open spec fn canonical_digits(s: Seq<u8>) -> bool {
    &&& s.len() > 0
    &&& all_digits(s)
    &&& (s[0] != DIGIT_ZERO || s.len() == 1)
}

/// The canonical decimal digit string of `n`, most significant digit first.
pub open spec fn dec_digits(n: nat) -> Seq<u8>
    decreases n,
{
    if n < 10 {
        seq![(n + 48) as u8]
    } else {
        dec_digits(n / 10) + seq![(n % 10 + 48) as u8]
    }
}

/// The number a digit string denotes.
pub open spec fn dec_val(s: Seq<u8>) -> nat
    decreases s.len(),
{
    if s.len() == 0 {
        0
    } else {
        (dec_val(s.drop_last()) * 10 + s.last() - 48) as nat
    }
}

/// The digit string of a number is canonical.
pub proof fn lemma_dec_digits_canonical(n: nat)
    ensures
        canonical_digits(dec_digits(n)),
        n > 0 ==> dec_digits(n)[0] != DIGIT_ZERO,
    decreases n,
{
    if n < 10 {
    } else {
        lemma_dec_digits_canonical(n / 10);
        let s = dec_digits(n);
        let q = dec_digits(n / 10);
        assert(s[0] == q[0]);
        assert forall|i: int| 0 <= i < s.len() implies is_digit(#[trigger] s[i]) by {
            if i < q.len() {
                assert(s[i] == q[i]);
            } else {
                assert(s[i] == (n % 10 + 48) as u8);
            }
        }
    }
}

/// Reading the digit string of `n` back yields `n`.
pub proof fn lemma_dec_val_of_digits(n: nat)
    ensures
        dec_val(dec_digits(n)) == n,
    decreases n,
{
    if n < 10 {
        let s = dec_digits(n);
        assert(s.drop_last() =~= Seq::<u8>::empty());
        assert(dec_val(Seq::<u8>::empty()) == 0);
    } else {
        lemma_dec_val_of_digits(n / 10);
        let q = dec_digits(n / 10);
        let s = dec_digits(n);
        assert(s.drop_last() =~= q);
        assert(s.last() == (n % 10 + 48) as u8);
        assert(dec_val(s) == (n / 10) * 10 + n % 10);
    }
}

/// A non-empty digit string without a leading zero denotes at least one.
pub proof fn lemma_dec_val_positive(s: Seq<u8>)
    requires
        all_digits(s),
        s.len() > 0,
        s[0] != DIGIT_ZERO,
    ensures
        dec_val(s) >= 1,
    decreases s.len(),
{
    if s.len() == 1 {
        assert(is_digit(s[0]));
    } else {
        let q = s.drop_last();
        assert(q[0] == s[0]);
        assert(all_digits(q)) by {
            assert(forall|i: int| 0 <= i < q.len() ==> q[i] == s[i]);
        }
        lemma_dec_val_positive(q);
        assert(is_digit(s.last()));
    }
}

/// A canonical digit string is the digit string of its own value: canonical
/// numerals and numbers correspond one to one.
pub proof fn lemma_dec_digits_of_val(s: Seq<u8>)
    requires
        canonical_digits(s),
    ensures
        dec_digits(dec_val(s)) == s,
    decreases s.len(),
{
    if s.len() == 1 {
        assert(is_digit(s[0]));
        assert(dec_val(s) == s[0] - 48) by {
            assert(s.drop_last() =~= Seq::<u8>::empty());
        }
        assert(dec_digits(dec_val(s)) =~= s);
    } else {
        let q = s.drop_last();
        let d = s.last();
        assert(is_digit(d));
        assert(q[0] == s[0]);
        assert(all_digits(q)) by {
            assert(forall|i: int| 0 <= i < q.len() ==> q[i] == s[i]);
        }
        lemma_dec_digits_of_val(q);
        lemma_dec_val_positive(q);
        let n = dec_val(s);
        assert(n == dec_val(q) * 10 + (d - 48));
        lemma_fundamental_div_mod_converse(n as int, 10, dec_val(q) as int, (d - 48) as int);
        assert(n / 10 == dec_val(q));
        assert(n % 10 == d - 48);
        assert(n >= 10);
        assert(dec_digits(n) =~= s);
    }
}

/// Scanning more digits never lowers the value: a prefix of a digit string
/// denotes no more than the whole.
pub proof fn lemma_dec_val_prefix_le(s: Seq<u8>, i: int)
    requires
        all_digits(s),
        0 <= i <= s.len(),
    ensures
        dec_val(s.subrange(0, i)) <= dec_val(s),
    decreases s.len() - i,
{
    if i == s.len() {
        assert(s.subrange(0, i) =~= s);
    } else {
        assert(s.subrange(0, i + 1).drop_last() =~= s.subrange(0, i));
        assert(is_digit(s[i]));
        assert(dec_val(s.subrange(0, i + 1)) == dec_val(s.subrange(0, i)) * 10 + (s[i] - 48));
        lemma_dec_val_prefix_le(s, i + 1);
    }
}

/// The first position at or after `i` that does not hold a digit (or the end
/// of `s`): the right boundary of the digit run starting at `i`.
pub open spec fn digits_end(s: Seq<u8>, i: int) -> int
    decreases s.len() - i,
{
    if 0 <= i && i < s.len() && is_digit(s[i]) {
        digits_end(s, i + 1)
    } else {
        i
    }
}

/// The digit run's boundary lies between `i` and the end of `s`, everything
/// before it is a digit, and the byte at it (if any) is not.
pub proof fn lemma_digits_end_bounds(s: Seq<u8>, i: int)
    requires
        0 <= i <= s.len(),
    ensures
        i <= digits_end(s, i) <= s.len(),
        forall|k: int| i <= k < digits_end(s, i) ==> is_digit(#[trigger] s[k]),
        digits_end(s, i) < s.len() ==> !is_digit(s[digits_end(s, i)]),
    decreases s.len() - i,
{
    if i < s.len() && is_digit(s[i]) {
        lemma_digits_end_bounds(s, i + 1);
    }
}

/// A run of digits from `i` up to a non-digit (or the end) at `j` has its
/// boundary exactly at `j`.
pub proof fn lemma_digits_end_of_run(s: Seq<u8>, i: int, j: int)
    requires
        0 <= i <= j <= s.len(),
        forall|k: int| i <= k < j ==> is_digit(#[trigger] s[k]),
        j == s.len() || !is_digit(s[j]),
    ensures
        digits_end(s, i) == j,
    decreases j - i,
{
    if i < j {
        lemma_digits_end_of_run(s, i + 1, j);
    }
}

/// Whether a canonical numeral that fits this machine's `usize` starts at
/// position `i` of `s`.
pub open spec fn num_ok(s: Seq<u8>, i: int) -> bool {
    let j = digits_end(s, i);
    &&& j > i
    &&& (s[i] != DIGIT_ZERO || j == i + 1)
    &&& dec_val(s.subrange(i, j)) <= usize::MAX
}

/// The value of the numeral starting at position `i` of `s`.
pub open spec fn num_val(s: Seq<u8>, i: int) -> nat {
    dec_val(s.subrange(i, digits_end(s, i)))
}

/// Scans the decimal numeral starting at `start`: its value and the position
/// just past its last digit, or `None` where no canonical numeral that fits
/// a `usize` starts there.
pub fn parse_number(b: &[u8], start: usize) -> (r: Option<(usize, usize)>)
    requires
        start <= b@.len(),
    ensures
        match r {
            Some(p) => num_ok(b@, start as int) && p.0 == num_val(b@, start as int) && p.1
                == digits_end(b@, start as int),
            None => !num_ok(b@, start as int),
        },
{
    proof {
        lemma_digits_end_bounds(b@, start as int);
    }
    if start == b.len() || b[start] < 48 || b[start] > 57 {
        return None;
    }
    if b[start] == DIGIT_ZERO {
        if start + 1 == b.len() || b[start + 1] < 48 || b[start + 1] > 57 {
            proof {
                lemma_digits_end_of_run(b@, start as int, start as int + 1);
                assert(b@.subrange(start as int, start as int + 1) =~= seq![DIGIT_ZERO]);
                assert(b@.subrange(start as int, start as int + 1).drop_last() =~= Seq::<
                    u8,
                >::empty());
                assert(dec_val(Seq::<u8>::empty()) == 0);
            }
            return Some((0, start + 1));
        } else {
            proof {
                lemma_digits_end_bounds(b@, start as int + 2);
                lemma_digits_end_of_run(
                    b@,
                    start as int,
                    digits_end(b@, start as int + 2),
                );
            }
            return None;
        }
    }
    let ghost s = b@;
    let ghost e = digits_end(s, start as int);
    let mut j = start;
    let mut acc: usize = 0;
    proof {
        assert(s.subrange(start as int, start as int) =~= Seq::<u8>::empty());
    }
    while j < b.len() && 48 <= b[j] && b[j] <= 57
        invariant
            start <= j <= b@.len(),
            s == b@,
            e == digits_end(s, start as int),
            digits_end(s, j as int) == e,
            forall|k: int| start <= k < j ==> is_digit(#[trigger] s[k]),
            acc == dec_val(s.subrange(start as int, j as int)),
            s[start as int] != DIGIT_ZERO,
            is_digit(s[start as int]),
            start < b@.len(),
        decreases b@.len() - j,
    {
        let d = b[j] - 48;
        proof {
            lemma_digits_end_bounds(s, j as int);
            assert(digits_end(s, j as int) == digits_end(s, j as int + 1));
            assert(s.subrange(start as int, j as int + 1).drop_last() =~= s.subrange(
                start as int,
                j as int,
            ));
            assert(dec_val(s.subrange(start as int, j as int + 1)) == acc * 10 + d);
        }
        if acc <= (usize::MAX - d as usize) / 10 {
            proof {
                assert(10 * acc <= 10 * ((usize::MAX - d as usize) / 10)) by (nonlinear_arith)
                    requires
                        acc <= (usize::MAX - d as usize) / 10,
                ;
                assert(10 * ((usize::MAX - d as usize) / 10) <= usize::MAX - d as usize);
            }
            acc = acc * 10 + d as usize;
            j = j + 1;
        } else {
            proof {
                assert(acc * 10 + d > usize::MAX) by (nonlinear_arith)
                    requires
                        acc > (usize::MAX - d as usize) / 10,
                        0 <= d <= 9,
                ;
                let run = s.subrange(start as int, e);
                lemma_digits_end_bounds(s, start as int);
                assert(j + 1 <= e) by {
                    lemma_digits_end_bounds(s, j as int + 1);
                }
                assert(all_digits(run)) by {
                    assert(forall|k: int|
                        0 <= k < run.len() ==> run[k] == s[start as int + k]);
                }
                lemma_dec_val_prefix_le(run, j as int + 1 - start);
                assert(run.subrange(0, j as int + 1 - start) =~= s.subrange(
                    start as int,
                    j as int + 1,
                ));
                assert(dec_val(s.subrange(start as int, e)) > usize::MAX);
            }
            return None;
        }
    }
    proof {
        lemma_digits_end_of_run(s, j as int, j as int);
        assert(e == j);
        assert(e > start) by {
            assert(digits_end(s, start as int) == digits_end(s, start as int + 1));
            lemma_digits_end_bounds(s, start as int + 1);
        }
    }
    Some((acc, j))
}

} // verus!
