//! Decimal numbers in rule text: reading an optional status token as an
//! unsigned integer and writing integers back as ASCII digits.

use vstd::prelude::*;

verus! {

/// Whether `b` is an ASCII decimal digit.
pub open spec fn is_digit(b: u8) -> bool {
    48 <= b <= 57
}

/// Whether every byte of `s` is an ASCII decimal digit.
pub open spec fn all_digits(s: Seq<u8>) -> bool {
    forall|i: int| 0 <= i < s.len() ==> is_digit(s[i])
}

/// The number the digit bytes of `s` denote, most significant first.
pub open spec fn digits_val(s: Seq<u8>) -> int
    decreases s.len(),
{
    if s.len() == 0 {
        0
    } else {
        digits_val(s.drop_last()) * 10 + (s.last() - 48)
    }
}

/// The decimal digit bytes of `n`, most significant first, no sign and no
/// leading zero.
pub open spec fn dec_digits(n: int) -> Seq<u8>
    decreases n,
{
    if n < 10 {
        seq![(48 + if n >= 0 { n } else { 0 }) as u8]
    } else {
        dec_digits(n / 10).push((48 + n % 10) as u8)
    }
}

/// Writing a number as digits and reading the digits back is the identity.
pub proof fn lemma_dec_digits_val(n: int)
    requires
        n >= 0,
    ensures
        digits_val(dec_digits(n)) == n,
        all_digits(dec_digits(n)),
        dec_digits(n).len() >= 1,
    decreases n,
{
    if n < 10 {
        let s1 = dec_digits(n);
        assert(s1 =~= seq![(48 + n) as u8]);
        assert(s1.drop_last() =~= Seq::<u8>::empty());
        assert(digits_val(Seq::<u8>::empty()) == 0);
        assert(digits_val(s1) == (s1.last() - 48));
    } else {
        lemma_dec_digits_val(n / 10);
        let d = dec_digits(n / 10);
        let whole = d.push((48 + n % 10) as u8);
        assert(whole.drop_last() =~= d);
        assert(digits_val(whole) == digits_val(d) * 10 + n % 10);
    }
}

/// A number in the hundreds is written with exactly three digits.
pub proof fn lemma_dec_digits_three(n: int)
    requires
        100 <= n <= 999,
    ensures
        dec_digits(n).len() == 3,
{
    let a = n / 10;
    assert(10 <= a <= 99);
    assert(1 <= a / 10 <= 9);
    assert(dec_digits(a / 10).len() == 1);
    assert(dec_digits(a).len() == 2);
}

/// What reading an unsigned decimal integer accepts: an optional plus sign,
/// then at least one digit, denoting a value that fits in sixteen bits.
pub open spec fn parse_u16_spec(s: Seq<u8>) -> Option<u16> {
    let t = if s.len() > 0 && s[0] == 43 {
        s.drop_first()
    } else {
        s
    };
    if t.len() > 0 && all_digits(t) && digits_val(t) <= 65535 {
        Some(digits_val(t) as u16)
    } else {
        None
    }
}

/// Digit strings denote nonnegative numbers.
proof fn lemma_digits_val_nonneg(s: Seq<u8>)
    requires
        all_digits(s),
    ensures
        digits_val(s) >= 0,
    decreases s.len(),
{
    if s.len() > 0 {
        assert(all_digits(s.drop_last()));
        lemma_digits_val_nonneg(s.drop_last());
    }
}

/// Appending digit bytes never shrinks the denoted number.
proof fn lemma_digits_val_prefix(s: Seq<u8>, k: int)
    requires
        0 <= k <= s.len(),
        all_digits(s),
    ensures
        digits_val(s.take(k)) <= digits_val(s),
    decreases s.len() - k,
{
    if k == s.len() {
        assert(s.take(k) =~= s);
    } else {
        lemma_digits_val_prefix(s, k + 1);
        let u = s.take(k + 1);
        assert(u.drop_last() =~= s.take(k));
        assert(all_digits(s.take(k)));
        lemma_digits_val_nonneg(s.take(k));
        assert(digits_val(u) == digits_val(s.take(k)) * 10 + (s[k] - 48));
    }
}

/// Reads `s` as an unsigned decimal integer, as `parse_u16_spec` describes.
pub fn parse_u16(s: &[u8]) -> (r: Option<u16>)
    ensures
        r == parse_u16_spec(s@),
{
    let n: usize = s.len();
    let start: usize = if n > 0 && s[0] == 43 {
        1
    } else {
        0
    };
    let ghost t = if s@.len() > 0 && s@[0] == 43 {
        s@.drop_first()
    } else {
        s@
    };
    proof {
        assert(t =~= s@.skip(start as int));
    }
    if start >= n {
        return None;
    }
    let mut v: u32 = 0;
    let mut j: usize = start;
    while j < n
        invariant
            start <= j <= n == s@.len(),
            start < n,
            start == (if s@.len() > 0 && s@[0] == 43 { 1int } else { 0int }),
            t == s@.skip(start as int),
            t == (if s@.len() > 0 && s@[0] == 43 { s@.drop_first() } else { s@ }),
            t.len() == n - start,
            forall|i: int| 0 <= i < j - start ==> is_digit(t[i]),
            v == digits_val(t.take(j - start)),
            v <= 65535,
        decreases n - j,
    {
        let b = s[j];
        let ghost k = j - start;
        proof {
            assert(t[k] == s@[j as int]);
        }
        if b < 48 || b > 57 {
            proof {
                assert(!is_digit(t[k]));
                assert(!all_digits(t));
            }
            return None;
        }
        proof {
            assert(t.take(k + 1).drop_last() =~= t.take(k));
            assert(t.take(k + 1).last() == t[k]);
        }
        v = v * 10 + ((b - 48) as u32);
        proof {
            assert(v == digits_val(t.take(k + 1)));
        }
        if v > 65535 {
            proof {
                if all_digits(t) {
                    lemma_digits_val_prefix(t, k + 1);
                }
            }
            return None;
        }
        j = j + 1;
    }
    proof {
        assert(t.take(n - start) =~= t);
    }
    Some(v as u16)
}

/// The decimal digit bytes of `n`, as `dec_digits` describes them.
pub fn dec_of(n: usize) -> (r: Vec<u8>)
    ensures
        r@ == dec_digits(n as int),
    decreases n,
{
    if n < 10 {
        let mut r: Vec<u8> = Vec::new();
        r.push(48 + (n as u8));
        proof {
            assert(r@ =~= dec_digits(n as int));
        }
        r
    } else {
        let mut r = dec_of(n / 10);
        r.push(48 + ((n % 10) as u8));
        r
    }
}

} // verus!
