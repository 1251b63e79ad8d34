//! ASCII decimal digits: scanning, reading and writing numbers.
use vstd::prelude::*;

verus! {

pub open spec fn is_digit(b: u8) -> bool {
    48 <= b && b <= 57
}

pub open spec fn all_digits(s: Seq<u8>) -> bool {
    forall|i: int| 0 <= i < s.len() ==> is_digit(#[trigger] s[i])
}

/// The number that a run of decimal digits denotes.
pub open spec fn digits_value(s: Seq<u8>) -> nat
    decreases s.len(),
{
    if s.len() == 0 {
        0
    } else {
        digits_value(s.drop_last()) * 10 + (s.last() - 48) as nat
    }
}

/// The index at which the run of digits that starts at `i` ends.
pub open spec fn run_end(s: Seq<u8>, i: int) -> int
    decreases s.len() - i,
{
    if 0 <= i < s.len() && is_digit(s[i]) {
        run_end(s, i + 1)
    } else {
        i
    }
}

/// The shortest decimal rendering of `n`.
pub open spec fn decimal(n: nat) -> Seq<u8>
    decreases n,
{
    if n < 10 {
        seq![(48 + n) as u8]
    } else {
        decimal(n / 10).push((48 + n % 10) as u8)
    }
}

pub proof fn lemma_decimal(n: nat)
    ensures
        decimal(n).len() >= 1,
        all_digits(decimal(n)),
        digits_value(decimal(n)) == n,
    decreases n,
{
    if n >= 10 {
        lemma_decimal(n / 10);
        let s = decimal(n);
        assert(s.drop_last() == decimal(n / 10));
        assert(s.last() == (48 + n % 10) as u8);
        assert(n == (n / 10) * 10 + n % 10);
        assert(all_digits(s)) by {
            assert forall|i: int| 0 <= i < s.len() implies is_digit(#[trigger] s[i]) by {
                if i < s.len() - 1 {
                    assert(s[i] == decimal(n / 10)[i]);
                }
            }
        }
    } else {
        let s = decimal(n);
        assert(s.drop_last() =~= Seq::<u8>::empty());
        assert(digits_value(s.drop_last()) == 0);
    }
}

/// A run of digits from `i` to `j`, followed by a non-digit or the end, ends at `j`.
pub proof fn lemma_run_end(s: Seq<u8>, i: int, j: int)
    requires
        0 <= i <= j <= s.len(),
        all_digits(s.subrange(i, j)),
        j == s.len() || !is_digit(s[j]),
    ensures
        run_end(s, i) == j,
    decreases j - i,
{
    if i < j {
        assert(s[i] == s.subrange(i, j)[0]);
        assert forall|k: int| 0 <= k < j - (i + 1) implies is_digit(#[trigger] s.subrange(i + 1, j)[k]) by {
            assert(s.subrange(i + 1, j)[k] == s.subrange(i, j)[k + 1]);
        }
        lemma_run_end(s, i + 1, j);
    }
}

/// Dropping trailing digits never makes the value larger.
pub proof fn lemma_digits_value_prefix(s: Seq<u8>, k: int)
    requires
        all_digits(s),
        0 <= k <= s.len(),
    ensures
        digits_value(s.subrange(0, k)) <= digits_value(s),
    decreases s.len(),
{
    if k == s.len() {
        assert(s.subrange(0, k) =~= s);
    } else {
        let t = s.drop_last();
        assert forall|i: int| 0 <= i < t.len() implies is_digit(#[trigger] t[i]) by {
            assert(t[i] == s[i]);
        }
        lemma_digits_value_prefix(t, k);
        assert(t.subrange(0, k) =~= s.subrange(0, k));
    }
}

pub fn is_digit_byte(b: u8) -> (r: bool)
    ensures
        r == is_digit(b),
{
    48 <= b && b <= 57
}

/// Returns the end of the run of digits of `s` that starts at `i`.
pub fn scan_digits(s: &[u8], i: usize) -> (r: usize)
    requires
        i <= s@.len(),
    ensures
        r as int == run_end(s@, i as int),
        i <= r <= s@.len(),
        all_digits(s@.subrange(i as int, r as int)),
        r == s@.len() || !is_digit(s@[r as int]),
{
    let mut k: usize = i;
    while k < s.len() && is_digit_byte(s[k])
        invariant
            i <= k <= s@.len(),
            run_end(s@, i as int) == run_end(s@, k as int),
            all_digits(s@.subrange(i as int, k as int)),
        decreases s@.len() - k,
    {
        proof {
            let a = s@.subrange(i as int, k as int);
            let b = s@.subrange(i as int, k + 1);
            assert forall|j: int| 0 <= j < b.len() implies is_digit(#[trigger] b[j]) by {
                if j < a.len() {
                    assert(b[j] == a[j]);
                }
            }
        }
        k = k + 1;
    }
    k
}

/// Reads the digits `s[i..j]` as a number; `None` when it does not fit in 64 bits.
pub fn read_digits(s: &[u8], i: usize, j: usize) -> (r: Option<u64>)
    requires
        i <= j <= s@.len(),
        all_digits(s@.subrange(i as int, j as int)),
    ensures
        match r {
            Some(v) => v as nat == digits_value(s@.subrange(i as int, j as int)),
            None => digits_value(s@.subrange(i as int, j as int)) > u64::MAX,
        },
{
    let mut v: u64 = 0;
    let mut k: usize = i;
    while k < j
        invariant
            i <= k <= j <= s@.len(),
            all_digits(s@.subrange(i as int, j as int)),
            v as nat == digits_value(s@.subrange(i as int, k as int)),
        decreases j - k,
    {
        assert(s@[k as int] == s@.subrange(i as int, j as int)[k - i]);
        let d: u64 = (s[k] - 48) as u64;
        let ghost next = s@.subrange(i as int, k + 1);
        assert(next.drop_last() =~= s@.subrange(i as int, k as int));
        assert(digits_value(next) == v * 10 + d);
        if v > (u64::MAX - d) / 10 {
            proof {
                assert(v * 10 + d > u64::MAX) by (nonlinear_arith)
                    requires
                        v > (u64::MAX - d) / 10,
                        d <= 9,
                ;
                let all = s@.subrange(i as int, j as int);
                lemma_digits_value_prefix(all, k + 1 - i);
                assert(all.subrange(0, k + 1 - i) =~= next);
            }
            return None;
        }
        assert(v * 10 + d <= u64::MAX) by (nonlinear_arith)
            requires
                v <= (u64::MAX - d) / 10,
                d <= 9,
        ;
        v = v * 10 + d;
        k = k + 1;
    }
    Some(v)
}

/// Appends the decimal rendering of `n` to `out`.
pub fn push_decimal(n: u64, out: &mut Vec<u8>)
    ensures
        final(out)@ == old(out)@ + decimal(n as nat),
    decreases n,
{
    if n >= 10 {
        push_decimal(n / 10, out);
    }
    let d: u8 = (48 + n % 10) as u8;
    out.push(d);
    proof {
        if n >= 10 {
            assert(decimal(n as nat) == decimal((n / 10) as nat).push(d));
            assert(final(out)@ =~= old(out)@ + decimal(n as nat));
        } else {
            assert(decimal(n as nat) =~= seq![d]);
            assert(final(out)@ =~= old(out)@ + decimal(n as nat));
        }
    }
}

} // verus!
