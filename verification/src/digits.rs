//! Decimal rendering and parsing of unsigned counters, over ASCII bytes.

use vstd::prelude::*;

verus! {

/// Whether `b` is the ASCII code of a decimal digit.
pub open spec fn is_dec_digit(b: u8) -> bool {
    48 <= b <= 57
}

/// The ASCII decimal rendering of `n`, most significant digit first, with
/// no leading zero.
pub open spec fn dec_digits(n: nat) -> Seq<u8>
    decreases n,
{
    if n < 10 {
        seq![(48 + n) as u8]
    } else {
        dec_digits(n / 10) + seq![(48 + n % 10) as u8]
    }
}

/// The value of a sequence of ASCII decimal digits, most significant first.
pub open spec fn dec_val(s: Seq<u8>) -> nat
    decreases s.len(),
{
    if s.len() == 0 {
        0
    } else {
        dec_val(s.drop_last()) * 10 + (s.last() - 48) as nat
    }
}

/// The end of the run of decimal digits of `s` that starts at `i`.
pub open spec fn digit_run_end(s: Seq<u8>, i: int) -> int
    decreases s.len() - i,
{
    if i < 0 || i >= s.len() || !is_dec_digit(s[i]) {
        i
    } else {
        digit_run_end(s, i + 1)
    }
}

/// The decimal rendering of a number consists of digits, is never empty,
/// carries no leading zero, and parses back to the number itself.
pub proof fn lemma_dec_digits(n: nat)
    ensures
        dec_digits(n).len() >= 1,
        forall|i: int| 0 <= i < dec_digits(n).len() ==> is_dec_digit(#[trigger] dec_digits(n)[i]),
        dec_val(dec_digits(n)) == n,
        n == 0 ==> dec_digits(n) == seq![48u8],
        n > 0 ==> dec_digits(n)[0] != 48,
    decreases n,
{
    if n < 10 {
        assert(dec_digits(n).drop_last() =~= Seq::<u8>::empty());
        assert(dec_digits(n).last() == (48 + n) as u8);
        assert(dec_val(dec_digits(n)) == dec_val(Seq::<u8>::empty()) * 10 + n);
        if n == 0 {
            assert(dec_digits(n) =~= seq![48u8]);
        }
    } else {
        lemma_dec_digits(n / 10);
        let d = (48 + n % 10) as u8;
        assert(dec_digits(n).drop_last() =~= dec_digits(n / 10));
        assert(dec_digits(n).last() == d);
        assert(dec_val(dec_digits(n)) == (n / 10) * 10 + n % 10);
        assert((n / 10) * 10 + n % 10 == n) by (nonlinear_arith);
        assert(dec_digits(n)[0] == dec_digits(n / 10)[0]);
    }
}

/// A run of digits without a leading zero is exactly the decimal rendering
/// of its value.
pub proof fn lemma_dec_canonical(s: Seq<u8>)
    requires
        s.len() >= 1,
        forall|i: int| 0 <= i < s.len() ==> is_dec_digit(#[trigger] s[i]),
        s.len() == 1 || s[0] != 48,
    ensures
        s == dec_digits(dec_val(s)),
    decreases s.len(),
{
    if s.len() == 1 {
        assert(s.drop_last() =~= Seq::<u8>::empty());
        assert(s.last() == s[0]);
        assert(dec_val(s) == dec_val(s.drop_last()) * 10 + (s.last() - 48) as nat);
        assert(dec_val(Seq::<u8>::empty()) == 0);
        assert(dec_val(s) == (s[0] - 48) as nat);
        assert(dec_val(s) < 10);
        assert(dec_digits(dec_val(s)) == seq![(48 + dec_val(s)) as u8]);
        assert((48 + dec_val(s)) as u8 == s[0]);
        assert(s =~= seq![s[0]]);
    } else {
        let p = s.drop_last();
        let d = (s.last() - 48) as nat;
        lemma_dec_canonical(p);
        assert(p[0] == s[0]);
        assert(dec_val(s) == dec_val(p) * 10 + d);
        assert(dec_val(p) >= 1) by {
            if dec_val(p) == 0 {
                assert(p == dec_digits(0));
                lemma_dec_digits(0);
                assert(p =~= seq![48u8]);
                assert(s[0] == 48 && s.len() > 1);
            }
        }
        assert(dec_val(s) >= 10) by (nonlinear_arith)
            requires
                dec_val(s) == dec_val(p) * 10 + d,
                dec_val(p) >= 1,
        ;
        assert(dec_val(s) / 10 == dec_val(p) && dec_val(s) % 10 == d) by (nonlinear_arith)
            requires
                dec_val(s) == dec_val(p) * 10 + d,
                d < 10,
        ;
        assert(dec_digits(dec_val(s)) == dec_digits(dec_val(p)) + seq![(48 + d) as u8]);
        assert(s =~= p + seq![s.last()]);
        assert((48 + d) as u8 == s.last());
    }
}

/// The value of a digit run never shrinks as the run is extended.
pub proof fn lemma_dec_val_take(s: Seq<u8>, k: int)
    requires
        0 <= k <= s.len(),
    ensures
        dec_val(s.take(k)) <= dec_val(s),
    decreases s.len() - k,
{
    if k < s.len() {
        assert(s.take(k + 1).drop_last() =~= s.take(k));
        assert(dec_val(s.take(k + 1)) == dec_val(s.take(k)) * 10 + (s.take(k + 1).last()
            - 48) as nat);
        assert(dec_val(s.take(k)) <= dec_val(s.take(k)) * 10) by (nonlinear_arith);
        lemma_dec_val_take(s, k + 1);
        assert(s.take(s.len() as int) =~= s);
    } else {
        assert(s.take(k) =~= s);
    }
}

/// A digit run of known extent pins `digit_run_end`.
pub proof fn lemma_digit_run_end(s: Seq<u8>, i: int, j: int)
    requires
        0 <= i <= j <= s.len(),
        forall|k: int| i <= k < j ==> is_dec_digit(#[trigger] s[k]),
        j == s.len() || !is_dec_digit(s[j]),
    ensures
        digit_run_end(s, i) == j,
    decreases j - i,
{
    if i < j {
        lemma_digit_run_end(s, i + 1, j);
    }
}

/// Skipping digits does not move the end of the run.
pub proof fn lemma_run_end_skip(s: Seq<u8>, i: int, k: int)
    requires
        0 <= i <= k <= s.len(),
        forall|m: int| i <= m < k ==> is_dec_digit(#[trigger] s[m]),
    ensures
        digit_run_end(s, i) == digit_run_end(s, k),
    decreases k - i,
{
    if i < k {
        lemma_run_end_skip(s, i + 1, k);
    }
}

/// The end of a digit run lies between its start and the end of the bytes.
pub proof fn lemma_run_end_bounds(s: Seq<u8>, i: int)
    requires
        0 <= i <= s.len(),
    ensures
        i <= digit_run_end(s, i) <= s.len(),
    decreases s.len() - i,
{
    if i < s.len() && is_dec_digit(s[i]) {
        lemma_run_end_bounds(s, i + 1);
    }
}

/// Appends the decimal rendering of `n` to `out`.
pub fn push_dec(out: &mut Vec<u8>, n: u64)
    ensures
        final(out)@ == old(out)@ + dec_digits(n as nat),
{
    let mut rev: Vec<u8> = Vec::new();
    let mut m: u64 = n;
    while m >= 10
        invariant
            dec_digits(n as nat) == dec_digits(m as nat) + rev@.reverse(),
        decreases m,
    {
        let d: u8 = (48 + (m % 10) as u8) as u8;
        proof {
            assert(dec_digits(m as nat) == dec_digits((m as nat) / 10) + seq![
                (48 + (m as nat) % 10) as u8,
            ]);
            assert((dec_digits((m as nat) / 10) + seq![(48 + (m as nat) % 10) as u8])
                + rev@.reverse() =~= dec_digits((m as nat) / 10) + (rev@.push(
                (48 + (m as nat) % 10) as u8,
            )).reverse());
        }
        rev.push(d);
        m = m / 10;
    }
    let d: u8 = (48 + (m % 10) as u8) as u8;
    proof {
        assert(m < 10);
        assert(dec_digits(m as nat) =~= seq![(48 + (m as nat)) as u8]);
        assert(m % 10 == m);
    }
    out.push(d);
    let ghost mid = out@;
    let mut i: usize = rev.len();
    proof {
        assert(mid + rev@.subrange(i as int, rev@.len() as int).reverse() =~= mid);
        assert(old(out)@ + dec_digits(n as nat) =~= mid + rev@.reverse());
    }
    while i > 0
        invariant
            i <= rev@.len(),
            out@ == mid + rev@.subrange(i as int, rev@.len() as int).reverse(),
        decreases i,
    {
        i = i - 1;
        let d2 = rev[i];
        out.push(d2);
        proof {
            assert(mid + rev@.subrange(i as int, rev@.len() as int).reverse() =~= (mid
                + rev@.subrange(i + 1, rev@.len() as int).reverse()).push(rev@[i as int]));
        }
    }
    proof {
        assert(rev@.subrange(0, rev@.len() as int) =~= rev@);
        assert(out@ =~= old(out)@ + dec_digits(n as nat));
    }
}

/// Parses the run of decimal digits of `bytes` that starts at `from`,
/// greedily.  Fails when there is no digit at `from` or when the run's value
/// does not fit a `u64`.  On success it returns the run's value and the
/// position right after the run.
pub fn parse_dec(bytes: &Vec<u8>, from: usize) -> (r: Option<(u64, usize)>)
    requires
        from <= bytes@.len(),
    ensures
        r matches Some(v) ==> {
            &&& from < v.1 <= bytes@.len()
            &&& v.1 == digit_run_end(bytes@, from as int)
            &&& v.0 as nat == dec_val(bytes@.subrange(from as int, v.1 as int))
            &&& bytes@.subrange(from as int, v.1 as int) == dec_digits(v.0 as nat)
        },
        (from < bytes@.len() && is_dec_digit(bytes@[from as int]) && (digit_run_end(
            bytes@,
            from as int,
        ) == from + 1 || bytes@[from as int] != 48) && dec_val(
            bytes@.subrange(from as int, digit_run_end(bytes@, from as int)),
        ) <= u64::MAX) ==> r is Some,
{
    let ghost run_end = digit_run_end(bytes@, from as int);
    let ghost run = bytes@.subrange(from as int, run_end);
    if from >= bytes.len() || !(bytes[from] >= 48 && bytes[from] <= 57) {
        return None;
    }
    if bytes[from] == 48 && from + 1 < bytes.len() && bytes[from + 1] >= 48 && bytes[from + 1]
        <= 57 {
        // A canonical rendering never carries a leading zero.
        proof {
            lemma_run_end_bounds(bytes@, from + 2);
            lemma_run_end_skip(bytes@, from as int, from + 2);
        }
        return None;
    }
    let mut j: usize = from;
    let mut val: u64 = 0;
    proof {
        assert(bytes@.subrange(from as int, from as int) =~= Seq::<u8>::empty());
    }
    while j < bytes.len() && bytes[j] >= 48 && bytes[j] <= 57
        invariant
            from <= j <= bytes@.len(),
            from < bytes@.len() && is_dec_digit(bytes@[from as int]),
            forall|k: int| from <= k < j ==> is_dec_digit(#[trigger] bytes@[k]),
            val as nat == dec_val(bytes@.subrange(from as int, j as int)),
            run_end == digit_run_end(bytes@, from as int),
            run == bytes@.subrange(from as int, run_end),
        decreases bytes@.len() - j,
    {
        let d = bytes[j] - 48;
        proof {
            let sub1 = bytes@.subrange(from as int, j + 1);
            assert(sub1.drop_last() =~= bytes@.subrange(from as int, j as int));
            assert(sub1.last() == bytes@[j as int]);
            assert(dec_val(sub1) == val * 10 + d);
        }
        let v128: u128 = val as u128 * 10 + d as u128;
        if v128 > u64::MAX as u128 {
            proof {
                lemma_run_end_skip(bytes@, from as int, j + 1);
                lemma_run_end_bounds(bytes@, j + 1);
                assert(bytes@.subrange(from as int, j + 1) =~= run.take(j + 1 - from));
                lemma_dec_val_take(run, j + 1 - from);
                assert(dec_val(run) > u64::MAX);
            }
            return None;
        }
        val = v128 as u64;
        j += 1;
    }
    proof {
        lemma_digit_run_end(bytes@, from as int, j as int);
        lemma_dec_canonical(bytes@.subrange(from as int, j as int));
    }
    Some((val, j))
}

} // verus!
