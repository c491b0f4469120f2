//! Decimal digit strings: what a number looks like in a record line.
use vstd::prelude::*;

verus! {

pub open spec fn is_digit(b: u8) -> bool {
    48 <= b && b <= 57
}

pub open spec fn all_digits(s: Seq<u8>) -> bool {
    forall|i: int| 0 <= i < s.len() ==> is_digit(#[trigger] s[i])
}

/// A digit string with no superfluous leading zero.
pub open spec fn canonical(s: Seq<u8>) -> bool {
    s.len() >= 1 && all_digits(s) && (s.len() == 1 || s[0] != 48)
}

/// The value of a digit string, most significant digit first.
pub open spec fn digits_value(s: Seq<u8>) -> nat
    decreases s.len(),
{
    if s.len() == 0 {
        0
    } else {
        digits_value(s.drop_last()) * 10 + (s.last() as int - 48) as nat
    }
}

/// The decimal notation of `n`.
pub open spec fn decimal(n: nat) -> Seq<u8>
    decreases n,
{
    if n < 10 {
        seq![(n + 48) as u8]
    } else {
        decimal(n / 10).push((n % 10 + 48) as u8)
    }
}

/// The first position at or after `i` that does not hold a digit.
pub open spec fn run_end(s: Seq<u8>, i: int) -> int
    decreases s.len() - i,
{
    if 0 <= i < s.len() && is_digit(s[i]) {
        run_end(s, i + 1)
    } else {
        i
    }
}

pub proof fn lemma_decimal(n: nat)
    ensures
        canonical(decimal(n)),
        digits_value(decimal(n)) == n,
        n >= 1 ==> decimal(n)[0] != 48,
    decreases n,
{
    let s = decimal(n);
    if n < 10 {
        assert(s.drop_last() =~= Seq::<u8>::empty());
        assert(digits_value(Seq::<u8>::empty()) == 0);
        assert(s[0] == (n + 48) as u8);
        assert(is_digit(s[0]));
        assert(digits_value(s) == n);
    } else {
        lemma_decimal(n / 10);
        let d = decimal(n / 10);
        assert(s.drop_last() =~= d);
        assert(s[0] == d[0]);
        assert forall|i: int| 0 <= i < s.len() implies is_digit(#[trigger] s[i]) by {
            if i < d.len() {
                assert(s[i] == d[i]);
            }
        }
        assert(n == (n / 10) * 10 + n % 10);
        assert(s.last() == (n % 10 + 48) as u8);
        assert(digits_value(s) == n);
    }
}

proof fn lemma_value_positive(s: Seq<u8>)
    requires
        canonical(s),
        s[0] != 48,
    ensures
        digits_value(s) >= 1,
    decreases s.len(),
{
    if s.len() > 1 {
        let t = s.drop_last();
        assert(t[0] == s[0]);
        lemma_value_positive(t);
    }
}

pub proof fn lemma_canonical_decimal(s: Seq<u8>)
    requires
        canonical(s),
    ensures
        decimal(digits_value(s)) == s,
    decreases s.len(),
{
    if s.len() == 1 {
        assert(s.drop_last() =~= Seq::<u8>::empty());
        assert(digits_value(Seq::<u8>::empty()) == 0);
        assert(is_digit(s[0]));
        let v = digits_value(s);
        assert(v == s[0] - 48);
        assert(decimal(v) == seq![(v + 48) as u8]);
        assert(decimal(digits_value(s)) =~= s);
    } else {
        let t = s.drop_last();
        assert(t[0] == s[0]);
        assert(canonical(t));
        lemma_canonical_decimal(t);
        lemma_value_positive(t);
        let v = digits_value(t);
        let d = (s.last() as int - 48) as nat;
        assert(d < 10);
        assert((v * 10 + d) / 10 == v && (v * 10 + d) % 10 == d) by (nonlinear_arith)
            requires d < 10;
        assert(decimal(digits_value(s)) =~= s);
    }
}

pub proof fn lemma_decimal_injective(a: nat, b: nat)
    requires
        decimal(a) == decimal(b),
    ensures
        a == b,
{
    lemma_decimal(a);
    lemma_decimal(b);
}

/// A digit string that ends at a non-digit ends where the run of digits ends.
pub proof fn lemma_run_end(s: Seq<u8>, p: int, e: int)
    requires
        0 <= p <= e <= s.len(),
        all_digits(s.subrange(p, e)),
        e == s.len() || !is_digit(s[e]),
    ensures
        run_end(s, p) == e,
    decreases e - p,
{
    if p < e {
        assert(is_digit(s.subrange(p, e)[0]));
        assert(all_digits(s.subrange(p + 1, e))) by {
            assert forall|i: int| 0 <= i < e - p - 1 implies is_digit(#[trigger] s.subrange(p + 1, e)[i]) by {
                assert(s.subrange(p + 1, e)[i] == s.subrange(p, e)[i + 1]);
            }
        }
        lemma_run_end(s, p + 1, e);
    }
}

/// The digits before a non-digit: two such splits of one sequence agree.
pub proof fn lemma_digit_split(x: Seq<u8>, u: Seq<u8>, y: Seq<u8>, w: Seq<u8>)
    requires
        all_digits(x),
        all_digits(y),
        u.len() >= 1 && !is_digit(u[0]),
        w.len() >= 1 && !is_digit(w[0]),
        x + u == y + w,
    ensures
        x == y,
        u == w,
{
    if x.len() < y.len() {
        assert((x + u)[x.len() as int] == u[0]);
        assert((y + w)[x.len() as int] == y[x.len() as int]);
    } else if y.len() < x.len() {
        assert((y + w)[y.len() as int] == w[0]);
        assert((x + u)[y.len() as int] == x[y.len() as int]);
    }
    assert(x =~= (x + u).subrange(0, x.len() as int));
    assert(y =~= (y + w).subrange(0, y.len() as int));
    assert(u =~= (x + u).subrange(x.len() as int, (x + u).len() as int));
    assert(w =~= (y + w).subrange(y.len() as int, (y + w).len() as int));
}

/// Reads the run of digits that starts at `start` as a canonical number no
/// larger than `limit`; gives the number and the position after the run.
pub fn read_number(s: &[u8], start: usize, limit: u64) -> (r: Option<(u64, usize)>)
    requires
        start <= s@.len(),
    ensures
        ({
            let run = s@.subrange(start as int, run_end(s@, start as int));
            match r {
                Some((v, end)) => end as int == run_end(s@, start as int) && start < end <= s@.len()
                    && canonical(run)
                    && v == digits_value(run) && v <= limit,
                None => !(canonical(run) && digits_value(run) <= limit),
            }
        }),
{
    let mut i: usize = start;
    let mut acc: u64 = 0;
    let mut overflow = false;
    assert(s@.subrange(start as int, start as int) =~= Seq::<u8>::empty());
    while i < s.len() && 48 <= s[i] && s[i] <= 57
        invariant
            start <= i <= s@.len(),
            all_digits(s@.subrange(start as int, i as int)),
            run_end(s@, i as int) == run_end(s@, start as int),
            !overflow ==> acc == digits_value(s@.subrange(start as int, i as int)) && acc <= limit,
            overflow ==> digits_value(s@.subrange(start as int, i as int)) > limit,
        decreases s@.len() - i,
    {
        let d: u64 = (s[i] - 48) as u64;
        let ghost before = s@.subrange(start as int, i as int);
        let ghost after = s@.subrange(start as int, i + 1);
        assert(after.drop_last() =~= before);
        assert(digits_value(after) == digits_value(before) * 10 + d);
        assert(all_digits(after)) by {
            assert forall|k: int| 0 <= k < after.len() implies is_digit(#[trigger] after[k]) by {
                if k < before.len() {
                    assert(after[k] == before[k]);
                }
            }
        }
        if !overflow {
            if d <= limit && acc <= (limit - d) / 10 {
                assert(acc * 10 + d <= limit) by (nonlinear_arith)
                    requires
                        d <= limit,
                        acc <= (limit - d) / 10,
                ;
                acc = acc * 10 + d;
            } else {
                assert(acc * 10 + d > limit) by (nonlinear_arith)
                    requires
                        d > limit || acc > (limit - d) / 10,
                ;
                overflow = true;
            }
        } else {
            assert(digits_value(after) >= digits_value(before)) by (nonlinear_arith)
                requires
                    digits_value(after) == digits_value(before) * 10 + d,
            ;
        }
        i = i + 1;
    }
    let ghost run = s@.subrange(start as int, i as int);
    assert(run_end(s@, i as int) == i);
    if i == start || overflow {
        None
    } else if i - start > 1 && s[start] == 48 {
        assert(run[0] == 48);
        None
    } else {
        Some((acc, i))
    }
}

} // verus!
