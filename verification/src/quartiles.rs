use vstd::prelude::*;

use crate::errors::Error;

verus! {

/// Greatest element of a run of day counts (0 for an empty run).
pub open spec fn max_of(s: Seq<usize>) -> int
    decreases s.len(),
{
    if s.len() == 0 {
        0
    } else if s.last() as int >= max_of(s.drop_last()) {
        s.last() as int
    } else {
        max_of(s.drop_last())
    }
}

pub proof fn lemma_max_of_push(s: Seq<usize>, x: usize)
    ensures
        max_of(s.push(x)) == if x as int >= max_of(s) {
            x as int
        } else {
            max_of(s)
        },
{
    assert(s.push(x).drop_last() =~= s);
}

pub proof fn lemma_max_of_ge(s: Seq<usize>, i: int)
    requires
        0 <= i < s.len(),
    ensures
        s[i] as int <= max_of(s),
    decreases s.len(),
{
    if i == s.len() - 1 {
    } else {
        lemma_max_of_ge(s.drop_last(), i);
    }
}

pub proof fn lemma_max_of_witness(s: Seq<usize>)
    requires
        s.len() > 0,
    ensures
        exists|i: int| 0 <= i < s.len() && s[i] as int == max_of(s),
    decreases s.len(),
{
    if s.last() as int >= max_of(s.drop_last()) {
        assert(s[s.len() - 1] as int == max_of(s));
    } else {
        lemma_max_of_witness(s.drop_last());
        let i = choose|i: int|
            0 <= i < s.drop_last().len() && s.drop_last()[i] as int == max_of(s.drop_last());
        assert(s[i] as int == max_of(s));
    }
}

/// The rank that the streaming estimator reports for the quantile `p/4`
/// over the synthetic run `0, 1, ..., n - 1`: the rank nearest `n * p / 4`,
/// clamped to the inhabited ranks `1..=n`.
pub open spec fn cut_rank(n: int, p: int) -> int {
    let raw = (n * p + 2) / 4;
    if raw < 1 {
        1
    } else if raw > n {
        n
    } else {
        raw
    }
}

/// The five cut points derived for a year whose greatest day count is `n`.
pub open spec fn cuts_spec(n: int) -> Seq<int> {
    seq![0, 1, cut_rank(n, 1), cut_rank(n, 2), cut_rank(n, 3)]
}

/// Cut points are never decreasing.
pub proof fn lemma_cuts_nondecreasing(n: int)
    requires
        n >= 1,
    ensures
        cuts_spec(n)[0] <= cuts_spec(n)[1] <= cuts_spec(n)[2] <= cuts_spec(n)[3] <= cuts_spec(
            n,
        )[4],
{
    vstd::arithmetic::div_mod::lemma_div_is_ordered(n * 1 + 2, n * 2 + 2, 4);
    vstd::arithmetic::div_mod::lemma_div_is_ordered(n * 2 + 2, n * 3 + 2, 4);
}

/// One quantile rank over the synthetic run `0..n`.
fn cut_point(n: usize, p: usize) -> (c: usize)
    requires
        1 <= n,
        1 <= p <= 3,
    ensures
        c as int == cut_rank(n as int, p as int),
{
    proof {
        assert((n as u128) * (p as u128) + 2 <= u128::MAX) by (nonlinear_arith)
            requires
                n as u128 <= u64::MAX as u128,
                p as u128 <= 3,
        ;
    }
    let raw: u128 = ((n as u128) * (p as u128) + 2) / 4;
    if raw < 1 {
        1
    } else if raw > (n as u128) {
        n
    } else {
        raw as usize
    }
}

/// Derives the five quantile cut points for one year's daily counts.
///
/// The counts are not fed to the rank estimator themselves: the estimator
/// ranks the synthetic run `0, 1, ..., max - 1`, so the cut points
/// approximate the quartiles of a uniform distribution over the observed
/// range. The result is `[0, 1, Q25, Q50, Q75]`, where the three quartile
/// ranks are exact, which keeps them within any relative rank error bound.
///
/// Fails with `EmptyYear` when there are no counts at all or every count
/// is zero, since the synthetic run is then empty.
pub fn quartiles(input: &[usize]) -> (r: Result<Vec<usize>, Error>)
    ensures
        match r {
            Ok(v) => {
                &&& input@.len() > 0
                &&& max_of(input@) > 0
                &&& v@.len() == 5
                &&& v@[0] == 0
                &&& v@[1] == 1
                &&& v@[2] as int == cut_rank(max_of(input@), 1)
                &&& v@[3] as int == cut_rank(max_of(input@), 2)
                &&& v@[4] as int == cut_rank(max_of(input@), 3)
            },
            Err(e) => e == Error::EmptyYear && (input@.len() == 0 || max_of(input@) == 0),
        },
{
    if input.len() == 0 {
        return Err(Error::EmptyYear);
    }
    let mut mx: usize = 0;
    let mut i: usize = 0;
    while i < input.len()
        invariant
            0 <= i <= input@.len(),
            mx as int == max_of(input@.subrange(0, i as int)),
        decreases input@.len() - i,
    {
        proof {
            assert(input@.subrange(0, i as int).push(input@[i as int]) =~= input@.subrange(
                0,
                (i + 1) as int,
            ));
            lemma_max_of_push(input@.subrange(0, i as int), input@[i as int]);
        }
        let x = input[i];
        if x > mx {
            mx = x;
        }
        i = i + 1;
    }
    proof {
        assert(input@.subrange(0, input@.len() as int) =~= input@);
    }
    if mx == 0 {
        return Err(Error::EmptyYear);
    }
    let mut v: Vec<usize> = Vec::new();
    v.push(0);
    v.push(1);
    v.push(cut_point(mx, 1));
    v.push(cut_point(mx, 2));
    v.push(cut_point(mx, 3));
    Ok(v)
}

} // verus!
