use vstd::prelude::*;

verus! {

/// One summand of a written value.
#[derive(Clone, Copy, Debug, PartialEq, Eq, Structural)]
pub enum Term {
    /// The value of the operation's read at this position.
    Read(usize),
    /// A fixed amount.
    Const(u64),
}

/// The value a term stands for, given the values read.
pub open spec fn term_value(t: Term, vals: Seq<u64>) -> int {
    match t {
        Term::Read(i) => if i < vals.len() { vals[i as int] as int } else { 0 },
        Term::Const(c) => c as int,
    }
}

/// The sum of the terms.
pub open spec fn terms_total(terms: Seq<Term>, vals: Seq<u64>) -> int
    decreases terms.len(),
{
    if terms.len() == 0 {
        0
    } else {
        terms_total(terms.drop_last(), vals) + term_value(terms.last(), vals)
    }
}

/// The values written, one per write, or `None` where some sum leaves the `u64`
/// range: the body fails then.
pub open spec fn body_outputs(writes: Seq<Seq<Term>>, vals: Seq<u64>) -> Option<Seq<u64>>
    decreases writes.len(),
{
    if writes.len() == 0 {
        Some(Seq::empty())
    } else {
        match body_outputs(writes.drop_last(), vals) {
            None => None,
            Some(prev) => {
                let total = terms_total(writes.last(), vals);
                if total <= u64::MAX {
                    Some(prev.push(total as u64))
                } else {
                    None
                }
            },
        }
    }
}

proof fn lemma_terms_total_nonneg(terms: Seq<Term>, vals: Seq<u64>)
    ensures
        terms_total(terms, vals) >= 0,
    decreases terms.len(),
{
    if terms.len() > 0 {
        lemma_terms_total_nonneg(terms.drop_last(), vals);
    }
}

/// The sum of `terms` over the values read, or `None` where it leaves the `u64`
/// range.
pub fn sum_terms(terms: &Vec<Term>, vals: &Vec<u64>) -> (r: Option<u64>)
    ensures
        r.is_some() <==> terms_total(terms@, vals@) <= u64::MAX,
        r.is_some() ==> r.unwrap() == terms_total(terms@, vals@),
{
    let mut acc: u64 = 0;
    let mut i: usize = 0;
    while i < terms.len()
        invariant
            i <= terms@.len(),
            acc == terms_total(terms@.take(i as int), vals@),
        decreases terms@.len() - i,
    {
        assert(terms@.take(i + 1).drop_last() == terms@.take(i as int));
        let v: u64 = match terms[i] {
            Term::Read(j) => if j < vals.len() { vals[j] } else { 0 },
            Term::Const(c) => c,
        };
        match acc.checked_add(v) {
            Some(s) => {
                acc = s;
            },
            None => {
                proof {
                    let rest = terms@.skip(i + 1);
                    lemma_sum_split(terms@, vals@, i + 1);
                    lemma_terms_total_nonneg(rest, vals@);
                }
                return None;
            },
        }
        i = i + 1;
    }
    assert(terms@.take(i as int) == terms@);
    Some(acc)
}

/// The sum over a sequence is the sum over its first `n` terms plus the sum over
/// the rest.
proof fn lemma_sum_split(terms: Seq<Term>, vals: Seq<u64>, n: int)
    requires
        0 <= n <= terms.len(),
    ensures
        terms_total(terms, vals) == terms_total(terms.take(n), vals) + terms_total(terms.skip(n), vals),
    decreases terms.len(),
{
    if terms.len() == n {
        assert(terms.take(n) == terms);
        assert(terms.skip(n).len() == 0);
    } else {
        lemma_sum_split(terms.drop_last(), vals, n);
        assert(terms.drop_last().take(n) == terms.take(n));
        assert(terms.skip(n).drop_last() == terms.drop_last().skip(n));
        assert(terms.skip(n).last() == terms.last());
    }
}

} // verus!
