use vstd::prelude::*;

verus! {

/// Document `d1` with score `s1` ranks above document `d2` with score `s2`:
/// higher scores first, ties by ascending id.
pub open spec fn ranks_before(s1: u64, d1: int, s2: u64, d2: int) -> bool {
    s1 > s2 || (s1 == s2 && d1 < d2)
}

/// `d` ranks below every document of `picked`.
pub open spec fn after_all(scores: Seq<u64>, picked: Seq<u64>, d: int) -> bool {
    picked.len() == 0 || ranks_before(
        scores[picked.last() as int],
        picked.last() as int,
        scores[d],
        d,
    )
}

/// `picked` is the best `limit` of the documents with a positive score, in
/// ranking order: the ranking is strict, and each document with a positive
/// score that was left out ranks below a full list.
pub open spec fn is_top(scores: Seq<u64>, limit: int, picked: Seq<u64>) -> bool {
    &&& picked.len() <= limit
    &&& forall|i: int|
        0 <= i < picked.len() ==> #[trigger] picked[i] < scores.len() && scores[picked[i] as int]
            > 0
    &&& forall|i: int, j: int|
        0 <= i < j < picked.len() ==> ranks_before(
            scores[#[trigger] picked[i] as int],
            picked[i] as int,
            scores[#[trigger] picked[j] as int],
            picked[j] as int,
        )
    &&& forall|d: int|
        0 <= d < scores.len() && #[trigger] scores[d] > 0 ==> (exists|i: int|
            0 <= i < picked.len() && #[trigger] picked[i] == d) || (picked.len() == limit && after_all(
            scores,
            picked,
            d,
        ))
}

/// The ids of the `limit` best documents with a positive score, best first.
pub fn top_k(scores: &Vec<u64>, limit: usize) -> (r: Vec<u64>)
    requires
        scores.len() < u64::MAX,
    ensures
        is_top(scores@, limit as int, r@),
{
    let n = scores.len();
    let mut picked: Vec<u64> = Vec::new();
    while picked.len() < limit
        invariant
            n == scores.len(),
            n < u64::MAX,
            picked.len() <= limit,
            forall|i: int|
                0 <= i < picked.len() ==> #[trigger] picked@[i] < n && scores@[picked@[i] as int]
                    > 0,
            forall|i: int, j: int|
                0 <= i < j < picked.len() ==> ranks_before(
                    scores@[#[trigger] picked@[i] as int],
                    picked@[i] as int,
                    scores@[#[trigger] picked@[j] as int],
                    picked@[j] as int,
                ),
            forall|d: int|
                0 <= d < n && #[trigger] scores@[d] > 0 ==> (exists|i: int|
                    0 <= i < picked.len() && #[trigger] picked@[i] == d) || after_all(
                    scores@,
                    picked@,
                    d,
                ),
        decreases limit - picked.len(),
    {
        let mut best: Option<u64> = None;
        let mut d: usize = 0;
        while d < n
            invariant
                n == scores.len(),
                n < u64::MAX,
                d <= n,
                forall|i: int|
                    0 <= i < picked.len() ==> #[trigger] picked@[i] < n && scores@[picked@[i] as int]
                        > 0,
                match best {
                    Some(b) => b < d && scores@[b as int] > 0 && after_all(
                        scores@,
                        picked@,
                        b as int,
                    ) && forall|e: int|
                        0 <= e < d && #[trigger] scores@[e] > 0 && after_all(scores@, picked@, e)
                            ==> e == b || ranks_before(
                            scores@[b as int],
                            b as int,
                            scores@[e],
                            e,
                        ),
                    None => forall|e: int|
                        0 <= e < d && #[trigger] scores@[e] > 0 ==> !after_all(
                            scores@,
                            picked@,
                            e,
                        ),
                },
            decreases n - d,
        {
            let s = scores[d];
            let below = picked.len() == 0 || {
                let last = picked[picked.len() - 1];
                let ls = scores[last as usize];
                ls > s || (ls == s && last < d as u64)
            };
            assert(below == after_all(scores@, picked@, d as int));
            if s > 0 && below {
                let better = match best {
                    None => true,
                    Some(b) => s > scores[b as usize] || (s == scores[b as usize] && (d as u64)
                        < b),
                };
                if better {
                    best = Some(d as u64);
                }
            }
            d += 1;
        }
        match best {
            None => {
                proof {
                    assert forall|e: int|
                        0 <= e < n && #[trigger] scores@[e] > 0 implies (exists|i: int|
                        0 <= i < picked.len() && #[trigger] picked@[i] == e) || (picked.len()
                        == limit && after_all(scores@, picked@, e)) by {
                        assert(!after_all(scores@, picked@, e));
                    }
                }
                return picked;
            },
            Some(b) => {
                let ghost old_picked = picked@;
                picked.push(b);
                proof {
                    assert forall|i: int, j: int|
                        0 <= i < j < picked.len() implies ranks_before(
                        scores@[#[trigger] picked@[i] as int],
                        picked@[i] as int,
                        scores@[#[trigger] picked@[j] as int],
                        picked@[j] as int,
                    ) by {
                        if j == picked.len() - 1 && i < j - 1 {
                            assert(ranks_before(
                                scores@[old_picked[i] as int],
                                old_picked[i] as int,
                                scores@[old_picked.last() as int],
                                old_picked.last() as int,
                            ));
                        }
                    }
                    assert forall|e: int|
                        0 <= e < n && #[trigger] scores@[e] > 0 implies (exists|i: int|
                        0 <= i < picked.len() && #[trigger] picked@[i] == e) || after_all(
                        scores@,
                        picked@,
                        e,
                    ) by {
                        if exists|i: int| 0 <= i < old_picked.len() && #[trigger] old_picked[i] == e {
                            let i = choose|i: int| 0 <= i < old_picked.len() && #[trigger] old_picked[i] == e;
                            assert(picked@[i] == e);
                        } else if e == b {
                            assert(picked@[old_picked.len() as int] == e);
                        }
                    }
                }
            },
        }
    }
    picked
}

} // verus!
