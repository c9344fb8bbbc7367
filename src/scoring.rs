use crate::document::{field_at, field_by_index, Field};
use crate::index::{postings_tf, Segment};
use crate::snapshot::{
    df, df_upto, docs_upto, lemma_docs_upto_mono, postings_df, segments_wf, tf, tf_upto,
};
use std::sync::Arc;
use vstd::prelude::*;

verus! {

/// The rarity weight of term `t` in field `f` over `n` documents: `n + 1`
/// less the number of postings for it (each commit gives a document one
/// posting per term and field), and never below 1.
pub open spec fn idf(segs: Seq<Arc<Segment>>, n: nat, f: Field, t: Seq<char>) -> nat {
    let d = df(segs, f, t);
    if d <= n {
        (n + 1 - d) as nat
    } else {
        1
    }
}

/// Frequency times rarity of `t` in document `d`, summed over the first `m`
/// fields.
pub open spec fn term_score(segs: Seq<Arc<Segment>>, n: nat, t: Seq<char>, d: int, m: int) -> int
    decreases m,
{
    if m <= 0 {
        0
    } else {
        term_score(segs, n, t, d, m - 1) + tf(segs, field_at(m - 1), t, d) * idf(
            segs,
            n,
            field_at(m - 1),
            t,
        )
    }
}

/// The score of document `d` for the first `k` query terms.
pub open spec fn score_upto(segs: Seq<Arc<Segment>>, n: nat, q: Seq<Seq<char>>, k: int, d: int) -> int
    decreases k,
{
    if k <= 0 {
        0
    } else {
        score_upto(segs, n, q, k - 1, d) + term_score(segs, n, q[k - 1], d, 3)
    }
}

/// The relevance of document `d` to the query terms `q`.
pub open spec fn score(segs: Seq<Arc<Segment>>, n: nat, q: Seq<Seq<char>>, d: int) -> int {
    score_upto(segs, n, q, q.len() as int, d)
}

/// A score as reported: saturated at the largest `u64`.
pub open spec fn clamp(x: int) -> u64 {
    if x > u64::MAX {
        u64::MAX
    } else {
        x as u64
    }
}

proof fn lemma_distrib(a: int, b: int, w: int)
    ensures
        (a + b) * w == a * w + b * w,
{
    assert((a + b) * w == a * w + b * w) by (nonlinear_arith);
}

proof fn lemma_nonneg_mul(a: int, b: int)
    requires
        a >= 0,
        b >= 0,
    ensures
        a * b >= 0,
{
    assert(a * b >= 0) by (nonlinear_arith)
        requires
            a >= 0,
            b >= 0,
    ;
}

pub proof fn lemma_term_score_nonneg(segs: Seq<Arc<Segment>>, n: nat, t: Seq<char>, d: int, m: int)
    ensures
        term_score(segs, n, t, d, m) >= 0,
    decreases m,
{
    if m > 0 {
        lemma_term_score_nonneg(segs, n, t, d, m - 1);
        lemma_nonneg_mul(
            tf(segs, field_at(m - 1), t, d) as int,
            idf(segs, n, field_at(m - 1), t) as int,
        );
    }
}

pub proof fn lemma_score_upto_nonneg(
    segs: Seq<Arc<Segment>>,
    n: nat,
    q: Seq<Seq<char>>,
    k: int,
    d: int,
)
    ensures
        score_upto(segs, n, q, k, d) >= 0,
    decreases k,
{
    if k > 0 {
        lemma_score_upto_nonneg(segs, n, q, k - 1, d);
        lemma_term_score_nonneg(segs, n, q[k - 1], d, 3);
    }
}

fn sat_mul(a: u64, b: u64) -> (r: u64)
    ensures
        r == clamp(a as int * b as int),
{
    proof {
        lemma_nonneg_mul(a as int, b as int);
    }
    match a.checked_mul(b) {
        Some(v) => v,
        None => u64::MAX,
    }
}

/// Every posting of well-formed segments names a document below `docs`.
proof fn lemma_posting_doc_bound(segs: Seq<Arc<Segment>>, docs: nat, si: int, pi: int)
    requires
        segments_wf(segs, docs),
        0 <= si < segs.len(),
        0 <= pi < segs[si].postings.len(),
    ensures
        segs[si].postings@[pi].doc < docs,
{
    let s = *segs[si];
    assert(crate::index::segment_wf(s));
    assert(s.first_doc <= s.postings@[pi].doc < s.first_doc + s.docs.len());
    lemma_docs_upto_mono(segs, si + 1, segs.len() as int);
}

/// The number of postings for `t` in field `f`, saturated at `n + 1`.
fn count_df(segs: &Vec<Arc<Segment>>, n: u64, f: Field, t: &String) -> (r: u64)
    requires
        n < u64::MAX,
    ensures
        r == if df(segs@, f, t@) <= n {
            df(segs@, f, t@)
        } else {
            n as nat + 1
        },
{
    let mut c: u64 = 0;
    let mut si: usize = 0;
    while si < segs.len()
        invariant
            n < u64::MAX,
            si <= segs.len(),
            c == if df_upto(segs@, si as int, f, t@) <= n {
                df_upto(segs@, si as int, f, t@)
            } else {
                n as nat + 1
            },
        decreases segs.len() - si,
    {
        let ps = &segs[si].postings;
        let mut pi: usize = 0;
        while pi < ps.len()
            invariant
                n < u64::MAX,
                si < segs.len(),
                ps@ == segs@[si as int].postings@,
                pi <= ps.len(),
                c == if df_upto(segs@, si as int, f, t@) + postings_df(ps@.take(pi as int), f, t@)
                    <= n {
                    df_upto(segs@, si as int, f, t@) + postings_df(ps@.take(pi as int), f, t@)
                } else {
                    n as nat + 1
                },
            decreases ps.len() - pi,
        {
            proof {
                assert(ps@.take(pi + 1).drop_last() == ps@.take(pi as int));
            }
            if ps[pi].field == f && ps[pi].term == *t && c <= n {
                c = c + 1;
            }
            pi += 1;
        }
        proof {
            assert(ps@.take(pi as int) == ps@);
        }
        si += 1;
    }
    c
}

/// Adds frequency times `w` of term `t` in field `f` to every document's score.
fn add_field(
    scores: &mut Vec<u64>,
    segs: &Vec<Arc<Segment>>,
    n: u64,
    f: Field,
    t: &String,
    w: u64,
    Ghost(base): Ghost<Seq<int>>,
)
    requires
        segments_wf(segs@, n as nat),
        old(scores).len() == n,
        base.len() == n,
        forall|d: int| 0 <= d < n ==> #[trigger] base[d] >= 0,
        forall|d: int| 0 <= d < n ==> #[trigger] old(scores)@[d] == clamp(base[d]),
    ensures
        final(scores).len() == n,
        forall|d: int|
            0 <= d < n ==> #[trigger] final(scores)@[d] == clamp(
                base[d] + tf(segs@, f, t@, d) * w,
            ),
{
    proof {
        assert forall|d: int| 0 <= d < n implies #[trigger] scores@[d] == clamp(
            base[d] + tf_upto(segs@, 0, f, t@, d) * w,
        ) by {
            assert(tf_upto(segs@, 0, f, t@, d) == 0);
        }
    }
    let mut si: usize = 0;
    while si < segs.len()
        invariant
            segments_wf(segs@, n as nat),
            si <= segs.len(),
            scores.len() == n,
            base.len() == n,
            forall|d: int| 0 <= d < n ==> #[trigger] base[d] >= 0,
            forall|d: int|
                0 <= d < n ==> #[trigger] scores@[d] == clamp(
                    base[d] + tf_upto(segs@, si as int, f, t@, d) * w,
                ),
        decreases segs.len() - si,
    {
        let ps = &segs[si].postings;
        let mut pi: usize = 0;
        while pi < ps.len()
            invariant
                segments_wf(segs@, n as nat),
                si < segs.len(),
                ps@ == segs@[si as int].postings@,
                pi <= ps.len(),
                scores.len() == n,
                base.len() == n,
                forall|d: int| 0 <= d < n ==> #[trigger] base[d] >= 0,
                forall|d: int|
                    0 <= d < n ==> #[trigger] scores@[d] == clamp(
                        base[d] + (tf_upto(segs@, si as int, f, t@, d) + postings_tf(
                            ps@.take(pi as int),
                            f,
                            t@,
                            d,
                        )) * w,
                    ),
            decreases ps.len() - pi,
        {
            proof {
                assert(ps@.take(pi + 1).drop_last() == ps@.take(pi as int));
                assert(ps@.take(pi + 1).last() == ps@[pi as int]);
            }
            if ps[pi].field == f && ps[pi].term == *t {
                let d = ps[pi].doc;
                proof {
                    lemma_posting_doc_bound(segs@, n as nat, si as int, pi as int);
                }
                let add = sat_mul(ps[pi].freq, w);
                let old_v = scores[d as usize];
                let ghost old_scores = scores@;
                scores.set(d as usize, old_v.saturating_add(add));
                proof {
                    let a = tf_upto(segs@, si as int, f, t@, d as int) + postings_tf(
                        ps@.take(pi as int),
                        f,
                        t@,
                        d as int,
                    );
                    lemma_distrib(a as int, ps@[pi as int].freq as int, w as int);
                    lemma_nonneg_mul(a as int, w as int);
                    lemma_nonneg_mul(ps@[pi as int].freq as int, w as int);
                    assert forall|d2: int| 0 <= d2 < n implies #[trigger] scores@[d2] == clamp(
                        base[d2] + (tf_upto(segs@, si as int, f, t@, d2) + postings_tf(
                            ps@.take(pi + 1),
                            f,
                            t@,
                            d2,
                        )) * w,
                    ) by {
                        let p0 = ps@.take(pi as int);
                        let p1 = ps@.take(pi + 1);
                        assert(postings_tf(p1, f, t@, d2) == postings_tf(p0, f, t@, d2) + if d2
                            == d {
                            ps@[pi as int].freq as nat
                        } else {
                            0nat
                        });
                        if d2 != d {
                            assert(scores@[d2] == old_scores[d2]);
                        } else {
                            assert(old_v == clamp(base[d2] + a * w));
                        }
                    }
                }
            }
            pi += 1;
        }
        proof {
            assert(ps@.take(pi as int) == ps@);
        }
        si += 1;
    }
}

/// Every document's score for the query terms `q`, saturated.
pub fn score_all(segs: &Vec<Arc<Segment>>, n: u64, q: &Vec<String>) -> (r: Vec<u64>)
    requires
        segments_wf(segs@, n as nat),
    ensures
        r.len() == n,
        forall|d: int|
            0 <= d < n ==> #[trigger] r@[d] == clamp(
                score(segs@, n as nat, q@.map_values(|s: String| s@), d),
            ),
{
    let ghost qv = q@.map_values(|s: String| s@);
    let mut scores: Vec<u64> = Vec::new();
    while (scores.len() as u64) < n
        invariant
            scores.len() <= n,
            forall|d: int| 0 <= d < scores.len() ==> #[trigger] scores@[d] == 0,
        decreases n - scores.len(),
    {
        scores.push(0);
    }
    let mut qi: usize = 0;
    while qi < q.len()
        invariant
            segments_wf(segs@, n as nat),
            qv == q@.map_values(|s: String| s@),
            qi <= q.len(),
            scores.len() == n,
            forall|d: int|
                0 <= d < n ==> #[trigger] scores@[d] == clamp(
                    score_upto(segs@, n as nat, qv, qi as int, d),
                ),
        decreases q.len() - qi,
    {
        let mut fi: usize = 0;
        while fi < 3
            invariant
                segments_wf(segs@, n as nat),
                qv == q@.map_values(|s: String| s@),
                qi < q.len(),
                fi <= 3,
                scores.len() == n,
                forall|d: int|
                    0 <= d < n ==> #[trigger] scores@[d] == clamp(
                        score_upto(segs@, n as nat, qv, qi as int, d) + term_score(
                            segs@,
                            n as nat,
                            qv[qi as int],
                            d,
                            fi as int,
                        ),
                    ),
            decreases 3 - fi,
        {
            let f = field_by_index(fi);
            let t = &q[qi];
            let c = count_df(segs, n, f, t);
            let w: u64 = if c <= n {
                n + 1 - c
            } else {
                1
            };
            let ghost base = Seq::new(
                n as nat,
                |d: int|
                    score_upto(segs@, n as nat, qv, qi as int, d) + term_score(
                        segs@,
                        n as nat,
                        qv[qi as int],
                        d,
                        fi as int,
                    ),
            );
            proof {
                assert forall|d: int| 0 <= d < n implies #[trigger] base[d] >= 0 by {
                    lemma_score_upto_nonneg(segs@, n as nat, qv, qi as int, d);
                    lemma_term_score_nonneg(segs@, n as nat, qv[qi as int], d, fi as int);
                }
            }
            add_field(&mut scores, segs, n, f, t, w, Ghost(base));
            proof {
                assert(qv[qi as int] == t@);
                assert(w == idf(segs@, n as nat, f, t@));
            }
            fi += 1;
        }
        qi += 1;
    }
    scores
}

} // verus!
