use crate::analyzer::terms_of;
use crate::collector::{after_all, is_top, ranks_before};
use crate::document::{count, field_at, field_terms, same_values, string_views, terms_of_all, Document, Field};
use crate::index::{postings_tf, segment_wf, Segment};
use crate::scoring::{clamp, idf, lemma_score_upto_nonneg, lemma_term_score_nonneg, score, score_upto, term_score};
use crate::snapshot::{doc_scores, hit_docs, ranked, segments_wf, tf, tf_upto};
use std::sync::Arc;
use vstd::prelude::*;
use vstd::set_lib::{lemma_int_range, lemma_len_subset, set_int_range};

verus! {

proof fn lemma_count_pos(s: Seq<Seq<char>>, t: Seq<char>)
    requires
        s.contains(t),
    ensures
        count(s, t) > 0,
    decreases s.len(),
{
    if s.last() != t {
        let i = choose|i: int| 0 <= i < s.len() && s[i] == t;
        assert(s.drop_last()[i] == t);
        lemma_count_pos(s.drop_last(), t);
    }
}

proof fn lemma_tf_upto_ge(segs: Seq<Arc<Segment>>, m: int, i: int, f: Field, t: Seq<char>, d: int)
    requires
        0 <= i < m,
    ensures
        tf_upto(segs, m, f, t, d) >= postings_tf(segs[i].postings@, f, t, d),
    decreases m,
{
    if m - 1 != i {
        lemma_tf_upto_ge(segs, m - 1, i, f, t, d);
    }
}

proof fn lemma_term_score_ge(segs: Seq<Arc<Segment>>, n: nat, t: Seq<char>, d: int, m: int, fi: int)
    requires
        0 <= fi < m,
    ensures
        term_score(segs, n, t, d, m) >= tf(segs, field_at(fi), t, d) * idf(segs, n, field_at(fi), t),
    decreases m,
{
    lemma_term_score_nonneg(segs, n, t, d, m - 1);
    if m - 1 != fi {
        lemma_term_score_ge(segs, n, t, d, m - 1, fi);
        let a = tf(segs, field_at(m - 1), t, d) as int;
        let b = idf(segs, n, field_at(m - 1), t) as int;
        assert(a * b >= 0) by (nonlinear_arith)
            requires
                a >= 0,
                b >= 0,
        ;
    }
}

proof fn lemma_score_upto_ge(segs: Seq<Arc<Segment>>, n: nat, q: Seq<Seq<char>>, k: int, j: int, d: int)
    requires
        0 <= j < k <= q.len(),
    ensures
        score_upto(segs, n, q, k, d) >= term_score(segs, n, q[j], d, 3),
    decreases k,
{
    lemma_score_upto_nonneg(segs, n, q, k - 1, d);
    lemma_term_score_nonneg(segs, n, q[k - 1], d, 3);
    if k - 1 != j {
        lemma_score_upto_ge(segs, n, q, k - 1, j, d);
    }
}

/// A term of a document scores it above zero.
proof fn lemma_term_scores(
    segs: Seq<Arc<Segment>>,
    n: nat,
    i: int,
    k: int,
    f: Field,
    q: Seq<Seq<char>>,
    j: int,
)
    requires
        segments_wf(segs, n),
        0 <= i < segs.len(),
        0 <= k < segs[i].docs.len(),
        0 <= j < q.len(),
        field_terms(segs[i].docs@[k], f).contains(q[j]),
    ensures
        score(segs, n, q, segs[i].first_doc + k) > 0,
{
    let t = q[j];
    let d = segs[i].first_doc + k;
    assert(segment_wf(*segs[i]));
    lemma_count_pos(field_terms(segs[i].docs@[k], f), t);
    assert(postings_tf(segs[i].postings@, f, t, d) > 0);
    lemma_tf_upto_ge(segs, segs.len() as int, i, f, t, d);
    let fi: int = if f == Field::Url {
        0
    } else if f == Field::Description {
        1
    } else {
        2
    };
    assert(field_at(fi) == f);
    lemma_term_score_ge(segs, n, t, d, 3, fi);
    let a = tf(segs, f, t, d) as int;
    let b = idf(segs, n, f, t) as int;
    assert(a * b >= 1) by (nonlinear_arith)
        requires
            a >= 1,
            b >= 1,
    ;
    lemma_score_upto_ge(segs, n, q, q.len() as int, j, d);
}

/// Strictly ranked ids below `n` that miss one id below `n` are fewer than `n`.
proof fn lemma_ranked_fewer(scores: Seq<u64>, picked: Seq<u64>, n: int, x: int)
    requires
        0 <= x < n,
        forall|i: int| 0 <= i < picked.len() ==> #[trigger] picked[i] < n,
        forall|i: int| 0 <= i < picked.len() ==> #[trigger] picked[i] != x,
        forall|i: int, j: int|
            0 <= i < j < picked.len() ==> ranks_before(
                scores[#[trigger] picked[i] as int],
                picked[i] as int,
                scores[#[trigger] picked[j] as int],
                picked[j] as int,
            ),
    ensures
        picked.len() < n,
{
    let ids = picked.map_values(|v: u64| v as int);
    assert(ids.no_duplicates()) by {
        assert forall|i: int, j: int| 0 <= i < ids.len() && 0 <= j < ids.len() && i != j implies ids[i]
            != ids[j] by {
            if i < j {
                assert(ranks_before(scores[picked[i] as int], picked[i] as int, scores[picked[j] as int], picked[j] as int));
            } else {
                assert(ranks_before(scores[picked[j] as int], picked[j] as int, scores[picked[i] as int], picked[i] as int));
            }
        }
    }
    ids.unique_seq_to_set();
    let all = set_int_range(0, n).remove(x);
    lemma_int_range(0, n);
    assert(ids.to_set().subset_of(all)) by {
        assert forall|v: int| ids.to_set().contains(v) implies all.contains(v) by {
            assert(ids.contains(v));
            let i = choose|i: int| 0 <= i < ids.len() && ids[i] == v;
            assert(picked[i] < n && picked[i] != x);
        }
    }
    lemma_len_subset(ids.to_set(), all);
}

/// Every committed document is found by a search for any term of its
/// indexed fields, once the limit reaches the number of documents.
pub proof fn lemma_round_trip(
    segs: Seq<Arc<Segment>>,
    n: nat,
    i: int,
    k: int,
    f: Field,
    q: Seq<Seq<char>>,
    j: int,
    limit: int,
    hits: Seq<crate::snapshot::Hit>,
)
    requires
        segments_wf(segs, n),
        0 <= i < segs.len(),
        0 <= k < segs[i].docs.len(),
        0 <= j < q.len(),
        field_terms(segs[i].docs@[k], f).contains(q[j]),
        limit >= n,
        ranked(segs, n, q, limit, hits),
    ensures
        exists|h: int| 0 <= h < hits.len() && #[trigger] hits[h].doc == segs[i].first_doc + k,
{
    let d = segs[i].first_doc + k;
    lemma_term_scores(segs, n, i, k, f, q, j);
    crate::snapshot::lemma_docs_upto_mono(segs, i + 1, segs.len() as int);
    assert(segment_wf(*segs[i]));
    let scores = doc_scores(segs, n, q);
    let picked = hit_docs(hits);
    assert(scores[d] > 0);
    if exists|h: int| 0 <= h < picked.len() && #[trigger] picked[h] == d {
        let h = choose|h: int| 0 <= h < picked.len() && #[trigger] picked[h] == d;
        assert(hits[h].doc == d);
    } else {
        assert forall|h: int| 0 <= h < picked.len() implies #[trigger] picked[h] != d by {}
        assert(picked.len() == limit);
        lemma_ranked_fewer(scores, picked, n as int, d);
    }
}

proof fn lemma_top_prefix(scores: Seq<u64>, limit: int, a: Seq<u64>, b: Seq<u64>, i: int)
    requires
        is_top(scores, limit, a),
        is_top(scores, limit, b),
        0 <= i <= a.len(),
        i <= b.len(),
    ensures
        forall|k: int| 0 <= k < i ==> a[k] == b[k],
    decreases i,
{
    if i > 0 {
        lemma_top_prefix(scores, limit, a, b, i - 1);
        let k = i - 1;
        lemma_top_index(scores, limit, a, b, k);
        lemma_top_index(scores, limit, b, a, k);
        let x = a[k];
        let y = b[k];
        assert(x == y || ranks_before(scores[x as int], x as int, scores[y as int], y as int)
            || ranks_before(scores[y as int], y as int, scores[x as int], x as int));
    }
}

/// Where two top lists agree before `k`, the one's entry at `k` does not
/// rank above the other's.
proof fn lemma_top_index(scores: Seq<u64>, limit: int, a: Seq<u64>, b: Seq<u64>, k: int)
    requires
        is_top(scores, limit, a),
        is_top(scores, limit, b),
        0 <= k < a.len(),
        k < b.len(),
        forall|j: int| 0 <= j < k ==> a[j] == b[j],
    ensures
        !ranks_before(scores[a[k] as int], a[k] as int, scores[b[k] as int], b[k] as int),
{
    let x = a[k];
    let y = b[k];
    assert(x < scores.len() && scores[x as int] > 0);
    if ranks_before(scores[x as int], x as int, scores[y as int], y as int) {
        if exists|j: int| 0 <= j < b.len() && #[trigger] b[j] == x {
            let j = choose|j: int| 0 <= j < b.len() && #[trigger] b[j] == x;
            if j < k {
                assert(a[j] == x);
                assert(ranks_before(scores[a[j] as int], a[j] as int, scores[a[k] as int], a[k] as int));
            } else if j > k {
                assert(ranks_before(scores[b[k] as int], b[k] as int, scores[b[j] as int], b[j] as int));
            }
        } else {
            assert(after_all(scores, b, x as int));
            let l = b.len() - 1;
            if k < l {
                assert(ranks_before(scores[b[k] as int], b[k] as int, scores[b[l] as int], b[l] as int));
            }
        }
    }
}

/// The top list of a ranking is unique.
proof fn lemma_top_unique(scores: Seq<u64>, limit: int, a: Seq<u64>, b: Seq<u64>)
    requires
        is_top(scores, limit, a),
        is_top(scores, limit, b),
    ensures
        a == b,
{
    if a.len() <= b.len() {
        lemma_top_prefix(scores, limit, a, b, a.len() as int);
        lemma_top_longer(scores, limit, a, b);
    } else {
        lemma_top_prefix(scores, limit, b, a, b.len() as int);
        lemma_top_longer(scores, limit, b, a);
    }
}

proof fn lemma_top_longer(scores: Seq<u64>, limit: int, a: Seq<u64>, b: Seq<u64>)
    requires
        is_top(scores, limit, a),
        is_top(scores, limit, b),
        a.len() <= b.len(),
        forall|k: int| 0 <= k < a.len() ==> a[k] == b[k],
    ensures
        a == b,
{
    if a.len() < b.len() {
        let x = b[a.len() as int];
        assert(x < scores.len() && scores[x as int] > 0);
        if exists|j: int| 0 <= j < a.len() && #[trigger] a[j] == x {
            let j = choose|j: int| 0 <= j < a.len() && #[trigger] a[j] == x;
            assert(b[j] == x);
            assert(ranks_before(scores[b[j] as int], b[j] as int, scores[b[a.len() as int] as int], b[a.len() as int] as int));
        }
    }
    assert(a =~= b);
}

/// Two searches of one snapshot with the same query and limit return the
/// same documents in the same order, with the same scores and values.
pub proof fn lemma_search_deterministic(
    segs: Seq<Arc<Segment>>,
    n: nat,
    q: Seq<Seq<char>>,
    limit: int,
    h1: Seq<crate::snapshot::Hit>,
    h2: Seq<crate::snapshot::Hit>,
)
    requires
        ranked(segs, n, q, limit, h1),
        ranked(segs, n, q, limit, h2),
    ensures
        h1.len() == h2.len(),
        forall|i: int|
            0 <= i < h1.len() ==> h1[i].doc == h2[i].doc && h1[i].score == h2[i].score
                && same_values(#[trigger] h1[i].document, h2[i].document),
{
    lemma_top_unique(doc_scores(segs, n, q), limit, hit_docs(h1), hit_docs(h2));
    assert forall|i: int| 0 <= i < h1.len() implies h1[i].doc == h2[i].doc by {
        assert(hit_docs(h1)[i] == hit_docs(h2)[i]);
    }
}

/// A commit publishes what was buffered: after it, a search of a new
/// snapshot for any term of a buffered document finds that document under
/// the id it was given, once the limit reaches the number of documents.
/// (A snapshot taken before the commit holds the earlier segments, which
/// the commit keeps as they were.)
pub proof fn lemma_commit_observed(
    before: Seq<Arc<Segment>>,
    after: Seq<Arc<Segment>>,
    committed: nat,
    n: nat,
    buffered: Seq<Document>,
    k: int,
    f: Field,
    q: Seq<Seq<char>>,
    j: int,
    limit: int,
    hits: Seq<crate::snapshot::Hit>,
)
    requires
        segments_wf(after, n),
        after.len() == before.len() + 1,
        after.take(before.len() as int) == before,
        after.last().first_doc == committed,
        after.last().docs@ == buffered,
        0 <= k < buffered.len(),
        0 <= j < q.len(),
        field_terms(buffered[k], f).contains(q[j]),
        limit >= n,
        ranked(after, n, q, limit, hits),
    ensures
        exists|h: int| 0 <= h < hits.len() && #[trigger] hits[h].doc == committed + k,
{
    let i = before.len() as int;
    assert(after[i] == after.last());
    lemma_round_trip(after, n, i, k, f, q, j, limit, hits);
}

/// A document carries every term of each of its tags in its tags field.
pub proof fn lemma_tag_terms(d: Document, j: int, t: Seq<char>)
    requires
        0 <= j < d.tags.len(),
        terms_of(d.tags@[j]@).contains(t),
    ensures
        field_terms(d, Field::Tags).contains(t),
{
    lemma_terms_of_all(string_views(d.tags@), j, t);
}

/// A query for a term of any one tag of a committed document finds that
/// document, once the limit reaches the number of documents.
pub proof fn lemma_tag_retrievable(
    segs: Seq<Arc<Segment>>,
    n: nat,
    i: int,
    k: int,
    tag: int,
    q: Seq<Seq<char>>,
    j: int,
    limit: int,
    hits: Seq<crate::snapshot::Hit>,
)
    requires
        segments_wf(segs, n),
        0 <= i < segs.len(),
        0 <= k < segs[i].docs.len(),
        0 <= tag < segs[i].docs@[k].tags.len(),
        0 <= j < q.len(),
        terms_of(segs[i].docs@[k].tags@[tag]@).contains(q[j]),
        limit >= n,
        ranked(segs, n, q, limit, hits),
    ensures
        exists|h: int| 0 <= h < hits.len() && #[trigger] hits[h].doc == segs[i].first_doc + k,
{
    lemma_tag_terms(segs[i].docs@[k], tag, q[j]);
    lemma_round_trip(segs, n, i, k, Field::Tags, q, j, limit, hits);
}

proof fn lemma_terms_of_all(vals: Seq<Seq<char>>, j: int, t: Seq<char>)
    requires
        0 <= j < vals.len(),
        terms_of(vals[j]).contains(t),
    ensures
        terms_of_all(vals).contains(t),
    decreases vals.len(),
{
    let last = terms_of(vals.last());
    let init = terms_of_all(vals.drop_last());
    if j == vals.len() - 1 {
        let i = choose|i: int| 0 <= i < last.len() && last[i] == t;
        assert((init + last)[init.len() + i] == t);
    } else {
        lemma_terms_of_all(vals.drop_last(), j, t);
        let i = choose|i: int| 0 <= i < init.len() && init[i] == t;
        assert((init + last)[i] == t);
    }
}

proof fn lemma_term_score_mono(segs: Seq<Arc<Segment>>, n: nat, t: Seq<char>, d1: int, d2: int, m: int)
    requires
        forall|f: Field| #[trigger] tf(segs, f, t, d1) >= tf(segs, f, t, d2),
    ensures
        term_score(segs, n, t, d1, m) >= term_score(segs, n, t, d2, m),
    decreases m,
{
    if m > 0 {
        lemma_term_score_mono(segs, n, t, d1, d2, m - 1);
        let f = field_at(m - 1);
        let a1 = tf(segs, f, t, d1) as int;
        let a2 = tf(segs, f, t, d2) as int;
        let b = idf(segs, n, f, t) as int;
        assert(a1 * b >= a2 * b) by (nonlinear_arith)
            requires
                a1 >= a2,
                b >= 0,
        ;
    }
}

proof fn lemma_score_upto_mono(segs: Seq<Arc<Segment>>, n: nat, q: Seq<Seq<char>>, k: int, d1: int, d2: int)
    requires
        forall|f: Field, t: Seq<char>| #[trigger] tf(segs, f, t, d1) >= tf(segs, f, t, d2),
    ensures
        score_upto(segs, n, q, k, d1) >= score_upto(segs, n, q, k, d2),
    decreases k,
{
    if k > 0 {
        lemma_score_upto_mono(segs, n, q, k - 1, d1, d2);
        lemma_term_score_mono(segs, n, q[k - 1], d1, d2, 3);
    }
}

/// A document whose every term occurs at least as often as in another
/// document scores at least as high, for every query, and so ranks at least
/// as high apart from the tie-break by id.
pub proof fn lemma_monotonic_relevance(
    segs: Seq<Arc<Segment>>,
    n: nat,
    q: Seq<Seq<char>>,
    d1: int,
    d2: int,
)
    requires
        forall|f: Field, t: Seq<char>| #[trigger] tf(segs, f, t, d1) >= tf(segs, f, t, d2),
    ensures
        score(segs, n, q, d1) >= score(segs, n, q, d2),
        clamp(score(segs, n, q, d1)) >= clamp(score(segs, n, q, d2)),
{
    lemma_score_upto_mono(segs, n, q, q.len() as int, d1, d2);
    lemma_score_upto_nonneg(segs, n, q, q.len() as int, d2);
}

} // verus!
