use crate::analyzer::terms_of;
use crate::query::parse_query;
use crate::collector::{is_top, top_k};
use crate::document::{same_values, string_views, Document, Field};
use crate::index::{postings_tf, segment_wf, Posting, Segment};
use crate::scoring::{clamp, score, score_all};
use crate::search::SearchError;
use std::sync::Arc;
use vstd::prelude::*;

verus! {

/// How many documents the first `n` segments hold.
pub open spec fn docs_upto(segs: Seq<Arc<Segment>>, n: int) -> nat
    decreases n,
{
    if n <= 0 {
        0
    } else {
        docs_upto(segs, n - 1) + segs[n - 1].docs@.len()
    }
}

/// The segments hold the documents `0 .. n` in order, each segment well formed.
pub open spec fn segments_wf(segs: Seq<Arc<Segment>>, n: nat) -> bool {
    &&& forall|i: int| 0 <= i < segs.len() ==> segment_wf(*#[trigger] segs[i])
    &&& forall|i: int| 0 <= i < segs.len() ==> #[trigger] segs[i].first_doc == docs_upto(segs, i)
    &&& n == docs_upto(segs, segs.len() as int)
    &&& n < u64::MAX
}

/// How often the first `n` segments say that `t` occurs in field `f` of
/// document `d`.
pub open spec fn tf_upto(segs: Seq<Arc<Segment>>, n: int, f: Field, t: Seq<char>, d: int) -> nat
    decreases n,
{
    if n <= 0 {
        0
    } else {
        tf_upto(segs, n - 1, f, t, d) + postings_tf(segs[n - 1].postings@, f, t, d)
    }
}

/// The frequency of `t` in field `f` of document `d`.
pub open spec fn tf(segs: Seq<Arc<Segment>>, f: Field, t: Seq<char>, d: int) -> nat {
    tf_upto(segs, segs.len() as int, f, t, d)
}

/// How many postings of `ps` are for term `t` in field `f`.
pub open spec fn postings_df(ps: Seq<Posting>, f: Field, t: Seq<char>) -> nat
    decreases ps.len(),
{
    if ps.len() == 0 {
        0
    } else {
        postings_df(ps.drop_last(), f, t) + if ps.last().field == f && ps.last().term@ == t {
            1nat
        } else {
            0nat
        }
    }
}

pub open spec fn df_upto(segs: Seq<Arc<Segment>>, n: int, f: Field, t: Seq<char>) -> nat
    decreases n,
{
    if n <= 0 {
        0
    } else {
        df_upto(segs, n - 1, f, t) + postings_df(segs[n - 1].postings@, f, t)
    }
}

/// How many postings there are for `t` in field `f`.
pub open spec fn df(segs: Seq<Arc<Segment>>, f: Field, t: Seq<char>) -> nat {
    df_upto(segs, segs.len() as int, f, t)
}

/// The stored document with id `d`.
pub open spec fn stored_doc(segs: Seq<Arc<Segment>>, d: int) -> Document
    decreases segs.len(),
{
    if segs.len() == 0 {
        arbitrary()
    } else if d >= segs.last().first_doc {
        segs.last().docs@[d - segs.last().first_doc]
    } else {
        stored_doc(segs.drop_last(), d)
    }
}

/// The score of every document of a snapshot for the query terms `q`.
pub open spec fn doc_scores(segs: Seq<Arc<Segment>>, n: nat, q: Seq<Seq<char>>) -> Seq<u64> {
    Seq::new(n, |d: int| clamp(score(segs, n, q, d)))
}

/// One search result: a document's id, its score and its stored values.
#[derive(Debug)]
pub struct Hit {
    pub doc: u64,
    pub score: u64,
    pub document: Document,
}

pub open spec fn hit_docs(hits: Seq<Hit>) -> Seq<u64> {
    hits.map_values(|h: Hit| h.doc)
}

/// `hits` are the `limit` best matches for the query terms `q`, best first,
/// each with its score and its stored values.
pub open spec fn ranked(
    segs: Seq<Arc<Segment>>,
    n: nat,
    q: Seq<Seq<char>>,
    limit: int,
    hits: Seq<Hit>,
) -> bool {
    &&& is_top(doc_scores(segs, n, q), limit, hit_docs(hits))
    &&& forall|i: int|
        0 <= i < hits.len() ==> (#[trigger] hits[i]).score == clamp(
            score(segs, n, q, hits[i].doc as int),
        ) && same_values(hits[i].document, stored_doc(segs, hits[i].doc as int))
}

/// The stored document with id `d`.
fn find_doc(segs: &Vec<Arc<Segment>>, n: u64, d: u64) -> (r: &Document)
    requires
        segments_wf(segs@, n as nat),
        d < n,
    ensures
        *r == stored_doc(segs@, d as int),
{
    let mut i: usize = segs.len();
    proof {
        assert(segs@.take(i as int) == segs@);
    }
    while i > 0
        invariant
            segments_wf(segs@, n as nat),
            i <= segs.len(),
            d < docs_upto(segs@, i as int),
            stored_doc(segs@, d as int) == stored_doc(segs@.take(i as int), d as int),
        decreases i,
    {
        proof {
            let t = segs@.take(i as int);
            assert(t.last() == segs@[i - 1]);
            assert(t.drop_last() == segs@.take(i - 1));
        }
        if segs[i - 1].first_doc <= d {
            proof {
                assert(segment_wf(*segs@[i - 1]));
            }
            return &segs[i - 1].docs[(d - segs[i - 1].first_doc) as usize];
        }
        i -= 1;
    }
    proof {
        assert(false);
    }
    &segs[0].docs[0]
}

/// One published state of the index: its segments in commit order.
pub struct Generation {
    pub segments: Vec<Arc<Segment>>,
}

/// An immutable view of the index as of some commit. Holding one never
/// blocks a commit, and no commit changes what it holds.
pub struct Snapshot {
    pub(crate) generation: Arc<Generation>,
    pub(crate) num_docs: u64,
}

impl Snapshot {
    /// The segments of the snapshot, in commit order.
    pub closed spec fn segs(&self) -> Seq<Arc<Segment>> {
        self.generation.segments@
    }

    /// The number of documents of the snapshot.
    pub closed spec fn docs(&self) -> nat {
        self.num_docs as nat
    }

    /// The segments hold the snapshot's documents, well formed.
    pub open spec fn wf(&self) -> bool {
        segments_wf(self.segs(), self.docs())
    }

    pub(crate) fn new(generation: Arc<Generation>, num_docs: u64) -> (s: Snapshot)
        ensures
            s.segs() == generation.segments@,
            s.docs() == num_docs,
            s.wf() == segments_wf(generation.segments@, num_docs as nat),
    {
        Snapshot { generation, num_docs }
    }

    /// The best `limit` documents for the terms of `query`, best first; an
    /// error where the query holds no term.
    pub fn search(&self, query: &str, limit: usize) -> (r: Result<Vec<Hit>, SearchError>)
        requires
            self.wf(),
        ensures
            match r {
                Ok(hits) => terms_of(query@).len() > 0 && ranked(
                    self.segs(),
                    self.docs(),
                    terms_of(query@),
                    limit as int,
                    hits@,
                ),
                Err(e) => e == SearchError::QuerySyntaxError && terms_of(query@).len() == 0,
            },
    {
        let q = parse_query(query)?;
        Ok(self.search_terms(&q, limit))
    }

    /// The best `limit` documents for the query terms `q`, matched against
    /// every field, best first.
    pub fn search_terms(&self, q: &Vec<String>, limit: usize) -> (hits: Vec<Hit>)
        requires
            self.wf(),
        ensures
            ranked(self.segs(), self.docs(), string_views(q@), limit as int, hits@),
    {
        let segs = &self.generation.segments;
        let n = self.num_docs;
        let scores = score_all(segs, n, q);
        let ghost qv = string_views(q@);
        proof {
            assert(scores@ =~= doc_scores(segs@, n as nat, qv));
        }
        let picked = top_k(&scores, limit);
        let mut hits: Vec<Hit> = Vec::new();
        let mut i: usize = 0;
        while i < picked.len()
            invariant
                segments_wf(segs@, n as nat),
                scores@ == doc_scores(segs@, n as nat, qv),
                is_top(scores@, limit as int, picked@),
                i <= picked.len(),
                hit_docs(hits@) == picked@.take(i as int),
                forall|j: int|
                    0 <= j < hits.len() ==> (#[trigger] hits@[j]).score == clamp(
                        score(segs@, n as nat, qv, hits@[j].doc as int),
                    ) && same_values(hits@[j].document, stored_doc(segs@, hits@[j].doc as int)),
            decreases picked.len() - i,
        {
            let d = picked[i];
            assert(picked@[i as int] == d);
            let document = find_doc(segs, n, d).copy();
            let ghost before = hits@;
            hits.push(Hit { doc: d, score: scores[d as usize], document });
            proof {
                assert(hits@ == before.push(hits@.last()));
                assert(hit_docs(hits@) =~= hit_docs(before).push(d));
                assert(picked@.take(i + 1) == picked@.take(i as int).push(d));
            }
            i += 1;
        }
        proof {
            assert(picked@.take(i as int) == picked@);
        }
        hits
    }

    /// The number of documents the snapshot holds.
    pub fn num_docs(&self) -> (n: u64)
        ensures
            n == self.docs(),
    {
        self.num_docs
    }
}

pub proof fn lemma_docs_upto_mono(segs: Seq<Arc<Segment>>, i: int, j: int)
    requires
        0 <= i <= j,
    ensures
        docs_upto(segs, i) <= docs_upto(segs, j),
    decreases j - i,
{
    if i < j {
        lemma_docs_upto_mono(segs, i, j - 1);
    }
}

pub proof fn lemma_push_prefix(segs: Seq<Arc<Segment>>, s: Arc<Segment>, n: int)
    requires
        0 <= n <= segs.len(),
    ensures
        docs_upto(segs.push(s), n) == docs_upto(segs, n),
    decreases n,
{
    if n > 0 {
        lemma_push_prefix(segs, s, n - 1);
    }
}

} // verus!
