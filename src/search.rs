use crate::document::Document;
use crate::index::{build_segment, frequencies_fit, Segment};
use crate::analyzer::terms_of;
use crate::snapshot::{docs_upto, lemma_push_prefix, ranked, segments_wf, Generation, Hit, Snapshot};
use std::sync::Arc;
use vstd::prelude::*;

verus! {

/// What can go wrong in the index.
#[derive(Debug, Clone, Copy, PartialEq, Eq, Structural)]
pub enum SearchError {
    /// A document named a field that the schema does not have.
    SchemaError,
    /// A commit could not build or publish its segment; nothing was published.
    CommitError,
    /// The query holds no term.
    QuerySyntaxError,
    /// A selected document could not be read back.
    SearchError,
}

/// The index: the published segments, which readers share, and the
/// documents buffered for the next commit, which only the writer sees.
pub struct Search {
    published: Arc<Generation>,
    num_docs: u64,
    buffer: Vec<Document>,
}

impl Search {
    /// The published segments.
    pub closed spec fn segs(&self) -> Seq<Arc<Segment>> {
        self.published.segments@
    }

    /// The number of published documents.
    pub closed spec fn committed(&self) -> nat {
        self.num_docs as nat
    }

    /// The documents added since the last commit, in order.
    pub closed spec fn buffered(&self) -> Seq<Document> {
        self.buffer@
    }

    /// The id that the next added document gets.
    pub open spec fn next_id(&self) -> nat {
        self.committed() + self.buffered().len()
    }

    /// The published segments hold the committed documents, well formed.
    pub open spec fn wf(&self) -> bool {
        &&& segments_wf(self.segs(), self.committed())
        &&& self.next_id() < u64::MAX
    }

    /// A fresh, empty index.
    pub fn new() -> (r: Result<Search, SearchError>)
        ensures
            r matches Ok(s) && s.wf() && s.segs().len() == 0 && s.committed() == 0
                && s.buffered().len() == 0,
    {
        Ok(Search { published: Arc::new(Generation { segments: Vec::new() }), num_docs: 0, buffer: Vec::new() })
    }

    /// The id that the next added document gets.
    pub fn next_doc_id(&self) -> (r: u64)
        requires
            self.wf(),
        ensures
            r == self.next_id(),
    {
        self.num_docs + self.buffer.len() as u64
    }

    /// Buffers a document for the next commit and returns its id.
    pub fn add(&mut self, url: String, description: String, tags: Vec<String>) -> (r: Result<
        u64,
        SearchError,
    >)
        requires
            old(self).wf(),
            old(self).next_id() + 1 < u64::MAX,
        ensures
            final(self).wf(),
            r == Ok::<u64, SearchError>(old(self).next_id() as u64),
            final(self).segs() == old(self).segs(),
            final(self).committed() == old(self).committed(),
            final(self).buffered() == old(self).buffered().push(
                Document::new_spec(url, description, tags),
            ),
    {
        let id = self.num_docs + self.buffer.len() as u64;
        self.buffer.push(Document::new(url, description, tags));
        Ok(id)
    }

    /// Freezes the buffered documents into one new segment and publishes it.
    /// On failure nothing is published and the buffer is kept; it fails only
    /// where a term occurs in a field more often than a frequency can count.
    pub fn commit(&mut self) -> (r: Result<(), SearchError>)
        requires
            old(self).wf(),
        ensures
            final(self).wf(),
            frequencies_fit(old(self).buffered()) ==> r is Ok,
            match r {
                Ok(()) => {
                    &&& final(self).segs().len() == old(self).segs().len() + 1
                    &&& final(self).segs().take(old(self).segs().len() as int) == old(self).segs()
                    &&& final(self).segs().last().first_doc == old(self).committed()
                    &&& final(self).segs().last().docs@ == old(self).buffered()
                    &&& final(self).committed() == old(self).next_id()
                    &&& final(self).buffered().len() == 0
                },
                Err(e) => e == SearchError::CommitError && *final(self) == *old(self),
            },
    {
        let mut docs: Vec<Document> = Vec::new();
        std::mem::swap(&mut docs, &mut self.buffer);
        let n = docs.len() as u64;
        match build_segment(self.num_docs, docs) {
            Err(back) => {
                self.buffer = back;
                Err(SearchError::CommitError)
            },
            Ok(seg) => {
                let mut segs: Vec<Arc<Segment>> = Vec::new();
                let mut i: usize = 0;
                while i < self.published.segments.len()
                    invariant
                        i <= self.published.segments@.len(),
                        segs@ == self.published.segments@.take(i as int),
                    decreases self.published.segments@.len() - i,
                {
                    segs.push(self.published.segments[i].clone());
                    proof {
                        assert(self.published.segments@.take(i + 1) == self.published.segments@.take(i as int).push(
                            self.published.segments@[i as int],
                        ));
                    }
                    i += 1;
                }
                proof {
                    assert(self.published.segments@.take(i as int) == self.published.segments@);
                }
                let ghost before = segs@;
                segs.push(Arc::new(seg));
                proof {
                    let s = segs@.last();
                    assert(segs@ == before.push(s));
                    assert forall|j: int| 0 <= j <= before.len() implies docs_upto(segs@, j)
                        == docs_upto(before, j) by {
                        lemma_push_prefix(before, s, j);
                    }
                    assert(segs@.take(before.len() as int) == before);
                    assert(segs@[before.len() as int] == s);
                }
                self.published = Arc::new(Generation { segments: segs });
                self.num_docs = self.num_docs + n;
                Ok(())
            },
        }
    }

    /// The best `limit` committed documents for the terms of `keyword`, best
    /// first, on the latest published generation.
    pub fn search(&self, keyword: String, limit: usize) -> (r: Result<Vec<Hit>, SearchError>)
        requires
            self.wf(),
        ensures
            match r {
                Ok(hits) => terms_of(keyword@).len() > 0 && ranked(
                    self.segs(),
                    self.committed(),
                    terms_of(keyword@),
                    limit as int,
                    hits@,
                ),
                Err(e) => e == SearchError::QuerySyntaxError && terms_of(keyword@).len() == 0,
            },
    {
        let snap = self.snapshot();
        snap.search(keyword.as_str(), limit)
    }

    /// The latest published generation of the index.
    pub fn snapshot(&self) -> (s: Snapshot)
        requires
            self.wf(),
        ensures
            s.wf(),
            s.segs() == self.segs(),
            s.docs() == self.committed(),
    {
        Snapshot::new(self.published.clone(), self.num_docs)
    }
}

} // verus!
