use crate::document::{count, field_at, field_by_index, field_terms, string_views, terms_of_field, Document, Field};
use vstd::prelude::*;

verus! {

/// A record that `term` occurs `freq` times in field `field` of document `doc`.
#[derive(Debug)]
pub struct Posting {
    pub field: Field,
    pub term: String,
    pub doc: u64,
    pub freq: u64,
}

/// An immutable unit of indexed and stored data made by one commit: the
/// documents `first_doc .. first_doc + docs.len()` and their postings, which
/// come in ascending document order.
#[derive(Debug)]
pub struct Segment {
    pub first_doc: u64,
    pub docs: Vec<Document>,
    pub postings: Vec<Posting>,
}

/// How often the postings say that `t` occurs in field `f` of document `d`.
pub open spec fn postings_tf(ps: Seq<Posting>, f: Field, t: Seq<char>, d: int) -> nat
    decreases ps.len(),
{
    if ps.len() == 0 {
        0
    } else {
        postings_tf(ps.drop_last(), f, t, d) + if ps.last().field == f && ps.last().term@ == t
            && ps.last().doc == d {
            ps.last().freq as nat
        } else {
            0nat
        }
    }
}

/// The postings of a segment name only its own documents and give each term
/// of each field of each document its exact number of occurrences.
pub open spec fn segment_wf(s: Segment) -> bool {
    &&& s.first_doc + s.docs.len() <= u64::MAX
    &&& forall|i: int|
        0 <= i < s.postings.len() ==> s.first_doc <= #[trigger] s.postings@[i].doc < s.first_doc
            + s.docs.len()
    &&& postings_sorted(s.postings@)
    &&& postings_unique(s.postings@)
    &&& forall|f: Field, t: Seq<char>, k: int|
        0 <= k < s.docs.len() ==> #[trigger] postings_tf(s.postings@, f, t, s.first_doc + k)
            == count(field_terms(#[trigger] s.docs@[k], f), t)
}

/// Each field, term and document has at most one posting.
pub open spec fn postings_unique(ps: Seq<Posting>) -> bool {
    forall|i: int, j: int|
        0 <= i < j < ps.len() ==> !(#[trigger] ps[i].field == #[trigger] ps[j].field && ps[i].term@
            == ps[j].term@ && ps[i].doc == ps[j].doc)
}

/// The postings come in ascending document order.
pub open spec fn postings_sorted(ps: Seq<Posting>) -> bool {
    forall|i: int, j: int| 0 <= i < j < ps.len() ==> #[trigger] ps[i].doc <= #[trigger] ps[j].doc
}

pub proof fn lemma_tf_push(ps: Seq<Posting>, p: Posting, f: Field, t: Seq<char>, d: int)
    ensures
        postings_tf(ps.push(p), f, t, d) == postings_tf(ps, f, t, d) + if p.field == f && p.term@
            == t && p.doc == d {
            p.freq as nat
        } else {
            0nat
        },
{
    assert(ps.push(p).drop_last() == ps);
}

pub proof fn lemma_tf_update(ps: Seq<Posting>, i: int, p: Posting, f: Field, t: Seq<char>, d: int)
    requires
        0 <= i < ps.len(),
        p.field == ps[i].field,
        p.term@ == ps[i].term@,
        p.doc == ps[i].doc,
        p.freq == ps[i].freq + 1,
    ensures
        postings_tf(ps.update(i, p), f, t, d) == postings_tf(ps, f, t, d) + if p.field == f
            && p.term@ == t && p.doc == d {
            1nat
        } else {
            0nat
        },
    decreases ps.len(),
{
    if i == ps.len() - 1 {
        assert(ps.update(i, p).drop_last() == ps.drop_last());
    } else {
        lemma_tf_update(ps.drop_last(), i, p, f, t, d);
        assert(ps.update(i, p).drop_last() == ps.drop_last().update(i, p));
    }
}

/// Postings of documents outside `lo .. hi` contribute nothing inside it.
pub proof fn lemma_tf_outside(ps: Seq<Posting>, lo: int, hi: int, f: Field, t: Seq<char>, d: int)
    requires
        forall|i: int| 0 <= i < ps.len() ==> lo <= #[trigger] ps[i].doc < hi,
        d < lo || hi <= d,
    ensures
        postings_tf(ps, f, t, d) == 0,
    decreases ps.len(),
{
    if ps.len() > 0 {
        lemma_tf_outside(ps.drop_last(), lo, hi, f, t, d);
        assert(ps.last() == ps[ps.len() - 1]);
    }
}

pub proof fn lemma_count_step(s: Seq<Seq<char>>, j: int, t: Seq<char>)
    requires
        0 <= j < s.len(),
    ensures
        count(s.take(j + 1), t) == count(s.take(j), t) + if s[j] == t {
            1nat
        } else {
            0nat
        },
{
    assert(s.take(j + 1).drop_last() == s.take(j));
}

/// No term occurs in a field of one of `docs` more often than a frequency
/// can count.
pub open spec fn frequencies_fit(docs: Seq<Document>) -> bool {
    forall|k: int, f: Field, t: Seq<char>|
        0 <= k < docs.len() ==> #[trigger] count(field_terms(docs[k], f), t) <= u64::MAX
}

proof fn lemma_tf_ge_posting(ps: Seq<Posting>, i: int)
    requires
        0 <= i < ps.len(),
    ensures
        postings_tf(ps, ps[i].field, ps[i].term@, ps[i].doc as int) >= ps[i].freq,
    decreases ps.len(),
{
    if i < ps.len() - 1 {
        lemma_tf_ge_posting(ps.drop_last(), i);
    }
}

proof fn lemma_count_prefix(s: Seq<Seq<char>>, j: int, t: Seq<char>)
    requires
        0 <= j <= s.len(),
    ensures
        count(s.take(j), t) <= count(s, t),
    decreases s.len() - j,
{
    if j < s.len() {
        lemma_count_step(s, j, t);
        lemma_count_prefix(s, j + 1, t);
    } else {
        assert(s.take(j) == s);
    }
}

/// Index of the posting for (`f`, `t`, `d`) at or after `from`, if any.
fn find_posting(ps: &Vec<Posting>, from: usize, f: Field, t: &String, d: u64) -> (r: Option<usize>)
    requires
        from <= ps.len(),
    ensures
        match r {
            Some(i) => from <= i < ps.len() && ps@[i as int].field == f && ps@[i as int].term@
                == t@ && ps@[i as int].doc == d,
            None => forall|i: int|
                from <= i < ps.len() ==> !(#[trigger] ps@[i].field == f && ps@[i].term@ == t@
                    && ps@[i].doc == d),
        },
{
    let mut i: usize = from;
    while i < ps.len()
        invariant
            from <= i <= ps.len(),
            forall|j: int|
                from <= j < i ==> !(#[trigger] ps@[j].field == f && ps@[j].term@ == t@ && ps@[j].doc
                    == d),
        decreases ps.len() - i,
    {
        if ps[i].field == f && ps[i].doc == d && ps[i].term == *t {
            return Some(i);
        }
        i += 1;
    }
    None
}

/// Indexes the given documents as the documents `first_doc ..` of a new
/// segment; where a term would occur more often in one field than a
/// frequency can count, the documents come back untouched.
pub fn build_segment(first_doc: u64, docs: Vec<Document>) -> (r: Result<Segment, Vec<Document>>)
    requires
        first_doc + docs.len() <= u64::MAX,
    ensures
        match r {
            Ok(s) => segment_wf(s) && s.first_doc == first_doc && s.docs == docs,
            Err(back) => back == docs && !frequencies_fit(docs@),
        },
{
    let mut postings: Vec<Posting> = Vec::new();
    let mut k: usize = 0;
    while k < docs.len()
        invariant
            k <= docs.len(),
            first_doc + docs.len() <= u64::MAX,
            forall|i: int|
                0 <= i < postings.len() ==> first_doc <= #[trigger] postings@[i].doc < first_doc
                    + k,
            postings_sorted(postings@),
            postings_unique(postings@),
            forall|f: Field, t: Seq<char>, k2: int|
                0 <= k2 < k ==> #[trigger] postings_tf(postings@, f, t, first_doc + k2) == count(
                    field_terms(#[trigger] docs@[k2], f),
                    t,
                ),
        decreases docs.len() - k,
    {
        let id: u64 = first_doc + k as u64;
        let doc_start = postings.len();
        proof {
            assert forall|f: Field, t: Seq<char>| postings_tf(postings@, f, t, id as int) == 0 by {
                lemma_tf_outside(postings@, first_doc as int, id as int, f, t, id as int);
            }
        }
        let mut fi: usize = 0;
        while fi < 3
            invariant
                k < docs.len(),
                id == first_doc + k,
                first_doc + docs.len() <= u64::MAX,
                doc_start <= postings.len(),
                fi <= 3,
                forall|i: int|
                    0 <= i < postings.len() ==> first_doc <= #[trigger] postings@[i].doc
                        < first_doc + k + 1,
                postings_sorted(postings@),
                postings_unique(postings@),
                forall|i: int| 0 <= i < doc_start ==> #[trigger] postings@[i].doc < id,
            postings_unique(postings@),
                forall|f: Field, t: Seq<char>, k2: int|
                    0 <= k2 < k ==> #[trigger] postings_tf(postings@, f, t, first_doc + k2)
                        == count(field_terms(#[trigger] docs@[k2], f), t),
                forall|i: int, t: Seq<char>|
                    0 <= i < fi ==> #[trigger] postings_tf(postings@, field_at(i), t, id as int)
                        == count(field_terms(docs@[k as int], field_at(i)), t),
                forall|i: int, t: Seq<char>|
                    fi <= i < 3 ==> #[trigger] postings_tf(postings@, field_at(i), t, id as int)
                        == 0,
            decreases 3 - fi,
        {
            let f = field_by_index(fi);
            let terms = terms_of_field(&docs[k], f);
            let mut j: usize = 0;
            while j < terms.len()
                invariant
                    k < docs.len(),
                    id == first_doc + k,
                    first_doc + docs.len() <= u64::MAX,
                    doc_start <= postings.len(),
                    fi < 3,
                    f == field_at(fi as int),
                    j <= terms.len(),
                    string_views(terms@) == field_terms(docs@[k as int], f),
                    forall|i: int|
                        0 <= i < postings.len() ==> first_doc <= #[trigger] postings@[i].doc
                            < first_doc + k + 1,
                    postings_sorted(postings@),
                    postings_unique(postings@),
                    forall|i: int| 0 <= i < doc_start ==> #[trigger] postings@[i].doc < id,
                postings_unique(postings@),
                forall|i: int| 0 <= i < doc_start ==> #[trigger] postings@[i].doc < id,
            postings_unique(postings@),
                    forall|f2: Field, t: Seq<char>, k2: int|
                        0 <= k2 < k ==> #[trigger] postings_tf(postings@, f2, t, first_doc + k2)
                            == count(field_terms(#[trigger] docs@[k2], f2), t),
                    forall|i: int, t: Seq<char>|
                        0 <= i < fi ==> #[trigger] postings_tf(postings@, field_at(i), t, id as int)
                            == count(field_terms(docs@[k as int], field_at(i)), t),
                    forall|i: int, t: Seq<char>|
                        fi < i < 3 ==> #[trigger] postings_tf(postings@, field_at(i), t, id as int)
                            == 0,
                    forall|t: Seq<char>|
                        #[trigger] postings_tf(postings@, f, t, id as int) == count(
                            string_views(terms@).take(j as int),
                            t,
                        ),
                decreases terms.len() - j,
            {
                let found = find_posting(&postings, doc_start, f, &terms[j], id);
                let ghost old_ps = postings@;
                proof {
                    assert(string_views(terms@)[j as int] == terms@[j as int]@);
                }
                match found {
                    Some(i) => {
                        if postings[i].freq == u64::MAX {
                            proof {
                                lemma_tf_ge_posting(postings@, i as int);
                                let t = terms@[j as int]@;
                                lemma_count_step(string_views(terms@), j as int, t);
                                lemma_count_prefix(string_views(terms@), j + 1, t);
                                assert(count(field_terms(docs@[k as int], f), t) > u64::MAX);
                            }
                            return Err(docs);
                        }
                        let p = Posting {
                            field: f,
                            term: terms[j].clone(),
                            doc: id,
                            freq: postings[i].freq + 1,
                        };
                        postings.set(i, p);
                        proof {
                            assert forall|a: int, b: int| 0 <= a < b < postings.len() implies #[trigger] postings@[a].doc <= #[trigger] postings@[b].doc by {
                                assert(old_ps[a].doc <= old_ps[b].doc);
                            }
                            assert forall|a: int, b: int| 0 <= a < b < postings.len() implies !(#[trigger] postings@[a].field == #[trigger] postings@[b].field && postings@[a].term@ == postings@[b].term@ && postings@[a].doc == postings@[b].doc) by {
                                if a != i && b != i {
                                    assert(postings@[a] == old_ps[a] && postings@[b] == old_ps[b]);
                                } else if a == i {
                                    assert(postings@[b] == old_ps[b]);
                                } else {
                                    assert(postings@[a] == old_ps[a]);
                                }
                            }
                            assert forall|f2: Field, t: Seq<char>, d: int|
                                #[trigger] postings_tf(postings@, f2, t, d) == postings_tf(
                                    old_ps,
                                    f2,
                                    t,
                                    d,
                                ) + if f2 == f && t == terms@[j as int]@ && d == id {
                                    1nat
                                } else {
                                    0nat
                                } by {
                                lemma_tf_update(old_ps, i as int, p, f2, t, d);
                            }
                        }
                    },
                    None => {
                        let p = Posting { field: f, term: terms[j].clone(), doc: id, freq: 1 };
                        postings.push(p);
                        proof {
                            assert forall|a: int, b: int| 0 <= a < b < postings.len() implies #[trigger] postings@[a].doc <= #[trigger] postings@[b].doc by {
                                if b < old_ps.len() {
                                    assert(old_ps[a].doc <= old_ps[b].doc);
                                } else {
                                    assert(old_ps[a].doc < id + 1);
                                }
                            }
                            assert forall|a: int, b: int| 0 <= a < b < postings.len() implies !(#[trigger] postings@[a].field == #[trigger] postings@[b].field && postings@[a].term@ == postings@[b].term@ && postings@[a].doc == postings@[b].doc) by {
                                if b == old_ps.len() {
                                    if a < doc_start {
                                        assert(old_ps[a].doc < id);
                                    }
                                } else {
                                    assert(postings@[a] == old_ps[a] && postings@[b] == old_ps[b]);
                                }
                            }
                            assert forall|f2: Field, t: Seq<char>, d: int|
                                #[trigger] postings_tf(postings@, f2, t, d) == postings_tf(
                                    old_ps,
                                    f2,
                                    t,
                                    d,
                                ) + if f2 == f && t == terms@[j as int]@ && d == id {
                                    1nat
                                } else {
                                    0nat
                                } by {
                                lemma_tf_push(old_ps, p, f2, t, d);
                            }
                        }
                    },
                }
                proof {
                    assert forall|t: Seq<char>|
                        #[trigger] postings_tf(postings@, f, t, id as int) == count(
                            string_views(terms@).take(j + 1),
                            t,
                        ) by {
                        lemma_count_step(string_views(terms@), j as int, t);
                    }
                    assert forall|i: int, t: Seq<char>|
                        0 <= i < fi implies #[trigger] postings_tf(
                            postings@,
                            field_at(i),
                            t,
                            id as int,
                        ) == count(field_terms(docs@[k as int], field_at(i)), t) by {
                        assert(field_at(i) != f);
                        assert(postings_tf(postings@, field_at(i), t, id as int) == postings_tf(
                            old_ps,
                            field_at(i),
                            t,
                            id as int,
                        ));
                    }
                    assert forall|i: int, t: Seq<char>|
                        fi < i < 3 implies #[trigger] postings_tf(
                            postings@,
                            field_at(i),
                            t,
                            id as int,
                        ) == 0 by {
                        assert(field_at(i) != f);
                        assert(postings_tf(postings@, field_at(i), t, id as int) == postings_tf(
                            old_ps,
                            field_at(i),
                            t,
                            id as int,
                        ));
                    }
                    assert forall|f2: Field, t: Seq<char>, k2: int|
                        0 <= k2 < k implies #[trigger] postings_tf(
                            postings@,
                            f2,
                            t,
                            first_doc + k2,
                        ) == count(field_terms(#[trigger] docs@[k2], f2), t) by {
                        assert(postings_tf(postings@, f2, t, first_doc + k2) == postings_tf(
                            old_ps,
                            f2,
                            t,
                            first_doc + k2,
                        ));
                    }
                }
                j += 1;
            }
            proof {
                assert(string_views(terms@).take(j as int) == string_views(terms@));
            }
            fi += 1;
        }
        proof {
            assert forall|f: Field, t: Seq<char>, k2: int|
                0 <= k2 < k + 1 implies #[trigger] postings_tf(postings@, f, t, first_doc + k2)
                == count(field_terms(#[trigger] docs@[k2], f), t) by {
                if k2 == k {
                    let i: int = if f == Field::Url {
                        0
                    } else if f == Field::Description {
                        1
                    } else {
                        2
                    };
                    assert(field_at(i) == f);
                }
            }
        }
        k += 1;
    }
    Ok(Segment { first_doc, docs, postings })
}

} // verus!
