use crate::analyzer::{analyze, terms_of};
use crate::search::SearchError;
use vstd::prelude::*;

verus! {

/// The fixed set of fields of a document; each is indexed and stored.
#[derive(Clone, Copy, Debug, PartialEq, Eq, Structural)]
pub enum Field {
    Url,
    Description,
    Tags,
}

/// The name by which a field is known.
pub open spec fn field_name(f: Field) -> Seq<char> {
    match f {
        Field::Url => "url"@,
        Field::Description => "description"@,
        Field::Tags => "tags"@,
    }
}

/// Resolves a field by its name; an unknown name is a schema error.
pub fn field_by_name(name: &str) -> (r: Result<Field, SearchError>)
    ensures
        match r {
            Ok(f) => field_name(f) == name@,
            Err(e) => e == SearchError::SchemaError && forall|f: Field| field_name(f) != name@,
        },
{
    let n = String::from_str(name);
    let url = String::from_str("url");
    let description = String::from_str("description");
    let tags = String::from_str("tags");
    proof {
        reveal_strlit("url");
        reveal_strlit("description");
        reveal_strlit("tags");
    }
    if n == url {
        Ok(Field::Url)
    } else if n == description {
        Ok(Field::Description)
    } else if n == tags {
        Ok(Field::Tags)
    } else {
        proof {
            assert forall|f: Field| field_name(f) != name@ by {
                match f {
                    Field::Url => {},
                    Field::Description => {},
                    Field::Tags => {},
                }
            }
        }
        Err(SearchError::SchemaError)
    }
}

/// The fields in the order in which they are indexed and scored.
pub open spec fn field_at(i: int) -> Field {
    if i == 0 {
        Field::Url
    } else if i == 1 {
        Field::Description
    } else {
        Field::Tags
    }
}

pub fn field_by_index(i: usize) -> (f: Field)
    requires
        i < 3,
    ensures
        f == field_at(i as int),
{
    if i == 0 {
        Field::Url
    } else if i == 1 {
        Field::Description
    } else {
        Field::Tags
    }
}

/// A document as the caller hands it in: a url, a description and any number
/// of tags.
#[derive(Debug)]
pub struct Document {
    pub url: String,
    pub description: String,
    pub tags: Vec<String>,
}

pub open spec fn string_views(v: Seq<String>) -> Seq<Seq<char>> {
    v.map_values(|s: String| s@)
}

/// The terms of several values, one value after the other.
pub open spec fn terms_of_all(vals: Seq<Seq<char>>) -> Seq<Seq<char>>
    decreases vals.len(),
{
    if vals.len() == 0 {
        Seq::empty()
    } else {
        terms_of_all(vals.drop_last()) + terms_of(vals.last())
    }
}

/// The terms that a field of a document contributes to the index.
pub open spec fn field_terms(d: Document, f: Field) -> Seq<Seq<char>> {
    match f {
        Field::Url => terms_of(d.url@),
        Field::Description => terms_of(d.description@),
        Field::Tags => terms_of_all(string_views(d.tags@)),
    }
}

/// How often `t` occurs in `s`.
pub open spec fn count(s: Seq<Seq<char>>, t: Seq<char>) -> nat
    decreases s.len(),
{
    if s.len() == 0 {
        0
    } else {
        count(s.drop_last(), t) + if s.last() == t {
            1nat
        } else {
            0nat
        }
    }
}

/// Two documents hold the same values.
pub open spec fn same_values(a: Document, b: Document) -> bool {
    a.url@ == b.url@ && a.description@ == b.description@ && string_views(a.tags@)
        == string_views(b.tags@)
}

pub fn copy_strings(v: &Vec<String>) -> (r: Vec<String>)
    ensures
        r@ == v@,
{
    let mut r: Vec<String> = Vec::new();
    let mut i: usize = 0;
    while i < v.len()
        invariant
            i <= v.len(),
            r@ == v@.take(i as int),
        decreases v.len() - i,
    {
        r.push(v[i].clone());
        proof {
            assert(v@.take(i + 1) == v@.take(i as int).push(v@[i as int]));
        }
        i += 1;
    }
    proof {
        assert(v@.take(i as int) == v@);
    }
    r
}

impl Document {
    pub open spec fn new_spec(url: String, description: String, tags: Vec<String>) -> Document {
        Document { url, description, tags }
    }

    pub fn new(url: String, description: String, tags: Vec<String>) -> (d: Document)
        ensures
            d == Document::new_spec(url, description, tags),
    {
        Document { url, description, tags }
    }

    /// A copy of the document's values.
    pub fn copy(&self) -> (r: Document)
        ensures
            same_values(r, *self),
    {
        Document {
            url: self.url.clone(),
            description: self.description.clone(),
            tags: copy_strings(&self.tags),
        }
    }
}

/// The terms of several values, one value after the other, from the shared
/// analyzer.
pub fn analyze_all(vals: &Vec<String>) -> (r: Vec<String>)
    ensures
        string_views(r@) == terms_of_all(string_views(vals@)),
{
    let mut r: Vec<String> = Vec::new();
    let mut i: usize = 0;
    while i < vals.len()
        invariant
            i <= vals.len(),
            string_views(r@) == terms_of_all(string_views(vals@.take(i as int))),
        decreases vals.len() - i,
    {
        let ts = analyze(vals[i].as_str());
        let ghost before = r@;
        let mut j: usize = 0;
        while j < ts.len()
            invariant
                j <= ts.len(),
                string_views(ts@) == terms_of(vals@[i as int]@),
                r@ == before + ts@.take(j as int),
            decreases ts.len() - j,
        {
            r.push(ts[j].clone());
            proof {
                assert(ts@.take(j + 1) == ts@.take(j as int).push(ts@[j as int]));
            }
            j += 1;
        }
        proof {
            assert(ts@.take(j as int) == ts@);
            let vs = string_views(vals@.take(i + 1));
            assert(vs.drop_last() == string_views(vals@.take(i as int)));
            assert(vs.last() == vals@[i as int]@);
            assert(string_views(before + ts@) == string_views(before) + string_views(ts@));
        }
        i += 1;
    }
    proof {
        assert(vals@.take(i as int) == vals@);
    }
    r
}

/// The terms of a field of a document.
pub fn terms_of_field(d: &Document, f: Field) -> (r: Vec<String>)
    ensures
        string_views(r@) == field_terms(*d, f),
{
    match f {
        Field::Url => analyze(d.url.as_str()),
        Field::Description => analyze(d.description.as_str()),
        Field::Tags => analyze_all(&d.tags),
    }
}

} // verus!
