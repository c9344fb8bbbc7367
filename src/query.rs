use crate::analyzer::{analyze, terms_of};
use crate::document::string_views;
use crate::search::SearchError;
use vstd::prelude::*;

verus! {

/// Splits a query into its terms with the analyzer that indexing uses; each
/// term is then matched against every field. A query without a term is an
/// error, not a query that matches everything.
pub fn parse_query(text: &str) -> (r: Result<Vec<String>, SearchError>)
    ensures
        match r {
            Ok(terms) => string_views(terms@) == terms_of(text@) && terms.len() > 0,
            Err(e) => e == SearchError::QuerySyntaxError && terms_of(text@).len() == 0,
        },
{
    let terms = analyze(text);
    if terms.len() == 0 {
        Err(SearchError::QuerySyntaxError)
    } else {
        Ok(terms)
    }
}

} // verus!
