use tantivy::tokenizer::TokenStream;
use vstd::prelude::*;

verus! {

/// The terms that tantivy's `default` text analyzer produces for a text.
pub uninterp spec fn terms_of(text: Seq<char>) -> Seq<Seq<char>>;

/// Relies on tantivy's `default` analyzer (`TokenizerManager::default`): it
/// splits on non-alphanumeric characters, drops tokens of 40 bytes or more and
/// lower-cases; the terms depend on the text alone, and an empty text has none.
#[verifier::external_body]
pub(crate) fn analyze(text: &str) -> (r: Vec<String>)
    ensures
        r@.map_values(|t: String| t@) == terms_of(text@),
        text@.len() == 0 ==> r@.len() == 0,
{
    let mut analyzer = tantivy::tokenizer::TokenizerManager::default()
        .get("default")
        .unwrap_or_default();
    let mut stream = analyzer.token_stream(text);
    let mut out = Vec::new();
    while stream.advance() {
        out.push(stream.token().text.clone());
    }
    out
}

} // verus!
