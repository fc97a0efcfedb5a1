//! Morphological analysis of Japanese text with Lindera and the IPADIC
//! dictionary: the surfaces of the tokens that full-text search indexes.
use vstd::prelude::*;

verus! {

#[verifier::external_type_specification]
#[verifier::external_body]
pub struct ExLinderaError(lindera::error::LinderaError);

/// The surfaces of the tokens into which Lindera's normal mode, with the
/// embedded IPADIC dictionary, segments a text; none when Lindera fails.
pub uninterp spec fn ipadic_segmentation(text: Seq<char>) -> Option<Seq<Seq<char>>>;

/// Lindera's `load_dictionary("embedded://ipadic")`, `Segmenter::new` in
/// normal mode without a user dictionary, and `Segmenter::segment`: the
/// surfaces of the tokens, in their order. The embedded dictionary exists
/// only where lindera was built with its `embed-ipadic` feature; in a build
/// without it, loading fails and so does every call. The contract claims
/// only that, in a given build, the outcome is a function of the text; it
/// says nothing of how the text is cut.
#[verifier::external_body]
fn segment_ipadic(text: &str) -> (r: Result<Vec<String>, lindera::error::LinderaError>)
    ensures
        match r {
            Ok(v) => ipadic_segmentation(text@) == Some(v.deep_view()),
            Err(_) => ipadic_segmentation(text@) is None,
        },
{
    let dictionary = lindera::dictionary::load_dictionary("embedded://ipadic")?;
    let segmenter = lindera::segmenter::Segmenter::new(
        lindera::mode::Mode::Normal,
        dictionary,
        None,
    );
    let tokens = segmenter.segment(std::borrow::Cow::Borrowed(text))?;
    Ok(tokens.iter().map(|t| t.surface.to_string()).collect())
}

/// `LinderaError`'s `Display`: the message of a Lindera error. Nothing is
/// claimed of the text.
#[verifier::external_body]
fn lindera_message(e: &lindera::error::LinderaError) -> String {
    e.to_string()
}

/// Why morphological analysis failed.
#[derive(Debug, Clone)]
pub struct MorphologyError {
    pub message: String,
}

/// The surfaces of the tokens of `text`, as Lindera segments it with the
/// IPADIC dictionary.
pub fn morphology(text: &str) -> (r: Result<Vec<String>, MorphologyError>)
    ensures
        match r {
            Ok(v) => ipadic_segmentation(text@) == Some(v.deep_view()),
            Err(_) => ipadic_segmentation(text@) is None,
        },
{
    match segment_ipadic(text) {
        Ok(v) => Ok(v),
        Err(e) => Err(MorphologyError { message: lindera_message(&e) }),
    }
}

} // verus!
