//! Words given as text: a text is taken apart into its grapheme clusters,
//! which are then the tokens of a word.

use vstd::prelude::*;
use crate::alphabet::word_of;
use crate::dfa::Dfa;
use crate::nfa::Nfa;

verus! {

/// The extended grapheme clusters of a text, in the order in which they
/// stand in it, as the rules of Unicode for the boundaries of grapheme
/// clusters give them.
pub uninterp spec fn extended_graphemes(text: Seq<char>) -> Seq<Seq<char>>;

/// `UnicodeSegmentation::graphemes` of the crate `unicode-segmentation`,
/// asked for extended clusters: the slices of the text that lie between
/// one boundary of a grapheme cluster and the next, from the beginning of
/// the text to its end. Nothing is proved of it; what it returns is what
/// this library calls the extended grapheme clusters of the text.
#[verifier::external_body]
fn grapheme_clusters<'a>(text: &'a str) -> (clusters: Vec<&'a str>)
    ensures
        word_of(clusters@) == extended_graphemes(text@),
{
    unicode_segmentation::UnicodeSegmentation::graphemes(text, true).collect()
}

impl Dfa {
    /// Whether the automaton accepts the word whose tokens are the
    /// extended grapheme clusters of the text. A cluster outside the
    /// alphabet rejects the word.
    pub fn accepts_graphemes(&self, text: &str) -> (accepted: bool)
        ensures
            accepted == self@.accepts(extended_graphemes(text@)),
    {
        let clusters = grapheme_clusters(text);
        self.accepts(clusters.as_slice())
    }
}

impl Nfa {
    /// Whether the automaton accepts the word whose tokens are the
    /// extended grapheme clusters of the text. A cluster outside the
    /// alphabet rejects the word.
    pub fn accepts_graphemes(&self, text: &str) -> (accepted: bool)
        ensures
            accepted == self@.accepts(extended_graphemes(text@)),
    {
        let clusters = grapheme_clusters(text);
        self.accepts(clusters.as_slice())
    }
}

} // verus!
