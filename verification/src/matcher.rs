//! The fuzzy matcher of the `nucleo_matcher` crate, as far as the engine
//! uses it, and the segmentation of a text into grapheme clusters by the
//! `unicode_segmentation` crate, which the matcher reads a text by. Nothing
//! in this file is proved: each function states what the crate's source
//! shows of the call it makes.
//!
//! The matcher reads a text in two ways that disagree on some characters,
//! and built with debug assertions it stops where they do. That happens
//! only for a word that it matches with case ignored and normalization off
//! against a text with a lower-case character that case folding changes,
//! such as the word `sé` against the text `ſxsé`. The engine keeps such
//! pairs from the matcher; `agree` names the others.

use crate::positions::{char_count, segments_text};
use nucleo_matcher::pattern::{CaseMatching, Normalization, Pattern};
use nucleo_matcher::{Config, Matcher, Utf32String};
use unicode_segmentation::UnicodeSegmentation;
use vstd::prelude::*;

verus! {

/// The longest word of a query, in the matcher's items, that the engine
/// hands to the matcher. The matcher adds up the score of a word in 16
/// bits, at most 34 points for its first item and 25 for each further one:
/// a word of this length reaches 65534 at most, a longer one can overflow.
pub const MAX_WORD_LEN: usize = 2621;

/// The largest number of words of a query that the engine hands to the
/// matcher. The matcher adds up the scores of the words, each below 65536,
/// in 32 bits.
pub const MAX_WORDS: usize = 65536;

/// How a query treats the case of letters.
#[derive(Debug, Clone, Copy, PartialEq, Eq, Structural)]
pub enum CasePolicy {
    /// Letters always match both of their cases.
    Ignore,
    /// Letters match both cases only in a query word without upper case.
    Smart,
}

#[verifier::external_type_specification]
#[verifier::external_body]
pub struct ExPattern(nucleo_matcher::pattern::Pattern);

#[verifier::external_type_specification]
#[verifier::external_body]
pub struct ExMatcher(nucleo_matcher::Matcher);

/// What a pattern holds: its words, each with its kind and its flags,
/// written out as text. Patterns that hold the same have the same shape.
pub uninterp spec fn pattern_shape(pattern: Pattern) -> Seq<char>;

/// What a matcher was made with: whether it scores with the crate's
/// configuration for file paths.
pub uninterp spec fn scores_paths(matcher: Matcher) -> bool;

/// The shape of the pattern that parsing a query gives.
pub uninterp spec fn parsed_shape(query: Seq<char>, smart_case: bool) -> Seq<char>;

/// The number of words that a pattern holds.
pub uninterp spec fn word_count(shape: Seq<char>) -> nat;

/// The length of a word of a pattern, in the matcher's items.
pub uninterp spec fn word_len(shape: Seq<char>, at: int) -> nat;

/// An item of a word of a pattern: a character that the matcher looks for.
pub uninterp spec fn word_char(shape: Seq<char>, at: int, i: int) -> char;

/// The character that the matcher's normalization puts for a character.
pub uninterp spec fn normal_form(c: char) -> char;

/// The character that the matcher's case folding puts for a character.
pub uninterp spec fn folded(c: char) -> char;

/// Whether the matcher's case folding takes a character for upper case.
pub uninterp spec fn folds_as_upper(c: char) -> bool;

/// Whether a character is lower case by the Unicode property.
pub uninterp spec fn is_lower_case(c: char) -> bool;

/// The score of a text under a pattern, or `None` where it does not match.
pub uninterp spec fn shape_score(shape: Seq<char>, text: Seq<char>) -> Option<u32>;

/// The positions in a text that the matcher reports for a pattern, word by
/// word, neither sorted nor free of repetitions. They count characters in
/// an ASCII text and grapheme clusters in any other.
pub uninterp spec fn shape_positions(shape: Seq<char>, text: Seq<char>) -> Seq<u32>;

/// The number of characters of each extended grapheme cluster of a text,
/// in the order of the text.
pub uninterp spec fn cluster_sizes(text: Seq<char>) -> Seq<usize>;

/// Every character of the query is a space.
pub open spec fn only_spaces(query: Seq<char>) -> bool {
    forall|i: int| 0 <= i < query.len() ==> query[i] == ' '
}

/// The query asks for nothing: it leaves no word to match, as every query
/// of spaces alone does, the empty one among them.
pub open spec fn is_blank(query: Seq<char>, smart_case: bool) -> bool {
    only_spaces(query) || word_count(parsed_shape(query, smart_case)) == 0
}

/// The matcher can take the pattern: its words are at most `MAX_WORDS`,
/// and none is longer than `MAX_WORD_LEN`. Beyond that its scores can
/// overflow.
pub open spec fn takes(shape: Seq<char>) -> bool {
    &&& word_count(shape) <= MAX_WORDS
    &&& forall|at: int| 0 <= at < word_count(shape) ==> #[trigger] word_len(shape, at) <= MAX_WORD_LEN
}

/// The word holds a character that normalization changes.
pub open spec fn word_needs_normalizing(shape: Seq<char>, at: int) -> bool {
    exists|i: int|
        0 <= i < word_len(shape, at) && normal_form(#[trigger] word_char(shape, at, i))
            != word_char(shape, at, i)
}

/// The word holds a character that case folding takes for upper case.
pub open spec fn word_has_upper_case(shape: Seq<char>, at: int) -> bool {
    exists|i: int| 0 <= i < word_len(shape, at) && folds_as_upper(#[trigger] word_char(shape, at, i))
}

/// The matcher matches the word with case ignored and normalization off:
/// it holds a character that normalization changes, which turns
/// normalization off, and none that is upper case, as every word under the
/// policy that ignores case and a word without upper case under the smart
/// one.
pub open spec fn word_folds_raw(shape: Seq<char>, at: int) -> bool {
    word_needs_normalizing(shape, at) && !word_has_upper_case(shape, at)
}

/// The pattern holds a word that is matched with case ignored and
/// normalization off.
pub open spec fn folds_raw(shape: Seq<char>) -> bool {
    exists|at: int| 0 <= at < word_count(shape) && #[trigger] word_folds_raw(shape, at)
}

/// The character is lower case and not ASCII, and case folding changes it
/// all the same, as the long s does.
pub open spec fn is_folding_lower_case(c: char) -> bool {
    c as u32 > 0x7f && is_lower_case(c) && folded(c) != c
}

/// The text holds a lower-case character that case folding changes.
pub open spec fn has_folding_lower_case(text: Seq<char>) -> bool {
    exists|i: int| 0 <= i < text.len() && is_folding_lower_case(#[trigger] text[i])
}

/// The matcher's two ways of reading the text agree for the pattern: no
/// word is matched with case ignored and normalization off, or the text
/// holds no lower-case character that case folding changes.
pub open spec fn agree(shape: Seq<char>, text: Seq<char>) -> bool {
    !(folds_raw(shape) && has_folding_lower_case(text))
}

/// The score of a text under a pattern. A text of more than `u32::MAX`
/// characters is never handed to the matcher and does not match, nor is a
/// text on which the matcher's two ways of reading do not agree.
pub open spec fn entry_score(shape: Seq<char>, text: Seq<char>) -> Option<u32> {
    if text.len() <= u32::MAX && agree(shape, text) {
        shape_score(shape, text)
    } else {
        None
    }
}

/// `Matcher::new` on `Config::DEFAULT.match_paths()`: a matcher with the
/// delimiters and bonuses for file paths of the platform it is built for.
#[verifier::external_body]
pub(crate) fn path_matcher() -> (matcher: Matcher)
    ensures
        scores_paths(matcher),
{
    Matcher::new(Config::DEFAULT.match_paths())
}

/// `Pattern::parse` with smart normalization. What the pattern holds
/// depends on the query and the case policy alone. Parsing splits the
/// query at unescaped spaces and drops the words without a needle, so a
/// query of spaces alone leaves none.
#[verifier::external_body]
pub(crate) fn parse_pattern(query: &str, policy: CasePolicy) -> (pattern: Pattern)
    ensures
        pattern_shape(pattern) == parsed_shape(query@, policy == CasePolicy::Smart),
        only_spaces(query@) ==> word_count(pattern_shape(pattern)) == 0,
{
    let case = match policy {
        CasePolicy::Ignore => CaseMatching::Ignore,
        CasePolicy::Smart => CaseMatching::Smart,
    };
    Pattern::parse(query, case, Normalization::Smart)
}

/// `Pattern::reparse` with smart normalization: afterwards the pattern
/// holds what one parsed afresh from the query holds.
#[verifier::external_body]
pub(crate) fn reparse_pattern(pattern: &mut Pattern, query: &str, policy: CasePolicy)
    ensures
        pattern_shape(*final(pattern)) == parsed_shape(query@, policy == CasePolicy::Smart),
        only_spaces(query@) ==> word_count(pattern_shape(*final(pattern))) == 0,
{
    let case = match policy {
        CasePolicy::Ignore => CaseMatching::Ignore,
        CasePolicy::Smart => CaseMatching::Smart,
    };
    pattern.reparse(query, case, Normalization::Smart)
}

/// The length of the public field `atoms` of a `Pattern`, its words.
#[verifier::external_body]
pub(crate) fn pattern_words(pattern: &Pattern) -> (count: usize)
    ensures
        count == word_count(pattern_shape(*pattern)),
{
    pattern.atoms.len()
}

/// `Atom::needle_text` of one word of a `Pattern`, and its length: the
/// number of items that the matcher looks for.
#[verifier::external_body]
pub(crate) fn word_length(pattern: &Pattern, at: usize) -> (len: usize)
    requires
        at < word_count(pattern_shape(*pattern)),
    ensures
        len == word_len(pattern_shape(*pattern), at as int),
{
    pattern.atoms[at].needle_text().len()
}

/// `Atom::needle_text` of one word of a `Pattern`, and `Utf32Str::get` of
/// one of its items.
#[verifier::external_body]
pub(crate) fn word_item(pattern: &Pattern, at: usize, i: usize) -> (c: char)
    requires
        at < word_count(pattern_shape(*pattern)),
        i < word_len(pattern_shape(*pattern), at as int),
        i <= u32::MAX,
    ensures
        c == word_char(pattern_shape(*pattern), at as int, i as int),
{
    pattern.atoms[at].needle_text().get(i as u32)
}

/// `nucleo_matcher::chars::normalize`: a table of the crate.
#[verifier::external_body]
pub(crate) fn normalize_char(c: char) -> (normal: char)
    ensures
        normal == normal_form(c),
{
    nucleo_matcher::chars::normalize(c)
}

/// `nucleo_matcher::chars::to_lower_case`: a table of the crate.
#[verifier::external_body]
pub(crate) fn fold_char(c: char) -> (lower: char)
    ensures
        lower == folded(c),
{
    nucleo_matcher::chars::to_lower_case(c)
}

/// `nucleo_matcher::chars::is_upper_case`: whether the table of
/// `to_lower_case` holds the character.
#[verifier::external_body]
pub(crate) fn char_folds_as_upper(c: char) -> (upper: bool)
    ensures
        upper == folds_as_upper(c),
{
    nucleo_matcher::chars::is_upper_case(c)
}

/// `char::is_lowercase` of std.
#[verifier::external_body]
pub(crate) fn char_is_lower_case(c: char) -> (lower: bool)
    ensures
        lower == is_lower_case(c),
{
    c.is_lowercase()
}

/// `Pattern::score` on the text as `Utf32String::from` presents it: by
/// its characters where it is ASCII, else by the first character of each
/// of its grapheme clusters. The result depends on what the pattern holds,
/// on the text and on the matcher's path configuration alone; the call
/// changes none of what makes that configuration.
///
/// The crate panics on a text of more than `u32::MAX` items, its scores
/// can overflow on a pattern that `takes` rules out, and with debug
/// assertions it stops on a pair that `agree` rules out. A word is matched
/// with case ignored and normalization off exactly where `word_folds_raw`
/// says so: parsing turns normalization off for a word with a character
/// that normalization changes, and it leaves no upper case in a word that
/// it matches with case ignored, since no folded character is folded
/// again.
#[verifier::external_body]
pub(crate) fn score_text(pattern: &Pattern, text: &str, matcher: &mut Matcher) -> (score: Option<
    u32,
>)
    requires
        scores_paths(*old(matcher)),
        takes(pattern_shape(*pattern)),
        text@.len() <= u32::MAX,
        agree(pattern_shape(*pattern), text@),
    ensures
        scores_paths(*final(matcher)),
        score == shape_score(pattern_shape(*pattern), text@),
{
    let haystack = Utf32String::from(text);
    pattern.score(haystack.slice(..), matcher)
}

/// `Pattern::indices` on the text as `Utf32String::from` presents it: the
/// positions are appended to `positions`, which is not cleared, and the
/// score that the call returns is dropped. A position counts the items of
/// that presentation: characters in an ASCII text, grapheme clusters in
/// any other. Nothing is claimed of their order or their size. The call
/// returns under the conditions of `score_text`.
#[verifier::external_body]
pub(crate) fn append_positions(
    pattern: &Pattern,
    text: &str,
    matcher: &mut Matcher,
    positions: &mut Vec<u32>,
)
    requires
        scores_paths(*old(matcher)),
        takes(pattern_shape(*pattern)),
        text@.len() <= u32::MAX,
        agree(pattern_shape(*pattern), text@),
    ensures
        scores_paths(*final(matcher)),
        final(positions)@ == old(positions)@ + shape_positions(pattern_shape(*pattern), text@),
{
    let haystack = Utf32String::from(text);
    let _ = pattern.indices(haystack.slice(..), matcher, positions);
}

/// `UnicodeSegmentation::graphemes` for extended clusters, which is how the
/// matcher divides a text that is not ASCII: the number of characters of
/// each cluster. The clusters are not empty and follow each other through
/// the whole text.
#[verifier::external_body]
pub(crate) fn cluster_lengths(text: &str) -> (sizes: Vec<usize>)
    ensures
        sizes@ == cluster_sizes(text@),
        segments_text(sizes@, text@.len()),
{
    text.graphemes(true).map(|cluster| char_count(cluster)).collect()
}

} // verus!
