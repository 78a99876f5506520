//! The engine: it owns the index and the matcher, and answers a query with
//! the best matches, each with its matched positions.

use crate::highlight::{strictly_ascending, within};
use crate::index::{without, SearchIndex};
use crate::matcher::{
    append_positions, char_folds_as_upper, char_is_lower_case, cluster_lengths, cluster_sizes,
    entry_score, fold_char, folds_as_upper, folds_raw, has_folding_lower_case, is_blank,
    is_folding_lower_case, normal_form, normalize_char, parse_pattern, parsed_shape,
    path_matcher, pattern_shape, pattern_words, reparse_pattern, score_text, scores_paths,
    shape_positions, takes, word_char, word_count, word_folds_raw, word_item, word_len,
    word_length, CasePolicy, MAX_WORDS, MAX_WORD_LEN,
};
use crate::positions::{
    lemma_matched_positions, lemma_spread, matched_positions, segments_text, sorted_positions,
    spread, spread_positions,
};
use crate::ranking::{
    ascending_positions, descending, first, keep_best, lemma_first_of_insert_ranked, lemma_ranked,
    lemma_ranked_is_stable, ranked, well_ranked, Candidate,
};
use nucleo_matcher::pattern::Pattern;
use nucleo_matcher::Matcher;
use vstd::prelude::*;

verus! {

/// The largest number of results that a search returns.
pub const MAX_RESULTS: usize = 50;

/// One result of a search.
#[derive(Debug, Clone, PartialEq)]
pub struct MatchResult {
    /// The position of the text in the index at the time of the search.
    pub identity: usize,
    pub text: String,
    pub score: u32,
    /// The positions of the matched characters, ascending and each once.
    /// Where the matcher takes several characters for one, as a letter
    /// with a combining mark, all of them are matched or none.
    pub matched_indices: Vec<u32>,
}

/// A result of a search as a value of specifications.
pub struct MatchView {
    pub identity: usize,
    pub text: Seq<char>,
    pub score: u32,
    pub matched_indices: Seq<u32>,
}

impl View for MatchResult {
    type V = MatchView;

    open spec fn view(&self) -> MatchView {
        MatchView {
            identity: self.identity,
            text: self.text@,
            score: self.score,
            matched_indices: self.matched_indices@,
        }
    }
}

impl DeepView for MatchResult {
    type V = MatchView;

    open spec fn deep_view(&self) -> MatchView {
        self@
    }
}

/// The texts that match a pattern, in the order of the index, each with
/// its position and score.
pub open spec fn scored(texts: Seq<Seq<char>>, shape: Seq<char>) -> Seq<Candidate>
    decreases texts.len(),
{
    if texts.len() == 0 {
        Seq::empty()
    } else {
        let before = scored(texts.drop_last(), shape);
        match entry_score(shape, texts.last()) {
            Some(score) => before.push(
                Candidate { position: (texts.len() - 1) as usize, score },
            ),
            None => before,
        }
    }
}

/// Every position below `count` in turn, with the score 0.
pub open spec fn listed(count: nat) -> Seq<Candidate> {
    Seq::new(count, |i: int| Candidate { position: i as usize, score: 0 })
}

/// The candidates that a search returns: for a blank query the first texts
/// of the index, for any other the best of the texts that match.
pub open spec fn best_candidates(texts: Seq<Seq<char>>, shape: Seq<char>, blank: bool) -> Seq<
    Candidate,
> {
    if blank {
        first(listed(texts.len()), MAX_RESULTS as nat)
    } else {
        first(ranked(scored(texts, shape)), MAX_RESULTS as nat)
    }
}

/// The clusters of the text divide it, and it is short enough for the
/// matcher.
pub open spec fn is_segmented(text: Seq<char>) -> bool {
    text.len() <= u32::MAX && segments_text(cluster_sizes(text), text.len())
}

/// The positions of the matched characters of a text: none for a blank
/// query. In an ASCII text they are what the matcher reports, in order,
/// each once, inside the text. In any other text the matcher reports
/// grapheme clusters, and the positions are those of the characters of the
/// reported clusters.
pub open spec fn matched_in(shape: Seq<char>, blank: bool, text: Seq<char>) -> Seq<u32> {
    if blank {
        Seq::empty()
    } else if vstd::utf8::is_ascii_chars(text) {
        matched_positions(shape_positions(shape, text), text.len())
    } else if is_segmented(text) {
        spread(
            matched_positions(shape_positions(shape, text), cluster_sizes(text).len()),
            cluster_sizes(text),
        )
    } else {
        Seq::empty()
    }
}

/// The result that stands for a candidate.
pub open spec fn result_of(
    texts: Seq<Seq<char>>,
    shape: Seq<char>,
    blank: bool,
    candidate: Candidate,
) -> MatchView {
    let text = texts[candidate.position as int];
    MatchView {
        identity: candidate.position,
        text,
        score: candidate.score,
        matched_indices: matched_in(shape, blank, text),
    }
}

/// What a search of `texts` returns for a pattern of the given shape,
/// parsed from a query that is blank or not.
pub open spec fn results_under(texts: Seq<Seq<char>>, shape: Seq<char>, blank: bool) -> Seq<
    MatchView,
> {
    let best = best_candidates(texts, shape, blank);
    Seq::new(best.len(), |i: int| result_of(texts, shape, blank, best[i]))
}

/// The engine searches for the query: it is blank, or the matcher can take
/// the pattern that it parses to.
pub open spec fn is_taken(query: Seq<char>, smart_case: bool) -> bool {
    is_blank(query, smart_case) || takes(parsed_shape(query, smart_case))
}

/// What a search of `texts` for `query` returns: nothing for a query that
/// is not searched for.
pub open spec fn search_results(texts: Seq<Seq<char>>, query: Seq<char>, smart_case: bool) -> Seq<
    MatchView,
> {
    if is_taken(query, smart_case) {
        results_under(texts, parsed_shape(query, smart_case), is_blank(query, smart_case))
    } else {
        Seq::empty()
    }
}

/// The score of a text under a query, or `None` where it does not match.
pub open spec fn query_score(query: Seq<char>, smart_case: bool, text: Seq<char>) -> Option<u32> {
    entry_score(parsed_shape(query, smart_case), text)
}

/// The candidates of a pattern come in the order of the index, each stands
/// for a text that matches with that score, and no text that matches is
/// left out.
pub proof fn lemma_scored(texts: Seq<Seq<char>>, shape: Seq<char>)
    requires
        texts.len() <= usize::MAX,
    ensures
        ascending_positions(scored(texts, shape)),
        scored(texts, shape).len() <= texts.len(),
        forall|i: int|
            0 <= i < scored(texts, shape).len() ==> {
                let candidate = #[trigger] scored(texts, shape)[i];
                &&& candidate.position < texts.len()
                &&& entry_score(shape, texts[candidate.position as int]) == Some(candidate.score)
            },
        forall|p: int|
            0 <= p < texts.len() && entry_score(shape, #[trigger] texts[p]) is Some ==> scored(
                texts,
                shape,
            ).contains(Candidate { position: p as usize, score: entry_score(shape, texts[p])->0 }),
    decreases texts.len(),
{
    let all = scored(texts, shape);
    if texts.len() > 0 {
        let front = texts.drop_last();
        let before = scored(front, shape);
        let last = (texts.len() - 1) as int;
        lemma_scored(front, shape);
        assert(texts.last() == texts[last]);
        assert forall|i: int| 0 <= i < before.len() implies (#[trigger] before[i]).position < last
            && texts[before[i].position as int] == front[before[i].position as int] by {}
        assert forall|i: int| 0 <= i < all.len() implies {
            let candidate = #[trigger] all[i];
            &&& candidate.position < texts.len()
            &&& entry_score(shape, texts[candidate.position as int]) == Some(candidate.score)
        } by {
            if i < before.len() {
                assert(all[i] == before[i]);
            }
        }
        assert forall|i: int, j: int| 0 <= i < j < all.len() implies (#[trigger] all[i]).position
            < (#[trigger] all[j]).position by {
            assert(all[i] == before[i]);
            if j < before.len() {
                assert(all[j] == before[j]);
            }
        }
        assert forall|p: int|
            0 <= p < texts.len() && entry_score(
                shape,
                #[trigger] texts[p],
            ) is Some implies all.contains(
            Candidate { position: p as usize, score: entry_score(shape, texts[p])->0 },
        ) by {
            let wanted = Candidate { position: p as usize, score: entry_score(shape, texts[p])->0 };
            if p < last {
                assert(front[p] == texts[p]);
                assert(before.contains(wanted));
                let k = choose|k: int| 0 <= k < before.len() && before[k] == wanted;
                assert(all[k] == wanted);
            } else {
                assert(all[all.len() - 1] == wanted);
            }
        }
    }
}

/// What holds of the candidates that a search returns: they are at most
/// `MAX_RESULTS`, each stands for a text of the index, and for a query that
/// is not blank each text matches with its score and the candidates are
/// ranked, the better first and among equals the earlier in the index.
pub proof fn lemma_best_candidates(texts: Seq<Seq<char>>, shape: Seq<char>, blank: bool)
    requires
        texts.len() <= usize::MAX,
    ensures
        best_candidates(texts, shape, blank).len() <= MAX_RESULTS,
        best_candidates(texts, shape, blank).len() <= texts.len(),
        forall|i: int|
            0 <= i < best_candidates(texts, shape, blank).len() ==> (#[trigger] best_candidates(
                texts,
                shape,
                blank,
            )[i]).position < texts.len(),
        !blank ==> well_ranked(best_candidates(texts, shape, blank)),
        !blank ==> forall|i: int|
            0 <= i < best_candidates(texts, shape, blank).len() ==> {
                let candidate = #[trigger] best_candidates(texts, shape, blank)[i];
                entry_score(shape, texts[candidate.position as int]) == Some(candidate.score)
            },
{
    let best = best_candidates(texts, shape, blank);
    if !blank {
        let matching = scored(texts, shape);
        let all = ranked(matching);
        lemma_scored(texts, shape);
        lemma_ranked(matching);
        lemma_ranked_is_stable(matching);
        assert forall|i: int| 0 <= i < best.len() implies {
            let candidate = #[trigger] best[i];
            &&& candidate.position < texts.len()
            &&& entry_score(shape, texts[candidate.position as int]) == Some(candidate.score)
        } by {
            assert(best[i] == all[i]);
            assert(matching.contains(all[i]));
            let k = choose|k: int| 0 <= k < matching.len() && matching[k] == all[i];
            assert(matching[k].position < texts.len());
        }
        assert forall|i: int, j: int| 0 <= i < j < best.len() implies {
            let a = #[trigger] best[i];
            let b = #[trigger] best[j];
            a.score > b.score || (a.score == b.score && a.position < b.position)
        } by {
            assert(best[i] == all[i] && best[j] == all[j]);
        }
    }
}

/// A search returns at most `MAX_RESULTS` results.
pub proof fn lemma_results_are_capped(texts: Seq<Seq<char>>, query: Seq<char>, smart_case: bool)
    requires
        texts.len() <= usize::MAX,
    ensures
        search_results(texts, query, smart_case).len() <= MAX_RESULTS,
{
    lemma_best_candidates(
        texts,
        parsed_shape(query, smart_case),
        is_blank(query, smart_case),
    );
}

/// A blank query, the empty one among them, returns the first texts of the
/// index in their order, each with the score 0 and without matched
/// positions: all of them where the index holds at most `MAX_RESULTS`.
pub proof fn lemma_blank_query_lists_index(
    texts: Seq<Seq<char>>,
    query: Seq<char>,
    smart_case: bool,
)
    requires
        texts.len() <= usize::MAX,
        is_blank(query, smart_case),
    ensures
        search_results(texts, query, smart_case).len() == if texts.len() <= MAX_RESULTS {
            texts.len()
        } else {
            MAX_RESULTS as nat
        },
        forall|i: int|
            0 <= i < search_results(texts, query, smart_case).len() ==> #[trigger] search_results(
                texts,
                query,
                smart_case,
            )[i] == (MatchView {
                identity: i as usize,
                text: texts[i],
                score: 0,
                matched_indices: Seq::empty(),
            }),
{
}

/// The matched positions of every result are ascending, each once, and lie
/// inside the result's text.
pub proof fn lemma_matched_indices_fit(texts: Seq<Seq<char>>, query: Seq<char>, smart_case: bool)
    requires
        texts.len() <= usize::MAX,
    ensures
        forall|i: int|
            0 <= i < search_results(texts, query, smart_case).len() ==> {
                let result = #[trigger] search_results(texts, query, smart_case)[i];
                &&& strictly_ascending(result.matched_indices)
                &&& within(result.matched_indices, result.text.len())
            },
{
    let shape = parsed_shape(query, smart_case);
    let results = search_results(texts, query, smart_case);
    assert forall|i: int| 0 <= i < results.len() implies {
        let result = #[trigger] results[i];
        &&& strictly_ascending(result.matched_indices)
        &&& within(result.matched_indices, result.text.len())
    } by {
        let result = results[i];
        if !is_blank(query, smart_case) {
            let text = result.text;
            let sizes = cluster_sizes(text);
            lemma_matched_positions(shape_positions(shape, text), text.len());
            if !vstd::utf8::is_ascii_chars(text) && is_segmented(text) {
                lemma_matched_positions(shape_positions(shape, text), sizes.len());
                lemma_spread(matched_positions(shape_positions(shape, text), sizes.len()), sizes);
            }
        }
    }
}

/// The results are ranked: of two results the earlier scores better, or
/// they score the same and the earlier stands earlier in the index. Each
/// result names a text of the index, and for a query that is not blank
/// that text matches the query with the result's score.
pub proof fn lemma_results_are_ranked(texts: Seq<Seq<char>>, query: Seq<char>, smart_case: bool)
    requires
        texts.len() <= usize::MAX,
    ensures
        forall|i: int, j: int|
            0 <= i < j < search_results(texts, query, smart_case).len() ==> {
                let a = #[trigger] search_results(texts, query, smart_case)[i];
                let b = #[trigger] search_results(texts, query, smart_case)[j];
                a.score > b.score || (a.score == b.score && a.identity < b.identity)
            },
        forall|i: int|
            0 <= i < search_results(texts, query, smart_case).len() ==> {
                let result = #[trigger] search_results(texts, query, smart_case)[i];
                &&& result.identity < texts.len()
                &&& result.text == texts[result.identity as int]
                &&& !is_blank(query, smart_case) ==> query_score(query, smart_case, result.text)
                    == Some(result.score)
            },
{
    let shape = parsed_shape(query, smart_case);
    let blank = is_blank(query, smart_case);
    lemma_best_candidates(texts, shape, blank);
    let best = best_candidates(texts, shape, blank);
    let results = search_results(texts, query, smart_case);
    assert forall|i: int, j: int| 0 <= i < j < results.len() implies {
        let a = #[trigger] results[i];
        let b = #[trigger] results[j];
        a.score > b.score || (a.score == b.score && a.identity < b.identity)
    } by {
        assert(results[i].identity == best[i].position && results[j].identity == best[j].position);
        if !blank {
            let a = best[i];
            let b = best[j];
            assert(a.score > b.score || (a.score == b.score && a.position < b.position));
        }
    }
    assert forall|i: int| 0 <= i < results.len() implies {
        let result = #[trigger] results[i];
        &&& result.identity < texts.len()
        &&& result.text == texts[result.identity as int]
        &&& !blank ==> query_score(query, smart_case, result.text) == Some(result.score)
    } by {
        assert(results[i].identity == best[i].position);
        assert(best[i].position < texts.len());
    }
}

/// The results are the best: a text of the index that matches a query
/// which is searched for, and is not among the results, ranks behind every
/// result, and then the results are as many as `MAX_RESULTS`.
pub proof fn lemma_results_are_the_best(
    texts: Seq<Seq<char>>,
    query: Seq<char>,
    smart_case: bool,
    position: int,
)
    requires
        texts.len() <= usize::MAX,
        !is_blank(query, smart_case),
        takes(parsed_shape(query, smart_case)),
        0 <= position < texts.len(),
        query_score(query, smart_case, texts[position]) is Some,
    ensures
        ({
            let results = search_results(texts, query, smart_case);
            let score = query_score(query, smart_case, texts[position])->0;
            ||| exists|i: int|
                0 <= i < results.len() && (#[trigger] results[i]).identity == position
                    && results[i].score == score
            ||| results.len() == MAX_RESULTS && forall|i: int|
                0 <= i < results.len() ==> {
                    let result = #[trigger] results[i];
                    result.score > score || (result.score == score && result.identity < position)
                }
        }),
{
    let shape = parsed_shape(query, smart_case);
    let matching = scored(texts, shape);
    let all = ranked(matching);
    let best = best_candidates(texts, shape, false);
    let results = search_results(texts, query, smart_case);
    let score = query_score(query, smart_case, texts[position])->0;
    let wanted = Candidate { position: position as usize, score };
    lemma_scored(texts, shape);
    lemma_ranked(matching);
    lemma_ranked_is_stable(matching);
    assert(matching.contains(wanted));
    let k = choose|k: int| 0 <= k < matching.len() && matching[k] == wanted;
    assert(all.contains(matching[k]));
    let m = choose|m: int| 0 <= m < all.len() && all[m] == wanted;
    if m < best.len() {
        assert(best[m] == all[m]);
        assert(results[m].identity == position && results[m].score == score);
    } else {
        assert forall|i: int| 0 <= i < results.len() implies {
            let result = #[trigger] results[i];
            result.score > score || (result.score == score && result.identity < position)
        } by {
            assert(best[i] == all[i]);
            let a = all[i];
            let b = all[m];
            assert(a.score > b.score || (a.score == b.score && a.position < b.position));
        }
    }
}

/// Searching again finds the same: the results depend on the texts, the
/// query and the case policy alone, so two engines that hold the same texts
/// under the same policy answer a query alike.
pub proof fn lemma_search_is_repeatable(first_engine: Search, second_engine: Search, query: Seq<char>)
    requires
        first_engine@ == second_engine@,
        first_engine.case_policy() == second_engine.case_policy(),
    ensures
        first_engine.results_for(query) == second_engine.results_for(query),
{
}

proof fn lemma_encoding_is_no_shorter(chars: Seq<char>)
    ensures
        vstd::utf8::encode_utf8(chars).len() >= chars.len(),
    decreases chars.len(),
{
    if chars.len() > 0 {
        lemma_encoding_is_no_shorter(chars.drop_first());
        assert(vstd::utf8::encode_scalar(chars[0] as u32).len() >= 1);
    }
}

/// Whether the matcher can take the text: it has at most `u32::MAX`
/// characters.
fn fits_matcher(text: &str) -> (fits: bool)
    ensures
        fits == (text@.len() <= u32::MAX),
{
    proof {
        lemma_encoding_is_no_shorter(text@);
    }
    if text.as_bytes().len() <= 0xFFFF_FFFF {
        true
    } else {
        text.unicode_len() <= 0xFFFF_FFFF
    }
}

/// Whether the matcher can take the pattern: it has at most `MAX_WORDS`
/// words and none of more than `MAX_WORD_LEN` items.
fn pattern_fits(pattern: &Pattern) -> (fits: bool)
    ensures
        fits == takes(pattern_shape(*pattern)),
{
    let ghost shape = pattern_shape(*pattern);
    let count: usize = pattern_words(pattern);
    if count > MAX_WORDS {
        return false;
    }
    let mut at: usize = 0;
    while at < count
        invariant
            at <= count,
            shape == pattern_shape(*pattern),
            count == word_count(shape),
            count <= MAX_WORDS,
            forall|i: int| 0 <= i < at ==> #[trigger] word_len(shape, i) <= MAX_WORD_LEN,
        decreases count - at,
    {
        if word_length(pattern, at) > MAX_WORD_LEN {
            assert(word_len(shape, at as int) > MAX_WORD_LEN);
            return false;
        }
        at += 1;
    }
    true
}

/// Whether the matcher matches the word with case ignored and
/// normalization off.
fn word_is_folded_raw(pattern: &Pattern, at: usize) -> (raw: bool)
    requires
        at < word_count(pattern_shape(*pattern)),
        word_len(pattern_shape(*pattern), at as int) <= MAX_WORD_LEN,
    ensures
        raw == word_folds_raw(pattern_shape(*pattern), at as int),
{
    let ghost shape = pattern_shape(*pattern);
    let len: usize = word_length(pattern, at);
    let mut needs: bool = false;
    let mut upper: bool = false;
    let mut i: usize = 0;
    while i < len
        invariant
            i <= len,
            shape == pattern_shape(*pattern),
            at < word_count(shape),
            len == word_len(shape, at as int),
            len <= MAX_WORD_LEN,
            needs == (exists|k: int|
                0 <= k < i && normal_form(#[trigger] word_char(shape, at as int, k)) != word_char(
                    shape,
                    at as int,
                    k,
                )),
            upper == (exists|k: int|
                0 <= k < i && folds_as_upper(#[trigger] word_char(shape, at as int, k))),
        decreases len - i,
    {
        let c: char = word_item(pattern, at, i);
        if normalize_char(c) != c {
            needs = true;
        }
        if char_folds_as_upper(c) {
            upper = true;
        }
        i += 1;
    }
    needs && !upper
}

/// Whether the pattern holds a word that the matcher matches with case
/// ignored and normalization off.
fn pattern_folds_raw(pattern: &Pattern) -> (raw: bool)
    requires
        takes(pattern_shape(*pattern)),
    ensures
        raw == folds_raw(pattern_shape(*pattern)),
{
    let ghost shape = pattern_shape(*pattern);
    let count: usize = pattern_words(pattern);
    let mut at: usize = 0;
    while at < count
        invariant
            at <= count,
            shape == pattern_shape(*pattern),
            takes(shape),
            count == word_count(shape),
            forall|k: int| 0 <= k < at ==> !#[trigger] word_folds_raw(shape, k),
        decreases count - at,
    {
        if word_is_folded_raw(pattern, at) {
            assert(word_folds_raw(shape, at as int));
            return true;
        }
        at += 1;
    }
    false
}

/// Whether the text holds a lower-case character that case folding
/// changes.
fn text_has_folding_lower_case(text: &str) -> (found: bool)
    ensures
        found == has_folding_lower_case(text@),
{
    if text.is_ascii() {
        assert forall|k: int| 0 <= k < text@.len() implies !is_folding_lower_case(
            #[trigger] text@[k],
        ) by {
            assert('\0' <= text@[k] <= '\u{7f}');
        }
        return false;
    }
    let mut found: bool = false;
    for c in it: text.chars()
        invariant
            it.seq() == text@,
            found == (exists|k: int|
                0 <= k < it.index() && is_folding_lower_case(#[trigger] text@[k])),
    {
        if c as u32 > 0x7f && char_is_lower_case(c) && fold_char(c) != c {
            found = true;
        }
    }
    found
}

/// The first pass: scores every text, and keeps the best in ranked order.
fn best_matches(texts: &Vec<String>, pattern: &Pattern, matcher: &mut Matcher) -> (best: Vec<
    Candidate,
>)
    requires
        scores_paths(*old(matcher)),
        takes(pattern_shape(*pattern)),
    ensures
        scores_paths(*final(matcher)),
        best@ == best_candidates(
            texts.deep_view(),
            pattern_shape(*pattern),
            word_count(pattern_shape(*pattern)) == 0,
        ),
{
    let ghost all = texts.deep_view();
    let ghost shape = pattern_shape(*pattern);
    let mut best: Vec<Candidate> = Vec::new();
    let mut at: usize = 0;
    let raw: bool = pattern_folds_raw(pattern);
    if pattern_words(pattern) == 0 {
        while at < texts.len() && at < MAX_RESULTS
            invariant
                at <= texts.len(),
                at <= MAX_RESULTS,
                all == texts.deep_view(),
                best@ == listed(at as nat),
            decreases texts.len() - at,
        {
            best.push(Candidate { position: at, score: 0 });
            at += 1;
            assert(best@ =~= listed(at as nat));
        }
        assert(best@ =~= first(listed(all.len()), MAX_RESULTS as nat));
        return best;
    }
    assert(scored(all.take(0), shape) =~= Seq::<Candidate>::empty());
    while at < texts.len()
        invariant
            at <= texts.len(),
            all == texts.deep_view(),
            shape == pattern_shape(*pattern),
            takes(shape),
            raw == folds_raw(shape),
            scores_paths(*matcher),
            descending(best@),
            best@.len() <= MAX_RESULTS,
            best@ == first(ranked(scored(all.take(at as int), shape)), MAX_RESULTS as nat),
        decreases texts.len() - at,
    {
        let text: &str = texts[at].as_str();
        let ghost seen = scored(all.take(at as int), shape);
        proof {
            assert(all.take(at + 1).drop_last() == all.take(at as int));
            assert(all.take(at + 1).last() == text@);
            lemma_ranked(seen);
        }
        if fits_matcher(text) && !(raw && text_has_folding_lower_case(text)) {
            match score_text(pattern, text, matcher) {
                Some(score) => {
                    let candidate = Candidate { position: at, score };
                    proof {
                        assert(scored(all.take(at + 1), shape) == seen.push(candidate));
                        assert(seen.push(candidate).drop_last() == seen);
                        lemma_first_of_insert_ranked(ranked(seen), candidate, MAX_RESULTS as nat);
                    }
                    keep_best(&mut best, candidate, MAX_RESULTS);
                },
                None => {},
            }
        }
        at += 1;
    }
    assert(all.take(at as int) == all);
    best
}

/// The second pass: finds the matched positions of the candidates.
fn describe(
    texts: &Vec<String>,
    pattern: &Pattern,
    matcher: &mut Matcher,
    best: &Vec<Candidate>,
) -> (results: Vec<MatchResult>)
    requires
        scores_paths(*old(matcher)),
        takes(pattern_shape(*pattern)),
        best@ == best_candidates(
            texts.deep_view(),
            pattern_shape(*pattern),
            word_count(pattern_shape(*pattern)) == 0,
        ),
    ensures
        scores_paths(*final(matcher)),
        results.deep_view() == results_under(
            texts.deep_view(),
            pattern_shape(*pattern),
            word_count(pattern_shape(*pattern)) == 0,
        ),
{
    let ghost all = texts.deep_view();
    let ghost shape = pattern_shape(*pattern);
    let blank = pattern_words(pattern) == 0;
    proof {
        assert(all.len() == texts.len());
        lemma_best_candidates(all, shape, blank);
    }
    let mut results: Vec<MatchResult> = Vec::new();
    let mut reported: Vec<u32> = Vec::new();
    let mut at: usize = 0;
    while at < best.len()
        invariant
            at <= best.len(),
            all == texts.deep_view(),
            shape == pattern_shape(*pattern),
            takes(shape),
            blank == (word_count(shape) == 0),
            scores_paths(*matcher),
            best@ == best_candidates(all, shape, blank),
            forall|i: int| 0 <= i < best.len() ==> (#[trigger] best@[i]).position < texts.len(),
            !blank ==> forall|i: int|
                0 <= i < best.len() ==> entry_score(
                    shape,
                    all[(#[trigger] best@[i]).position as int],
                ) is Some,
            results.deep_view() == Seq::new(
                at as nat,
                |i: int| result_of(all, shape, blank, best@[i]),
            ),
        decreases best.len() - at,
    {
        let candidate: Candidate = best[at];
        let text: &String = &texts[candidate.position];
        assert(text@ == all[candidate.position as int]);
        let mut matched: Vec<u32> = Vec::new();
        if !blank {
            reported.clear();
            append_positions(pattern, text.as_str(), matcher, &mut reported);
            assert(reported@ =~= shape_positions(shape, text@));
            if text.as_str().is_ascii() {
                let len: usize = text.as_str().unicode_len();
                matched = sorted_positions(&reported, len);
            } else {
                let sizes = cluster_lengths(text.as_str());
                let clusters = sorted_positions(&reported, sizes.len());
                matched = spread_positions(&clusters, &sizes);
            }
        }
        let ghost before = results.deep_view();
        let result = MatchResult {
            identity: candidate.position,
            text: text.clone(),
            score: candidate.score,
            matched_indices: matched,
        };
        assert(result@ == result_of(all, shape, blank, candidate));
        results.push(result);
        at += 1;
        assert(results.deep_view() =~= before.push(result@));
        assert(results.deep_view() =~= Seq::new(
            at as nat,
            |i: int| result_of(all, shape, blank, best@[i]),
        ));
    }
    assert(results.deep_view() =~= results_under(all, shape, blank));
    results
}

/// The search engine. It holds the index, a matcher configured for file
/// paths, the case policy it was made with, and the pattern of the last
/// query, which the next query parses anew in place.
pub struct Search {
    index: SearchIndex,
    matcher: Matcher,
    pattern: Option<Pattern>,
    policy: CasePolicy,
}

impl View for Search {
    type V = Seq<Seq<char>>;

    /// The texts of the index, oldest first.
    closed spec fn view(&self) -> Seq<Seq<char>> {
        self.index@
    }
}

impl Search {
    /// The engine is in order: its matcher is the one for file paths that
    /// it was made with.
    pub closed spec fn wf(&self) -> bool {
        scores_paths(self.matcher)
    }

    /// The case policy that the engine was made with.
    pub closed spec fn case_policy(&self) -> CasePolicy {
        self.policy
    }

    /// What the engine answers to a query.
    pub open spec fn results_for(&self, query: Seq<char>) -> Seq<MatchView> {
        search_results(self@, query, self.case_policy() == CasePolicy::Smart)
    }

    /// The shape of the engine's pattern: none before the first search,
    /// then that of the last query.
    pub closed spec fn compiled(&self) -> Option<Seq<char>> {
        match self.pattern {
            Some(pattern) => Some(pattern_shape(pattern)),
            None => None,
        }
    }

    /// An engine with an empty index and the smart case policy.
    pub fn new() -> (engine: Self)
        ensures
            engine.wf(),
            engine@ == Seq::<Seq<char>>::empty(),
            engine.case_policy() == CasePolicy::Smart,
            engine.compiled() is None,
    {
        Self::with_case_policy(CasePolicy::Smart)
    }

    /// An engine with an empty index and the given case policy.
    pub fn with_case_policy(policy: CasePolicy) -> (engine: Self)
        ensures
            engine.wf(),
            engine@ == Seq::<Seq<char>>::empty(),
            engine.case_policy() == policy,
            engine.compiled() is None,
    {
        let matcher = path_matcher();
        Search { index: SearchIndex::new(), matcher, pattern: None, policy }
    }

    /// Answers a query: the best `MAX_RESULTS` matches, the better first
    /// and among equals the earlier in the index, each with its matched
    /// positions. A blank query lists the first texts of the index. A query
    /// that the matcher cannot take, with more than `MAX_WORDS` words or a
    /// word of more than `MAX_WORD_LEN` items, finds nothing.
    ///
    /// A text is not matched where the matcher's two ways of reading it
    /// disagree for the query: the matcher module says where.
    pub fn search(&mut self, search_string: &str) -> (results: Vec<MatchResult>)
        requires
            old(self).wf(),
        ensures
            final(self).wf(),
            final(self)@ == old(self)@,
            final(self).case_policy() == old(self).case_policy(),
            final(self).compiled() == Some(
                parsed_shape(search_string@, old(self).case_policy() == CasePolicy::Smart),
            ),
            results.deep_view() == old(self).results_for(search_string@),
            results.len() <= MAX_RESULTS,
            forall|i: int|
                0 <= i < results.len() ==> {
                    let result = #[trigger] results[i];
                    &&& strictly_ascending(result.matched_indices@)
                    &&& within(result.matched_indices@, result.text@.len())
                },
    {
        match self.try_search(search_string) {
            Some(results) => results,
            None => {
                let results: Vec<MatchResult> = Vec::new();
                assert(results.deep_view() =~= Seq::<MatchView>::empty());
                results
            },
        }
    }

    /// Answers a query as `search` does, and tells a query that is not
    /// searched for from one that finds nothing: `None` for a query that
    /// the matcher cannot take.
    pub fn try_search(&mut self, search_string: &str) -> (found: Option<Vec<MatchResult>>)
        requires
            old(self).wf(),
        ensures
            final(self).wf(),
            final(self)@ == old(self)@,
            final(self).case_policy() == old(self).case_policy(),
            final(self).compiled() == Some(
                parsed_shape(search_string@, old(self).case_policy() == CasePolicy::Smart),
            ),
            found is Some <==> is_taken(
                search_string@,
                old(self).case_policy() == CasePolicy::Smart,
            ),
            found matches Some(results) ==> {
                &&& results.deep_view() == old(self).results_for(search_string@)
                &&& results.len() <= MAX_RESULTS
                &&& forall|i: int|
                    0 <= i < results.len() ==> {
                        let result = #[trigger] results[i];
                        &&& strictly_ascending(result.matched_indices@)
                        &&& within(result.matched_indices@, result.text@.len())
                    }
            },
    {
        let policy = self.policy;
        match &mut self.pattern {
            Some(pattern) => {
                reparse_pattern(pattern, search_string, policy);
            },
            None => {
                self.pattern = Some(parse_pattern(search_string, policy));
            },
        }
        let fits = match &self.pattern {
            Some(pattern) => pattern_fits(pattern),
            None => false,
        };
        if !fits {
            return None;
        }
        let results = self.match_data();
        proof {
            let smart_case = self.policy == CasePolicy::Smart;
            assert(self@.len() == self.index.data.len());
            lemma_results_are_capped(self@, search_string@, smart_case);
            lemma_matched_indices_fit(self@, search_string@, smart_case);
            assert forall|i: int| 0 <= i < results.len() implies {
                let result = #[trigger] results[i];
                &&& strictly_ascending(result.matched_indices@)
                &&& within(result.matched_indices@, result.text@.len())
            } by {
                assert(results.deep_view()[i] == results[i]@);
            }
        }
        Some(results)
    }

    /// Replaces the texts of the index by the given ones. The pattern of
    /// the last query stays as it is.
    pub fn update_index(&mut self, data: Vec<String>)
        ensures
            final(self).wf() == old(self).wf(),
            final(self)@ == data.deep_view(),
            final(self).case_policy() == old(self).case_policy(),
            final(self).compiled() == old(self).compiled(),
    {
        self.index.update_index(data);
    }

    /// Adds a text behind the others.
    pub fn add_file(&mut self, path: String)
        ensures
            final(self).wf() == old(self).wf(),
            final(self)@ == old(self)@.push(path@),
            final(self).case_policy() == old(self).case_policy(),
            final(self).compiled() == old(self).compiled(),
    {
        self.index.add_file(path);
    }

    /// Takes out every occurrence of a text; a text that does not occur
    /// changes nothing.
    pub fn remove_file(&mut self, path: &String)
        ensures
            final(self).wf() == old(self).wf(),
            final(self)@ == without(old(self)@, path@),
            !final(self)@.contains(path@),
            !old(self)@.contains(path@) ==> final(self)@ == old(self)@,
            final(self).case_policy() == old(self).case_policy(),
            final(self).compiled() == old(self).compiled(),
    {
        self.index.remove_file(path);
    }

    /// Takes out every occurrence of the old text and adds the new one
    /// behind the others.
    pub fn rename_file(&mut self, old_path: &String, new_path: String)
        ensures
            final(self).wf() == old(self).wf(),
            final(self)@ == without(old(self)@, old_path@).push(new_path@),
            final(self).case_policy() == old(self).case_policy(),
            final(self).compiled() == old(self).compiled(),
    {
        self.index.rename_file(old_path, new_path);
    }

    /// Takes out every text.
    pub fn clear_index(&mut self)
        ensures
            final(self).wf() == old(self).wf(),
            final(self)@ == Seq::<Seq<char>>::empty(),
            final(self).case_policy() == old(self).case_policy(),
            final(self).compiled() == old(self).compiled(),
    {
        self.index.clear_index();
    }

    /// Whether the index holds exactly the given texts in the given order.
    pub fn check_index_consistency(&self, data: &Vec<String>) -> (same: bool)
        ensures
            same == (self@ == data.deep_view()),
    {
        self.index.check_index_consistency(data)
    }

    /// The index of the engine.
    pub fn index(&self) -> (index: &SearchIndex)
        ensures
            index@ == self@,
    {
        &self.index
    }

    /// Ranks the index against the engine's pattern; nothing where it has
    /// none.
    fn match_data(&mut self) -> (results: Vec<MatchResult>)
        requires
            old(self).wf(),
            old(self).compiled() matches Some(shape) ==> takes(shape),
        ensures
            final(self).wf(),
            final(self)@ == old(self)@,
            final(self).case_policy() == old(self).case_policy(),
            final(self).pattern == old(self).pattern,
            results.deep_view() == match old(self).pattern {
                Some(pattern) => results_under(
                    old(self)@,
                    pattern_shape(pattern),
                    word_count(pattern_shape(pattern)) == 0,
                ),
                None => Seq::empty(),
            },
    {
        match &self.pattern {
            Some(pattern) => {
                let best = best_matches(&self.index.data, pattern, &mut self.matcher);
                describe(&self.index.data, pattern, &mut self.matcher, &best)
            },
            None => {
                let results: Vec<MatchResult> = Vec::new();
                assert(results.deep_view() =~= Seq::<MatchView>::empty());
                results
            },
        }
    }
}

impl Default for Search {
    fn default() -> (engine: Self)
        ensures
            engine.wf(),
            engine@ == Seq::<Seq<char>>::empty(),
            engine.case_policy() == CasePolicy::Smart,
            engine.compiled() is None,
    {
        Self::new()
    }
}

} // verus!
