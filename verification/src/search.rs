//! The two matching policies: the load-time search term (whole-word,
//! case-sensitive, the term taken literally) and the interactive free-text
//! query (case-insensitive: an entry stays when any query token occurs in
//! its line).

use vstd::prelude::*;

use crate::chars::{chars_string, contains_chars, contains_seq, split_tokens, str_chars,
    tokens_of};

verus! {

/// The lowercase form of a character sequence, as `str::to_lowercase`
/// computes it.
pub uninterp spec fn lower_of(s: Seq<char>) -> Seq<char>;

/// Relies on str::to_lowercase: the result depends on the characters
/// alone, and an empty string stays empty.
#[verifier::external_body]
pub(crate) fn to_lower(s: &str) -> (r: String)
    ensures
        r@ == lower_of(s@),
        s@.len() == 0 ==> r@.len() == 0,
{
    s.to_lowercase()
}

/// Whether the literal `term` occurs in `line` bounded by word
/// boundaries, as the regex `\b<escaped term>\b` decides it.
pub uninterp spec fn word_match(line: Seq<char>, term: Seq<char>) -> bool;

/// Relies on regex::escape and regex::Regex::new / Regex::captures: the
/// term is escaped, so the pattern is the literal term between two word
/// boundaries; it always compiles, the result depends on the two strings
/// alone, and a whole-word occurrence is in particular an occurrence.
#[verifier::external_body]
fn regex_word_match(line: &str, term: &str) -> (r: bool)
    ensures
        r == word_match(line@, term@),
        r ==> contains_seq(line@, term@),
{
    let pattern = format!("\\b{}\\b", regex::escape(term));
    match regex::Regex::new(&pattern) {
        Ok(re) => re.captures(line).is_some(),
        Err(_) => false,
    }
}

/// What the load-time search decides: a whole-word match of the term,
/// and no match at all when no term was given.
pub open spec fn match_regex_spec(line: Seq<char>, search: Option<Seq<char>>) -> bool {
    match search {
        Option::Some(t) => word_match(line, t),
        Option::None => false,
    }
}

/// Whether `line` contains the search term as a whole word. The term is
/// taken literally and matched case-sensitively; with no term there is no
/// match.
pub fn match_regex(line: &str, search: &Option<String>) -> (r: bool)
    ensures
        r == match_regex_spec(line@, search.deep_view()),
{
    match search {
        Some(t) => regex_word_match(line, t.as_str()),
        None => false,
    }
}

/// Whether a line is retained by a free-text query: the query has no
/// tokens, or the lowercase form of some token occurs in the lowercase
/// form of the line.
pub open spec fn retained(line: Seq<char>, query: Seq<char>) -> bool {
    ||| tokens_of(query).len() == 0
    ||| exists|k: int|
        0 <= k < tokens_of(query).len() && contains_seq(
            lower_of(line),
            lower_of(#[trigger] tokens_of(query)[k]),
        )
}

/// Decide whether the free-text `query` retains `line`.
pub fn query_retains(line: &str, query: &str) -> (r: bool)
    ensures
        r == retained(line@, query@),
{
    let qc = str_chars(query);
    let toks = split_tokens(&qc);
    if toks.len() == 0 {
        return true;
    }
    let lower_line = to_lower(line);
    let line_chars = str_chars(lower_line.as_str());
    let mut k: usize = 0;
    while k < toks.len()
        invariant
            toks.deep_view() == tokens_of(query@),
            line_chars@ == lower_of(line@),
            0 <= k <= toks@.len(),
            toks@.len() == toks.deep_view().len(),
            forall|m: int|
                0 <= m < k ==> !contains_seq(
                    lower_of(line@),
                    lower_of(#[trigger] tokens_of(query@)[m]),
                ),
        decreases toks@.len() - k,
    {
        let tok = chars_string(&toks[k]);
        let lower_tok = to_lower(tok.as_str());
        let tok_chars = str_chars(lower_tok.as_str());
        proof {
            assert(toks.deep_view()[k as int] == toks@[k as int]@);
            assert(tok_chars@ == lower_of(tokens_of(query@)[k as int]));
        }
        if contains_chars(&line_chars, &tok_chars) {
            return true;
        }
        k = k + 1;
    }
    false
}

/// The subsequence of `items` that the free-text `query` retains, in
/// their original order.
pub open spec fn refine_spec(items: Seq<Seq<char>>, query: Seq<char>) -> Seq<Seq<char>>
    decreases items.len(),
{
    if items.len() == 0 {
        Seq::empty()
    } else {
        let rest = refine_spec(items.drop_last(), query);
        if retained(items.last(), query) {
            rest.push(items.last())
        } else {
            rest
        }
    }
}

/// Keep only the words that the free-text `filter` retains: a word stays
/// when the lowercase form of some filter token occurs in its lowercase
/// form; a filter with no tokens keeps every word.
pub fn tokenize_and_filter(filter: &str, words: &mut Vec<String>)
    ensures
        final(words).deep_view() == refine_spec(old(words).deep_view(), filter@),
{
    let ghost all = words.deep_view();
    let mut result: Vec<String> = Vec::new();
    let mut i: usize = 0;
    proof {
        assert(all.subrange(0, 0) =~= Seq::<Seq<char>>::empty());
    }
    while i < words.len()
        invariant
            0 <= i <= words@.len(),
            all == words.deep_view(),
            all.len() == words@.len(),
            result.deep_view() == refine_spec(all.subrange(0, i as int), filter@),
        decreases words@.len() - i,
    {
        let ghost pre = all.subrange(0, i + 1);
        proof {
            assert(pre.drop_last() =~= all.subrange(0, i as int));
            assert(pre.last() == all[i as int]);
            assert(all[i as int] == words@[i as int]@);
        }
        if query_retains(words[i].as_str(), filter) {
            let ghost old_res = result.deep_view();
            result.push(words[i].clone());
            proof {
                assert(result.deep_view() =~~= old_res.push(words@[i as int]@));
            }
        }
        i = i + 1;
    }
    proof {
        assert(all.subrange(0, all.len() as int) =~= all);
    }
    *words = result;
}

/// Everything refinement keeps was retained by the query.
pub proof fn lemma_refine_all_retained(items: Seq<Seq<char>>, query: Seq<char>)
    ensures
        forall|i: int|
            0 <= i < refine_spec(items, query).len() ==> retained(
                #[trigger] refine_spec(items, query)[i],
                query,
            ),
    decreases items.len(),
{
    if items.len() > 0 {
        lemma_refine_all_retained(items.drop_last(), query);
        let rest = refine_spec(items.drop_last(), query);
        assert forall|i: int| 0 <= i < refine_spec(items, query).len() implies retained(
            #[trigger] refine_spec(items, query)[i],
            query,
        ) by {
            if retained(items.last(), query) {
                assert(refine_spec(items, query) == rest.push(items.last()));
                if i < rest.len() {
                    assert(refine_spec(items, query)[i] == rest[i]);
                } else {
                    assert(refine_spec(items, query)[i] == items.last());
                }
            } else {
                assert(refine_spec(items, query) == rest);
            }
        }
    }
}

/// Refining a set every line of which the query retains changes nothing.
pub proof fn lemma_refine_noop(items: Seq<Seq<char>>, query: Seq<char>)
    requires
        forall|i: int| 0 <= i < items.len() ==> retained(#[trigger] items[i], query),
    ensures
        refine_spec(items, query) == items,
    decreases items.len(),
{
    if items.len() == 0 {
        assert(refine_spec(items, query) =~= items);
    } else {
        lemma_refine_noop(items.drop_last(), query);
        assert(refine_spec(items, query) =~= items);
    }
}

/// Free-text refinement is idempotent: applying the same query twice
/// narrows exactly as far as applying it once.
pub proof fn lemma_refine_idempotent(items: Seq<Seq<char>>, query: Seq<char>)
    ensures
        refine_spec(refine_spec(items, query), query) == refine_spec(items, query),
{
    lemma_refine_all_retained(items, query);
    lemma_refine_noop(refine_spec(items, query), query);
}

/// Refinement never widens the set: it keeps no more lines than it was
/// given, and nothing it keeps is new.
pub proof fn lemma_refine_narrows(items: Seq<Seq<char>>, query: Seq<char>)
    ensures
        refine_spec(items, query).len() <= items.len(),
        forall|x: Seq<char>|
            refine_spec(items, query).contains(x) ==> items.contains(x),
    decreases items.len(),
{
    if items.len() > 0 {
        lemma_refine_narrows(items.drop_last(), query);
        let rest = refine_spec(items.drop_last(), query);
        assert forall|x: Seq<char>|
            refine_spec(items, query).contains(x) implies items.contains(x) by {
            let r = refine_spec(items, query);
            let w = choose|w: int| 0 <= w < r.len() && r[w] == x;
            if retained(items.last(), query) && w == rest.len() {
                assert(r == rest.push(items.last()));
                assert(items[items.len() - 1] == x);
            } else {
                assert(rest[w] == x);
                assert(rest.contains(x));
                assert(items.drop_last().contains(x));
                let m = choose|m: int|
                    0 <= m < items.drop_last().len() && items.drop_last()[m] == x;
                assert(items[m] == x);
            }
        }
    }
}

/// A token kept from an earlier query keeps retaining: if every token of
/// `p` is also a token of `q` and `p` has at least one token, then a line
/// `p` retains, `q` retains as well.
pub proof fn lemma_retained_monotone(line: Seq<char>, p: Seq<char>, q: Seq<char>)
    requires
        tokens_of(p).len() > 0,
        forall|k: int|
            0 <= k < tokens_of(p).len() ==> tokens_of(q).contains(#[trigger] tokens_of(p)[k]),
        retained(line, p),
    ensures
        retained(line, q),
{
    let k = choose|k: int|
        0 <= k < tokens_of(p).len() && contains_seq(lower_of(line), lower_of(tokens_of(p)[k]));
    assert(tokens_of(q).contains(tokens_of(p)[k]));
    let m = choose|m: int| 0 <= m < tokens_of(q).len() && tokens_of(q)[m] == tokens_of(p)[k];
    assert(contains_seq(lower_of(line), lower_of(tokens_of(q)[m])));
}

/// Re-applying a wider query does not widen the set: once the visible
/// set has been narrowed with `p`, a later query `q` that carries all of
/// `p`'s tokens neither removes nor re-adds anything.
pub proof fn lemma_refine_superset_noop(items: Seq<Seq<char>>, p: Seq<char>, q: Seq<char>)
    requires
        tokens_of(p).len() > 0,
        forall|k: int|
            0 <= k < tokens_of(p).len() ==> tokens_of(q).contains(#[trigger] tokens_of(p)[k]),
    ensures
        refine_spec(refine_spec(items, p), q) == refine_spec(items, p),
{
    lemma_refine_all_retained(items, p);
    let narrowed = refine_spec(items, p);
    assert forall|i: int| 0 <= i < narrowed.len() implies retained(
        #[trigger] narrowed[i],
        q,
    ) by {
        lemma_retained_monotone(narrowed[i], p, q);
    }
    lemma_refine_noop(narrowed, q);
}

} // verus!
