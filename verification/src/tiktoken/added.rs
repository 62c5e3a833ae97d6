//! Added tokens: contents matched atomically in the raw input, leftmost
//! first and longest among those, before pretokenization.
use vstd::prelude::*;
use aho_corasick::AhoCorasick;
use crate::token::TokenId;

verus! {

#[verifier::external_type_specification]
#[verifier::external_body]
pub struct ExAhoCorasick(aho_corasick::AhoCorasick);

/// The patterns an automaton was built from, by pattern id.
pub uninterp spec fn automaton_patterns(ac: AhoCorasick) -> Seq<Seq<u8>>;

/// Whether an automaton was built with leftmost-longest match semantics.
pub uninterp spec fn automaton_is_leftmost_longest(ac: AhoCorasick) -> bool;

/// Whether `p` occurs in `b` starting at `s`.
pub open spec fn occurs_at(b: Seq<u8>, p: Seq<u8>, s: int) -> bool {
    0 <= s && s + p.len() <= b.len() && b.subrange(s, s + p.len()) == p
}

/// The length of the longest of `pats[..n]` occurring at `s`, 0 if none does.
pub open spec fn longest_at(pats: Seq<Seq<u8>>, b: Seq<u8>, s: int, n: int) -> int
    decreases n,
{
    if n <= 0 {
        0
    } else {
        let prev = longest_at(pats, b, s, n - 1);
        if occurs_at(b, pats[n - 1], s) && pats[n - 1].len() > prev {
            pats[n - 1].len() as int
        } else {
            prev
        }
    }
}

/// The leftmost-longest occurrence of a (nonempty) pattern at or after `s`:
/// `(start, end)`.
pub open spec fn first_match(pats: Seq<Seq<u8>>, b: Seq<u8>, s: int) -> Option<(int, int)>
    decreases b.len() + 1 - s,
{
    if s < 0 || s > b.len() {
        None
    } else if longest_at(pats, b, s, pats.len() as int) > 0 {
        Some((s, s + longest_at(pats, b, s, pats.len() as int)))
    } else {
        first_match(pats, b, s + 1)
    }
}

pub proof fn lemma_longest_at(pats: Seq<Seq<u8>>, b: Seq<u8>, s: int, n: int)
    requires
        n <= pats.len(),
    ensures
        longest_at(pats, b, s, n) >= 0,
        longest_at(pats, b, s, n) > 0 ==> exists|i: int|
            0 <= i < n && occurs_at(b, pats[i], s) && pats[i].len() == longest_at(pats, b, s, n),
        forall|i: int| 0 <= i < n && occurs_at(b, #[trigger] pats[i], s) ==> pats[i].len() <= longest_at(pats, b, s, n),
    decreases n,
{
    if n > 0 {
        lemma_longest_at(pats, b, s, n - 1);
    }
}

pub proof fn lemma_first_match(pats: Seq<Seq<u8>>, b: Seq<u8>, s: int)
    ensures
        first_match(pats, b, s) matches Some((st, e)) ==> s <= st < e <= b.len() && exists|i: int|
            0 <= i < pats.len() && #[trigger] pats[i] == b.subrange(st, e),
    decreases b.len() + 1 - s,
{
    if 0 <= s <= b.len() {
        lemma_longest_at(pats, b, s, pats.len() as int);
        if longest_at(pats, b, s, pats.len() as int) > 0 {
            let i = choose|i: int|
                0 <= i < pats.len() && occurs_at(b, pats[i], s) && pats[i].len() == longest_at(pats, b, s, pats.len() as int);
            assert(pats[i] == b.subrange(s, s + longest_at(pats, b, s, pats.len() as int)));
        } else {
            lemma_first_match(pats, b, s + 1);
        }
    }
}

/// Whether `AhoCorasickBuilder::build`, configured for leftmost-longest
/// matching, succeeds on the patterns `p`. With the configuration fixed, the
/// outcome depends on the patterns alone; it fails only when the automaton
/// would pass the crate's size limits.
pub uninterp spec fn automaton_builds(p: Seq<Seq<u8>>) -> bool;

/// Builds a leftmost-longest automaton over the contents of `tokens`
/// (`AhoCorasickBuilder::build` with `MatchKind::LeftmostLongest`).
/// Claimed: it succeeds exactly when `automaton_builds` holds of the
/// contents, and then the automaton holds the contents as its patterns, in
/// order, with leftmost-longest semantics.
#[verifier::external_body]
pub(crate) fn build_leftmost_longest(tokens: &Vec<(Vec<u8>, TokenId)>) -> (r: Option<AhoCorasick>)
    ensures
        r is Some <==> automaton_builds(tokens@.map_values(|t: (Vec<u8>, TokenId)| t.0@)),
        r matches Some(ac) ==> automaton_patterns(ac) == tokens@.map_values(|t: (Vec<u8>, TokenId)| t.0@)
            && automaton_is_leftmost_longest(ac),
{
    aho_corasick::AhoCorasick::builder()
        .match_kind(aho_corasick::MatchKind::LeftmostLongest)
        .build(tokens.iter().map(|t| t.0.as_slice()))
        .ok()
}

/// `AhoCorasick::find` over `hay[from..]`, positions counted in `hay`.
/// Claimed, for a leftmost-longest automaton of nonempty patterns: the match
/// reported is the leftmost-longest occurrence at or after `from`, with the
/// id of a pattern equal to the matched bytes.
#[verifier::external_body]
pub(crate) fn find_leftmost_longest(ac: &AhoCorasick, hay: &[u8], from: usize) -> (r: Option<(usize, usize, usize)>)
    requires
        automaton_is_leftmost_longest(*ac),
        from <= hay@.len(),
        forall|i: int| 0 <= i < automaton_patterns(*ac).len() ==> #[trigger] automaton_patterns(*ac)[i].len() > 0,
    ensures
        r matches Some((s, e, i)) ==> first_match(automaton_patterns(*ac), hay@, from as int) == Some((s as int, e as int))
            && i < automaton_patterns(*ac).len() && automaton_patterns(*ac)[i as int] == hay@.subrange(s as int, e as int),
        r is None ==> first_match(automaton_patterns(*ac), hay@, from as int) is None,
{
    match ac.find(aho_corasick::Input::new(hay).range(from..)) {
        Some(m) => Some((m.start(), m.end(), m.pattern().as_usize())),
        None => None,
    }
}

/// `AhoCorasick::clone`. Claimed: the clone holds the same patterns with the
/// same match semantics.
#[verifier::external_body]
pub(crate) fn clone_automaton(ac: &AhoCorasick) -> (r: AhoCorasick)
    ensures
        automaton_patterns(r) == automaton_patterns(*ac),
        automaton_is_leftmost_longest(r) == automaton_is_leftmost_longest(*ac),
{
    ac.clone()
}

} // verus!
