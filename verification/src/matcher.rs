//! Scoring a task name against a query with the skim fuzzy matcher.
//!
//! The matcher decides whether a name matches and how well. Whether it
//! matches is stated here in full; how well is a number that only the matcher
//! knows.

use fuzzy_matcher::skim::SkimMatcherV2;
use fuzzy_matcher::FuzzyMatcher;
use vstd::prelude::*;

verus! {

/// `c` is one of `A` to `Z`.
pub open spec fn is_ascii_upper(c: char) -> bool {
    'A' <= c <= 'Z'
}

/// The code point of `c`, with `A` to `Z` taken to `a` to `z`.
pub open spec fn folded(c: char) -> int {
    if is_ascii_upper(c) {
        c as int + 32
    } else {
        c as int
    }
}

/// Whether the query asks for its case to be respected: it does as soon as
/// it holds one of `A` to `Z`.
pub open spec fn respects_case(query: Seq<char>) -> bool {
    exists|i: int| 0 <= i < query.len() && is_ascii_upper(#[trigger] query[i])
}

/// Whether a character of the name answers a character of the query.
pub open spec fn chars_match(c: char, q: char, case_sensitive: bool) -> bool {
    if case_sensitive {
        c == q
    } else {
        folded(c) == folded(q)
    }
}

/// Whether the characters of `query` are met in `name` from left to right,
/// each taken at its first chance.
pub open spec fn embeds(name: Seq<char>, query: Seq<char>, case_sensitive: bool) -> bool
    decreases name.len(),
{
    if query.len() == 0 {
        true
    } else if name.len() == 0 {
        false
    } else if chars_match(name[0], query[0], case_sensitive) {
        embeds(name.skip(1), query.skip(1), case_sensitive)
    } else {
        embeds(name.skip(1), query, case_sensitive)
    }
}

/// Whether `name` matches `query`: the query's characters occur in the name
/// in order, compared without regard to ASCII case unless the query holds an
/// ASCII capital.
pub open spec fn fuzzy_matches(name: Seq<char>, query: Seq<char>) -> bool {
    embeds(name, query, respects_case(query))
}

/// The score that the skim matcher, as it comes by default, gives `name`
/// against `query`; `None` where the name does not match.
pub uninterp spec fn skim_score(name: Seq<char>, query: Seq<char>) -> Option<i64>;

/// Calls `fuzzy_match` of `fuzzy_matcher::FuzzyMatcher` on a default
/// `SkimMatcherV2`. The contract names the score, and says when there is
/// one: the matcher first walks the name for the query's characters, with
/// smart case, and gives a score exactly where that walk succeeds.
#[verifier::external_body]
pub(crate) fn skim_match(name: &str, query: &str) -> (score: Option<i64>)
    ensures
        score == skim_score(name@, query@),
        score is Some <==> fuzzy_matches(name@, query@),
{
    SkimMatcherV2::default().fuzzy_match(name, query)
}

/// `at` gives, for each character of the query, a place in the name that
/// answers it, and the places go strictly rightwards.
pub open spec fn is_embedding(
    name: Seq<char>,
    query: Seq<char>,
    case_sensitive: bool,
    at: Seq<int>,
) -> bool {
    &&& at.len() == query.len()
    &&& forall|k: int|
        0 <= k < at.len() ==> 0 <= #[trigger] at[k] < name.len() && chars_match(
            name[at[k]],
            query[k],
            case_sensitive,
        )
    &&& forall|k: int, l: int| 0 <= k < l < at.len() ==> #[trigger] at[k] < #[trigger] at[l]
}

/// The query is a subsequence of the name: its characters occur in the name
/// in order, not necessarily side by side.
pub open spec fn is_subsequence(name: Seq<char>, query: Seq<char>, case_sensitive: bool) -> bool {
    exists|at: Seq<int>| is_embedding(name, query, case_sensitive, at)
}

/// Where the walk from left to right succeeds, the places it took make the
/// query a subsequence of the name.
pub proof fn lemma_embeds_gives_places(
    name: Seq<char>,
    query: Seq<char>,
    case_sensitive: bool,
) -> (at: Seq<int>)
    requires
        embeds(name, query, case_sensitive),
    ensures
        is_embedding(name, query, case_sensitive, at),
    decreases name.len(),
{
    if query.len() == 0 {
        Seq::empty()
    } else if chars_match(name[0], query[0], case_sensitive) {
        let rest = lemma_embeds_gives_places(name.skip(1), query.skip(1), case_sensitive);
        let at = seq![0int] + rest.map_values(|i: int| i + 1);
        assert forall|k: int| 0 <= k < at.len() implies 0 <= #[trigger] at[k] < name.len()
            && chars_match(name[at[k]], query[k], case_sensitive) by {
            if k > 0 {
                assert(at[k] == rest[k - 1] + 1);
                assert(name[at[k]] == name.skip(1)[rest[k - 1]]);
                assert(query[k] == query.skip(1)[k - 1]);
            }
        }
        assert forall|k: int, l: int| 0 <= k < l < at.len() implies #[trigger] at[k]
            < #[trigger] at[l] by {
            assert(at[l] == rest[l - 1] + 1);
            if k > 0 {
                assert(at[k] == rest[k - 1] + 1);
            }
        }
        at
    } else {
        let rest = lemma_embeds_gives_places(name.skip(1), query, case_sensitive);
        let at = rest.map_values(|i: int| i + 1);
        assert forall|k: int| 0 <= k < at.len() implies 0 <= #[trigger] at[k] < name.len()
            && chars_match(name[at[k]], query[k], case_sensitive) by {
            assert(name[at[k]] == name.skip(1)[rest[k]]);
        }
        at
    }
}

/// Where the query is a subsequence of the name, the walk from left to right
/// succeeds.
pub proof fn lemma_places_give_embeds(
    name: Seq<char>,
    query: Seq<char>,
    case_sensitive: bool,
    at: Seq<int>,
)
    requires
        is_embedding(name, query, case_sensitive, at),
    ensures
        embeds(name, query, case_sensitive),
    decreases name.len(),
{
    if query.len() > 0 {
        assert(0 <= at[0] < name.len());
        if chars_match(name[0], query[0], case_sensitive) {
            let rest = at.skip(1).map_values(|i: int| i - 1);
            assert forall|k: int| 0 <= k < rest.len() implies 0 <= #[trigger] rest[k]
                < name.skip(1).len() && chars_match(
                name.skip(1)[rest[k]],
                query.skip(1)[k],
                case_sensitive,
            ) by {
                assert(rest[k] == at[k + 1] - 1);
                assert(at[0] < at[k + 1]);
            }
            assert forall|k: int, l: int| 0 <= k < l < rest.len() implies #[trigger] rest[k]
                < #[trigger] rest[l] by {
                assert(at[k + 1] < at[l + 1]);
            }
            lemma_places_give_embeds(name.skip(1), query.skip(1), case_sensitive, rest);
        } else {
            let rest = at.map_values(|i: int| i - 1);
            assert forall|k: int| 0 <= k < rest.len() implies 0 <= #[trigger] rest[k]
                < name.skip(1).len() && chars_match(
                name.skip(1)[rest[k]],
                query[k],
                case_sensitive,
            ) by {
                assert(rest[k] == at[k] - 1);
                if k > 0 {
                    assert(at[0] < at[k]);
                }
            }
            assert forall|k: int, l: int| 0 <= k < l < rest.len() implies #[trigger] rest[k]
                < #[trigger] rest[l] by {
                assert(at[k] < at[l]);
            }
            lemma_places_give_embeds(name.skip(1), query, case_sensitive, rest);
        }
    }
}

/// A name matches a query exactly where the query is a subsequence of it.
pub proof fn lemma_matches_iff_subsequence(name: Seq<char>, query: Seq<char>)
    ensures
        fuzzy_matches(name, query) <==> is_subsequence(name, query, respects_case(query)),
{
    let case_sensitive = respects_case(query);
    if embeds(name, query, case_sensitive) {
        let at = lemma_embeds_gives_places(name, query, case_sensitive);
    }
    if is_subsequence(name, query, case_sensitive) {
        let at = choose|at: Seq<int>| is_embedding(name, query, case_sensitive, at);
        lemma_places_give_embeds(name, query, case_sensitive, at);
    }
}

} // verus!
