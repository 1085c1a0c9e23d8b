use crate::evaluate::evaluation;
use crate::evaluate::is_pangram;
use crate::strategy::solution;
use vstd::prelude::*;

verus! {

/// Soundness of filtering: every word a solution mapping contains is at
/// least four letters long and is a member of the dictionary.
pub proof fn lemma_accepted_words_sound(
    center: char,
    others: Set<char>,
    words: Set<Seq<char>>,
    w: Seq<char>,
)
    requires
        solution(center, others, words).dom().contains(w),
    ensures
        w.len() >= 4,
        words.contains(w),
{
}

/// Strategy equivalence: every strategy's `solve` ensures that its result,
/// viewed as a mapping, equals `solution` for its dictionary and the puzzle.
/// Two results pinned to the same dictionary and puzzle are therefore equal
/// as mappings — the same accepted words with the same points — whatever
/// strategies produced them.
pub proof fn lemma_strategy_agreement(
    center: char,
    others: Set<char>,
    words: Set<Seq<char>>,
    m1: Map<Seq<char>, usize>,
    m2: Map<Seq<char>, usize>,
)
    requires
        m1 == solution(center, others, words),
        m2 == solution(center, others, words),
    ensures
        m1 == m2,
{
}

/// Idempotence: `solve` takes the strategy by shared reference and its
/// result is pinned to the strategy's dictionary and the puzzle alone, so
/// solving the same puzzle twice against the same strategy instance yields
/// identical mappings.
pub proof fn lemma_solve_idempotent(
    center: char,
    others: Set<char>,
    words: Set<Seq<char>>,
    first: Map<Seq<char>, usize>,
    second: Map<Seq<char>, usize>,
)
    requires
        first == solution(center, others, words),
        second == solution(center, others, words),
    ensures
        first == second,
{
}

/// Pangram scoring: an accepted word that uses every permitted letter scores
/// exactly the base score plus seven; one that misses any permitted letter
/// never receives the bonus.
pub proof fn lemma_pangram_bonus(
    center: char,
    others: Set<char>,
    words: Set<Seq<char>>,
    w: Seq<char>,
)
    requires
        evaluation(center, others, words, w) is Ok,
        w.len() <= usize::MAX - 4,
    ensures
        is_pangram(center, others, w) ==> evaluation(center, others, words, w)->Ok_0 == 1 + (
        w.len() - 4) + 7,
        !is_pangram(center, others, w) ==> evaluation(center, others, words, w)->Ok_0 == 1 + (
        w.len() - 4),
{
}

/// Boundary: an accepted four-letter word that is not a pangram scores
/// exactly one point.
pub proof fn lemma_minimum_word_scores_one(
    center: char,
    others: Set<char>,
    words: Set<Seq<char>>,
    w: Seq<char>,
)
    requires
        evaluation(center, others, words, w) is Ok,
        w.len() == 4,
        !is_pangram(center, others, w),
    ensures
        evaluation(center, others, words, w)->Ok_0 == 1,
{
}

/// When the center letter occurs in no dictionary word, the solution mapping
/// is empty rather than a failure.
pub proof fn lemma_center_absent_solution_empty(
    center: char,
    others: Set<char>,
    words: Set<Seq<char>>,
)
    requires
        forall|w: Seq<char>| #[trigger] words.contains(w) ==> !w.contains(center),
    ensures
        solution(center, others, words) =~= Map::<Seq<char>, usize>::empty(),
{
    assert forall|w: Seq<char>| !(#[trigger] evaluation(center, others, words, w) is Ok) by {
        if evaluation(center, others, words, w) is Ok {
            assert(words.contains(w));
            assert(w.contains(center));
        }
    }
}

} // verus!
