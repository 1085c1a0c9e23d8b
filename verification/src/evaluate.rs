use crate::dictionary::Dictionary;
use crate::puzzle::GameProcessed;
use vstd::prelude::*;

verus! {

/// Why a guessed word earns no points.
#[derive(Debug, PartialEq, Eq, Structural)]
pub enum GuessingError {
    /// The word has fewer than four letters.
    TooShort,
    /// The word is not in the dictionary.
    UnknownWord,
    /// The word uses a letter the puzzle does not permit; the payload is the
    /// first such letter in word order.
    DisallowedLetter(char),
    /// The word never uses the center letter.
    MissingCenterLetter,
}

/// Whether `c` may appear in a word: it is the center letter or one of the
/// permitted non-center letters.
pub open spec fn permitted_letter(center: char, others: Set<char>, c: char) -> bool {
    c == center || others.contains(c)
}

/// The first letter of `w`, in word order, that the puzzle does not permit.
pub open spec fn first_disallowed(center: char, others: Set<char>, w: Seq<char>) -> Option<char>
    decreases w.len(),
{
    if w.len() == 0 {
        None
    } else if !permitted_letter(center, others, w[0]) {
        Some(w[0])
    } else {
        first_disallowed(center, others, w.drop_first())
    }
}

/// Every letter of `w` is permitted.
pub open spec fn all_permitted(center: char, others: Set<char>, w: Seq<char>) -> bool {
    forall|k: int| 0 <= k < w.len() ==> permitted_letter(center, others, w[k])
}

/// A pangram uses every permitted letter of the puzzle at least once.
pub open spec fn is_pangram(center: char, others: Set<char>, w: Seq<char>) -> bool {
    w.contains(center) && (forall|c: char| others.contains(c) ==> w.contains(c))
}

/// For a word made only of permitted letters that uses the center letter,
/// being a pangram is the same as using `|others| + 1` distinct letters —
/// the count that a single scan of the word can track.
pub proof fn lemma_pangram_by_count(center: char, others: Set<char>, w: Seq<char>)
    requires
        others.finite(),
        !others.contains(center),
        all_permitted(center, others, w),
        w.contains(center),
    ensures
        is_pangram(center, others, w) <==> w.to_set().len() == others.len() + 1,
{
    let permitted = others.insert(center);
    let used = w.to_set();
    assert(permitted.len() == others.len() + 1);
    assert forall|c: char| #[trigger] used.contains(c) implies permitted.contains(c) by {
        let k = choose|k: int| 0 <= k < w.len() && w[k] == c;
        assert(permitted_letter(center, others, w[k]));
    }
    if is_pangram(center, others, w) {
        assert forall|c: char| #[trigger] permitted.contains(c) implies used.contains(c) by {
            if c != center {
                assert(others.contains(c));
            }
        }
        assert(used =~= permitted);
    } else {
        let missing = choose|c: char| others.contains(c) && !w.contains(c);
        assert(permitted.contains(missing) && !used.contains(missing));
        assert(used.subset_of(permitted.remove(missing)));
        vstd::set_lib::lemma_len_subset(used, permitted.remove(missing));
        assert(permitted.remove(missing).len() == permitted.len() - 1);
        assert(used.len() < others.len() + 1);
    }
}

/// The score of an accepted word: one point for a four-letter word, one more
/// for every further letter, and a bonus of seven for a pangram.
pub open spec fn word_points(center: char, others: Set<char>, w: Seq<char>) -> int {
    1 + (w.len() - 4) + (if is_pangram(center, others, w) {
        7int
    } else {
        0int
    })
}

/// The complete evaluation of a candidate word against a puzzle and a
/// dictionary: the rules are applied in order, and the first rule the word
/// breaks names the rejection; a word that passes them all earns its score.
pub open spec fn evaluation(
    center: char,
    others: Set<char>,
    words: Set<Seq<char>>,
    w: Seq<char>,
) -> Result<usize, GuessingError> {
    if w.len() < 4 {
        Err(GuessingError::TooShort)
    } else if !words.contains(w) {
        Err(GuessingError::UnknownWord)
    } else if first_disallowed(center, others, w) is Some {
        Err(GuessingError::DisallowedLetter(first_disallowed(center, others, w)->Some_0))
    } else if !w.contains(center) {
        Err(GuessingError::MissingCenterLetter)
    } else {
        Ok(word_points(center, others, w) as usize)
    }
}

/// No letter of `w` is disallowed exactly when the scan for a first
/// disallowed letter comes up empty.
pub proof fn lemma_first_disallowed_none_iff(center: char, others: Set<char>, w: Seq<char>)
    ensures
        (first_disallowed(center, others, w) is None) <==> all_permitted(center, others, w),
    decreases w.len(),
{
    if w.len() > 0 {
        lemma_first_disallowed_none_iff(center, others, w.drop_first());
        assert(forall|k: int| 0 <= k < w.drop_first().len() ==> w.drop_first()[k] == w[k + 1]);
        if permitted_letter(center, others, w[0]) && all_permitted(
            center,
            others,
            w.drop_first(),
        ) {
            assert forall|k: int| 0 <= k < w.len() implies permitted_letter(
                center,
                others,
                w[k],
            ) by {
                if k > 0 {
                    assert(w.drop_first()[k - 1] == w[k]);
                }
            }
        }
    }
}

/// If the letters before position `i` are all permitted and the letter at
/// `i` is not, then that letter is the first disallowed one.
pub proof fn lemma_first_disallowed_at(center: char, others: Set<char>, w: Seq<char>, i: int)
    requires
        0 <= i < w.len(),
        forall|k: int| 0 <= k < i ==> permitted_letter(center, others, w[k]),
        !permitted_letter(center, others, w[i]),
    ensures
        first_disallowed(center, others, w) == Some(w[i]),
    decreases w.len(),
{
    if i > 0 {
        assert(forall|k: int| 0 <= k < w.drop_first().len() ==> w.drop_first()[k] == w[k + 1]);
        lemma_first_disallowed_at(center, others, w.drop_first(), i - 1);
    }
}

/// One candidate word being scored against a puzzle.
pub struct Guess<'a> {
    guessed_word: &'a String,
}

impl<'a> Guess<'a> {
    pub closed spec fn word(&self) -> Seq<char> {
        self.guessed_word@
    }

    pub fn new(word: &'a String) -> (g: Guess<'a>)
        ensures
            g.word() == word@,
    {
        Guess { guessed_word: word }
    }

    /// Applies the scoring rules to the guessed word, in order: minimum
    /// length, dictionary membership, letter legality (reporting the first
    /// illegal letter), center-letter presence; an accepted word earns its
    /// score, with the pangram bonus when it uses every permitted letter.
    pub fn eval_points(&self, game: &GameProcessed, dict: &Dictionary) -> (r: Result<
        usize,
        GuessingError,
    >)
        requires
            game.wf(),
            dict.wf(),
        ensures
            r == evaluation(game.center(), game.others(), dict.words(), self.word()),
    {
        let w: &String = self.guessed_word;
        let len = w.as_str().unicode_len();
        if len < 4 {
            return Err(GuessingError::TooShort);
        }
        if !dict.contains_word(w) {
            return Err(GuessingError::UnknownWord);
        }
        let mut has_center = false;
        for i in 0..len
            invariant
                w@ == self.word(),
                len == w@.len(),
                4 <= len,
                dict.words().contains(w@),
                forall|k: int| 0 <= k < i ==> permitted_letter(game.center(), game.others(), w@[k]),
                has_center <==> w@.take(i as int).contains(game.center()),
        {
            let c = w.as_str().get_char(i);
            if c == game.center_char() {
                has_center = true;
                proof {
                    assert(w@.take(i + 1)[i as int] == game.center());
                }
            } else if !game.has_other(c) {
                proof {
                    lemma_first_disallowed_at(game.center(), game.others(), w@, i as int);
                }
                return Err(GuessingError::DisallowedLetter(c));
            }
            proof {
                broadcast use vstd::seq_lib::group_seq_properties;

                assert(w@.take(i + 1) =~= w@.take(i as int).push(w@[i as int]));
            }
        }
        proof {
            assert(w@.take(len as int) =~= w@);
            lemma_first_disallowed_none_iff(game.center(), game.others(), w@);
        }
        if !has_center {
            return Err(GuessingError::MissingCenterLetter);
        }
        let m = game.others_len();
        let mut pangram = true;
        for t in 0..m
            invariant
                w@ == self.word(),
                m == game.others_seq().len(),
                len == w@.len(),
                4 <= len,
                dict.words().contains(w@),
                all_permitted(game.center(), game.others(), w@),
                first_disallowed(game.center(), game.others(), w@) is None,
                w@.contains(game.center()),
                pangram <==> (forall|k: int| 0 <= k < t ==> w@.contains(game.others_seq()[k])),
        {
            if !str_contains_char(w.as_str(), game.other_at(t)) {
                pangram = false;
            }
        }
        proof {
            if pangram {
                assert forall|c: char| game.others().contains(c) implies w@.contains(c) by {
                    let k = choose|k: int|
                        0 <= k < game.others_seq().len() && game.others_seq()[k] == c;
                    assert(w@.contains(game.others_seq()[k]));
                }
                assert(is_pangram(game.center(), game.others(), w@));
            } else {
                let k = choose|k: int| 0 <= k < m && !w@.contains(game.others_seq()[k]);
                assert(game.others().contains(game.others_seq()[k]));
                assert(!is_pangram(game.center(), game.others(), w@));
            }
        }
        let points = if pangram {
            (len - 3) + 7
        } else {
            len - 3
        };
        Ok(points)
    }
}

/// Whether the string contains the character.
pub fn str_contains_char(s: &str, c: char) -> (r: bool)
    ensures
        r == s@.contains(c),
{
    let len = s.unicode_len();
    for i in 0..len
        invariant
            len == s@.len(),
            forall|k: int| 0 <= k < i ==> s@[k] != c,
    {
        if s.get_char(i) == c {
            proof {
                assert(s@[i as int] == c);
            }
            return true;
        }
    }
    false
}

} // verus!
