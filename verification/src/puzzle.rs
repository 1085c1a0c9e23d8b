use vstd::prelude::*;

verus! {

/// A raw puzzle specification: the mandatory center letter plus the other
/// permitted letters, exactly as the caller supplied them.  The list may
/// contain duplicates and may even repeat the center letter; such a
/// specification is rejected during normalization.
#[derive(Debug)]
pub struct Game {
    center_letter: char,
    non_center_letters: Vec<char>,
}

impl Game {
    pub closed spec fn center(&self) -> char {
        self.center_letter
    }

    pub closed spec fn others(&self) -> Seq<char> {
        self.non_center_letters@
    }

    pub fn new(center_letter: char, non_center_letters: Vec<char>) -> (g: Game)
        ensures
            g.center() == center_letter,
            g.others() == non_center_letters@,
    {
        Game { center_letter, non_center_letters }
    }
}

/// Why a puzzle specification failed normalization.
#[derive(Debug, PartialEq, Eq, Structural)]
pub enum GameError {
    /// The center letter also appears among the non-center letters.
    InvalidPuzzle,
}

/// A validated puzzle: the non-center letters are de-duplicated and the
/// center letter is guaranteed not to be among them.
pub struct GameProcessed {
    center_letter: char,
    non_center_letters: Vec<char>,
}

impl GameProcessed {
    pub closed spec fn center(&self) -> char {
        self.center_letter
    }

    /// The non-center letters in their stored order, without duplicates.
    pub closed spec fn others_seq(&self) -> Seq<char> {
        self.non_center_letters@
    }

    /// The set of permitted non-center letters.
    pub open spec fn others(&self) -> Set<char> {
        self.others_seq().to_set()
    }

    pub open spec fn wf(&self) -> bool {
        &&& self.others_seq().no_duplicates()
        &&& !self.others_seq().contains(self.center())
    }

    pub fn center_char(&self) -> (c: char)
        ensures
            c == self.center(),
    {
        self.center_letter
    }

    pub fn others_len(&self) -> (n: usize)
        ensures
            n == self.others_seq().len(),
    {
        self.non_center_letters.len()
    }

    pub fn other_at(&self, i: usize) -> (c: char)
        requires
            i < self.others_seq().len(),
        ensures
            c == self.others_seq()[i as int],
    {
        self.non_center_letters[i]
    }

    /// Whether `c` is one of the permitted non-center letters.
    pub fn has_other(&self, c: char) -> (r: bool)
        ensures
            r == self.others().contains(c),
    {
        let r = contains_char(&self.non_center_letters, c);
        proof {
            assert(self.others().contains(c) == self.others_seq().contains(c));
        }
        r
    }

    /// The number of distinct permitted letters: the non-center letters
    /// plus the center letter itself.  Used for pangram detection.
    pub fn letter_count(&self) -> (n: usize)
        requires
            self.wf(),
        ensures
            n == self.others().len() + 1,
    {
        proof {
            lemma_distinct_chars_bounded(self.others_seq());
            self.others_seq().unique_seq_to_set();
        }
        self.non_center_letters.len() + 1
    }

    /// Normalizes a raw puzzle.  Fails exactly when the center letter is
    /// also listed among the non-center letters; otherwise the non-center
    /// letters are collapsed into a duplicate-free collection.
    pub fn try_from_game(game: &Game) -> (r: Result<GameProcessed, GameError>)
        ensures
            r is Err <==> game.others().contains(game.center()),
            r is Ok ==> r->Ok_0.wf(),
            r is Ok ==> r->Ok_0.center() == game.center(),
            r is Ok ==> r->Ok_0.others() == game.others().to_set(),
    {
        broadcast use vstd::seq_lib::group_seq_properties;

        if contains_char(&game.non_center_letters, game.center_letter) {
            return Err(GameError::InvalidPuzzle);
        }
        let n = game.non_center_letters.len();
        let mut letters: Vec<char> = Vec::new();
        for i in 0..n
            invariant
                n == game.others().len(),
                letters@.no_duplicates(),
                forall|c: char| letters@.contains(c) <==> game.others().take(i as int).contains(c),
                !game.others().contains(game.center()),
        {
            let c = game.non_center_letters[i];
            let ghost pre = letters@;
            if !contains_char(&letters, c) {
                letters.push(c);
            }
            proof {
                broadcast use vstd::seq_lib::group_seq_properties;

                assert(game.others().take(i + 1) =~= game.others().take(i as int).push(c));
                assert forall|d: char|
                    letters@.contains(d) <==> game.others().take(i + 1).contains(d) by {
                    assert(game.others().take(i as int).push(c).contains(d) <==> d == c
                        || game.others().take(i as int).contains(d));
                    if pre.contains(c) {
                        assert(letters@ == pre);
                    } else {
                        assert(letters@ == pre.push(c));
                        assert(letters@.contains(d) <==> d == c || pre.contains(d));
                    }
                }
            }
        }
        let p = GameProcessed { center_letter: game.center_letter, non_center_letters: letters };
        proof {
            assert(game.others().take(n as int) =~= game.others());
            assert(!p.others_seq().contains(p.center()));
            assert(p.others() =~= game.others().to_set());
        }
        Ok(p)
    }
}

/// Linear membership test on a vector of letters.
pub fn contains_char(v: &Vec<char>, c: char) -> (r: bool)
    ensures
        r == v@.contains(c),
{
    let n = v.len();
    for i in 0..n
        invariant
            n == v@.len(),
            forall|j: int| 0 <= j < i ==> v@[j] != c,
    {
        if v[i] == c {
            return true;
        }
    }
    false
}

/// A sequence of pairwise distinct characters can never be longer than the
/// number of Unicode scalar values.
pub proof fn lemma_distinct_chars_bounded(s: Seq<char>)
    requires
        s.no_duplicates(),
    ensures
        s.len() <= 0x110000,
{
    let codes = s.map_values(|c: char| c as u32 as int);
    assert forall|i: int, j: int|
        0 <= i < codes.len() && 0 <= j < codes.len() && i != j implies codes[i] != codes[j] by {
        if codes[i] == codes[j] {
            vstd::utf8::char_u32_cast(s[i], s[i] as u32);
            vstd::utf8::char_u32_cast(s[j], s[j] as u32);
        }
    }
    codes.unique_seq_to_set();
    assert forall|x: int| codes.to_set().contains(x) implies vstd::set_lib::set_int_range(
        0,
        0x110000,
    ).contains(x) by {
        let i = choose|i: int| 0 <= i < codes.len() && codes[i] == x;
        vstd::utf8::char_is_scalar(s[i]);
    }
    vstd::set_lib::lemma_int_range(0, 0x110000);
    vstd::set_lib::lemma_len_subset(
        codes.to_set(),
        vstd::set_lib::set_int_range(0, 0x110000),
    );
}

} // verus!
