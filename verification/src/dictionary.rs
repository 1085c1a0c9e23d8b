use vstd::prelude::*;

verus! {

/// Whether `c` counts as an uppercase letter, exactly as `char::is_uppercase`
/// decides it.  The answer depends on the character alone.
pub uninterp spec fn is_upper(c: char) -> bool;

/// Relies on `char::is_uppercase` from std: whether the character has the
/// Unicode uppercase property, a function of the character alone.
#[verifier::external_body]
fn char_is_uppercase(c: char) -> (r: bool)
    ensures
        r == is_upper(c),
{
    c.is_uppercase()
}

/// A line of raw word-list text is kept as a dictionary word when it is all
/// uppercase and at least four letters long.  The upper length bound keeps
/// every point value a word can earn representable in a `usize`.
pub open spec fn kept_line(w: Seq<char>) -> bool {
    &&& 4 <= w.len() <= usize::MAX - 4
    &&& forall|k: int| 0 <= k < w.len() ==> is_upper(w[k])
}

/// The views of a vector of words.
pub open spec fn views_of(v: Seq<String>) -> Seq<Seq<char>> {
    v.map_values(|w: String| w@)
}

/// An immutable collection of distinct candidate words, shared read-only by
/// every solving strategy.
pub struct Dictionary {
    words: Vec<String>,
}

impl Dictionary {
    /// The stored words, in storage order.
    pub closed spec fn word_seq(&self) -> Seq<Seq<char>> {
        views_of(self.words@)
    }

    /// The set of words this dictionary contains.
    pub open spec fn words(&self) -> Set<Seq<char>> {
        self.word_seq().to_set()
    }

    pub open spec fn wf(&self) -> bool {
        &&& self.word_seq().no_duplicates()
        &&& forall|w: Seq<char>| #[trigger]
            self.words().contains(w) ==> 4 <= w.len() <= usize::MAX - 4
    }

    pub fn word_count(&self) -> (n: usize)
        ensures
            n == self.word_seq().len(),
    {
        self.words.len()
    }

    pub fn word_at(&self, i: usize) -> (w: &String)
        requires
            i < self.word_seq().len(),
        ensures
            w@ == self.word_seq()[i as int],
    {
        &self.words[i]
    }

    /// Read-only access to the stored words.
    pub fn words_vec(&self) -> (v: &Vec<String>)
        ensures
            views_of(v@) == self.word_seq(),
    {
        &self.words
    }

    /// Exact membership test.
    pub fn contains_word(&self, w: &String) -> (r: bool)
        ensures
            r == self.words().contains(w@),
    {
        contains_string(&self.words, w)
    }

    /// Builds a dictionary from raw word-list lines, as handed over by
    /// whatever collaborator acquired them: blank lines, lines with
    /// non-uppercase characters and words shorter than four letters are
    /// discarded, and duplicates are merged.
    pub fn from_lines(lines: &Vec<String>) -> (d: Dictionary)
        ensures
            d.wf(),
            forall|w: Seq<char>| #[trigger]
                d.words().contains(w) <==> ((exists|j: int|
                    0 <= j < lines@.len() && lines@[j]@ == w) && kept_line(w)),
    {
        let n = lines.len();
        let mut words: Vec<String> = Vec::new();
        for i in 0..n
            invariant
                n == lines@.len(),
                views_of(words@).no_duplicates(),
                forall|w: Seq<char>| #[trigger]
                    views_of(words@).contains(w) <==> ((exists|j: int|
                        0 <= j < i && lines@[j]@ == w) && kept_line(w)),
        {
            let line = &lines[i];
            let ghost pre = views_of(words@);
            if line_is_kept(line) && !contains_string(&words, line) {
                words.push(line.clone());
            }
            proof {
                broadcast use vstd::seq_lib::group_seq_properties;

                let post = views_of(words@);
                if post != pre {
                    assert(post =~= pre.push(line@));
                }
            }
        }
        let d = Dictionary { words };
        proof {
            assert forall|w: Seq<char>| #[trigger] d.words().contains(w) implies 4 <= w.len()
                <= usize::MAX - 4 by {
                assert(d.word_seq().contains(w));
            }
        }
        d
    }
}

/// Whether the raw line qualifies as a dictionary word.
fn line_is_kept(line: &String) -> (r: bool)
    ensures
        r == kept_line(line@),
{
    let len = line.as_str().unicode_len();
    if len < 4 || len > usize::MAX - 4 {
        return false;
    }
    for i in 0..len
        invariant
            len == line@.len(),
            4 <= len <= usize::MAX - 4,
            forall|k: int| 0 <= k < i ==> is_upper(line@[k]),
    {
        if !char_is_uppercase(line.as_str().get_char(i)) {
            return false;
        }
    }
    true
}

/// Linear membership test on a vector of words.
fn contains_string(v: &Vec<String>, s: &String) -> (r: bool)
    ensures
        r == views_of(v@).contains(s@),
{
    let n = v.len();
    for i in 0..n
        invariant
            n == v@.len(),
            forall|j: int| 0 <= j < i ==> v@[j]@ != s@,
    {
        let w = &v[i];
        if *w == *s {
            proof {
                assert(views_of(v@)[i as int] == s@);
            }
            return true;
        }
    }
    proof {
        let m = views_of(v@);
        assert forall|j: int| 0 <= j < m.len() implies m[j] != s@ by {
            assert(v@[j]@ != s@);
        }
    }
    false
}

} // verus!
