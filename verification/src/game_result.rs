use vstd::prelude::*;

verus! {

/// The outcome of one solve: every accepted word together with its points.
/// Viewed as a mapping from word to points.
#[derive(Debug)]
pub struct GameResult {
    word_to_points: Vec<(String, usize)>,
}

/// The views of stored (word, points) entries.
pub open spec fn entry_views(v: Seq<(String, usize)>) -> Seq<(Seq<char>, usize)> {
    v.map_values(|e: (String, usize)| (e.0@, e.1))
}

/// The words of a sequence of entries, in entry order.
pub open spec fn entry_keys(s: Seq<(Seq<char>, usize)>) -> Seq<Seq<char>> {
    s.map_values(|e: (Seq<char>, usize)| e.0)
}

/// The mapping described by a sequence of entries.
pub open spec fn entries_to_map(s: Seq<(Seq<char>, usize)>) -> Map<Seq<char>, usize>
    decreases s.len(),
{
    if s.len() == 0 {
        Map::empty()
    } else {
        entries_to_map(s.drop_last()).insert(s.last().0, s.last().1)
    }
}

/// The mapping described by entries has the entry words as its domain, and,
/// when no word repeats, sends each entry's word to that entry's points.
pub proof fn lemma_entries_to_map(s: Seq<(Seq<char>, usize)>)
    ensures
        entries_to_map(s).dom().finite(),
        forall|w: Seq<char>| #[trigger]
            entries_to_map(s).dom().contains(w) <==> entry_keys(s).contains(w),
        entry_keys(s).no_duplicates() ==> forall|i: int|
            0 <= i < s.len() ==> entries_to_map(s)[#[trigger] s[i].0] == s[i].1,
    decreases s.len(),
{
    broadcast use vstd::seq_lib::group_seq_properties;

    if s.len() > 0 {
        let rest = s.drop_last();
        lemma_entries_to_map(rest);
        assert(entry_keys(s) =~= entry_keys(rest).push(s.last().0));
        assert(entry_keys(rest) =~= entry_keys(s).drop_last());
        if entry_keys(s).no_duplicates() {
            assert forall|i: int| 0 <= i < s.len() implies entries_to_map(s)[#[trigger] s[i].0]
                == s[i].1 by {
                if i < s.len() - 1 {
                    assert(entry_keys(s)[i] == s[i].0);
                    assert(entry_keys(s)[s.len() - 1] == s.last().0);
                    assert(s[i].0 != s.last().0);
                    assert(rest[i] == s[i]);
                }
            }
        }
    }
}

/// Entries with pairwise distinct words describe a mapping with exactly one
/// domain element per entry.
pub proof fn lemma_entries_to_map_len(s: Seq<(Seq<char>, usize)>)
    requires
        entry_keys(s).no_duplicates(),
    ensures
        entries_to_map(s).dom().len() == s.len(),
    decreases s.len(),
{
    broadcast use vstd::seq_lib::group_seq_properties;

    if s.len() > 0 {
        let rest = s.drop_last();
        assert(entry_keys(rest) =~= entry_keys(s).drop_last());
        lemma_entries_to_map_len(rest);
        lemma_entries_to_map(rest);
        assert(entry_keys(s)[s.len() - 1] == s.last().0);
        assert forall|i: int| 0 <= i < rest.len() implies entry_keys(rest)[i] != s.last().0 by {
            assert(entry_keys(s)[i] == entry_keys(rest)[i]);
        }
        assert(!entry_keys(rest).contains(s.last().0));
        assert(!entries_to_map(rest).dom().contains(s.last().0));
        assert(entries_to_map(s).dom() =~= entries_to_map(rest).dom().insert(s.last().0));
    }
}

impl View for GameResult {
    type V = Map<Seq<char>, usize>;

    closed spec fn view(&self) -> Map<Seq<char>, usize> {
        entries_to_map(entry_views(self.word_to_points@))
    }
}

impl GameResult {
    /// The stored entries, in storage order.
    pub closed spec fn entries(&self) -> Seq<(Seq<char>, usize)> {
        entry_views(self.word_to_points@)
    }

    pub open spec fn wf(&self) -> bool {
        entry_keys(self.entries()).no_duplicates()
    }

    pub(crate) fn from_entries(entries: Vec<(String, usize)>) -> (r: GameResult)
        ensures
            r.entries() == entry_views(entries@),
            r@ == entries_to_map(entry_views(entries@)),
    {
        GameResult { word_to_points: entries }
    }

    /// How many words were accepted.
    pub fn len(&self) -> (n: usize)
        requires
            self.wf(),
        ensures
            n == self@.dom().len(),
            n == self.entries().len(),
    {
        proof {
            lemma_entries_to_map_len(self.entries());
        }
        self.word_to_points.len()
    }

    pub fn is_empty(&self) -> (r: bool)
        requires
            self.wf(),
        ensures
            r == (self@.dom() =~= Set::<Seq<char>>::empty()),
    {
        proof {
            lemma_entries_to_map(self.entries());
            if self.entries().len() == 0 {
                assert(self@ == Map::<Seq<char>, usize>::empty());
                assert(self@.dom() =~= Set::<Seq<char>>::empty());
            } else {
                assert(entry_keys(self.entries())[0] == self.entries()[0].0);
                assert(entry_keys(self.entries()).contains(self.entries()[0].0));
                assert(self@.dom().contains(self.entries()[0].0));
            }
        }
        self.word_to_points.len() == 0
    }

    /// The points this result assigns to `w`, if `w` was accepted.
    pub fn get(&self, w: &String) -> (r: Option<usize>)
        requires
            self.wf(),
        ensures
            r == (if self@.dom().contains(w@) {
                Some(self@[w@])
            } else {
                None
            }),
    {
        proof {
            lemma_entries_to_map(self.entries());
        }
        let n = self.word_to_points.len();
        for i in 0..n
            invariant
                self.wf(),
                n == self.entries().len(),
                forall|j: int| 0 <= j < i ==> self.entries()[j].0 != w@,
        {
            let e = &self.word_to_points[i];
            if e.0 == *w {
                proof {
                    lemma_entries_to_map(self.entries());
                    assert(self.entries()[i as int].0 == w@);
                    assert(entry_keys(self.entries())[i as int] == w@);
                }
                return Some(e.1);
            }
        }
        proof {
            lemma_entries_to_map(self.entries());
            assert forall|j: int|
                0 <= j < entry_keys(self.entries()).len() implies entry_keys(self.entries())[j]
                != w@ by {
                assert(self.entries()[j].0 != w@);
            }
        }
        None
    }

    /// How many entries the result holds.
    pub fn entry_count(&self) -> (n: usize)
        ensures
            n == self.entries().len(),
    {
        self.word_to_points.len()
    }

    /// The `i`-th accepted word and its points.
    pub fn entry_at(&self, i: usize) -> (e: (&String, usize))
        requires
            i < self.entries().len(),
        ensures
            e.0@ == self.entries()[i as int].0,
            e.1 == self.entries()[i as int].1,
    {
        let e = &self.word_to_points[i];
        (&e.0, e.1)
    }
}

} // verus!
