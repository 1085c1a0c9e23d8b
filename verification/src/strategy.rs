use crate::dictionary::views_of;
use crate::dictionary::Dictionary;
use crate::evaluate::evaluation;
use crate::evaluate::str_contains_char;
use crate::evaluate::Guess;
use crate::game_result::entries_to_map;
use crate::game_result::entry_keys;
use crate::game_result::entry_views;
use crate::game_result::lemma_entries_to_map;
use crate::game_result::GameResult;
use crate::puzzle::contains_char;
use crate::puzzle::Game;
use crate::puzzle::GameError;
use crate::puzzle::GameProcessed;
use rayon::iter::IntoParallelRefIterator;
use rayon::iter::ParallelIterator;
use vstd::prelude::*;

verus! {

/// The entries a scan of `words` produces, in scan order: each word that the
/// evaluator accepts, paired with its points.
pub open spec fn accepted_entries(
    words: Seq<Seq<char>>,
    center: char,
    others: Set<char>,
    dict: Set<Seq<char>>,
) -> Seq<(Seq<char>, usize)>
    decreases words.len(),
{
    if words.len() == 0 {
        Seq::empty()
    } else {
        let rest = accepted_entries(words.drop_last(), center, others, dict);
        if evaluation(center, others, dict, words.last()) is Ok {
            rest.push((words.last(), evaluation(center, others, dict, words.last())->Ok_0))
        } else {
            rest
        }
    }
}

/// The mapping every strategy must produce for a puzzle over a dictionary:
/// exactly the accepted words, each sent to its points.
pub open spec fn solution(center: char, others: Set<char>, dict: Set<Seq<char>>) -> Map<
    Seq<char>,
    usize,
> {
    Map::new(
        |w: Seq<char>| evaluation(center, others, dict, w) is Ok,
        |w: Seq<char>| evaluation(center, others, dict, w)->Ok_0,
    )
}

/// What a scan collects: one entry per scanned word the evaluator accepts,
/// carrying that word's points.
pub proof fn lemma_accepted_entries(
    words: Seq<Seq<char>>,
    center: char,
    others: Set<char>,
    dict: Set<Seq<char>>,
)
    ensures
        forall|w: Seq<char>| #[trigger]
            entry_keys(accepted_entries(words, center, others, dict)).contains(w) <==> (
            words.contains(w) && evaluation(center, others, dict, w) is Ok),
        words.no_duplicates() ==> entry_keys(
            accepted_entries(words, center, others, dict),
        ).no_duplicates(),
        forall|i: int|
            0 <= i < accepted_entries(words, center, others, dict).len() ==> (#[trigger] accepted_entries(
                words,
                center,
                others,
                dict,
            )[i]).1 == evaluation(
                center,
                others,
                dict,
                accepted_entries(words, center, others, dict)[i].0,
            )->Ok_0,
    decreases words.len(),
{
    broadcast use vstd::seq_lib::group_seq_properties;

    if words.len() > 0 {
        let prefix = words.drop_last();
        lemma_accepted_entries(prefix, center, others, dict);
        let acc = accepted_entries(words, center, others, dict);
        let rest = accepted_entries(prefix, center, others, dict);
        if evaluation(center, others, dict, words.last()) is Ok {
            assert(entry_keys(acc) =~= entry_keys(rest).push(words.last()));
        } else {
            assert(entry_keys(acc) =~= entry_keys(rest));
        }
        assert forall|w: Seq<char>| #[trigger] entry_keys(acc).contains(w) implies (
        words.contains(w) && evaluation(center, others, dict, w) is Ok) by {
            if entry_keys(rest).contains(w) {
                let j = choose|j: int| 0 <= j < prefix.len() && prefix[j] == w;
                assert(words[j] == w);
            } else {
                assert(w == words.last());
            }
        }
        assert forall|w: Seq<char>|
            words.contains(w) && evaluation(center, others, dict, w) is Ok implies #[trigger] entry_keys(
            acc,
        ).contains(w) by {
            let j = choose|j: int| 0 <= j < words.len() && words[j] == w;
            if j < words.len() - 1 {
                assert(prefix[j] == w);
            }
        }
        if words.no_duplicates() {
            assert(prefix.no_duplicates());
            if evaluation(center, others, dict, words.last()) is Ok {
                assert(!prefix.contains(words.last()));
                assert(!entry_keys(rest).contains(words.last()));
            }
        }
    }
}

/// A scan over any duplicate-free word sequence that includes every accepted
/// word yields exactly the solution mapping.
pub proof fn lemma_scan_solution(
    words: Seq<Seq<char>>,
    center: char,
    others: Set<char>,
    dict: Set<Seq<char>>,
)
    requires
        words.no_duplicates(),
        forall|w: Seq<char>| evaluation(center, others, dict, w) is Ok ==> words.contains(w),
    ensures
        entry_keys(accepted_entries(words, center, others, dict)).no_duplicates(),
        entries_to_map(accepted_entries(words, center, others, dict)) == solution(
            center,
            others,
            dict,
        ),
{
    let acc = accepted_entries(words, center, others, dict);
    lemma_accepted_entries(words, center, others, dict);
    lemma_entries_to_map(acc);
    let m = entries_to_map(acc);
    assert forall|w: Seq<char>| #[trigger] m.dom().contains(w) implies solution(
        center,
        others,
        dict,
    ).dom().contains(w) by {
        assert(entry_keys(acc).contains(w));
    }
    assert forall|w: Seq<char>| #[trigger]
        solution(center, others, dict).dom().contains(w) implies m.dom().contains(w) by {
        assert(evaluation(center, others, dict, w) is Ok);
        assert(entry_keys(acc).contains(w));
    }
    assert forall|w: Seq<char>| #[trigger] m.dom().contains(w) implies m[w] == solution(
        center,
        others,
        dict,
    )[w] by {
        assert(entry_keys(acc).contains(w));
        let i = choose|i: int| 0 <= i < entry_keys(acc).len() && entry_keys(acc)[i] == w;
        assert(acc[i].0 == w);
        assert(m[acc[i].0] == acc[i].1);
    }
    assert(m =~= solution(center, others, dict));
}

/// Scores one word against the puzzle, keeping it with its points when the
/// evaluator accepts it.
fn score_word(word: &String, game: &GameProcessed, dict: &Dictionary) -> (r: Option<
    (String, usize),
>)
    requires
        game.wf(),
        dict.wf(),
    ensures
        (r is Some) == (evaluation(game.center(), game.others(), dict.words(), word@) is Ok),
        r is Some ==> r->Some_0.0@ == word@ && r->Some_0.1 == evaluation(
            game.center(),
            game.others(),
            dict.words(),
            word@,
        )->Ok_0,
{
    match Guess::new(word).eval_points(game, dict) {
        Ok(points) => Some((word.clone(), points)),
        Err(_) => None,
    }
}

/// Scans the given words in order, collecting each accepted word with its
/// points.
fn scan_words(words: &Vec<String>, game: &GameProcessed, dict: &Dictionary) -> (r: Vec<
    (String, usize),
>)
    requires
        game.wf(),
        dict.wf(),
    ensures
        entry_views(r@) == accepted_entries(
            views_of(words@),
            game.center(),
            game.others(),
            dict.words(),
        ),
{
    let ghost ws = views_of(words@);
    let n = words.len();
    let mut acc: Vec<(String, usize)> = Vec::new();
    for i in 0..n
        invariant
            game.wf(),
            dict.wf(),
            n == words@.len(),
            ws == views_of(words@),
            entry_views(acc@) == accepted_entries(
                ws.take(i as int),
                game.center(),
                game.others(),
                dict.words(),
            ),
    {
        let ghost pre = entry_views(acc@);
        match score_word(&words[i], game, dict) {
            Some(e) => {
                acc.push(e);
            },
            None => {},
        }
        proof {
            let prefix = ws.take(i as int);
            let longer = ws.take(i + 1);
            assert(longer.drop_last() =~= prefix);
            assert(longer.last() == ws[i as int]);
            assert(ws[i as int] == words@[i as int]@);
            if evaluation(game.center(), game.others(), dict.words(), ws[i as int]) is Ok {
                assert(entry_views(acc@) =~= pre.push(
                    (
                        ws[i as int],
                        evaluation(
                            game.center(),
                            game.others(),
                            dict.words(),
                            ws[i as int],
                        )->Ok_0,
                    ),
                ));
            }
            assert(entry_views(acc@) =~= accepted_entries(
                longer,
                game.center(),
                game.others(),
                dict.words(),
            ));
        }
    }
    proof {
        assert(ws.take(n as int) =~= ws);
    }
    acc
}

/// Relies on rayon's parallel iterator pipeline over a vector (`par_iter`,
/// `filter_map`, `collect` into `Vec`): every element is handed to the given
/// closure exactly once, and the collected vector holds the closure's
/// produced values in the input vector's order (rayon's collect for `Vec`
/// appends the per-split partial vectors left to right).  The closure only
/// calls the verified `score_word`.
#[verifier::external_body]
fn par_scan_words(words: &Vec<String>, game: &GameProcessed, dict: &Dictionary) -> (r: Vec<
    (String, usize),
>)
    requires
        game.wf(),
        dict.wf(),
    ensures
        entry_views(r@) == accepted_entries(
            views_of(words@),
            game.center(),
            game.others(),
            dict.words(),
        ),
{
    words.par_iter().filter_map(|word| score_word(word, game, dict)).collect()
}

/// One way of solving a puzzle over a fixed dictionary.  Every strategy must
/// produce the same mapping: exactly the accepted words with their points.
pub trait SolveStrategy<'a>: Sized {
    /// The words of the dictionary the strategy was constructed over.
    spec fn words(&self) -> Set<Seq<char>>;

    spec fn wf(&self) -> bool;

    fn new(dict: &'a Dictionary) -> (s: Self)
        requires
            dict.wf(),
        ensures
            s.wf(),
            s.words() == dict.words(),
    ;

    fn solve(&self, game: &GameProcessed) -> (r: GameResult)
        requires
            self.wf(),
            game.wf(),
        ensures
            r.wf(),
            r@ == solution(game.center(), game.others(), self.words()),
    ;
}

/// Solves by scanning every dictionary word.
pub struct BruteForce<'a> {
    dict: &'a Dictionary,
}

impl<'a> SolveStrategy<'a> for BruteForce<'a> {
    closed spec fn words(&self) -> Set<Seq<char>> {
        self.dict.words()
    }

    closed spec fn wf(&self) -> bool {
        self.dict.wf()
    }

    fn new(dict: &'a Dictionary) -> (s: Self) {
        BruteForce { dict }
    }

    fn solve(&self, game: &GameProcessed) -> (r: GameResult) {
        let entries = scan_words(self.dict.words_vec(), game, self.dict);
        proof {
            lemma_scan_solution(
                self.dict.word_seq(),
                game.center(),
                game.others(),
                self.dict.words(),
            );
        }
        GameResult::from_entries(entries)
    }
}

/// Solves by scanning every dictionary word, spreading the work over a
/// thread pool.
pub struct ParallelBruteForce<'a> {
    dict: &'a Dictionary,
}

impl<'a> SolveStrategy<'a> for ParallelBruteForce<'a> {
    closed spec fn words(&self) -> Set<Seq<char>> {
        self.dict.words()
    }

    closed spec fn wf(&self) -> bool {
        self.dict.wf()
    }

    fn new(dict: &'a Dictionary) -> (s: Self) {
        ParallelBruteForce { dict }
    }

    fn solve(&self, game: &GameProcessed) -> (r: GameResult) {
        let entries = par_scan_words(self.dict.words_vec(), game, self.dict);
        proof {
            lemma_scan_solution(
                self.dict.word_seq(),
                game.center(),
                game.others(),
                self.dict.words(),
            );
        }
        GameResult::from_entries(entries)
    }
}

/// The dictionary words that contain the letter `c`, in dictionary order.
pub open spec fn words_with(words: Seq<Seq<char>>, c: char) -> Seq<Seq<char>>
    decreases words.len(),
{
    if words.len() == 0 {
        Seq::empty()
    } else {
        let rest = words_with(words.drop_last(), c);
        if words.last().contains(c) {
            rest.push(words.last())
        } else {
            rest
        }
    }
}

/// `words_with` keeps exactly the words containing the letter, once each.
pub proof fn lemma_words_with(words: Seq<Seq<char>>, c: char)
    ensures
        forall|w: Seq<char>| #[trigger]
            words_with(words, c).contains(w) <==> (words.contains(w) && w.contains(c)),
        words.no_duplicates() ==> words_with(words, c).no_duplicates(),
    decreases words.len(),
{
    broadcast use vstd::seq_lib::group_seq_properties;

    if words.len() > 0 {
        let prefix = words.drop_last();
        lemma_words_with(prefix, c);
        let sub = words_with(words, c);
        let rest = words_with(prefix, c);
        assert forall|w: Seq<char>| #[trigger] sub.contains(w) implies (words.contains(w)
            && w.contains(c)) by {
            if rest.contains(w) {
                let j = choose|j: int| 0 <= j < prefix.len() && prefix[j] == w;
                assert(words[j] == w);
            } else {
                assert(w == words.last());
            }
        }
        assert forall|w: Seq<char>| words.contains(w) && w.contains(c) implies #[trigger] sub.contains(
            w,
        ) by {
            let j = choose|j: int| 0 <= j < words.len() && words[j] == w;
            if j < words.len() - 1 {
                assert(prefix[j] == w);
            }
        }
        if words.no_duplicates() {
            assert(prefix.no_duplicates());
            if words.last().contains(c) {
                assert(!prefix.contains(words.last()));
                assert(!rest.contains(words.last()));
            }
        }
    }
}

/// One bucket of the letter index: the dictionary words containing `letter`.
struct LetterBucket {
    letter: char,
    words: Vec<String>,
}

spec fn bucket_letters(bs: Seq<LetterBucket>) -> Seq<char> {
    bs.map_values(|b: LetterBucket| b.letter)
}

/// A sound and complete letter index over `words`: bucket letters are
/// distinct, each bucket holds exactly the words containing its letter, and
/// every letter occurring in some word has a bucket.
spec fn index_wf(bs: Seq<LetterBucket>, words: Seq<Seq<char>>) -> bool {
    &&& bucket_letters(bs).no_duplicates()
    &&& forall|j: int|
        0 <= j < bs.len() ==> views_of((#[trigger] bs[j]).words@) == words_with(
            words,
            bs[j].letter,
        )
    &&& forall|i: int, k: int|
        0 <= i < words.len() && 0 <= k < words[i].len() ==> bucket_letters(bs).contains(
            #[trigger] words[i][k],
        )
}

/// Collects the dictionary words containing the letter, in dictionary order.
fn collect_words_with(dict: &Dictionary, c: char) -> (r: Vec<String>)
    requires
        dict.wf(),
    ensures
        views_of(r@) == words_with(dict.word_seq(), c),
{
    let ghost ws = dict.word_seq();
    let n = dict.word_count();
    let mut acc: Vec<String> = Vec::new();
    for i in 0..n
        invariant
            dict.wf(),
            n == ws.len(),
            ws == dict.word_seq(),
            views_of(acc@) == words_with(ws.take(i as int), c),
    {
        let w = dict.word_at(i);
        let ghost pre = views_of(acc@);
        if str_contains_char(w.as_str(), c) {
            acc.push(w.clone());
        }
        proof {
            let prefix = ws.take(i as int);
            let longer = ws.take(i + 1);
            assert(longer.drop_last() =~= prefix);
            assert(longer.last() == ws[i as int]);
            if ws[i as int].contains(c) {
                assert(views_of(acc@) =~= pre.push(ws[i as int]));
            }
            assert(views_of(acc@) =~= words_with(longer, c));
        }
    }
    proof {
        assert(ws.take(n as int) =~= ws);
    }
    acc
}

/// Pushing a fresh bucket extends the index by one letter and keeps every
/// bucket describing exactly the words containing its letter.
proof fn lemma_index_push(
    pre: Seq<LetterBucket>,
    b: LetterBucket,
    post: Seq<LetterBucket>,
    letters: Seq<char>,
    t: int,
    ws: Seq<Seq<char>>,
)
    requires
        post == pre.push(b),
        0 <= t < letters.len(),
        bucket_letters(pre) == letters.take(t),
        b.letter == letters[t],
        views_of(b.words@) == words_with(ws, b.letter),
        forall|j: int|
            0 <= j < pre.len() ==> views_of((#[trigger] pre[j]).words@) == words_with(
                ws,
                pre[j].letter,
            ),
    ensures
        bucket_letters(post) == letters.take(t + 1),
        forall|j: int|
            0 <= j < post.len() ==> views_of((#[trigger] post[j]).words@) == words_with(
                ws,
                post[j].letter,
            ),
{
    assert(bucket_letters(pre).len() == pre.len());
    assert(letters.take(t).len() == t);
    assert(pre.len() == t);
    assert(post.len() == t + 1);
    assert(bucket_letters(post).len() == t + 1);
    assert(letters.take(t + 1).len() == t + 1);
    assert(bucket_letters(post) =~= letters.take(t + 1)) by {
        assert forall|i: int| 0 <= i < post.len() implies bucket_letters(post)[i] == letters.take(
            t + 1,
        )[i] by {
            if i < pre.len() {
                assert(post[i] == pre[i]);
                assert(bucket_letters(pre)[i] == letters.take(t)[i]);
            } else {
                assert(post[i] == b);
            }
        }
    }
    assert forall|j: int|
        0 <= j < post.len() implies views_of((#[trigger] post[j]).words@) == words_with(
        ws,
        post[j].letter,
    ) by {
        if j < pre.len() {
            assert(post[j] == pre[j]);
        } else {
            assert(post[j] == b);
        }
    }
}

/// Builds the letter index: first every letter occurring in some word, then
/// one bucket per letter.
#[verifier::rlimit(100)]
fn build_index(dict: &Dictionary) -> (bs: Vec<LetterBucket>)
    requires
        dict.wf(),
    ensures
        index_wf(bs@, dict.word_seq()),
{
    let ghost ws = dict.word_seq();
    let n = dict.word_count();
    let mut letters: Vec<char> = Vec::new();
    for i in 0..n
        invariant
            dict.wf(),
            n == ws.len(),
            ws == dict.word_seq(),
            letters@.no_duplicates(),
            forall|i2: int, k2: int|
                0 <= i2 < i && 0 <= k2 < ws[i2].len() ==> letters@.contains(
                    #[trigger] ws[i2][k2],
                ),
    {
        let w = dict.word_at(i);
        let wl = w.as_str().unicode_len();
        for k in 0..wl
            invariant
                dict.wf(),
                n == ws.len(),
                ws == dict.word_seq(),
                i < n,
                w@ == ws[i as int],
                wl == w@.len(),
                letters@.no_duplicates(),
                forall|i2: int, k2: int|
                    0 <= i2 < i && 0 <= k2 < ws[i2].len() ==> letters@.contains(
                        #[trigger] ws[i2][k2],
                    ),
                forall|k2: int| 0 <= k2 < k ==> letters@.contains(#[trigger] w@[k2]),
        {
            let c = w.as_str().get_char(k);
            let ghost pre = letters@;
            if !contains_char(&letters, c) {
                letters.push(c);
            }
            proof {
                broadcast use vstd::seq_lib::lemma_seq_contains_after_push;

                if letters@ != pre {
                    assert(letters@ == pre.push(c));
                }
            }
        }
    }
    let ln = letters.len();
    let mut bs: Vec<LetterBucket> = Vec::new();
    for t in 0..ln
        invariant
            dict.wf(),
            ws == dict.word_seq(),
            ln == letters@.len(),
            letters@.no_duplicates(),
            forall|i2: int, k2: int|
                0 <= i2 < ws.len() && 0 <= k2 < ws[i2].len() ==> letters@.contains(
                    #[trigger] ws[i2][k2],
                ),
            bucket_letters(bs@) == letters@.take(t as int),
            forall|j: int|
                0 <= j < bs@.len() ==> views_of((#[trigger] bs@[j]).words@) == words_with(
                    ws,
                    bs@[j].letter,
                ),
    {
        let c = letters[t];
        let bw = collect_words_with(dict, c);
        let b = LetterBucket { letter: c, words: bw };
        let ghost pre = bs@;
        let ghost gb = b;
        bs.push(b);
        proof {
            lemma_index_push(pre, gb, bs@, letters@, t as int, ws);
        }
    }
    proof {
        assert(letters@.take(ln as int) =~= letters@);
        assert(bucket_letters(bs@) == letters@);
    }
    bs
}

/// Finds the bucket for the letter, if the letter occurs in any word.
fn find_bucket(bs: &Vec<LetterBucket>, c: char) -> (r: Option<usize>)
    ensures
        r is Some ==> (r->Some_0 as int) < bs@.len() && bs@[r->Some_0 as int].letter == c,
        r is None ==> !bucket_letters(bs@).contains(c),
{
    let n = bs.len();
    for j in 0..n
        invariant
            n == bs@.len(),
            forall|j2: int| 0 <= j2 < j ==> bs@[j2].letter != c,
    {
        if bs[j].letter == c {
            return Some(j);
        }
    }
    proof {
        assert forall|j2: int|
            0 <= j2 < bucket_letters(bs@).len() implies bucket_letters(bs@)[j2] != c by {
            assert(bs@[j2].letter != c);
        }
    }
    None
}

/// Every accepted word contains the center letter, so when the index has a
/// bucket for it that bucket covers the whole solution; without a bucket the
/// solution is empty.
proof fn lemma_bucket_covers(
    bs: Seq<LetterBucket>,
    words: Seq<Seq<char>>,
    center: char,
    others: Set<char>,
    dict: Set<Seq<char>>,
)
    requires
        index_wf(bs, words),
        words.no_duplicates(),
        dict == words.to_set(),
    ensures
        forall|w: Seq<char>|
            evaluation(center, others, dict, w) is Ok ==> #[trigger] words_with(
                words,
                center,
            ).contains(w),
        !bucket_letters(bs).contains(center) ==> solution(center, others, dict) =~= Map::<
            Seq<char>,
            usize,
        >::empty(),
{
    lemma_words_with(words, center);
    assert forall|w: Seq<char>|
        evaluation(center, others, dict, w) is Ok implies #[trigger] words_with(
        words,
        center,
    ).contains(w) by {
        assert(dict.contains(w));
        assert(w.contains(center));
        assert(words.contains(w));
    }
    if !bucket_letters(bs).contains(center) {
        assert forall|w: Seq<char>|
            !(#[trigger] evaluation(center, others, dict, w) is Ok) by {
            if evaluation(center, others, dict, w) is Ok {
                assert(dict.contains(w));
                let i = choose|i: int| 0 <= i < words.len() && words[i] == w;
                assert(w.contains(center));
                let k = choose|k: int| 0 <= k < w.len() && w[k] == center;
                assert(bucket_letters(bs).contains(words[i][k]));
            }
        }
    }
}

/// Solves by scanning only the indexed words that contain the center letter.
pub struct LetterMap<'a> {
    letter_to_words: Vec<LetterBucket>,
    dict: &'a Dictionary,
}

impl<'a> SolveStrategy<'a> for LetterMap<'a> {
    closed spec fn words(&self) -> Set<Seq<char>> {
        self.dict.words()
    }

    closed spec fn wf(&self) -> bool {
        self.dict.wf() && index_wf(self.letter_to_words@, self.dict.word_seq())
    }

    fn new(dict: &'a Dictionary) -> (s: Self) {
        LetterMap { letter_to_words: build_index(dict), dict }
    }

    fn solve(&self, game: &GameProcessed) -> (r: GameResult) {
        let ghost ws = self.dict.word_seq();
        proof {
            lemma_bucket_covers(
                self.letter_to_words@,
                ws,
                game.center(),
                game.others(),
                self.dict.words(),
            );
        }
        match find_bucket(&self.letter_to_words, game.center_char()) {
            Some(j) => {
                let bucket = &self.letter_to_words[j];
                let entries = scan_words(&bucket.words, game, self.dict);
                proof {
                    lemma_words_with(ws, game.center());
                    lemma_scan_solution(
                        words_with(ws, game.center()),
                        game.center(),
                        game.others(),
                        self.dict.words(),
                    );
                }
                GameResult::from_entries(entries)
            },
            None => {
                let r = GameResult::from_entries(Vec::new());
                proof {
                    assert(r.entries() =~= Seq::<(Seq<char>, usize)>::empty());
                    assert(r@ =~= Map::<Seq<char>, usize>::empty());
                }
                r
            },
        }
    }
}

/// Solves by scanning only the indexed words that contain the center letter,
/// spreading the scan over a thread pool.
pub struct ParallelLetterMap<'a> {
    letter_to_words: Vec<LetterBucket>,
    dict: &'a Dictionary,
}

impl<'a> SolveStrategy<'a> for ParallelLetterMap<'a> {
    closed spec fn words(&self) -> Set<Seq<char>> {
        self.dict.words()
    }

    closed spec fn wf(&self) -> bool {
        self.dict.wf() && index_wf(self.letter_to_words@, self.dict.word_seq())
    }

    fn new(dict: &'a Dictionary) -> (s: Self) {
        ParallelLetterMap { letter_to_words: build_index(dict), dict }
    }

    fn solve(&self, game: &GameProcessed) -> (r: GameResult) {
        let ghost ws = self.dict.word_seq();
        proof {
            lemma_bucket_covers(
                self.letter_to_words@,
                ws,
                game.center(),
                game.others(),
                self.dict.words(),
            );
        }
        match find_bucket(&self.letter_to_words, game.center_char()) {
            Some(j) => {
                let bucket = &self.letter_to_words[j];
                let entries = par_scan_words(&bucket.words, game, self.dict);
                proof {
                    lemma_words_with(ws, game.center());
                    lemma_scan_solution(
                        words_with(ws, game.center()),
                        game.center(),
                        game.others(),
                        self.dict.words(),
                    );
                }
                GameResult::from_entries(entries)
            },
            None => {
                let r = GameResult::from_entries(Vec::new());
                proof {
                    assert(r.entries() =~= Seq::<(Seq<char>, usize)>::empty());
                    assert(r@ =~= Map::<Seq<char>, usize>::empty());
                }
                r
            },
        }
    }
}

/// Normalizes a puzzle and hands it to the chosen strategy.
pub struct GameSolver<S> {
    strategy: S,
}

impl<'a, S: SolveStrategy<'a>> GameSolver<S> {
    pub closed spec fn strategy(&self) -> S {
        self.strategy
    }

    pub open spec fn wf(&self) -> bool {
        self.strategy().wf()
    }

    /// The words of the dictionary the solver was constructed over.
    pub open spec fn words(&self) -> Set<Seq<char>> {
        self.strategy().words()
    }

    pub fn new(dict: &'a Dictionary) -> (s: Self)
        requires
            dict.wf(),
        ensures
            s.wf(),
            s.words() == dict.words(),
    {
        GameSolver { strategy: S::new(dict) }
    }

    /// Normalizes the raw puzzle — rejecting one whose center letter is
    /// repeated among the non-center letters — and, when it is valid, returns
    /// the solution mapping.
    pub fn solve(&self, game: &Game) -> (r: Result<GameResult, GameError>)
        requires
            self.wf(),
        ensures
            r is Err <==> game.others().contains(game.center()),
            r is Ok ==> r->Ok_0.wf() && r->Ok_0@ == solution(
                game.center(),
                game.others().to_set(),
                self.words(),
            ),
    {
        match GameProcessed::try_from_game(game) {
            Err(e) => Err(e),
            Ok(p) => Ok(self.strategy.solve(&p)),
        }
    }
}

} // verus!
