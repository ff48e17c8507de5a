use crate::feedback::Feedback;
use crate::filter::Filter;
use crate::filter::FilterView;
use crate::letter::Letter;
use crate::letter_set::LetterSet;
use crate::word::lemma_word_len;
use crate::stats::lemma_describes_can_remove;
use crate::stats::lemma_describes_wf;
use crate::stats::lemma_remove_describes;
use crate::stats::pool_relevance;
use crate::stats::LetterStats;
use crate::stats::MAX_WORDS;
use crate::word::Word;
use itertools::Itertools;
use vstd::prelude::*;

verus! {

/// The positions that `Itertools::k_largest_by_key` picks among scores, best first.
pub uninterp spec fn k_largest_positions(scores: Seq<u32>, k: usize) -> Seq<usize>;

/// Whether `ranking` lists positions of the `k` largest scores, or of all scores where there
/// are fewer: each position once, from the largest score down, and no score left out is
/// larger than one that was picked.
pub open spec fn is_top_ranking(scores: Seq<u32>, k: usize, ranking: Seq<usize>) -> bool {
    &&& ranking.len() == if k <= scores.len() {
        k as nat
    } else {
        scores.len()
    }
    &&& forall|i: int| 0 <= i < ranking.len() ==> (#[trigger] ranking[i]) < scores.len()
    &&& forall|i: int, j: int|
        0 <= i < j < ranking.len() ==> #[trigger] ranking[i] != #[trigger] ranking[j]
    &&& forall|i: int, j: int|
        0 <= i < j < ranking.len() ==> scores[#[trigger] ranking[i] as int]
            >= scores[#[trigger] ranking[j] as int]
    &&& forall|p: int, i: int|
        0 <= p < scores.len() && 0 <= i < ranking.len() && !ranking.contains(p as usize)
            ==> #[trigger] scores[p] <= scores[#[trigger] ranking[i] as int]
}

/// Calls `Itertools::k_largest_by_key` on the positions of `scores`, with the score at a
/// position as its key. The result is a function of the scores and of `k`. It holds `k`
/// positions, or all of them where there are fewer, each once, in descending order of their
/// scores, and no position left out has a larger score than one that was picked.
#[verifier::external_body]
fn k_largest_by_score(scores: &Vec<u32>, k: usize) -> (r: Vec<usize>)
    ensures
        r@ == k_largest_positions(scores@, k),
        is_top_ranking(scores@, k, r@),
{
    scores.iter().enumerate().k_largest_by_key(k, |pair| *pair.1).map(|pair| pair.0).collect()
}

/// The words of a pool that meet a filter, in the order of the pool.
pub open spec fn fitting(pool: Seq<Word>, filter: FilterView) -> Seq<Word> {
    pool.filter(|w: Word| w.fits(filter))
}

/// What a game holds: the words that may still be the secret, in the order in which they were
/// given, and what the rounds so far say of the secret.
pub struct GameView {
    pub pool: Seq<Word>,
    pub filter: FilterView,
}

impl GameView {
    /// The relevance of each word of the pool, in the pool.
    pub open spec fn scores(self) -> Seq<u32> {
        Seq::new(self.pool.len(), |i: int| pool_relevance(self.pool, self.pool[i]) as u32)
    }

    /// The words of the pool at the positions given.
    pub open spec fn picked(self, positions: Seq<usize>) -> Seq<Word> {
        Seq::new(positions.len(), |i: int| self.pool[positions[i] as int])
    }

    /// The `n` most relevant words of the pool, best first.
    pub open spec fn suggestions(self, n: usize) -> Seq<Word> {
        self.picked(k_largest_positions(self.scores(), n))
    }

    /// The most relevant word of the pool, where the pool holds a word.
    pub open spec fn suggestion(self) -> Option<Word> {
        if self.pool.len() == 0 {
            None
        } else {
            Some(self.pool[k_largest_positions(self.scores(), 1)[0] as int])
        }
    }

    /// The game after a round: the filter has taken in the guess and its feedback, and the pool
    /// keeps the words that meet the filter.
    pub open spec fn apply(self, word: Word, feedback: Seq<Feedback>) -> GameView {
        GameView {
            pool: fitting(self.pool, self.filter.restrict(word, feedback)),
            filter: self.filter.restrict(word, feedback),
        }
    }

    /// The letter that every word of the pool holds at position `p`, where there is one.
    pub open spec fn settled(self, p: int) -> Option<Letter> {
        if self.pool.len() > 0 && forall|i: int|
            0 <= i < self.pool.len() ==> (#[trigger] self.pool[i])@[p] == self.pool[0]@[p] {
            Some(self.pool[0]@[p])
        } else {
            None
        }
    }

    /// Whether every word of the pool holds the letter at one and the same position.
    pub open spec fn settled_letter(self, letter: Letter) -> bool {
        ||| self.settled(0) == Some(letter)
        ||| self.settled(1) == Some(letter)
        ||| self.settled(2) == Some(letter)
        ||| self.settled(3) == Some(letter)
        ||| self.settled(4) == Some(letter)
    }

    /// Whether every word of the pool holds the letter.
    pub open spec fn common(self, letter: Letter) -> bool {
        letter.wf() && forall|i: int|
            0 <= i < self.pool.len() ==> (#[trigger] self.pool[i]).count(letter) > 0
    }

    /// What to expect of position `p` of a guess, from the pool alone. Where every word of the
    /// pool holds the same letter there, that letter, green. Elsewhere the letter of the guess;
    /// a black one turns yellow where every word of the pool holds the letter, at no settled
    /// position.
    pub open spec fn expected_block(self, p: int, typed: Letter, color: Feedback) -> (
        Letter,
        Feedback,
    ) {
        match self.settled(p) {
            Some(letter) => (letter, Feedback::Green),
            None => if color == Feedback::Black && self.common(typed) && !self.settled_letter(
                typed,
            ) {
                (typed, Feedback::Yellow)
            } else {
                (typed, color)
            },
        }
    }

    /// The pool is not too large, and each of its words is made of letters of the alphabet and
    /// meets the filter.
    pub open spec fn wf(self) -> bool {
        &&& self.pool.len() <= MAX_WORDS
        &&& forall|i: int| 0 <= i < self.pool.len() ==> (#[trigger] self.pool[i]).wf()
        &&& forall|i: int| 0 <= i < self.pool.len() ==> (#[trigger] self.pool[i]).fits(self.filter)
    }
}

/// A game in progress: the words that may still be the secret, the filter that the rounds so
/// far have built, and the statistics of those words.
#[derive(Debug)]
pub struct Game {
    list: Vec<Word>,
    filter: Filter,
    stats: LetterStats,
}

impl View for Game {
    type V = GameView;

    closed spec fn view(&self) -> GameView {
        GameView { pool: self.list@, filter: self.filter@ }
    }
}

impl Game {
    /// The letter statistics that the game keeps.
    pub closed spec fn stats(self) -> LetterStats {
        self.stats
    }

    /// The statistics are those of the pool, and every word of the pool meets the filter.
    #[verifier::type_invariant]
    pub open spec fn wf(self) -> bool {
        &&& self@.wf()
        &&& self.stats().describes(self@.pool)
    }

    /// A game on a list of words, with no round played.
    pub fn new(list: Vec<Word>) -> (r: Self)
        requires
            list@.len() <= MAX_WORDS,
        ensures
            r@.pool == list@,
            r@.filter == Filter::default_view(),
            r.wf(),
    {
        let stats = LetterStats::from_words(list.as_slice());
        let filter = Filter::default();
        proof {
            assert forall|i: int| 0 <= i < list@.len() implies (#[trigger] list@[i]).fits(
                filter@,
            ) by {
                let w = list@[i];
                assert(w.wf());
                assert forall|p: int| 0 <= p < 5 implies (#[trigger] filter@.mask[p]).contains(
                    w@[p],
                ) by {
                    assert(w@[p].wf());
                }
            }
        }
        Game { list, filter, stats }
    }

    /// The words that may still be the secret.
    pub fn words(&self) -> (r: &[Word])
        ensures
            r@ == self@.pool,
    {
        self.list.as_slice()
    }

    /// The relevance that the statistics give to a word of the pool is its relevance in the
    /// pool, and fits in 32 bits.
    proof fn lemma_score(self, i: int)
        requires
            self.wf(),
            0 <= i < self@.pool.len(),
        ensures
            self@.scores()[i] == self.stats().relevance_spec(self@.pool[i]),
            self@.scores()[i] == pool_relevance(self@.pool, self@.pool[i]),
    {
        lemma_describes_wf(self.stats(), self@.pool);
        self.stats().lemma_relevance_fits(self@.pool[i]);
        self.stats().lemma_relevance_of_pool(self@.pool, self@.pool[i], 26);
    }
}

impl Clone for Game {
    fn clone(&self) -> (r: Self)
        ensures
            r@ == self@,
            r.stats() == self.stats(),
    {
        proof {
            use_type_invariant(self);
        }
        let list = self.list.clone();
        proof {
            assert(list@ =~= self.list@);
        }
        Game { list, filter: self.filter.clone(), stats: self.stats.clone() }
    }
}

impl Game {
    /// The words of the pool at the positions given, in the order given.
    pub fn words_at(&self, positions: &[usize]) -> (r: Vec<Word>)
        requires
            forall|i: int|
                0 <= i < positions@.len() ==> (#[trigger] positions@[i]) < self@.pool.len(),
        ensures
            r@ == self@.picked(positions@),
    {
        let mut out: Vec<Word> = Vec::new();
        let mut i: usize = 0;
        while i < positions.len()
            invariant
                i <= positions@.len(),
                forall|j: int|
                    0 <= j < positions@.len() ==> (#[trigger] positions@[j]) < self.list@.len(),
                out@ == self@.picked(positions@).take(i as int),
            decreases positions@.len() - i,
        {
            let word = self.list[positions[i]];
            out.push(word);
            proof {
                assert(self@.picked(positions@).take(i + 1) =~= self@.picked(positions@).take(
                    i as int,
                ).push(word));
            }
            i += 1;
        }
        proof {
            assert(self@.picked(positions@).take(positions@.len() as int) =~= self@.picked(
                positions@,
            ));
        }
        out
    }

    /// The `n` words of the pool with the largest relevance, or the whole pool where it holds
    /// fewer, from the most relevant down. Among words of equal relevance the choice and the
    /// order are those of `k_largest_positions`: the same for the same pool.
    pub fn suggested_words(&self, n: usize) -> (r: Vec<Word>)
        ensures
            r@ == self@.suggestions(n),
            is_top_ranking(self@.scores(), n, k_largest_positions(self@.scores(), n)),
    {
        proof {
            use_type_invariant(self);
        }
        let mut scores: Vec<u32> = Vec::new();
        let mut i: usize = 0;
        while i < self.list.len()
            invariant
                self.wf(),
                i <= self.list@.len(),
                scores@ == self@.scores().take(i as int),
            decreases self.list@.len() - i,
        {
            let score: u32 = self.stats.relevance(self.list[i]);
            scores.push(score);
            proof {
                self.lemma_score(i as int);
                assert(self@.scores().take(i + 1) =~= self@.scores().take(i as int).push(score));
            }
            i += 1;
        }
        proof {
            assert(self@.scores().take(self.list@.len() as int) =~= self@.scores());
        }
        let positions = k_largest_by_score(&scores, n);
        self.words_at(positions.as_slice())
    }

    /// The most relevant word of the pool, or nothing where the pool is empty.
    pub fn suggested_word(&self) -> (r: Option<Word>)
        ensures
            r == self@.suggestion(),
            r matches Some(word) ==> {
                &&& self@.pool.contains(word)
                &&& forall|i: int|
                    0 <= i < self@.pool.len() ==> pool_relevance(
                        self@.pool,
                        #[trigger] self@.pool[i],
                    ) <= pool_relevance(self@.pool, word)
            },
    {
        proof {
            use_type_invariant(self);
        }
        let best = self.suggested_words(1);
        if best.len() == 0 {
            None
        } else {
            let word = best[0];
            proof {
                let scores = self@.scores();
                let ranking = k_largest_positions(scores, 1);
                let p = ranking[0] as int;
                assert(ranking[0] < scores.len());
                assert(word == self@.pool[p]);
                assert forall|i: int| 0 <= i < self@.pool.len() implies pool_relevance(
                    self@.pool,
                    #[trigger] self@.pool[i],
                ) <= pool_relevance(self@.pool, word) by {
                    self.lemma_score(i);
                    self.lemma_score(p);
                    if i != p {
                        assert(!ranking.contains(i as usize)) by {
                            if ranking.contains(i as usize) {
                                let j = choose|j: int|
                                    0 <= j < ranking.len() && ranking[j] == i as usize;
                                assert(j == 0);
                            }
                        }
                        assert(scores[i] <= scores[ranking[0] as int]);
                    }
                }
            }
            Some(word)
        }
    }

    /// Takes in one round: the filter takes in the guess and its feedback, and the pool keeps
    /// the words that meet the filter; the statistics follow the pool.
    pub fn apply_feedback(&mut self, word: Word, feedback: [Feedback; 5])
        ensures
            final(self)@ == old(self)@.apply(word, feedback@),
            final(self).wf(),
    {
        proof {
            use_type_invariant(&*self);
        }
        let mut filter = self.filter.clone();
        filter.restrict(word, feedback);
        let mut stats = self.stats.clone();
        let mut kept: Vec<Word> = Vec::new();
        let mut i: usize = 0;
        let ghost pred = |w: Word| w.fits(filter@);
        assert(self.list@.take(0) =~= Seq::<Word>::empty());
        assert(kept@ + self.list@.skip(0) =~= self.list@);
        while i < self.list.len()
            invariant
                i <= self.list@.len() <= MAX_WORDS,
                pred == |w: Word| w.fits(filter@),
                kept@ == self.list@.take(i as int).filter(pred),
                kept@.len() <= i,
                stats.describes(kept@ + self.list@.skip(i as int)),
                forall|j: int| 0 <= j < self.list@.len() ==> (#[trigger] self.list@[j]).wf(),
                forall|j: int| 0 <= j < kept@.len() ==> (#[trigger] kept@[j]).wf(),
                forall|j: int| 0 <= j < kept@.len() ==> (#[trigger] kept@[j]).fits(filter@),
            decreases self.list@.len() - i,
        {
            let candidate = self.list[i];
            let ghost before = kept@ + self.list@.skip(i as int);
            let ghost stats_before = stats;
            proof {
                assert(self.list@.take(i + 1) =~= self.list@.take(i as int).push(candidate));
                self.list@.take(i as int).lemma_filter_push(candidate, pred);
                assert(before[kept@.len() as int] == candidate);
            }
            if candidate.matches(&filter) {
                kept.push(candidate);
                proof {
                    assert(kept@ + self.list@.skip(i + 1) =~= before);
                }
            } else {
                proof {
                    lemma_describes_can_remove(stats, before, kept@.len() as int);
                }
                stats.remove_word(candidate);
                proof {
                    lemma_remove_describes(stats_before, stats, before, kept@.len() as int);
                    assert(kept@ + self.list@.skip(i + 1) =~= before.remove(kept@.len() as int));
                }
            }
            i += 1;
        }
        proof {
            assert(self.list@.take(self.list@.len() as int) =~= self.list@);
            assert(kept@ + self.list@.skip(self.list@.len() as int) =~= kept@);
        }
        *self = Game { list: kept, filter, stats };
    }
}

impl Game {
    /// What the pool alone says of a guess and its feedback: the letters and colours to expect
    /// at each position, given the letters of the guess and the colours set so far.
    pub fn expected_feedback(&self, typed: [Letter; 5], colors: [Feedback; 5]) -> (r: (
        [Letter; 5],
        [Feedback; 5],
    ))
        ensures
            forall|p: int|
                0 <= p < 5 ==> (#[trigger] r.0@[p], r.1@[p]) == self@.expected_block(
                    p,
                    typed@[p],
                    colors@[p],
                ),
    {
        broadcast use lemma_word_len;

        proof {
            use_type_invariant(self);
        }
        let ghost pool = self@.pool;
        let none = LetterSet::empty();
        let mut remaining: [LetterSet; 5] = [none, none, none, none, none];
        let mut mandatory = LetterSet::full();
        let mut i: usize = 0;
        while i < self.list.len()
            invariant
                i <= self.list@.len(),
                pool == self.list@,
                forall|j: int| 0 <= j < pool.len() ==> (#[trigger] pool[j]).wf(),
                forall|l: Letter|
                    #[trigger] mandatory@.contains(l) <==> l.wf() && forall|j: int|
                        0 <= j < i ==> (#[trigger] pool[j]).count(l) > 0,
                forall|p: int, l: Letter|
                    0 <= p < 5 ==> (#[trigger] remaining[p]@.contains(l) <==> exists|j: int|
                        0 <= j < i && (#[trigger] pool[j])@[p] == l),
            decreases self.list@.len() - i,
        {
            let word = self.list[i];
            let ghost before = remaining;
            let ghost mandatory_before = mandatory;
            mandatory = mandatory.intersect(LetterSet::from(word));
            let mut p: usize = 0;
            while p < 5
                invariant
                    p <= 5,
                    word == pool[i as int],
                    forall|q: int, l: Letter|
                        0 <= q < p ==> (#[trigger] remaining[q]@.contains(l) <==> before[q]@.contains(
                            l,
                        ) || word@[q] == l),
                    forall|q: int| p <= q < 5 ==> #[trigger] remaining[q] == before[q],
                decreases 5 - p,
            {
                let mut set: LetterSet = remaining[p];
                set.insert(word.letter(p));
                remaining[p] = set;
                p += 1;
            }
            proof {
                assert forall|l: Letter| #[trigger] mandatory@.contains(l) <==> l.wf() && forall|
                    j: int,
                |
                    0 <= j < i + 1 ==> (#[trigger] pool[j]).count(l) > 0 by {
                    assert(mandatory@.contains(l) <==> mandatory_before@.contains(l)
                        && word.letters().contains(l));
                    if mandatory@.contains(l) {
                        assert forall|j: int| 0 <= j < i + 1 implies (#[trigger] pool[j]).count(l)
                            > 0 by {
                            if j < i {
                            }
                        }
                    }
                    if l.wf() && forall|j: int| 0 <= j < i + 1 ==> (#[trigger] pool[j]).count(l) > 0 {
                        assert(pool[i as int].count(l) > 0);
                        assert(mandatory_before@.contains(l));
                    }
                }
                assert forall|q: int, l: Letter| 0 <= q < 5 implies (
                #[trigger] remaining[q]@.contains(l) <==> exists|j: int|
                    0 <= j < i + 1 && (#[trigger] pool[j])@[q] == l) by {
                    if remaining[q]@.contains(l) {
                        if before[q]@.contains(l) {
                            let j = choose|j: int| 0 <= j < i && (#[trigger] pool[j])@[q] == l;
                            assert(0 <= j < i + 1 && pool[j]@[q] == l);
                        } else {
                            assert(pool[i as int]@[q] == l);
                        }
                    }
                    if exists|j: int| 0 <= j < i + 1 && (#[trigger] pool[j])@[q] == l {
                        let j = choose|j: int| 0 <= j < i + 1 && (#[trigger] pool[j])@[q] == l;
                        if j < i {
                            assert(before[q]@.contains(l));
                        }
                    }
                }
            }
            i += 1;
        }
        let mut letters: [Letter; 5] = typed;
        let mut out: [Feedback; 5] = colors;
        let ghost view = self@;
        let ghost all = mandatory;
        assert forall|l: Letter| all@.contains(l) == view.common(l) by {}
        let mut p: usize = 0;
        while p < 5
            invariant
                p <= 5,
                view == self@,
                pool == view.pool,
                forall|q: int, l: Letter|
                    0 <= q < 5 ==> (#[trigger] remaining[q]@.contains(l) <==> exists|j: int|
                        0 <= j < pool.len() && (#[trigger] pool[j])@[q] == l),
                forall|l: Letter| all@.contains(l) == view.common(l),
                forall|l: Letter|
                    #[trigger] mandatory@.contains(l) <==> all@.contains(l) && !exists|q: int|
                        0 <= q < p && view.settled(q) == Some(l),
                forall|q: int|
                    0 <= q < p ==> (#[trigger] letters@[q], out@[q]) == match view.settled(q) {
                        Some(l) => (l, Feedback::Green),
                        None => (typed@[q], colors@[q]),
                    },
                forall|q: int| p <= q < 5 ==> #[trigger] letters@[q] == typed@[q],
                forall|q: int| p <= q < 5 ==> #[trigger] out@[q] == colors@[q],
            decreases 5 - p,
        {
            let set: LetterSet = remaining[p];
            let ghost mandatory_before = mandatory;
            let found = set.exactly_one();
            proof {
                match found {
                    Some(l) => {
                        assert(set@.contains(l));
                        let j = choose|j: int| 0 <= j < pool.len() && (#[trigger] pool[j])@[p as int] == l;
                        assert forall|k: int| 0 <= k < pool.len() implies (#[trigger] pool[k])@[p as int]
                            == l by {
                            assert(set@.contains(pool[k]@[p as int]));
                        }
                        assert(view.settled(p as int) == Some(l));
                    },
                    None => {
                        if view.settled(p as int) is Some {
                            let l = pool[0]@[p as int];
                            assert(set@ =~= set![l]) by {
                                assert forall|x: Letter| set@.contains(x) <==> x == l by {
                                    if set@.contains(x) {
                                        let j = choose|j: int|
                                            0 <= j < pool.len() && (#[trigger] pool[j])@[p as int] == x;
                                        assert(pool[j]@[p as int] == l);
                                    }
                                    if x == l {
                                        assert(pool[0]@[p as int] == l);
                                    }
                                }
                            }
                        }
                    },
                }
            }
            match found {
                Some(l) => {
                    letters[p] = l;
                    out[p] = Feedback::Green;
                    mandatory.remove(l);
                },
                None => {},
            }
            proof {
                assert forall|l: Letter| #[trigger] mandatory@.contains(l) <==> all@.contains(l)
                    && !exists|q: int| 0 <= q < p + 1 && view.settled(q) == Some(l) by {
                    if exists|q: int| 0 <= q < p + 1 && view.settled(q) == Some(l) {
                        let q = choose|q: int| 0 <= q < p + 1 && view.settled(q) == Some(l);
                        if q < p {
                            assert(!mandatory_before@.contains(l));
                        }
                    }
                    if mandatory_before@.contains(l) && found != Some(l) {
                        if exists|q: int| 0 <= q < p + 1 && view.settled(q) == Some(l) {
                            let q = choose|q: int| 0 <= q < p + 1 && view.settled(q) == Some(l);
                            assert(q < p);
                        }
                    }
                }
            }
            p += 1;
        }
        proof {
            assert forall|l: Letter| #[trigger] mandatory@.contains(l) <==> view.common(l)
                && !view.settled_letter(l) by {
                if view.settled_letter(l) {
                    let q = if view.settled(0) == Some(l) {
                        0int
                    } else if view.settled(1) == Some(l) {
                        1int
                    } else if view.settled(2) == Some(l) {
                        2int
                    } else if view.settled(3) == Some(l) {
                        3int
                    } else {
                        4int
                    };
                    assert(0 <= q < 5 && view.settled(q) == Some(l));
                }
                if exists|q: int| 0 <= q < 5 && view.settled(q) == Some(l) {
                    let q = choose|q: int| 0 <= q < 5 && view.settled(q) == Some(l);
                    assert(view.settled_letter(l));
                }
            }
        }
        let ghost settled_letters = letters;
        let ghost settled_colors = out;
        let mut p: usize = 0;
        while p < 5
            invariant
                p <= 5,
                view == self@,
                letters == settled_letters,
                forall|l: Letter|
                    #[trigger] mandatory@.contains(l) <==> view.common(l) && !view.settled_letter(l),
                forall|q: int|
                    0 <= q < 5 ==> (#[trigger] settled_letters@[q], settled_colors@[q])
                        == match view.settled(q) {
                        Some(l) => (l, Feedback::Green),
                        None => (typed@[q], colors@[q]),
                    },
                forall|q: int|
                    0 <= q < p ==> (#[trigger] letters@[q], out@[q]) == view.expected_block(
                        q,
                        typed@[q],
                        colors@[q],
                    ),
                forall|q: int| p <= q < 5 ==> #[trigger] out@[q] == settled_colors@[q],
            decreases 5 - p,
        {
            let letter: Letter = letters[p];
            assert((settled_letters@[p as int], settled_colors@[p as int]) == match view.settled(
                p as int,
            ) {
                Some(l) => (l, Feedback::Green),
                None => (typed@[p as int], colors@[p as int]),
            });
            if out[p] == Feedback::Black && mandatory.contains(letter) {
                proof {
                    if view.settled(p as int) is Some {
                        assert(view.settled_letter(letter));
                    }
                }
                out[p] = Feedback::Yellow;
            }
            p += 1;
        }
        (letters, out)
    }
}

} // verus!
