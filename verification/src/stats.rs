use crate::letter::group_letter;
use crate::letter::Letter;
use crate::letter_map::lemma_letter_map_len;
use crate::letter_map::LetterMap;
use crate::letter_set::LetterSet;
use crate::word::ind;
use crate::word::lemma_word_len;
use crate::word::Word;
use vstd::prelude::*;

verus! {

broadcast use {group_letter, lemma_letter_map_len, lemma_word_len};

/// The largest pool of words whose statistics can be kept: five times its size fits in `u32`.
pub const MAX_WORDS: u32 = 858_993_459;

/// How many words of a pool hold both letters.
pub open spec fn pair_count(pool: Seq<Word>, x: Letter, y: Letter) -> nat
    decreases pool.len(),
{
    if pool.len() == 0 {
        0
    } else {
        pair_count(pool.drop_last(), x, y) + ind(
            pool.last().count(x) > 0 && pool.last().count(y) > 0,
        )
    }
}

/// What one letter adds to the relevance of a word in a pool: the size of the pool, less the
/// distance between the number of words that hold the letter and half the pool.
pub open spec fn pool_letter_score(pool: Seq<Word>, x: Letter) -> nat {
    let half = pool.len() / 2;
    let seen = pair_count(pool, x, x);
    if seen >= half {
        (pool.len() - (seen - half)) as nat
    } else {
        (pool.len() - (half - seen)) as nat
    }
}

/// The scores of the letters of the word among the first `n` letters of the alphabet, each
/// letter taken once.
pub open spec fn pool_relevance_upto(pool: Seq<Word>, word: Word, n: int) -> nat
    decreases n,
{
    if n <= 0 {
        0
    } else {
        pool_relevance_upto(pool, word, n - 1) + if word.count(Letter::from_index(n - 1)) > 0 {
            pool_letter_score(pool, Letter::from_index(n - 1))
        } else {
            0
        }
    }
}

/// The relevance of a word in a pool: the scores of its letters, each letter taken once. A
/// letter scores highest when half the words of the pool hold it.
pub open spec fn pool_relevance(pool: Seq<Word>, word: Word) -> nat {
    pool_relevance_upto(pool, word, 26)
}

/// How often each pair of letters stands together in a word of the pool of candidates.
#[derive(Debug)]
pub struct LetterStats {
    total: u32,
    counts: LetterMap<LetterMap<u32>>,
}

impl Clone for LetterStats {
    fn clone(&self) -> (r: Self)
        ensures
            r == *self,
    {
        proof {
            use_type_invariant(self);
        }
        LetterStats { total: self.total, counts: self.counts }
    }
}

impl LetterStats {
    /// The number of words in the pool.
    pub closed spec fn total(self) -> nat {
        self.total as nat
    }

    /// The number of words in the pool that hold both letters; for one letter taken twice, the
    /// number of words that hold it.
    pub closed spec fn count(self, x: Letter, y: Letter) -> nat {
        self.counts[x][y] as nat
    }

    /// No letter is counted in more words than the pool has, and the pool is not too large.
    #[verifier::type_invariant]
    pub open spec fn wf(self) -> bool {
        &&& self.total() <= MAX_WORDS
        &&& forall|x: Letter| x.wf() ==> #[trigger] self.count(x, x) <= self.total()
    }

    /// The statistics are those of this pool of words.
    pub open spec fn describes(self, pool: Seq<Word>) -> bool {
        &&& self.total() == pool.len()
        &&& forall|x: Letter, y: Letter|
            x.wf() && y.wf() ==> #[trigger] self.count(x, y) == pair_count(pool, x, y)
    }

    /// Whether `after` is these statistics with one word taken out: the total is one less, and
    /// so is the count of each pair of letters that the word holds.
    pub open spec fn minus(self, word: Word, after: LetterStats) -> bool {
        &&& after.total() == self.total() - 1
        &&& forall|x: Letter, y: Letter|
            x.wf() && y.wf() ==> #[trigger] after.count(x, y) == self.count(x, y) - ind(
                word.count(x) > 0 && word.count(y) > 0,
            )
    }

    /// What must hold of the statistics for a word to be taken out: the pool is not empty, each
    /// pair of letters of the word is counted, and a letter that the word lacks is not counted
    /// in every word.
    pub open spec fn can_remove(self, word: Word) -> bool {
        &&& self.total() > 0
        &&& forall|x: Letter, y: Letter|
            x.wf() && y.wf() && word.count(x) > 0 && word.count(y) > 0 ==> #[trigger] self.count(
                x,
                y,
            ) > 0
        &&& forall|x: Letter|
            x.wf() && word.count(x) == 0 ==> #[trigger] self.count(x, x) < self.total()
    }

    /// Takes one word out of the statistics.
    pub fn remove_word(&mut self, word: Word)
        requires
            old(self).can_remove(word),
        ensures
            old(self).minus(word, *final(self)),
    {
        proof {
            use_type_invariant(&*self);
        }
        let letters = LetterSet::from(word);
        let ghost before = self.counts;
        let ghost mut done: Set<Letter> = Set::empty();
        let mut rows = letters.iter();
        let mut row = rows.next();
        while row.is_some()
            invariant
                self.total == old(self).total,
                before == old(self).counts,
                old(self).wf(),
                old(self).can_remove(word),
                letters@ == word.letters(),
                forall|l: Letter| #[trigger]
                    letters@.contains(l) ==> done.contains(l) || rows@.contains(l) || row == Some(l),
                forall|l: Letter| #[trigger]
                    done.contains(l) ==> letters@.contains(l) && !rows@.contains(l) && row != Some(
                        l,
                    ),
                forall|l: Letter| #[trigger] rows@.contains(l) ==> letters@.contains(l) && row != Some(l),
                row is Some ==> letters@.contains(row->0),
                row is None ==> rows@ == Set::<Letter>::empty(),
                forall|x: Letter, y: Letter|
                    x.wf() && y.wf() ==> #[trigger] self.counts[x][y] == before[x][y] - ind(
                        done.contains(x) && letters@.contains(y),
                    ),
            decreases rows.measure() + ind(row.is_some()),
        {
            let x = row.unwrap();
            let ghost start = self.counts;
            let ghost mut done_here: Set<Letter> = Set::empty();
            let mut line: LetterMap<u32> = *self.counts.get(x);
            let mut columns = letters.iter();
            let mut column = columns.next();
            assert(letters@.contains(x));
            while column.is_some()
                invariant
                    x.wf(),
                    word.count(x) > 0,
                    letters@ == word.letters(),
                    old(self).can_remove(word),
                    before == old(self).counts,
                    forall|y: Letter| y.wf() ==> #[trigger] start[x][y] == before[x][y],
                    forall|l: Letter| #[trigger]
                        letters@.contains(l) ==> done_here.contains(l) || columns@.contains(l)
                            || column == Some(l),
                    forall|l: Letter| #[trigger]
                        done_here.contains(l) ==> letters@.contains(l) && !columns@.contains(l)
                            && column != Some(l),
                    forall|l: Letter| #[trigger]
                        columns@.contains(l) ==> letters@.contains(l) && column != Some(l),
                    column is Some ==> letters@.contains(column->0),
                    column is None ==> columns@ == Set::<Letter>::empty(),
                    forall|y: Letter|
                        y.wf() ==> #[trigger] line[y] == start[x][y] - ind(done_here.contains(y)),
                decreases columns.measure() + ind(column.is_some()),
            {
                let y = column.unwrap();
                assert(letters@.contains(y));
                assert(word.count(y) > 0);
                assert(old(self).count(x, y) > 0);
                assert(line[y] == before[x][y]);
                let seen: u32 = *line.get(y);
                let ghost line_before = line;
                line.set(y, seen - 1);
                proof {
                    done_here = done_here.insert(y);
                    assert forall|z: Letter| z.wf() implies #[trigger] line[z] == start[x][z]
                        - ind(done_here.contains(z)) by {
                        assert(line_before[z] == start[x][z] - ind(
                            done_here.remove(y).contains(z) && z != y,
                        ));
                        assert(z == y <==> z.index() == y.index());
                    }
                }
                column = columns.next();
            }
            let ghost counts_before = self.counts;
            proof {
                assert forall|z: Letter| z.wf() implies #[trigger] line[z] <= before[x][z] by {}
                assert forall|z: Letter| z.wf() implies #[trigger] self.counts[z][z] <= self.total by {
                    assert(old(self).count(z, z) <= old(self).total());
                    assert(self.counts[z][z] <= before[z][z]);
                }
                assert forall|i: int| 0 <= i < 26 implies (#[trigger] self.counts@[i])@[i]
                    <= self.total by {
                    let z = Letter::from_index(i);
                    assert(self.counts[z][z] <= self.total);
                }
                assert(line[x] <= before[x][x]);
                assert(line@[x.index()] <= self.total);
            }
            self.counts.set(x, line);
            proof {
                let ghost done_before = done;
                done = done.insert(x);
                assert(!done_before.contains(x));
                assert forall|a: Letter, b: Letter| a.wf() && b.wf() implies #[trigger] self.counts[a][b]
                    == before[a][b] - ind(done.contains(a) && letters@.contains(b)) by {
                    assert(a == x <==> a.index() == x.index());
                    assert(counts_before[a][b] == before[a][b] - ind(
                        done_before.contains(a) && letters@.contains(b),
                    ));
                    if a == x {
                        assert(self.counts[a] == line);
                        assert(line[b] == start[x][b] - ind(done_here.contains(b)));
                        assert(start[x][b] == before[x][b]);
                        assert(done_here.contains(b) == letters@.contains(b));
                    } else {
                        assert(self.counts[a] == counts_before[a]);
                    }
                }
            }
            row = rows.next();
        }
        proof {
            assert forall|z: Letter| z.wf() implies #[trigger] self.counts[z][z] <= self.total - 1 by {
                assert(self.counts[z][z] == before[z][z] - ind(
                    done.contains(z) && letters@.contains(z),
                ));
                assert(old(self).count(z, z) <= old(self).total());
                if word.count(z) == 0 {
                    assert(old(self).count(z, z) < old(self).total());
                } else {
                    assert(letters@.contains(z));
                }
            }
        }
        self.total = self.total - 1;
        proof {
            assert forall|x: Letter, y: Letter| x.wf() && y.wf() implies #[trigger] self.count(
                x,
                y,
            ) == old(self).count(x, y) - ind(word.count(x) > 0 && word.count(y) > 0) by {
                assert(self.counts[x][y] == before[x][y] - ind(
                    done.contains(x) && letters@.contains(y),
                ));
                assert(letters@.contains(x) == (word.count(x) > 0));
                assert(letters@.contains(y) == (word.count(y) > 0));
            }
        }
    }
}

/// Counts one more word for each pair of letters of a set.
fn add_pairs(counts: &mut LetterMap<LetterMap<u32>>, letters: LetterSet)
    requires
        forall|x: Letter, y: Letter|
            letters@.contains(x) && letters@.contains(y) ==> #[trigger] old(counts)[x][y]
                < u32::MAX,
    ensures
        forall|x: Letter, y: Letter|
            x.wf() && y.wf() ==> #[trigger] final(counts)[x][y] == old(counts)[x][y] + ind(
                letters@.contains(x) && letters@.contains(y),
            ),
{
    let ghost before = *counts;
    let ghost mut done: Set<Letter> = Set::empty();
    let mut rows = letters.iter();
    let mut row = rows.next();
    while row.is_some()
        invariant
            before == *old(counts),
            forall|x: Letter, y: Letter|
                letters@.contains(x) && letters@.contains(y) ==> #[trigger] before[x][y] < u32::MAX,
            forall|l: Letter| #[trigger]
                letters@.contains(l) ==> done.contains(l) || rows@.contains(l) || row == Some(l),
            forall|l: Letter| #[trigger]
                done.contains(l) ==> letters@.contains(l) && !rows@.contains(l) && row != Some(l),
            forall|l: Letter| #[trigger] rows@.contains(l) ==> letters@.contains(l) && row != Some(l),
            row is Some ==> letters@.contains(row->0),
            row is None ==> rows@ == Set::<Letter>::empty(),
            forall|x: Letter, y: Letter|
                x.wf() && y.wf() ==> #[trigger] counts[x][y] == before[x][y] + ind(
                    done.contains(x) && letters@.contains(y),
                ),
        decreases rows.measure() + ind(row.is_some()),
    {
        let x = row.unwrap();
        let ghost start = *counts;
        let ghost mut done_here: Set<Letter> = Set::empty();
        let mut line: LetterMap<u32> = *counts.get(x);
        let mut columns = letters.iter();
        let mut column = columns.next();
        while column.is_some()
            invariant
                x.wf(),
                letters@.contains(x),
                forall|x: Letter, y: Letter|
                    letters@.contains(x) && letters@.contains(y) ==> #[trigger] before[x][y]
                        < u32::MAX,
                forall|y: Letter| y.wf() ==> #[trigger] start[x][y] == before[x][y],
                forall|l: Letter| #[trigger]
                    letters@.contains(l) ==> done_here.contains(l) || columns@.contains(l) || column
                        == Some(l),
                forall|l: Letter| #[trigger]
                    done_here.contains(l) ==> letters@.contains(l) && !columns@.contains(l)
                        && column != Some(l),
                forall|l: Letter| #[trigger]
                    columns@.contains(l) ==> letters@.contains(l) && column != Some(l),
                column is Some ==> letters@.contains(column->0),
                column is None ==> columns@ == Set::<Letter>::empty(),
                forall|y: Letter|
                    y.wf() ==> #[trigger] line[y] == start[x][y] + ind(done_here.contains(y)),
            decreases columns.measure() + ind(column.is_some()),
        {
            let y = column.unwrap();
            assert(before[x][y] < u32::MAX);
            assert(line[y] == before[x][y]);
            let seen: u32 = *line.get(y);
            let ghost line_before = line;
            line.set(y, seen + 1);
            proof {
                let ghost here_before = done_here;
                done_here = done_here.insert(y);
                assert forall|z: Letter| z.wf() implies #[trigger] line[z] == start[x][z] + ind(
                    done_here.contains(z),
                ) by {
                    assert(line_before[z] == start[x][z] + ind(here_before.contains(z)));
                    assert(z == y <==> z.index() == y.index());
                }
            }
            column = columns.next();
        }
        let ghost counts_before = *counts;
        counts.set(x, line);
        proof {
            let ghost done_before = done;
            done = done.insert(x);
            assert(!done_before.contains(x));
            assert forall|a: Letter, b: Letter| a.wf() && b.wf() implies #[trigger] counts[a][b]
                == before[a][b] + ind(done.contains(a) && letters@.contains(b)) by {
                assert(a == x <==> a.index() == x.index());
                assert(counts_before[a][b] == before[a][b] + ind(
                    done_before.contains(a) && letters@.contains(b),
                ));
                if a == x {
                    assert(counts[a] == line);
                    assert(line[b] == start[x][b] + ind(done_here.contains(b)));
                    assert(start[x][b] == before[x][b]);
                    assert(done_here.contains(b) == letters@.contains(b));
                } else {
                    assert(counts[a] == counts_before[a]);
                }
            }
        }
        row = rows.next();
    }
}

/// To take the word at position `i` out of a pool takes it out of the count of each pair of
/// letters that it holds, and out of no other.
pub proof fn lemma_pair_count_remove(pool: Seq<Word>, i: int, x: Letter, y: Letter)
    requires
        0 <= i < pool.len(),
    ensures
        pair_count(pool.remove(i), x, y) == pair_count(pool, x, y) - ind(
            pool[i].count(x) > 0 && pool[i].count(y) > 0,
        ),
    decreases pool.len(),
{
    if i == pool.len() - 1 {
        assert(pool.remove(i) =~= pool.drop_last());
    } else {
        lemma_pair_count_remove(pool.drop_last(), i, x, y);
        assert(pool.remove(i).drop_last() =~= pool.drop_last().remove(i));
        assert(pool.remove(i).last() == pool.last());
    }
}

/// No pair of letters is counted in more words than the pool has.
pub proof fn lemma_pair_count_bound(pool: Seq<Word>, x: Letter, y: Letter)
    ensures
        pair_count(pool, x, y) <= pool.len(),
    decreases pool.len(),
{
    if pool.len() > 0 {
        lemma_pair_count_bound(pool.drop_last(), x, y);
    }
}

/// The statistics of a pool allow each of its words to be taken out.
pub proof fn lemma_describes_can_remove(stats: LetterStats, pool: Seq<Word>, i: int)
    requires
        stats.describes(pool),
        0 <= i < pool.len(),
    ensures
        stats.can_remove(pool[i]),
{
    let word = pool[i];
    assert forall|x: Letter, y: Letter|
        x.wf() && y.wf() && word.count(x) > 0 && word.count(y) > 0 implies #[trigger] stats.count(
        x,
        y,
    ) > 0 by {
        lemma_pair_count_remove(pool, i, x, y);
    }
    assert forall|x: Letter| x.wf() && word.count(x) == 0 implies #[trigger] stats.count(x, x)
        < stats.total() by {
        lemma_pair_count_remove(pool, i, x, x);
        lemma_pair_count_bound(pool.remove(i), x, x);
    }
}

/// Statistics of a pool from which the word at position `i` was taken out, as `remove_word`
/// does it, are the statistics of the pool without that word: the total is one less, and each
/// count is the number of words left that hold the pair.
pub proof fn lemma_remove_describes(
    before: LetterStats,
    after: LetterStats,
    pool: Seq<Word>,
    i: int,
)
    requires
        before.describes(pool),
        0 <= i < pool.len(),
        before.minus(pool[i], after),
    ensures
        after.describes(pool.remove(i)),
{
    assert forall|x: Letter, y: Letter| x.wf() && y.wf() implies #[trigger] after.count(x, y)
        == pair_count(pool.remove(i), x, y) by {
        lemma_pair_count_remove(pool, i, x, y);
        assert(before.count(x, y) == pair_count(pool, x, y));
    }
}

/// What is left of a pool after words are taken out one by one: each pick is the position, at
/// the time, of the word that goes.
pub open spec fn remaining(pool: Seq<Word>, picks: Seq<int>) -> Seq<Word>
    decreases picks.len(),
{
    if picks.len() == 0 {
        pool
    } else {
        remaining(pool, picks.drop_last()).remove(picks.last())
    }
}

/// Whether each pick is a position of the pool that is left at its time.
pub open spec fn picks_valid(pool: Seq<Word>, picks: Seq<int>) -> bool
    decreases picks.len(),
{
    picks.len() == 0 || (picks_valid(pool, picks.drop_last()) && 0 <= picks.last() < remaining(
        pool,
        picks.drop_last(),
    ).len())
}

/// After `k` words are taken out of the statistics of a pool, one by one as `remove_word` does
/// it, the total is `k` less, and the statistics are those of the words that are left: each
/// count is the number of words left that hold the pair, and for one letter the number of
/// words left that hold it.
pub proof fn lemma_removals(states: Seq<LetterStats>, pool: Seq<Word>, picks: Seq<int>)
    requires
        states.len() == picks.len() + 1,
        states[0].describes(pool),
        picks_valid(pool, picks),
        forall|j: int|
            0 <= j < picks.len() ==> (#[trigger] states[j]).minus(
                remaining(pool, picks.take(j))[picks[j]],
                states[j + 1],
            ),
    ensures
        states.last().describes(remaining(pool, picks)),
        states.last().total() == states[0].total() - picks.len(),
        remaining(pool, picks).len() == pool.len() - picks.len(),
    decreases picks.len(),
{
    if picks.len() > 0 {
        let k = picks.len() - 1;
        let earlier = picks.drop_last();
        let before = states.drop_last();
        assert(picks.take(k) =~= earlier);
        assert forall|j: int| 0 <= j < earlier.len() implies (#[trigger] before[j]).minus(
            remaining(pool, earlier.take(j))[earlier[j]],
            before[j + 1],
        ) by {
            assert(earlier.take(j) =~= picks.take(j));
            assert(states[j].minus(remaining(pool, picks.take(j))[picks[j]], states[j + 1]));
        }
        lemma_removals(before, pool, earlier);
        assert(before.last() == states[k]);
        assert(states[k].minus(remaining(pool, earlier)[picks[k]], states[k + 1]));
        lemma_remove_describes(states[k], states.last(), remaining(pool, earlier), picks[k]);
    }
}

/// Statistics of a pool hold, for each letter, the number of its words that hold the letter,
/// which is no more than the pool has.
pub proof fn lemma_describes_wf(stats: LetterStats, pool: Seq<Word>)
    requires
        stats.describes(pool),
        pool.len() <= MAX_WORDS,
    ensures
        stats.wf(),
{
    assert forall|x: Letter| x.wf() implies #[trigger] stats.count(x, x) <= stats.total() by {
        lemma_pair_count_bound(pool, x, x);
    }
}

impl LetterStats {
    /// The statistics of a pool of words.
    pub fn from_words(words: &[Word]) -> (r: LetterStats)
        requires
            words@.len() <= MAX_WORDS,
        ensures
            r.describes(words@),
            forall|i: int| 0 <= i < words@.len() ==> (#[trigger] words@[i]).wf(),
    {
        let mut total: u32 = 0;
        let mut counts: LetterMap<LetterMap<u32>> = LetterMap::filled(LetterMap::filled(0u32));
        let mut i: usize = 0;
        assert(words@.take(0) =~= Seq::<Word>::empty());
        while i < words.len()
            invariant
                i <= words@.len() <= MAX_WORDS,
                total == i,
                forall|j: int| 0 <= j < i ==> (#[trigger] words@[j]).wf(),
                forall|x: Letter, y: Letter|
                    x.wf() && y.wf() ==> #[trigger] counts[x][y] == pair_count(
                        words@.take(i as int),
                        x,
                        y,
                    ),
            decreases words@.len() - i,
        {
            let word = words[i];
            let letters = LetterSet::from(word);
            let ghost before = counts;
            proof {
                use_type_invariant(&word);
                assert forall|x: Letter, y: Letter|
                    letters@.contains(x) && letters@.contains(y) implies #[trigger] counts[x][y]
                    < u32::MAX by {
                    lemma_pair_count_bound(words@.take(i as int), x, y);
                }
            }
            add_pairs(&mut counts, letters);
            total += 1;
            proof {
                let pool = words@.take(i + 1);
                assert(pool.drop_last() =~= words@.take(i as int));
                assert(pool.last() == word);
                assert forall|x: Letter, y: Letter| x.wf() && y.wf() implies #[trigger] counts[x][y]
                    == pair_count(pool, x, y) by {
                    assert(before[x][y] == pair_count(words@.take(i as int), x, y));
                    assert(letters@.contains(x) == (word.count(x) > 0));
                    assert(letters@.contains(y) == (word.count(y) > 0));
                }
            }
            i += 1;
        }
        proof {
            assert(words@.take(words@.len() as int) =~= words@);
            assert forall|x: Letter| x.wf() implies #[trigger] counts[x][x] <= total by {
                lemma_pair_count_bound(words@, x, x);
            }
        }
        LetterStats { total, counts }
    }
}

impl Default for LetterStats {
    /// The statistics of the empty pool.
    fn default() -> (r: Self)
        ensures
            r.describes(Seq::<Word>::empty()),
    {
        LetterStats { total: 0, counts: LetterMap::filled(LetterMap::filled(0u32)) }
    }
}

impl LetterStats {
    /// What one letter adds to the relevance of a word: the size of the pool, less the distance
    /// between the number of words that hold the letter and half the pool.
    pub open spec fn letter_score(self, x: Letter) -> nat {
        let half = self.total() / 2;
        let seen = self.count(x, x);
        if seen >= half {
            (self.total() - (seen - half)) as nat
        } else {
            (self.total() - (half - seen)) as nat
        }
    }

    /// The scores of the letters of the word among the first `n` letters of the alphabet, each
    /// letter taken once.
    pub open spec fn relevance_upto(self, word: Word, n: int) -> nat
        decreases n,
    {
        if n <= 0 {
            0
        } else {
            self.relevance_upto(word, n - 1) + if word.count(Letter::from_index(n - 1)) > 0 {
                self.letter_score(Letter::from_index(n - 1))
            } else {
                0
            }
        }
    }

    /// The relevance of a word: the scores of its letters, each letter taken once.
    pub open spec fn relevance_spec(self, word: Word) -> nat {
        self.relevance_upto(word, 26)
    }

    /// Statistics of a pool give each word the relevance that it has in that pool.
    pub proof fn lemma_relevance_of_pool(self, pool: Seq<Word>, word: Word, n: int)
        requires
            self.describes(pool),
            0 <= n <= 26,
        ensures
            self.relevance_upto(word, n) == pool_relevance_upto(pool, word, n),
        decreases n,
    {
        if n > 0 {
            self.lemma_relevance_of_pool(pool, word, n - 1);
            let l = Letter::from_index(n - 1);
            assert(l.wf());
            assert(self.count(l, l) == pair_count(pool, l, l));
        }
    }

    /// The size of the pool, once for each position of the word that holds one of the first
    /// `n` letters of the alphabet.
    spec fn weight_below(self, word: Word, n: int) -> nat {
        (if word@[0].index() < n { self.total() } else { 0 }) + (if word@[1].index() < n {
            self.total()
        } else {
            0
        }) + (if word@[2].index() < n { self.total() } else { 0 }) + (if word@[3].index() < n {
            self.total()
        } else {
            0
        }) + (if word@[4].index() < n { self.total() } else { 0 })
    }

    /// Letters that the word lacks add nothing.
    proof fn lemma_relevance_skip(self, word: Word, a: int, b: int)
        requires
            0 <= a <= b <= 26,
            forall|l: Letter| l.wf() && a <= l.index() < b ==> word.count(l) == 0,
        ensures
            self.relevance_upto(word, b) == self.relevance_upto(word, a),
        decreases b - a,
    {
        if a < b {
            self.lemma_relevance_skip(word, a, b - 1);
            let l = Letter::from_index(b - 1);
            assert(l.wf() && l.index() == b - 1);
        }
    }

    /// Each letter of the word adds no more than the size of the pool.
    proof fn lemma_relevance_bound(self, word: Word, n: int)
        requires
            self.wf(),
            0 <= n <= 26,
        ensures
            self.relevance_upto(word, n) <= self.weight_below(word, n),
        decreases n,
    {
        if n > 0 {
            self.lemma_relevance_bound(word, n - 1);
            let l = Letter::from_index(n - 1);
            assert(l.wf() && l.index() == n - 1);
            assert(self.count(l, l) <= self.total());
            assert(self.letter_score(l) <= self.total());
            if word.count(l) > 0 {
                assert(word@[0] == l || word@[1] == l || word@[2] == l || word@[3] == l || word@[4]
                    == l);
            }
        }
    }

    /// The relevance of a word is at most five times the size of the pool.
    pub proof fn lemma_relevance_fits(self, word: Word)
        requires
            self.wf(),
        ensures
            self.relevance_spec(word) <= 5 * self.total() <= u32::MAX,
    {
        self.lemma_relevance_bound(word, 26);
    }

    /// How much a guess of the word would tell: the sum, over the letters of the word, each
    /// taken once, of the size of the pool less the distance between the number of words that
    /// hold the letter and half the pool.
    pub fn relevance(&self, word: Word) -> (r: u32)
        ensures
            r == self.relevance_spec(word),
    {
        proof {
            use_type_invariant(self);
        }
        let letters = LetterSet::from(word);
        let half: u32 = self.total / 2;
        let mut sum: u32 = 0;
        let ghost mut n: int = 0;
        let mut rest = letters.iter();
        let mut next = rest.next();
        while next.is_some()
            invariant
                self.wf(),
                letters@ == word.letters(),
                half == self.total / 2,
                0 <= n <= 26,
                sum == self.relevance_upto(word, n),
                forall|l: Letter|
                    #[trigger] letters@.contains(l) && l.index() >= n ==> next == Some(l)
                        || rest@.contains(l),
                forall|l: Letter| #[trigger]
                    rest@.contains(l) ==> letters@.contains(l) && (next is Some ==> l.index()
                        > next->0.index()),
                next is Some ==> letters@.contains(next->0) && next->0.index() >= n,
                next is None ==> rest@ == Set::<Letter>::empty(),
            decreases rest.measure() + ind(next.is_some()),
        {
            let x = next.unwrap();
            let seen: u32 = *self.counts.get(x).get(x);
            proof {
                assert(x.wf());
                assert forall|l: Letter| l.wf() && n <= l.index() < x.index() implies word.count(l)
                    == 0 by {
                    if word.count(l) > 0 {
                        assert(letters@.contains(l));
                    }
                }
                self.lemma_relevance_skip(word, n, x.index());
                self.lemma_relevance_bound(word, x.index() + 1);
                assert(Letter::from_index(x.index()) == x);
                assert(word.count(x) > 0);
                assert(self.count(x, x) <= self.total());
                assert(self.relevance_upto(word, x.index() + 1) == self.relevance_upto(
                    word,
                    x.index(),
                ) + self.letter_score(x));
            }
            let distance: u32 = if seen >= half {
                seen - half
            } else {
                half - seen
            };
            sum = sum + (self.total - distance);
            proof {
                n = x.index() + 1;
            }
            let ghost rest_before = rest@;
            next = rest.next();
            proof {
                assert forall|l: Letter| #[trigger]
                    rest@.contains(l) implies letters@.contains(l) && (next is Some ==> l.index()
                    > next->0.index()) by {
                    assert(rest_before.contains(l));
                    if next is Some {
                        let m = next->0;
                        assert(m.index() <= l.index());
                        assert(l != m);
                        assert(l == m <==> l.index() == m.index());
                    }
                }
                assert forall|l: Letter| #[trigger]
                    letters@.contains(l) && l.index() >= n implies next == Some(l) || rest@.contains(
                    l,
                ) by {
                    assert(l != x);
                    assert(rest_before.contains(l));
                }
            }
        }
        proof {
            assert forall|l: Letter| l.wf() && n <= l.index() < 26 implies word.count(l) == 0 by {
                if word.count(l) > 0 {
                    assert(letters@.contains(l));
                }
            }
            self.lemma_relevance_skip(word, n, 26);
        }
        sum
    }
}

} // verus!
