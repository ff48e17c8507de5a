use crate::feedback::matched_upto;
use crate::feedback::misplaced_upto;
use crate::feedback::score;
use crate::feedback::score_at;
use crate::feedback::unmatched;
use crate::feedback::Feedback;
use crate::letter::group_letter;
use crate::letter::Letter;
use crate::letter_map::lemma_letter_map_len;
use crate::letter_map::LetterMap;
use crate::letter_set::LetterSet;
use crate::word::ind;
use crate::word::lemma_word_len;
use crate::word::Word;
use vstd::prelude::*;

verus! {

broadcast use {group_letter, lemma_letter_map_len, lemma_word_len};

/// How many of the first `n` positions of a guess hold `letter` with a feedback other than black.
pub open spec fn confirmed_upto(word: Word, feedback: Seq<Feedback>, letter: Letter, n: int) -> nat {
    ind(0 < n && word@[0] == letter && feedback[0] != Feedback::Black) + ind(
        1 < n && word@[1] == letter && feedback[1] != Feedback::Black,
    ) + ind(2 < n && word@[2] == letter && feedback[2] != Feedback::Black) + ind(
        3 < n && word@[3] == letter && feedback[3] != Feedback::Black,
    ) + ind(4 < n && word@[4] == letter && feedback[4] != Feedback::Black)
}

/// How many occurrences of `letter` in the secret a round of feedback confirms.
pub open spec fn confirmed(word: Word, feedback: Seq<Feedback>, letter: Letter) -> nat {
    confirmed_upto(word, feedback, letter, 5)
}

/// Position `p` of the guess holds `letter`, is black, and no earlier position confirms the letter.
pub open spec fn absent_at(word: Word, feedback: Seq<Feedback>, letter: Letter, p: int) -> bool {
    word@[p] == letter && feedback[p] == Feedback::Black && confirmed_upto(word, feedback, letter, p)
        == 0
}

/// One of the first `n` positions of the guess shows that the secret does not hold `letter`.
pub open spec fn absent_upto(word: Word, feedback: Seq<Feedback>, letter: Letter, n: int) -> bool {
    ||| 0 < n && absent_at(word, feedback, letter, 0)
    ||| 1 < n && absent_at(word, feedback, letter, 1)
    ||| 2 < n && absent_at(word, feedback, letter, 2)
    ||| 3 < n && absent_at(word, feedback, letter, 3)
    ||| 4 < n && absent_at(word, feedback, letter, 4)
}

/// A round of feedback shows that the secret does not hold `letter` at all.
pub open spec fn absent(word: Word, feedback: Seq<Feedback>, letter: Letter) -> bool {
    absent_upto(word, feedback, letter, 5)
}

/// What a filter says: for each position the letters allowed there, and for each letter of the
/// alphabet, by its position in it, how many times a word must hold it at least.
pub struct FilterView {
    pub mask: Seq<Set<Letter>>,
    pub min_count: Seq<u8>,
}

impl FilterView {
    /// The letters allowed at position `q` once the first `n` positions of a round are taken in.
    pub open spec fn restrict_mask(
        self,
        word: Word,
        feedback: Seq<Feedback>,
        q: int,
        n: int,
    ) -> Set<Letter> {
        if q < n && feedback[q] == Feedback::Green {
            set![word@[q]]
        } else {
            Set::new(
                |x: Letter|
                    self.mask[q].contains(x) && !(q < n && x == word@[q]) && !absent_upto(
                        word,
                        feedback,
                        x,
                        n,
                    ),
            )
        }
    }

    /// The filter after a round: the guess `word` and the feedback it was given.
    ///
    /// A green position allows its letter alone. Any other position loses its own letter, and
    /// every letter that the round shows to be absent. Each letter must occur at least as often
    /// as the round confirms it, and as often as was asked before.
    pub open spec fn restrict(self, word: Word, feedback: Seq<Feedback>) -> FilterView {
        FilterView {
            mask: Seq::new(5, |q: int| self.restrict_mask(word, feedback, q, 5)),
            min_count: Seq::new(
                26,
                |i: int|
                    if confirmed(word, feedback, Letter::from_index(i)) > self.min_count[i] {
                        confirmed(word, feedback, Letter::from_index(i)) as u8
                    } else {
                        self.min_count[i]
                    },
            ),
        }
    }
}

/// The constraints that the rounds of feedback so far put on the secret word.
#[derive(Debug, PartialEq, Eq)]
pub struct Filter {
    pub mask: [LetterSet; 5],
    pub min_count: LetterMap<u8>,
}

impl Clone for Filter {
    fn clone(&self) -> (r: Self)
        ensures
            r == *self,
    {
        Filter { mask: self.mask, min_count: self.min_count }
    }
}

impl View for Filter {
    type V = FilterView;

    open spec fn view(&self) -> FilterView {
        FilterView { mask: Seq::new(5, |q: int| self.mask[q]@), min_count: self.min_count@ }
    }
}

impl Filter {
    /// What the filter says that allows every word.
    pub open spec fn default_view() -> FilterView {
        FilterView {
            mask: Seq::new(5, |q: int| Set::new(|l: Letter| l.wf())),
            min_count: Seq::new(26, |i: int| 0u8),
        }
    }
}

impl Default for Filter {
    /// The filter that allows every word.
    fn default() -> (r: Self)
        ensures
            r@ == Filter::default_view(),
            r.wf(),
    {
        let full = LetterSet::full();
        let mask: [LetterSet; 5] = [full, full, full, full, full];
        let r = Filter { mask, min_count: LetterMap::filled(0u8) };
        proof {
            assert forall|q: int| 0 <= q < 5 implies #[trigger] r.mask[q] == full by {
                assert(mask@[q] == full);
            }
            assert(r@.mask =~= Seq::new(5, |q: int| Set::new(|l: Letter| l.wf())));
            assert(r@.min_count =~= Seq::new(26, |i: int| 0u8));
        }
        r
    }
}

impl Filter {
    /// Each of the five sets holds letters of the alphabet only.
    pub open spec fn wf(self) -> bool {
        forall|q: int| 0 <= q < 5 ==> (#[trigger] self.mask[q]).wf()
    }
}

impl Filter {
    /// Takes in one round: the guess `word` and the feedback it was given.
    pub fn restrict(&mut self, word: Word, feedback: [Feedback; 5])
        ensures
            final(self)@ == old(self)@.restrict(word, feedback@),
            final(self).wf(),
    {
        let ghost before = old(self)@;
        let ghost fb = feedback@;
        let mut min_count: LetterMap<u8> = LetterMap::filled(0u8);
        let mut pos: usize = 0;
        let masks: [LetterSet; 5] = self.mask;
        let (m0, m1, m2, m3, m4) = (masks[0], masks[1], masks[2], masks[3], masks[4]);
        proof {
            use_type_invariant(&m0);
            use_type_invariant(&m1);
            use_type_invariant(&m2);
            use_type_invariant(&m3);
            use_type_invariant(&m4);
        }
        while pos < 5
            invariant
                pos <= 5,
                fb == feedback@,
                before == old(self)@,
                self.min_count == old(self).min_count,
                forall|l: Letter|
                    l.wf() ==> #[trigger] min_count[l] == confirmed_upto(word, fb, l, pos as int),
                forall|q: int|
                    0 <= q < 5 ==> (#[trigger] self.mask[q])@ == before.restrict_mask(
                        word,
                        fb,
                        q,
                        pos as int,
                    ),
                forall|q: int| 0 <= q < 5 ==> (#[trigger] self.mask[q]).wf(),
            decreases 5 - pos,
        {
            let letter = word.letter(pos);
            let ghost cur = self.mask;
            let ghost tally = min_count;
            match feedback[pos] {
                Feedback::Green => {
                    self.mask[pos] = LetterSet::from([letter]);
                    let seen: u8 = *min_count.get(letter);
                    min_count.set(letter, seen + 1);
                    proof {
                        assert([letter]@.to_set() =~= set![letter]);
                    }
                },
                Feedback::Yellow => {
                    let mut set: LetterSet = self.mask[pos];
                    set.remove(letter);
                    self.mask[pos] = set;
                    let seen: u8 = *min_count.get(letter);
                    min_count.set(letter, seen + 1);
                },
                Feedback::Black => {
                    if *min_count.get(letter) > 0 {
                        let mut set: LetterSet = self.mask[pos];
                        set.remove(letter);
                        self.mask[pos] = set;
                    } else {
                        let mut q: usize = 0;
                        while q < 5
                            invariant
                                q <= 5,
                                self.min_count == old(self).min_count,
                                forall|k: int|
                                    0 <= k < q ==> (#[trigger] self.mask[k])@ == cur[k]@.remove(
                                        letter,
                                    ),
                                forall|k: int| q <= k < 5 ==> #[trigger] self.mask[k] == cur[k],
                                forall|k: int| 0 <= k < 5 ==> (#[trigger] self.mask[k]).wf(),
                            decreases 5 - q,
                        {
                            let mut set: LetterSet = self.mask[q];
                            set.remove(letter);
                            self.mask[q] = set;
                            q += 1;
                        }
                    }
                },
            }
            proof {
                assert forall|l: Letter| l.wf() implies #[trigger] min_count[l] == confirmed_upto(
                    word,
                    fb,
                    l,
                    pos + 1,
                ) by {
                    assert(l == letter <==> l.index() == letter.index());
                    assert(tally[l] == confirmed_upto(word, fb, l, pos as int));
                    assert(fb[pos as int] == feedback[pos as int]);
                    assert(word@[pos as int] == letter);
                    assert(min_count[l] == tally[l] + ind(
                        l == letter && fb[pos as int] != Feedback::Black,
                    ));
                }
                assert forall|q: int| 0 <= q < 5 implies (#[trigger] self.mask[q])@
                    == before.restrict_mask(word, fb, q, pos + 1) by {
                    assert(cur[q]@ == before.restrict_mask(word, fb, q, pos as int));
                    assert(self.mask[q]@ =~= before.restrict_mask(word, fb, q, pos + 1));
                }
            }
            pos += 1;
        }
        let mut i: usize = 0;
        while i < 26
            invariant
                i <= 26,
                forall|q: int|
                    0 <= q < 5 ==> (#[trigger] self.mask[q])@ == before.restrict_mask(word, fb, q, 5),
                forall|q: int| 0 <= q < 5 ==> (#[trigger] self.mask[q]).wf(),
                before == old(self)@,
                forall|l: Letter|
                    l.wf() ==> #[trigger] min_count[l] == confirmed(word, fb, l),
                forall|k: int|
                    0 <= k < i ==> #[trigger] self.min_count@[k] == before.restrict(
                        word,
                        fb,
                    ).min_count[k],
                forall|k: int| i <= k < 26 ==> #[trigger] self.min_count@[k] == before.min_count[k],
            decreases 26 - i,
        {
            let letter = Letter::from_position(i);
            let new: u8 = *min_count.get(letter);
            if new > *self.min_count.get(letter) {
                self.min_count.set(letter, new);
            }
            i += 1;
        }
        proof {
            assert(self@.mask =~= before.restrict(word, fb).mask);
            assert(self@.min_count =~= before.restrict(word, fb).min_count);
        }
    }
}

impl Word {
    /// Whether the word meets what a filter says: each letter is allowed at its position, and
    /// each letter of the alphabet occurs as often as is asked.
    pub open spec fn fits(self, filter: FilterView) -> bool {
        &&& forall|p: int| 0 <= p < 5 ==> (#[trigger] filter.mask[p]).contains(self@[p])
        &&& forall|l: Letter| l.wf() ==> self.count(l) >= #[trigger] filter.min_count[l.index()]
    }

    /// Whether the word meets a filter.
    pub fn matches(self, filter: &Filter) -> (r: bool)
        ensures
            r == self.fits(filter@),
    {
        let mut p: usize = 0;
        while p < 5
            invariant
                p <= 5,
                forall|q: int| 0 <= q < p ==> (#[trigger] filter@.mask[q]).contains(self@[q]),
            decreases 5 - p,
        {
            let set: LetterSet = filter.mask[p];
            if !set.contains(self.letter(p)) {
                assert(!filter@.mask[p as int].contains(self@[p as int]));
                return false;
            }
            p += 1;
        }
        let count = self.letter_count();
        let mut i: usize = 0;
        while i < 26
            invariant
                i <= 26,
                forall|l: Letter| l.wf() ==> #[trigger] count[l] == self.count(l),
                forall|l: Letter|
                    l.wf() && l.index() < i ==> self.count(l) >= #[trigger] filter@.min_count[l.index()],
            decreases 26 - i,
        {
            let letter = Letter::from_position(i);
            if *count.get(letter) < *filter.min_count.get(letter) {
                assert(self.count(letter) < filter@.min_count[letter.index()]);
                return false;
            }
            i += 1;
        }
        true
    }
}

/// Two filters that say the same are the same filter.
pub proof fn lemma_filter_ext(a: Filter, b: Filter)
    requires
        a.wf(),
        b.wf(),
        a@ == b@,
    ensures
        a == b,
{
    assert forall|q: int| 0 <= q < 5 implies a.mask[q] == b.mask[q] by {
        assert(a@.mask[q] == b@.mask[q]);
        crate::letter_set::lemma_letter_set_ext(a.mask[q], b.mask[q]);
    }
    assert(a.mask =~= b.mask);
    crate::letter_map::lemma_letter_map_ext(a.min_count, b.min_count);
}

/// To take in the same round twice says no more than to take it in once.
pub proof fn lemma_restrict_idempotent(filter: FilterView, word: Word, feedback: Seq<Feedback>)
    ensures
        filter.restrict(word, feedback).restrict(word, feedback) == filter.restrict(word, feedback),
{
    let once = filter.restrict(word, feedback);
    let twice = once.restrict(word, feedback);
    assert forall|q: int| 0 <= q < 5 implies twice.mask[q] == once.mask[q] by {
        assert(twice.mask[q] =~= once.mask[q]);
    }
    assert(twice.mask =~= once.mask);
    assert(twice.min_count =~= once.min_count);
}

/// A filter that has taken in the same round twice is the filter that took it in once.
pub proof fn lemma_restrict_twice(start: Filter, once: Filter, twice: Filter, word: Word, feedback: Seq<Feedback>)
    requires
        once.wf(),
        twice.wf(),
        once@ == start@.restrict(word, feedback),
        twice@ == once@.restrict(word, feedback),
    ensures
        twice == once,
{
    lemma_restrict_idempotent(start@, word, feedback);
    lemma_filter_ext(once, twice);
}

/// The feedback that a guess gets against a secret never shows a letter of the secret to be
/// absent.
pub proof fn lemma_score_keeps_letters(secret: Word, guess: Word, p: int)
    requires
        0 <= p < 5,
    ensures
        !absent(guess, score(secret, guess), secret@[p]) || guess@[p] == secret@[p],
{
    let fb = score(secret, guess);
    let x = secret@[p];
    assert forall|j: int| 0 <= j < 5 implies fb[j] == score_at(secret, guess, j) by {}
    if guess@[p] != x {
        assert(unmatched(secret, guess, x) >= 1);
        assert forall|j: int| 0 <= j < 5 implies !absent_at(guess, fb, x, j) by {
            if guess@[j] == x && fb[j] == Feedback::Black {
                assert(misplaced_upto(secret, guess, x, j) >= 1);
                assert(fb[0] == score_at(secret, guess, 0));
                assert(fb[1] == score_at(secret, guess, 1));
                assert(fb[2] == score_at(secret, guess, 2));
                assert(fb[3] == score_at(secret, guess, 3));
                assert(confirmed_upto(guess, fb, x, j) >= 1);
            }
        }
    }
}

/// One more position adds its own term to each of the three counts.
pub proof fn lemma_count_steps(
    secret: Word,
    guess: Word,
    feedback: Seq<Feedback>,
    letter: Letter,
    k: int,
)
    requires
        0 <= k < 5,
    ensures
        confirmed_upto(guess, feedback, letter, k + 1) == confirmed_upto(guess, feedback, letter, k)
            + ind(guess@[k] == letter && feedback[k] != Feedback::Black),
        matched_upto(secret, guess, letter, k + 1) == matched_upto(secret, guess, letter, k) + ind(
            guess@[k] == letter && secret@[k] == letter,
        ),
        misplaced_upto(secret, guess, letter, k + 1) == misplaced_upto(secret, guess, letter, k)
            + ind(guess@[k] == letter && secret@[k] != letter),
{
    if k == 0 {
    } else if k == 1 {
    } else if k == 2 {
    } else if k == 3 {
    } else {
    }
}

/// Up to any position, the feedback confirms a letter no more often than it stands in place
/// or is misplaced, and the misplaced share stays within what the secret holds out of place.
proof fn lemma_confirmed_bound(secret: Word, guess: Word, letter: Letter, n: int)
    requires
        0 <= n <= 5,
    ensures
        confirmed_upto(guess, score(secret, guess), letter, n) <= matched_upto(
            secret,
            guess,
            letter,
            n,
        ) + misplaced_upto(secret, guess, letter, n),
        confirmed_upto(guess, score(secret, guess), letter, n) <= matched_upto(
            secret,
            guess,
            letter,
            n,
        ) + unmatched(secret, guess, letter),
    decreases n,
{
    let fb = score(secret, guess);
    if n > 0 {
        let k = n - 1;
        lemma_confirmed_bound(secret, guess, letter, k);
        lemma_count_steps(secret, guess, fb, letter, k);
        let c0 = confirmed_upto(guess, fb, letter, k);
        let m0 = matched_upto(secret, guess, letter, k);
        let w0 = misplaced_upto(secret, guess, letter, k);
        let u = unmatched(secret, guess, letter);
        assert(fb[k] == score_at(secret, guess, k));
        if guess@[k] == letter {
            if secret@[k] == letter {
                assert(fb[k] == Feedback::Green);
            } else if w0 < u {
                assert(fb[k] == Feedback::Yellow);
            } else {
                assert(fb[k] == Feedback::Black);
            }
        }
    } else {
        assert(confirmed_upto(guess, fb, letter, 0) == 0);
    }
}

/// The feedback that a guess gets against a secret confirms no more occurrences of a letter
/// than the secret holds.
pub proof fn lemma_score_confirms_at_most(secret: Word, guess: Word, letter: Letter)
    ensures
        confirmed(guess, score(secret, guess), letter) <= secret.count(letter),
{
    lemma_confirmed_bound(secret, guess, letter, 5);
    lemma_count_split(secret, guess, letter);
}

/// Each occurrence of a letter in the secret is either met by the guess in place or not.
pub proof fn lemma_count_split(secret: Word, guess: Word, letter: Letter)
    ensures
        secret.count(letter) == matched_upto(secret, guess, letter, 5) + unmatched(
            secret,
            guess,
            letter,
        ),
{
}

/// A secret that meets a filter still meets it after the filter has taken in a guess with the
/// feedback that the guess gets against that secret.
pub proof fn lemma_restrict_sound(filter: FilterView, secret: Word, guess: Word)
    requires
        secret.fits(filter),
    ensures
        secret.fits(filter.restrict(guess, score(secret, guess))),
{
    let fb = score(secret, guess);
    let after = filter.restrict(guess, fb);
    assert forall|p: int| 0 <= p < 5 implies (#[trigger] after.mask[p]).contains(secret@[p]) by {
        lemma_score_keeps_letters(secret, guess, p);
        assert(fb[p] == score_at(secret, guess, p));
        assert(filter.mask[p].contains(secret@[p]));
    }
    assert forall|l: Letter| l.wf() implies secret.count(l) >= #[trigger] after.min_count[l.index()] by {
        lemma_score_confirms_at_most(secret, guess, l);
        assert(secret.count(l) >= filter.min_count[l.index()]);
    }
}

/// A guess whose feedback is not green throughout does not meet the filter that has taken
/// that round in.
pub proof fn lemma_guess_excluded(filter: FilterView, guess: Word, feedback: Seq<Feedback>, p: int)
    requires
        0 <= p < 5,
        feedback[p] != Feedback::Green,
    ensures
        !guess.fits(filter.restrict(guess, feedback)),
{
    let after = filter.restrict(guess, feedback);
    assert(!after.mask[p].contains(guess@[p]));
}

/// The filter after a series of guesses, each taken in with the feedback that it gets
/// against one secret.
pub open spec fn restrict_all(filter: FilterView, secret: Word, guesses: Seq<Word>) -> FilterView
    decreases guesses.len(),
{
    if guesses.len() == 0 {
        filter
    } else {
        restrict_all(filter, secret, guesses.drop_last()).restrict(
            guesses.last(),
            score(secret, guesses.last()),
        )
    }
}

/// A secret that meets a filter meets it after any series of guesses, each taken in with the
/// feedback that it gets against that secret: the secret is never excluded.
pub proof fn lemma_rounds_sound(filter: FilterView, secret: Word, guesses: Seq<Word>)
    requires
        secret.fits(filter),
    ensures
        secret.fits(restrict_all(filter, secret, guesses)),
    decreases guesses.len(),
{
    if guesses.len() > 0 {
        lemma_rounds_sound(filter, secret, guesses.drop_last());
        lemma_restrict_sound(
            restrict_all(filter, secret, guesses.drop_last()),
            secret,
            guesses.last(),
        );
    }
}

/// A round only tightens a filter: no minimum count falls, a position that is not green
/// allows no letter that it did not allow before, and a green position allows its letter
/// alone.
pub proof fn lemma_restrict_tightens(filter: FilterView, word: Word, feedback: Seq<Feedback>)
    requires
        filter.min_count.len() == 26,
    ensures
        forall|i: int|
            0 <= i < 26 ==> #[trigger] filter.restrict(word, feedback).min_count[i]
                >= filter.min_count[i],
        forall|q: int|
            0 <= q < 5 && feedback[q] != Feedback::Green ==> (#[trigger] filter.restrict(
                word,
                feedback,
            ).mask[q]).subset_of(filter.mask[q]),
        forall|q: int|
            0 <= q < 5 && feedback[q] == Feedback::Green ==> #[trigger] filter.restrict(
                word,
                feedback,
            ).mask[q] == set![word@[q]],
{
}

} // verus!
