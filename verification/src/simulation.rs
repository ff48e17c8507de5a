use crate::feedback::all_green;
use crate::feedback::matched_upto;
use crate::feedback::misplaced_upto;
use crate::feedback::score;
use crate::feedback::score_at;
use crate::feedback::unmatched;
use crate::feedback::Feedback;
use crate::filter::lemma_count_steps;
use crate::filter::lemma_guess_excluded;
use crate::filter::FilterView;
use crate::filter::lemma_restrict_sound;
use crate::game::fitting;
use crate::game::Game;
use crate::game::GameView;
use crate::word::lemma_word_ext;
use crate::letter::group_letter;
use crate::letter::Letter;
use crate::letter_map::lemma_letter_map_len;
use crate::letter_map::LetterMap;
use crate::word::lemma_word_len;
use crate::word::Word;
use vstd::prelude::*;

verus! {

broadcast use {group_letter, lemma_letter_map_len, lemma_word_len};

/// The feedback that a guess gets against a secret: green where the two agree, then yellow
/// for the other letters of the guess, in order, as long as the secret holds an occurrence
/// that no green and no earlier yellow has claimed.
pub fn feedback_for(secret: Word, guess: Word) -> (r: [Feedback; 5])
    ensures
        r@ == score(secret, guess),
{
    let mut missing: LetterMap<u8> = secret.letter_count();
    let mut feedback: [Feedback; 5] = [
        Feedback::Black,
        Feedback::Black,
        Feedback::Black,
        Feedback::Black,
        Feedback::Black,
    ];
    let mut i: usize = 0;
    while i < 5
        invariant
            i <= 5,
            forall|l: Letter|
                l.wf() ==> #[trigger] missing[l] == secret.count(l) - matched_upto(
                    secret,
                    guess,
                    l,
                    i as int,
                ),
            forall|j: int|
                0 <= j < 5 ==> #[trigger] feedback@[j] == if j < i && guess@[j] == secret@[j] {
                    Feedback::Green
                } else {
                    Feedback::Black
                },
        decreases 5 - i,
    {
        let letter = guess.letter(i);
        let ghost before = missing;
        if letter == secret.letter(i) {
            assert(secret.count(letter) - matched_upto(secret, guess, letter, i as int) >= 1);
            let left: u8 = *missing.get(letter);
            missing.set(letter, left - 1);
            feedback[i] = Feedback::Green;
        }
        proof {
            assert forall|l: Letter| l.wf() implies #[trigger] missing[l] == secret.count(l)
                - matched_upto(secret, guess, l, i + 1) by {
                lemma_count_steps(secret, guess, feedback@, l, i as int);
                assert(before[l] == secret.count(l) - matched_upto(secret, guess, l, i as int));
                assert(l == letter <==> l.index() == letter.index());
            }
        }
        i += 1;
    }
    let mut i: usize = 0;
    while i < 5
        invariant
            i <= 5,
            forall|l: Letter|
                l.wf() ==> #[trigger] missing[l] == if unmatched(secret, guess, l) > misplaced_upto(
                    secret,
                    guess,
                    l,
                    i as int,
                ) {
                    unmatched(secret, guess, l) - misplaced_upto(secret, guess, l, i as int)
                } else {
                    0
                },
            forall|j: int|
                0 <= j < 5 ==> #[trigger] feedback@[j] == if j < i {
                    score_at(secret, guess, j)
                } else if guess@[j] == secret@[j] {
                    Feedback::Green
                } else {
                    Feedback::Black
                },
        decreases 5 - i,
    {
        let letter = guess.letter(i);
        let ghost before = missing;
        let ghost marks = feedback@;
        if feedback[i] == Feedback::Black && *missing.get(letter) > 0 {
            let left: u8 = *missing.get(letter);
            missing.set(letter, left - 1);
            feedback[i] = Feedback::Yellow;
        }
        proof {
            assert(marks[i as int] == Feedback::Black <==> guess@[i as int] != secret@[i as int]);
            assert forall|l: Letter| l.wf() implies #[trigger] missing[l] == if unmatched(
                secret,
                guess,
                l,
            ) > misplaced_upto(secret, guess, l, i + 1) {
                unmatched(secret, guess, l) - misplaced_upto(secret, guess, l, i + 1)
            } else {
                0
            } by {
                lemma_count_steps(secret, guess, marks, l, i as int);
                assert(before[l] == if unmatched(secret, guess, l) > misplaced_upto(
                    secret,
                    guess,
                    l,
                    i as int,
                ) {
                    unmatched(secret, guess, l) - misplaced_upto(secret, guess, l, i as int)
                } else {
                    0
                });
                assert(l == letter <==> l.index() == letter.index());
            }
            assert(before[letter] > 0 <==> misplaced_upto(secret, guess, letter, i as int)
                < unmatched(secret, guess, letter));
            assert(feedback@[i as int] == score_at(secret, guess, i as int));
        }
        i += 1;
    }
    proof {
        assert(feedback@ =~= score(secret, guess));
    }
    feedback
}

/// Whether a feedback is green at every position.
pub fn is_all_green(feedback: &[Feedback; 5]) -> (r: bool)
    ensures
        r == (feedback@ == all_green()),
{
    let r = feedback[0] == Feedback::Green && feedback[1] == Feedback::Green && feedback[2]
        == Feedback::Green && feedback[3] == Feedback::Green && feedback[4] == Feedback::Green;
    proof {
        if r {
            assert(feedback@ =~= all_green());
        } else {
            assert(all_green()[0] == Feedback::Green);
            assert(all_green()[1] == Feedback::Green);
            assert(all_green()[2] == Feedback::Green);
            assert(all_green()[3] == Feedback::Green);
            assert(all_green()[4] == Feedback::Green);
        }
    }
    r
}

/// The secret is none of the words that are left: the feedback given cannot all be true of
/// one word of the list.
#[derive(Debug, Clone, Copy, PartialEq, Eq)]
pub struct UnknownWord(pub Word);

/// One round of a simulation as a value of specifications: the guess with its feedback, or
/// the failure to find a guess.
pub type RoundView = Result<(Word, Seq<Feedback>), UnknownWord>;

/// One round of a simulation: the guess with its feedback, or the failure to find a guess.
pub type Round = Result<(Word, [Feedback; 5]), UnknownWord>;

/// A round as a value of specifications.
pub open spec fn round_view(round: Round) -> RoundView {
    match round {
        Ok((guess, feedback)) => Ok((guess, feedback@)),
        Err(e) => Err(e),
    }
}

/// Rounds as values of specifications.
pub open spec fn rounds_view(rounds: Seq<Round>) -> Seq<RoundView> {
    Seq::new(rounds.len(), |i: int| round_view(rounds[i]))
}

/// The rounds that a game plays against a secret: each round guesses the word that the game
/// suggests, gets the feedback of that guess against the secret, and hands it to the game.
/// The rounds end with the guess that is green throughout, or with the round in which the
/// game has no word left to suggest. A guess from the pool that is not green throughout
/// leaves the pool (`lemma_round_shrinks`); the rounds also end should a guess ever fail to.
pub open spec fn play(game: GameView, secret: Word) -> Seq<RoundView>
    decreases game.pool.len(),
{
    match game.suggestion() {
        None => seq![Err(UnknownWord(secret))],
        Some(guess) => {
            let feedback = score(secret, guess);
            let next = game.apply(guess, feedback);
            if feedback == all_green() || next.pool.len() >= game.pool.len() {
                seq![Ok((guess, feedback))]
            } else {
                seq![Ok((guess, feedback))] + play(next, secret)
            }
        },
    }
}

/// A pool from which a filter takes a word out gets smaller.
pub proof fn lemma_fitting_shrinks(pool: Seq<Word>, filter: FilterView, i: int)
    requires
        0 <= i < pool.len(),
        !pool[i].fits(filter),
    ensures
        fitting(pool, filter).len() < pool.len(),
    decreases pool.len(),
{
    let pred = |w: Word| w.fits(filter);
    let front = pool.drop_last();
    assert(pool =~= front.push(pool.last()));
    front.lemma_filter_push(pool.last(), pred);
    front.lemma_filter_len(pred);
    if i < pool.len() - 1 {
        lemma_fitting_shrinks(front, filter, i);
    }
}

/// A round whose feedback is not green throughout takes the guess out of the pool.
pub proof fn lemma_round_shrinks(game: GameView, guess: Word, feedback: Seq<Feedback>)
    requires
        game.pool.contains(guess),
        feedback.len() == 5,
        feedback != all_green(),
    ensures
        game.apply(guess, feedback).pool.len() < game.pool.len(),
{
    if forall|p: int| 0 <= p < 5 ==> feedback[p] == Feedback::Green {
        assert(feedback =~= all_green());
    }
    let p = choose|p: int| 0 <= p < 5 && feedback[p] != Feedback::Green;
    lemma_guess_excluded(game.filter, guess, feedback, p);
    let i = choose|i: int| 0 <= i < game.pool.len() && game.pool[i] == guess;
    lemma_fitting_shrinks(game.pool, game.filter.restrict(guess, feedback), i);
}

/// A round keeps the secret in the pool, and keeps the game in order.
pub proof fn lemma_round_keeps_secret(game: GameView, secret: Word, guess: Word)
    requires
        game.wf(),
    ensures
        game.apply(guess, score(secret, guess)).wf(),
        game.pool.contains(secret) ==> game.apply(guess, score(secret, guess)).pool.contains(
            secret,
        ),
        game.apply(guess, score(secret, guess)).pool.contains(secret) ==> game.pool.contains(
            secret,
        ),
{
    let after = game.apply(guess, score(secret, guess));
    let pred = |w: Word| w.fits(after.filter);
    assert(after.pool == game.pool.filter(pred));
    game.pool.lemma_filter_len(pred);
    assert forall|i: int| 0 <= i < after.pool.len() implies (#[trigger] after.pool[i]).wf()
        && after.pool[i].fits(after.filter) by {
        let w = after.pool[i];
        assert(game.pool.filter(pred).contains(w));
        game.pool.lemma_filter_contains_rev(pred, w);
        game.pool.lemma_filter_pred(pred, i);
        let j = choose|j: int| 0 <= j < game.pool.len() && game.pool[j] == w;
        assert(game.pool[j].wf());
    }
    if game.pool.contains(secret) {
        let i = choose|i: int| 0 <= i < game.pool.len() && game.pool[i] == secret;
        assert(game.pool[i].fits(game.filter));
        lemma_restrict_sound(game.filter, secret, guess);
        assert(pred(secret));
        game.pool.lemma_filter_contains(pred, i);
    }
    if after.pool.contains(secret) {
        game.pool.lemma_filter_contains_rev(pred, secret);
    }
}

/// A guess that gets green throughout is the secret.
pub proof fn lemma_all_green(secret: Word, guess: Word)
    ensures
        score(secret, guess) == all_green() <==> guess == secret,
{
    if score(secret, guess) == all_green() {
        assert forall|p: int| 0 <= p < 5 implies guess@[p] == secret@[p] by {
            assert(score(secret, guess)[p] == Feedback::Green);
        }
        assert(guess@ =~= secret@);
        lemma_word_ext(guess, secret);
    }
    if guess == secret {
        assert(score(secret, guess) =~= all_green());
    }
}

/// A run of the solver against one secret word.
pub struct Simulation {
    word: Word,
    game: Game,
}

impl Simulation {
    /// The secret word.
    pub closed spec fn secret(self) -> Word {
        self.word
    }

    /// The game that guesses.
    pub closed spec fn game(self) -> Game {
        self.game
    }

    /// A run of a game against a secret word.
    pub fn new(word: Word, game: Game) -> (r: Self)
        ensures
            r.secret() == word,
            r.game() == game,
    {
        Simulation { word, game }
    }

    /// The feedback that a guess gets against the secret.
    pub fn get_feedback(&self, guess: Word) -> (r: [Feedback; 5])
        ensures
            r@ == score(self.secret(), guess),
    {
        feedback_for(self.word, guess)
    }

    /// Plays one round: guesses the word that the game suggests, and hands the game the
    /// feedback of that guess against the secret. Where the game has no word left, nothing
    /// changes and the round fails.
    pub fn next_round(&mut self) -> (r: Round)
        ensures
            final(self).secret() == old(self).secret(),
            final(self).game().wf(),
            match old(self).game()@.suggestion() {
                Some(guess) => {
                    &&& round_view(r) == Ok::<(Word, Seq<Feedback>), UnknownWord>(
                        (guess, score(old(self).secret(), guess)),
                    )
                    &&& final(self).game()@ == old(self).game()@.apply(
                        guess,
                        score(old(self).secret(), guess),
                    )
                    &&& old(self).game()@.pool.contains(guess)
                },
                None => r == Err::<(Word, [Feedback; 5]), UnknownWord>(
                    UnknownWord(old(self).secret()),
                ) && final(self).game()@ == old(self).game()@,
            },
    {
        proof {
            use_type_invariant(&self.game);
        }
        match self.game.suggested_word() {
            Some(guess) => {
                let feedback = self.get_feedback(guess);
                self.game.apply_feedback(guess, feedback);
                Ok((guess, feedback))
            },
            None => Err(UnknownWord(self.word)),
        }
    }

    /// Plays rounds until a guess is the secret or the game has no word left, and gives the
    /// rounds played. The run ends with the secret as its guess where the secret is one of the
    /// words of the game, and with a failure where it is not.
    pub fn run(&mut self) -> (r: Vec<Round>)
        ensures
            final(self).secret() == old(self).secret(),
            rounds_view(r@) == play(old(self).game()@, old(self).secret()),
            r@.len() >= 1,
            forall|i: int| 0 <= i < r@.len() - 1 ==> (#[trigger] r@[i]) is Ok,
            old(self).game()@.pool.contains(old(self).secret()) ==> round_view(r@.last()) == Ok::<
                (Word, Seq<Feedback>),
                UnknownWord,
            >((old(self).secret(), all_green())),
            !old(self).game()@.pool.contains(old(self).secret()) ==> r@.last() == Err::<
                (Word, [Feedback; 5]),
                UnknownWord,
            >(UnknownWord(old(self).secret())),
    {
        let ghost secret = self.word;
        let ghost start = self.game@;
        let mut rounds: Vec<Round> = Vec::new();
        proof {
            use_type_invariant(&self.game);
            assert(rounds_view(rounds@) + play(start, secret) =~= play(start, secret));
        }
        loop
            invariant_except_break
                self.word == secret,
                self.game.wf(),
                rounds_view(rounds@) + play(self.game@, secret) == play(start, secret),
                forall|i: int| 0 <= i < rounds@.len() ==> (#[trigger] rounds@[i]) is Ok,
                self.game@.pool.contains(secret) <==> start.pool.contains(secret),
            ensures
                self.word == secret,
                rounds_view(rounds@) == play(start, secret),
                rounds@.len() >= 1,
                forall|i: int| 0 <= i < rounds@.len() - 1 ==> (#[trigger] rounds@[i]) is Ok,
                start.pool.contains(secret) ==> round_view(rounds@.last()) == Ok::<
                    (Word, Seq<Feedback>),
                    UnknownWord,
                >((secret, all_green())),
                !start.pool.contains(secret) ==> rounds@.last() == Err::<
                    (Word, [Feedback; 5]),
                    UnknownWord,
                >(UnknownWord(secret)),
            decreases self.game@.pool.len(),
        {
            let ghost before = self.game@;
            let ghost played = rounds@;
            let round = self.next_round();
            rounds.push(round);
            proof {
                assert(rounds_view(rounds@) =~= rounds_view(played) + seq![round_view(round)]);
            }
            match round {
                Ok((guess, feedback)) => {
                    proof {
                        lemma_all_green(secret, guess);
                        lemma_round_keeps_secret(before, secret, guess);
                    }
                    if is_all_green(&feedback) {
                        proof {
                            assert(play(before, secret) =~= seq![round_view(round)]);
                            assert(rounds_view(rounds@) =~= rounds_view(played) + play(
                                before,
                                secret,
                            ));
                            assert(before.pool.contains(secret));
                        }
                        break ;
                    }
                    proof {
                        lemma_round_shrinks(before, guess, feedback@);
                        assert(play(before, secret) =~= seq![round_view(round)] + play(
                            self.game@,
                            secret,
                        ));
                        assert(rounds_view(rounds@) + play(self.game@, secret) =~= rounds_view(
                            played,
                        ) + play(before, secret));
                    }
                },
                Err(e) => {
                    proof {
                        assert(play(before, secret) =~= seq![round_view(round)]);
                        assert(rounds_view(rounds@) =~= rounds_view(played) + play(
                            before,
                            secret,
                        ));
                        assert(before.pool.len() == 0);
                        assert(!before.pool.contains(secret));
                    }
                    break ;
                },
            }
        }
        rounds
    }
}

} // verus!
