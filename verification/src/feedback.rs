use crate::letter::Letter;
use crate::word::ind;
use crate::word::Word;
use vstd::prelude::*;

verus! {

/// What a guess says of one position of the secret word.
#[derive(Debug, Clone, Copy, PartialEq, Eq, Structural)]
pub enum Feedback {
    /// The letter does not occur in the secret, or all its occurrences are accounted for.
    Black,
    /// The letter occurs in the secret, at another position.
    Yellow,
    /// The secret holds the letter at this position.
    Green,
}

impl Default for Feedback {
    fn default() -> (r: Self)
        ensures
            r == Feedback::Black,
    {
        Feedback::Black
    }
}

/// How many positions of the secret hold `letter` where the guess holds another letter.
pub open spec fn unmatched(secret: Word, guess: Word, letter: Letter) -> nat {
    ind(secret@[0] == letter && guess@[0] != letter) + ind(
        secret@[1] == letter && guess@[1] != letter,
    ) + ind(secret@[2] == letter && guess@[2] != letter) + ind(
        secret@[3] == letter && guess@[3] != letter,
    ) + ind(secret@[4] == letter && guess@[4] != letter)
}

/// How many of the first `n` positions of the guess hold `letter` where the secret holds
/// another letter.
pub open spec fn misplaced_upto(secret: Word, guess: Word, letter: Letter, n: int) -> nat {
    ind(0 < n && guess@[0] == letter && secret@[0] != letter) + ind(
        1 < n && guess@[1] == letter && secret@[1] != letter,
    ) + ind(2 < n && guess@[2] == letter && secret@[2] != letter) + ind(
        3 < n && guess@[3] == letter && secret@[3] != letter,
    ) + ind(4 < n && guess@[4] == letter && secret@[4] != letter)
}

/// How many of the first `n` positions hold `letter` in both words.
pub open spec fn matched_upto(secret: Word, guess: Word, letter: Letter, n: int) -> nat {
    ind(0 < n && guess@[0] == letter && secret@[0] == letter) + ind(
        1 < n && guess@[1] == letter && secret@[1] == letter,
    ) + ind(2 < n && guess@[2] == letter && secret@[2] == letter) + ind(
        3 < n && guess@[3] == letter && secret@[3] == letter,
    ) + ind(4 < n && guess@[4] == letter && secret@[4] == letter)
}

/// The feedback that position `p` of a guess gets against a secret.
///
/// Green where the two words agree. Elsewhere the letter of the guess is yellow as long as the
/// secret holds more occurrences of it that the guess has not found in place than earlier
/// positions of the guess have claimed; after that it is black.
pub open spec fn score_at(secret: Word, guess: Word, p: int) -> Feedback {
    if guess@[p] == secret@[p] {
        Feedback::Green
    } else if misplaced_upto(secret, guess, guess@[p], p) < unmatched(secret, guess, guess@[p]) {
        Feedback::Yellow
    } else {
        Feedback::Black
    }
}

/// The feedback that a guess gets against a secret, position by position.
pub open spec fn score(secret: Word, guess: Word) -> Seq<Feedback> {
    Seq::new(5, |p: int| score_at(secret, guess, p))
}

/// The feedback of a guess that is the secret.
pub open spec fn all_green() -> Seq<Feedback> {
    Seq::new(5, |p: int| Feedback::Green)
}

} // verus!
