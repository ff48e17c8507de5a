use vstd::prelude::*;
use vstd::std_specs::convert::FromSpecImpl;
use vstd::std_specs::convert::TryFromSpecImpl;

verus! {

/// Why a text was not accepted as a letter or as a word.
#[derive(PartialEq, Eq, Structural, Clone, Copy, Debug)]
pub enum InvalidWord {
    /// The text holds this character, which is not one of `'a'..='z'`.
    InvalidLetter(char),
    /// The text holds lowercase letters only, but not exactly five of them.
    WrongLength,
}

/// The characters that stand for a letter.
pub open spec fn is_lowercase(c: char) -> bool {
    'a' <= c && c <= 'z'
}

/// A letter of the 26-letter lowercase alphabet, held as its position in it.
#[derive(PartialEq, Eq, Structural, PartialOrd, Ord, Clone, Copy, Hash, Debug)]
pub struct Letter(u8);

impl Letter {
    /// The position of the letter in the alphabet: 0 for `a`, 25 for `z`.
    pub closed spec fn index(self) -> int {
        self.0 as int
    }

    /// The letter at a position of the alphabet.
    pub closed spec fn from_index(i: int) -> Letter {
        Letter(i as u8)
    }

    /// Every letter that executable code holds lies in the alphabet.
    #[verifier::type_invariant]
    pub open spec fn wf(self) -> bool {
        0 <= self.index() < 26
    }

    /// The character that the letter stands for.
    pub open spec fn to_char(self) -> char {
        (self.index() + 97) as char
    }

    /// The letter that a lowercase character stands for.
    pub open spec fn of_char(c: char) -> Letter {
        Letter::from_index(c as int - 97)
    }

    /// The letter for a lowercase character.
    pub fn new(letter: char) -> (r: Self)
        requires
            is_lowercase(letter),
        ensures
            r == Letter::of_char(letter),
            r.wf(),
    {
        Letter(((letter as u32) - 97) as u8)
    }

    /// The letter that a key stands for: a letter of either case, read as lowercase.
    pub open spec fn of_key(c: char) -> Option<Letter> {
        if is_lowercase(c) {
            Some(Letter::of_char(c))
        } else if 'A' <= c && c <= 'Z' {
            Some(Letter::from_index(c as int - 65))
        } else {
            None
        }
    }

    /// The letter for a key: a letter of either case, read as lowercase.
    pub fn from_key(c: char) -> (r: Option<Letter>)
        ensures
            r == Letter::of_key(c),
            r matches Some(l) ==> l.wf(),
    {
        if 'a' <= c && c <= 'z' {
            Some(Letter::new(c))
        } else if 'A' <= c && c <= 'Z' {
            Some(Letter(((c as u32) - 65) as u8))
        } else {
            None
        }
    }

    /// The position of the letter in the alphabet, as an array index.
    pub fn position(self) -> (r: usize)
        ensures
            r == self.index(),
            self.wf(),
        no_unwind
    {
        proof {
            use_type_invariant(&self);
        }
        self.0 as usize
    }

    /// The letter at a position of the alphabet.
    pub fn from_position(position: usize) -> (r: Self)
        requires
            position < 26,
        ensures
            r == Letter::from_index(position as int),
            r.wf(),
    {
        Letter(position as u8)
    }
}

/// A letter is determined by its position.
pub broadcast proof fn lemma_letter_of_index(l: Letter)
    ensures
        Letter::from_index(#[trigger] l.index()) == l,
{
}

/// The letter at a position of the alphabet has that position.
pub broadcast proof fn lemma_index_of_letter(i: int)
    requires
        0 <= i < 26,
    ensures
        (#[trigger] Letter::from_index(i)).index() == i,
{
}

pub broadcast group group_letter {
    lemma_letter_of_index,
    lemma_index_of_letter,
}

impl TryFrom<char> for Letter {
    type Error = InvalidWord;

    fn try_from(value: char) -> (r: Result<Self, InvalidWord>) {
        if 'a' <= value && value <= 'z' {
            Ok(Letter::new(value))
        } else {
            Err(InvalidWord::InvalidLetter(value))
        }
    }
}

impl TryFromSpecImpl<char> for Letter {
    open spec fn obeys_try_from_spec() -> bool {
        true
    }

    open spec fn try_from_spec(value: char) -> Result<Self, InvalidWord> {
        if is_lowercase(value) {
            Ok(Letter::of_char(value))
        } else {
            Err(InvalidWord::InvalidLetter(value))
        }
    }
}

impl From<Letter> for char {
    fn from(value: Letter) -> (r: char) {
        proof {
            use_type_invariant(&value);
        }
        (value.0 + 97u8) as char
    }
}

impl FromSpecImpl<Letter> for char {
    open spec fn obeys_from_spec() -> bool {
        true
    }

    open spec fn from_spec(value: Letter) -> char {
        value.to_char()
    }
}

} // verus!
