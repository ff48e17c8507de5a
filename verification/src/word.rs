use crate::letter::group_letter;
use crate::letter::is_lowercase;
use crate::letter::InvalidWord;
use crate::letter::Letter;
use crate::letter_map::lemma_letter_map_len;
use crate::letter_map::LetterMap;
use crate::letter_set::LetterSet;
use vstd::prelude::*;
use vstd::std_specs::convert::FromSpecImpl;
use vstd::std_specs::convert::TryFromSpecImpl;

verus! {

broadcast use {group_letter, lemma_letter_map_len};

/// 1 where the condition holds, 0 where it does not.
pub open spec fn ind(b: bool) -> nat {
    if b {
        1
    } else {
        0
    }
}

/// A word of exactly five letters.
#[derive(Debug, PartialEq, Eq, Clone, Copy)]
pub struct Word([Letter; 5]);

impl View for Word {
    type V = Seq<Letter>;

    /// The five letters, first to last.
    closed spec fn view(&self) -> Seq<Letter> {
        self.0@
    }
}

/// A word has five letters.
pub broadcast proof fn lemma_word_len(word: Word)
    ensures
        #[trigger] word@.len() == 5,
{
}

/// Two words with the same letters are the same word.
pub proof fn lemma_word_ext(a: Word, b: Word)
    requires
        a@ == b@,
    ensures
        a == b,
{
    assert(a.0 =~= b.0);
}

impl Word {
    /// Every letter of a word that executable code holds lies in the alphabet.
    #[verifier::type_invariant]
    pub open spec fn wf(self) -> bool {
        forall|i: int| 0 <= i < 5 ==> (#[trigger] self@[i]).wf()
    }

    /// The word as text.
    pub open spec fn text(self) -> Seq<char> {
        Seq::new(5, |i: int| self@[i].to_char())
    }

    /// The word that a text of five lowercase letters spells.
    pub open spec fn of_text(s: Seq<char>) -> Word {
        Word::of_letters(Seq::new(5, |i: int| Letter::of_char(s[i])))
    }

    /// The word made of five letters.
    pub closed spec fn of_letters(s: Seq<Letter>) -> Word {
        Word([s[0], s[1], s[2], s[3], s[4]])
    }

    /// How many of the first `n` positions hold a letter.
    pub open spec fn count_upto(self, letter: Letter, n: int) -> nat {
        ind(0 < n && self@[0] == letter) + ind(1 < n && self@[1] == letter) + ind(
            2 < n && self@[2] == letter,
        ) + ind(3 < n && self@[3] == letter) + ind(4 < n && self@[4] == letter)
    }

    /// How many times a letter occurs in the word.
    pub open spec fn count(self, letter: Letter) -> nat {
        self.count_upto(letter, 5)
    }

    /// The letters that occur in the word.
    pub open spec fn letters(self) -> Set<Letter> {
        Set::new(|l: Letter| self.count(l) > 0)
    }

    /// The first character of a text that is no lowercase letter.
    pub open spec fn first_invalid(s: Seq<char>) -> char {
        s[choose|i: int|
            0 <= i < s.len() && !is_lowercase(s[i]) && forall|j: int|
                0 <= j < i ==> is_lowercase(s[j])]
    }

    /// What a text is read as: the word that it spells, or why it spells none.
    pub open spec fn parse(s: Seq<char>) -> Result<Word, InvalidWord> {
        if exists|i: int| 0 <= i < s.len() && !is_lowercase(s[i]) {
            Err(InvalidWord::InvalidLetter(Word::first_invalid(s)))
        } else if s.len() != 5 {
            Err(InvalidWord::WrongLength)
        } else {
            Ok(Word::of_text(s))
        }
    }

    /// The letters of the word, first to last.
    pub fn iter(&self) -> (r: [Letter; 5])
        ensures
            r@ == self@,
    {
        self.0
    }

    /// The letter at a position of the word.
    pub fn letter(&self, position: usize) -> (r: Letter)
        requires
            position < 5,
        ensures
            r == self@[position as int],
            r.wf(),
    {
        let r = self.0[position];
        proof {
            use_type_invariant(&r);
        }
        r
    }

    /// Counts, for each letter, how many times it occurs in the word.
    #[inline]
    pub fn letter_count(self) -> (r: LetterMap<u8>)
        ensures
            forall|l: Letter| l.wf() ==> #[trigger] r[l] == self.count(l),
    {
        let mut count: LetterMap<u8> = LetterMap::filled(0u8);
        let mut i: usize = 0;
        while i < 5
            invariant
                i <= 5,
                forall|l: Letter| l.wf() ==> #[trigger] count[l] == self.count_upto(l, i as int),
            decreases 5 - i,
        {
            let letter = self.letter(i);
            let seen: u8 = *count.get(letter);
            let ghost before = count;
            count.set(letter, seen + 1);
            proof {
                assert forall|l: Letter| l.wf() implies #[trigger] count[l] == self.count_upto(
                    l,
                    i + 1,
                ) by {
                    assert(before[l] == self.count_upto(l, i as int));
                    assert(l == letter <==> l.index() == letter.index());
                    assert(count[l] == before[l] + ind(l == letter));
                }
            }
            i += 1;
        }
        count
    }
}

/// `String::push` puts one character at the end of the string.
pub assume_specification[ String::push ](s: &mut String, ch: char)
    ensures
        final(s)@ == old(s)@.push(ch),
;

/// A word in which every letter lies in the alphabet is determined by its text.
pub proof fn lemma_text_injective(a: Word, b: Word)
    requires
        a.wf(),
        b.wf(),
        a.text() == b.text(),
    ensures
        a == b,
{
    broadcast use lemma_word_len;

    assert forall|i: int| 0 <= i < 5 implies a@[i] == b@[i] by {
        assert(a.text()[i] == b.text()[i]);
        assert(a@[i].wf() && b@[i].wf());
        assert(a@[i].to_char() as int == a@[i].index() + 97);
        assert(b@[i].to_char() as int == b@[i].index() + 97);
        assert(a.text()[i] == a@[i].to_char());
        assert(b.text()[i] == b@[i].to_char());
        assert(a@[i].index() == b@[i].index());
    }
    assert(a@ =~= b@);
    lemma_word_ext(a, b);
}

/// The word that a text of five lowercase letters spells is made of letters of the alphabet,
/// and its text is that text.
pub proof fn lemma_of_text_text(s: Seq<char>)
    requires
        s.len() == 5,
        forall|i: int| 0 <= i < 5 ==> is_lowercase(#[trigger] s[i]),
    ensures
        Word::of_text(s).wf(),
        Word::of_text(s).text() == s,
{
    let letters = Seq::new(5, |i: int| Letter::of_char(s[i]));
    lemma_of_letters_view(letters);
    let word = Word::of_text(s);
    assert forall|i: int| 0 <= i < 5 implies (#[trigger] word@[i]).wf() && word@[i].to_char()
        == s[i] by {
        assert(is_lowercase(s[i]));
        assert(word@[i] == Letter::of_char(s[i]));
        assert(word@[i].index() == s[i] as int - 97);
    }
    assert(word.text() =~= s);
}

/// To read the text of a word gives the word back.
pub proof fn lemma_text_round_trip(word: Word)
    requires
        word.wf(),
    ensures
        Word::of_text(word.text()) == word,
        Word::parse(word.text()) == Ok::<Word, InvalidWord>(word),
{
    broadcast use lemma_word_len;

    let s = word.text();
    assert forall|i: int| 0 <= i < 5 implies is_lowercase(#[trigger] s[i]) by {
        assert(word@[i].wf());
        assert(s[i] == word@[i].to_char());
    }
    lemma_of_text_text(s);
    lemma_text_injective(word, Word::of_text(s));
}

impl Word {
    /// Reads five lowercase letters as a word.
    pub fn from_chars(chars: &[char]) -> (r: Result<Word, InvalidWord>)
        ensures
            r == Word::parse(chars@),
            r matches Ok(word) ==> word.wf() && word.text() == chars@,
    {
        let a = Letter::new('a');
        let mut letters: [Letter; 5] = [a, a, a, a, a];
        let mut i: usize = 0;
        while i < chars.len()
            invariant
                i <= chars@.len(),
                forall|j: int| 0 <= j < i ==> is_lowercase(#[trigger] chars@[j]),
                forall|j: int| 0 <= j < 5 ==> (#[trigger] letters@[j]).wf(),
                forall|j: int|
                    0 <= j < i && j < 5 ==> #[trigger] letters@[j] == Letter::of_char(chars@[j]),
            decreases chars@.len() - i,
        {
            let c: char = chars[i];
            if !('a' <= c && c <= 'z') {
                proof {
                    let k = choose|k: int|
                        0 <= k < chars@.len() && !is_lowercase(chars@[k]) && forall|j: int|
                            0 <= j < k ==> is_lowercase(chars@[j]);
                    assert(!is_lowercase(chars@[i as int]));
                    assert(k == i);
                }
                return Err(InvalidWord::InvalidLetter(c));
            }
            if i < 5 {
                letters[i] = Letter::new(c);
            }
            i += 1;
        }
        if chars.len() != 5 {
            return Err(InvalidWord::WrongLength);
        }
        let word = Word(letters);
        proof {
            assert(word.text() =~= chars@);
            lemma_text_round_trip(word);
        }
        Ok(word)
    }

    /// Reads a text of five lowercase letters as a word.
    pub fn from_text(text: &str) -> (r: Result<Word, InvalidWord>)
        ensures
            r == Word::parse(text@),
            r matches Ok(word) ==> word.wf() && word.text() == text@,
    {
        let mut chars: Vec<char> = Vec::new();
        for c in it: text.chars()
            invariant
                it.seq() == text@,
                chars@ == text@.take(it.index() as int),
        {
            chars.push(c);
            proof {
                assert(text@.take(it.index() + 1) =~= text@.take(it.index() as int).push(c));
            }
        }
        proof {
            assert(text@.take(text@.len() as int) =~= text@);
        }
        Word::from_chars(chars.as_slice())
    }

    /// Writes the word as text.
    pub fn to_text(&self) -> (r: String)
        ensures
            r@ == self.text(),
    {
        let mut out = String::new();
        let mut i: usize = 0;
        while i < 5
            invariant
                i <= 5,
                out@ == self.text().take(i as int),
            decreases 5 - i,
        {
            let c: char = char::from(self.letter(i));
            out.push(c);
            proof {
                assert(self.text().take(i + 1) =~= self.text().take(i as int).push(c));
            }
            i += 1;
        }
        proof {
            assert(self.text().take(5) =~= self.text());
        }
        out
    }
}

impl TryFrom<&str> for Word {
    type Error = InvalidWord;

    fn try_from(value: &str) -> (r: Result<Self, InvalidWord>) {
        Word::from_text(value)
    }
}

impl TryFromSpecImpl<&str> for Word {
    open spec fn obeys_try_from_spec() -> bool {
        true
    }

    open spec fn try_from_spec(value: &str) -> Result<Self, InvalidWord> {
        Word::parse(value@)
    }
}

/// The word made of five letters holds those letters.
pub proof fn lemma_of_letters_view(s: Seq<Letter>)
    requires
        s.len() == 5,
    ensures
        Word::of_letters(s)@ == s,
{
    let a = [s[0], s[1], s[2], s[3], s[4]];
    assert(a@[0] == s[0]);
    assert(a@[1] == s[1]);
    assert(a@[2] == s[2]);
    assert(a@[3] == s[3]);
    assert(a@[4] == s[4]);
    assert(a@ =~= s);
}

/// The word made of the letters of a word is that word.
pub proof fn lemma_of_letters(word: Word)
    ensures
        Word::of_letters(word@) == word,
{
    broadcast use lemma_word_len;

    lemma_of_letters_view(word@);
    lemma_word_ext(word, Word::of_letters(word@));
}

impl From<[Letter; 5]> for Word {
    fn from(value: [Letter; 5]) -> (r: Self)
        ensures
            r@ == value@,
            r == Word::of_letters(value@),
            r.wf(),
    {
        let (l0, l1, l2, l3, l4) = (value[0], value[1], value[2], value[3], value[4]);
        proof {
            use_type_invariant(&l0);
            use_type_invariant(&l1);
            use_type_invariant(&l2);
            use_type_invariant(&l3);
            use_type_invariant(&l4);
        }
        let word = Word(value);
        proof {
            lemma_of_letters(word);
        }
        word
    }
}

impl FromSpecImpl<[Letter; 5]> for Word {
    open spec fn obeys_from_spec() -> bool {
        true
    }

    open spec fn from_spec(value: [Letter; 5]) -> Word {
        Word::of_letters(value@)
    }
}

impl From<Word> for LetterSet {
    /// The letters that occur in a word.
    fn from(value: Word) -> (r: Self)
        ensures
            r@ == value.letters(),
            r.wf(),
    {
        broadcast use lemma_word_len;

        let r = LetterSet::from(value.0);
        proof {
            assert(r@ =~= value.letters()) by {
                assert forall|l: Letter| value@.to_set().contains(l) == value.letters().contains(
                    l,
                ) by {
                    if value@.contains(l) {
                        let i = choose|i: int| 0 <= i < value@.len() && value@[i] == l;
                        assert(value@[i] == l);
                    }
                    if value.count(l) > 0 {
                        let i = if value@[0] == l {
                            0int
                        } else if value@[1] == l {
                            1int
                        } else if value@[2] == l {
                            2int
                        } else if value@[3] == l {
                            3int
                        } else {
                            4int
                        };
                        assert(value@[i] == l);
                    }
                }
            }
        }
        r
    }
}

impl FromSpecImpl<Word> for LetterSet {
    open spec fn obeys_from_spec() -> bool {
        true
    }

    open spec fn from_spec(value: Word) -> LetterSet {
        LetterSet::of(value.letters())
    }
}

} // verus!
