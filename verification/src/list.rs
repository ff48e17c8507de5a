use crate::letter::InvalidWord;
use crate::word::Word;
use vstd::prelude::*;

verus! {

/// The characters that separate the words of a list: those with the Unicode property
/// `White_Space`.
pub open spec fn is_whitespace(c: char) -> bool {
    let u = c as u32;
    ||| 0x09 <= u <= 0x0D
    ||| u == 0x20
    ||| u == 0x85
    ||| u == 0xA0
    ||| u == 0x1680
    ||| 0x2000 <= u <= 0x200A
    ||| u == 0x2028
    ||| u == 0x2029
    ||| u == 0x202F
    ||| u == 0x205F
    ||| u == 0x3000
}

/// Whether a character separates the words of a list.
pub fn is_separator(c: char) -> (r: bool)
    ensures
        r == is_whitespace(c),
{
    let u: u32 = c as u32;
    (0x09 <= u && u <= 0x0D) || u == 0x20 || u == 0x85 || u == 0xA0 || u == 0x1680 || (0x2000 <= u
        && u <= 0x200A) || u == 0x2028 || u == 0x2029 || u == 0x202F || u == 0x205F || u
        == 0x3000
}

/// The token under way at the end of a text: the characters after the last separator.
pub open spec fn open_token(s: Seq<char>) -> Seq<char>
    decreases s.len(),
{
    if s.len() == 0 {
        Seq::empty()
    } else if is_whitespace(s.last()) {
        Seq::empty()
    } else {
        open_token(s.drop_last()).push(s.last())
    }
}

/// The tokens of a text that a separator has closed, first to last.
pub open spec fn closed_tokens(s: Seq<char>) -> Seq<Seq<char>>
    decreases s.len(),
{
    if s.len() == 0 {
        Seq::empty()
    } else if is_whitespace(s.last()) && open_token(s.drop_last()).len() > 0 {
        closed_tokens(s.drop_last()).push(open_token(s.drop_last()))
    } else {
        closed_tokens(s.drop_last())
    }
}

/// The tokens of a text: its longest runs of characters that are no separators.
pub open spec fn tokens(s: Seq<char>) -> Seq<Seq<char>> {
    if open_token(s).len() > 0 {
        closed_tokens(s).push(open_token(s))
    } else {
        closed_tokens(s)
    }
}

/// The words that tokens spell, or what is wrong with the first token that spells none.
pub open spec fn parse_tokens(tokens: Seq<Seq<char>>) -> Result<Seq<Word>, InvalidWord>
    decreases tokens.len(),
{
    if tokens.len() == 0 {
        Ok(Seq::empty())
    } else {
        match parse_tokens(tokens.drop_last()) {
            Err(e) => Err(e),
            Ok(words) => match Word::parse(tokens.last()) {
                Ok(word) => Ok(words.push(word)),
                Err(e) => Err(e),
            },
        }
    }
}

impl Word {
    /// What a text is read as: the words that its tokens spell, in order, or what is wrong with
    /// the first token that spells no word.
    pub open spec fn parse_list(s: Seq<char>) -> Result<Seq<Word>, InvalidWord> {
        parse_tokens(tokens(s))
    }

    /// Reads a list of words, separated by white space.
    pub fn list(text: &str) -> (r: Result<Vec<Word>, InvalidWord>)
        ensures
            match r {
                Ok(words) => Word::parse_list(text@) == Ok::<Seq<Word>, InvalidWord>(words@),
                Err(e) => Word::parse_list(text@) == Err::<Seq<Word>, InvalidWord>(e),
            },
    {
        let mut words: Vec<Word> = Vec::new();
        let mut failure: Option<InvalidWord> = None;
        let mut token: Vec<char> = Vec::new();
        assert(text@.take(0) =~= Seq::<char>::empty());
        for c in it: text.chars()
            invariant
                it.seq() == text@,
                token@ == open_token(text@.take(it.index() as int)),
                match failure {
                    None => parse_tokens(closed_tokens(text@.take(it.index() as int))) == Ok::<
                        Seq<Word>,
                        InvalidWord,
                    >(words@),
                    Some(e) => parse_tokens(closed_tokens(text@.take(it.index() as int))) == Err::<
                        Seq<Word>,
                        InvalidWord,
                    >(e),
                },
        {
            let ghost read = text@.take(it.index() as int);
            let ghost next = text@.take(it.index() + 1);
            proof {
                assert(next.drop_last() =~= read);
                assert(next.last() == c);
            }
            if is_separator(c) {
                if token.len() > 0 {
                    proof {
                        assert(closed_tokens(next).drop_last() =~= closed_tokens(read));
                    }
                    if failure.is_none() {
                        match Word::from_chars(token.as_slice()) {
                            Ok(word) => {
                                words.push(word);
                            },
                            Err(e) => {
                                failure = Some(e);
                            },
                        }
                    }
                    token.clear();
                }
            } else {
                token.push(c);
            }
        }
        proof {
            assert(text@.take(text@.len() as int) =~= text@);
        }
        if token.len() > 0 {
            proof {
                assert(tokens(text@).drop_last() =~= closed_tokens(text@));
            }
            if failure.is_none() {
                match Word::from_chars(token.as_slice()) {
                    Ok(word) => {
                        words.push(word);
                    },
                    Err(e) => {
                        failure = Some(e);
                    },
                }
            }
        }
        match failure {
            None => Ok(words),
            Some(e) => Err(e),
        }
    }
}

} // verus!
