use wordle_solver::feedback::Feedback;
use wordle_solver::feedback::Feedback::{Black, Green, Yellow};
use wordle_solver::filter::Filter;
use wordle_solver::letter::{InvalidWord, Letter};
use wordle_solver::letter_map::LetterMap;
use wordle_solver::letter_set::LetterSet;
use wordle_solver::word::Word;

fn word(text: &str) -> Word {
    Word::from_text(text).unwrap()
}

fn letters(set: LetterSet) -> Vec<char> {
    let mut out = Vec::new();
    let mut rest = set.iter();
    while let Some(letter) = rest.next() {
        out.push(char::from(letter));
    }
    out
}

#[test]
fn test_list() {
    let mut text = String::new();
    for n in 0..14855u32 {
        let mut rest = n;
        for _ in 0..5 {
            text.push(char::from(b'a' + (rest % 26) as u8));
            rest /= 26;
        }
        text.push('\n');
    }
    let list = Word::list(&text).unwrap();

    assert_eq!(list.len(), 14855);
    assert_eq!(list[0].to_text(), "aaaaa");
    assert_eq!(list[27].to_text(), "bbaaa");
    for w in &list {
        assert_eq!(w.to_text().chars().count(), 5);
        assert!(w.to_text().chars().all(|c| c.is_ascii_lowercase()));
    }
}

#[test]
fn test_matches() {
    let mut guess = Filter::default();
    guess.restrict(
        "ready".try_into().unwrap(),
        [Yellow, Black, Yellow, Green, Black],
    );

    assert_eq!(
        guess,
        Filter {
            mask: [
                LetterSet::from([Letter::new('r'), Letter::new('e'), Letter::new('y')]).inverse(),
                LetterSet::from([Letter::new('e'), Letter::new('y')]).inverse(),
                LetterSet::from([Letter::new('e'), Letter::new('a'), Letter::new('y')]).inverse(),
                LetterSet::from([Letter::new('d')]),
                LetterSet::from([Letter::new('e'), Letter::new('y')]).inverse()
            ],
            min_count: {
                let mut map = LetterMap::default();
                map[Letter::new('r')] = 1;
                map[Letter::new('a')] = 1;
                map[Letter::new('d')] = 1;
                map
            }
        }
    );

    for word in ["cardi", "bards"] {
        let word: Word = word.try_into().unwrap();
        assert!(word.matches(&guess));
    }
    for word in ["ready", "split", "bough"] {
        let word: Word = word.try_into().unwrap();
        assert!(!word.matches(&guess));
    }
}

#[test]
fn letter_round_trip() {
    for c in 'a'..='z' {
        assert_eq!(char::from(Letter::new(c)), c);
        assert_eq!(Letter::try_from(c), Ok(Letter::new(c)));
    }
    assert_eq!(Letter::new('a').position(), 0);
    assert_eq!(Letter::new('z').position(), 25);
    assert_eq!(Letter::from_position(3), Letter::new('d'));
    assert!(Letter::new('b') < Letter::new('c'));
}

#[test]
fn letter_rejects_other_characters() {
    assert_eq!(Letter::try_from('A'), Err(InvalidWord::InvalidLetter('A')));
    assert_eq!(Letter::try_from('{'), Err(InvalidWord::InvalidLetter('{')));
    assert_eq!(Letter::try_from('`'), Err(InvalidWord::InvalidLetter('`')));
    assert_eq!(Letter::try_from('é'), Err(InvalidWord::InvalidLetter('é')));
}

#[test]
fn letter_map_slots() {
    let mut map: LetterMap<u32> = LetterMap::default();
    for c in 'a'..='z' {
        assert_eq!(map[Letter::new(c)], 0);
    }
    map.set(Letter::new('q'), 7);
    map[Letter::new('z')] += 2;
    assert_eq!(*map.get(Letter::new('q')), 7);
    assert_eq!(map[Letter::new('z')], 2);
    assert_eq!(map[Letter::new('a')], 0);
    assert_eq!(LetterMap::filled(9u8)[Letter::new('m')], 9);
    let nested: LetterMap<LetterMap<u32>> = LetterMap::default();
    assert_eq!(nested[Letter::new('c')][Letter::new('d')], 0);
}

#[test]
fn letter_set_empty_and_full() {
    assert_eq!(letters(LetterSet::empty()), Vec::<char>::new());
    assert_eq!(letters(LetterSet::full()), ('a'..='z').collect::<Vec<char>>());
    assert_eq!(LetterSet::default(), LetterSet::empty());
    assert_eq!(LetterSet::empty().inverse(), LetterSet::full());
    assert_eq!(LetterSet::full().inverse(), LetterSet::empty());
}

#[test]
fn letter_set_insert_remove_contains() {
    let mut set = LetterSet::empty();
    assert!(!set.contains(Letter::new('k')));
    assert!(set.insert(Letter::new('k')));
    assert!(!set.insert(Letter::new('k')));
    assert!(set.insert(Letter::new('a')));
    assert!(set.insert(Letter::new('z')));
    assert!(set.contains(Letter::new('k')));
    assert_eq!(letters(set), vec!['a', 'k', 'z']);
    assert!(set.remove(Letter::new('k')));
    assert!(!set.remove(Letter::new('k')));
    assert!(!set.contains(Letter::new('k')));
    assert_eq!(letters(set), vec!['a', 'z']);
}

#[test]
fn letter_set_intersect_and_inverse() {
    let a = LetterSet::from([Letter::new('a'), Letter::new('b'), Letter::new('c')]);
    let b = LetterSet::from([Letter::new('c'), Letter::new('b'), Letter::new('x')]);
    assert_eq!(letters(a.intersect(b)), vec!['b', 'c']);
    assert_eq!(a.intersect(a.inverse()), LetterSet::empty());
    assert_eq!(a.inverse().inverse(), a);
    assert_eq!(letters(a.inverse()).len(), 23);
}

#[test]
fn letter_set_iteration_is_ascending_and_restartable() {
    let set = LetterSet::from([Letter::new('t'), Letter::new('e'), Letter::new('s'), Letter::new('t')]);
    assert_eq!(letters(set), vec!['e', 's', 't']);
    assert_eq!(letters(set), vec!['e', 's', 't']);
    let mut rest = set.iter();
    assert_eq!(rest.next(), Some(Letter::new('e')));
    assert_eq!(rest.next(), Some(Letter::new('s')));
    assert_eq!(rest.next(), Some(Letter::new('t')));
    assert_eq!(rest.next(), None);
    assert_eq!(rest.next(), None);
}

#[test]
fn letter_set_of_a_word() {
    assert_eq!(letters(LetterSet::from(word("speed"))), vec!['d', 'e', 'p', 's']);
    assert_eq!(letters(LetterSet::from(word("aaaaa"))), vec!['a']);
}

#[test]
fn word_text_round_trip() {
    for text in ["ready", "speed", "cider", "aaaaa", "zzzzz", "abcde"] {
        let w = word(text);
        assert_eq!(w.to_text(), text);
        assert_eq!(Word::from_text(&w.to_text()), Ok(w));
    }
}

#[test]
fn word_from_text_rejects_wrong_length() {
    assert_eq!(Word::from_text(""), Err(InvalidWord::WrongLength));
    assert_eq!(Word::from_text("read"), Err(InvalidWord::WrongLength));
    assert_eq!(Word::from_text("readys"), Err(InvalidWord::WrongLength));
    assert_eq!(Word::try_from("abcdefghij"), Err(InvalidWord::WrongLength));
}

#[test]
fn word_from_text_rejects_other_characters() {
    assert_eq!(Word::from_text("reaDy"), Err(InvalidWord::InvalidLetter('D')));
    assert_eq!(Word::from_text("re dy"), Err(InvalidWord::InvalidLetter(' ')));
    assert_eq!(Word::from_text("r3ad!"), Err(InvalidWord::InvalidLetter('3')));
    assert_eq!(Word::from_text("ready1"), Err(InvalidWord::InvalidLetter('1')));
    assert_eq!(Word::from_text("é"), Err(InvalidWord::InvalidLetter('é')));
    assert_eq!(
        Word::from_chars(&['a', 'b', 'c', 'd', 'E']),
        Err(InvalidWord::InvalidLetter('E'))
    );
}

#[test]
fn word_letters_and_counts() {
    let w = word("speed");
    let spelled: Vec<char> = w.iter().into_iter().map(char::from).collect();
    assert_eq!(spelled, vec!['s', 'p', 'e', 'e', 'd']);
    assert_eq!(w.letter(2), Letter::new('e'));
    assert_eq!(Word::from(w.iter()), w);
    let count = w.letter_count();
    assert_eq!(count[Letter::new('e')], 2);
    assert_eq!(count[Letter::new('s')], 1);
    assert_eq!(count[Letter::new('p')], 1);
    assert_eq!(count[Letter::new('d')], 1);
    assert_eq!(count[Letter::new('a')], 0);
    assert_eq!(word("aaaaa").letter_count()[Letter::new('a')], 5);
}

#[test]
fn list_reads_words_between_white_space() {
    let list = Word::list("  ready\ncardi\t bards\r\n\u{a0}split\u{2003}bough").unwrap();
    let texts: Vec<String> = list.iter().map(|w| w.to_text()).collect();
    assert_eq!(texts, vec!["ready", "cardi", "bards", "split", "bough"]);
    assert_eq!(Word::list("").unwrap().len(), 0);
    assert_eq!(Word::list(" \n\t ").unwrap().len(), 0);
    assert_eq!(Word::list("ready").unwrap(), vec![word("ready")]);
}

#[test]
fn list_fails_on_the_first_bad_token() {
    assert_eq!(Word::list("ready card bards"), Err(InvalidWord::WrongLength));
    assert_eq!(Word::list("ready Cardi bar"), Err(InvalidWord::InvalidLetter('C')));
    assert_eq!(Word::list("toolong re-dy"), Err(InvalidWord::WrongLength));
    assert_eq!(Word::list("ready,cardi"), Err(InvalidWord::InvalidLetter(',')));
    assert_eq!(Word::list("ready cardi x"), Err(InvalidWord::WrongLength));
}

#[test]
fn default_filter_allows_every_word() {
    let filter = Filter::default();
    for text in ["ready", "aaaaa", "zzzzz", "speed"] {
        assert!(word(text).matches(&filter));
    }
    assert_eq!(filter.clone(), filter);
    assert_eq!(Feedback::default(), Feedback::Black);
}

#[test]
fn restrict_keeps_a_repeated_letter_that_is_accounted_for() {
    let mut filter = Filter::default();
    filter.restrict(word("speed"), [Black, Black, Yellow, Black, Yellow]);
    assert!(word("delve").matches(&filter));
    assert!(filter.mask[0].contains(Letter::new('e')));
    assert!(filter.mask[1].contains(Letter::new('e')));
    assert!(!filter.mask[2].contains(Letter::new('e')));
    assert!(!filter.mask[3].contains(Letter::new('e')));
    assert!(filter.mask[4].contains(Letter::new('e')));
    assert!(!filter.mask[4].contains(Letter::new('d')));
    for p in 0..5 {
        assert!(!filter.mask[p].contains(Letter::new('s')));
        assert!(!filter.mask[p].contains(Letter::new('p')));
    }
    assert_eq!(filter.min_count[Letter::new('e')], 1);
    assert_eq!(filter.min_count[Letter::new('d')], 1);
    assert_eq!(filter.min_count[Letter::new('s')], 0);
    assert!(!word("speed").matches(&filter));
    assert!(!word("creed").matches(&filter));
    assert!(!word("cider").matches(&filter));
}

#[test]
fn restrict_green_after_black_of_the_same_letter() {
    let mut filter = Filter::default();
    filter.restrict(word("exxxe"), [Black, Black, Black, Black, Green]);
    assert_eq!(filter.mask[4], LetterSet::from([Letter::new('e')]));
    for p in 0..4 {
        assert!(!filter.mask[p].contains(Letter::new('e')));
        assert!(!filter.mask[p].contains(Letter::new('x')));
    }
    assert_eq!(filter.min_count[Letter::new('e')], 1);
    assert!(word("yyyye").matches(&filter));
    assert!(!word("eyyye").matches(&filter));
}

#[test]
fn restrict_twice_is_restrict_once() {
    let rounds = [
        ("ready", [Yellow, Black, Yellow, Green, Black]),
        ("speed", [Black, Black, Yellow, Black, Yellow]),
        ("cider", [Green, Green, Green, Green, Green]),
        ("aaaaa", [Black, Green, Yellow, Black, Black]),
    ];
    for (guess, feedback) in rounds {
        let mut once = Filter::default();
        once.restrict(word("bough"), [Black, Yellow, Black, Black, Black]);
        once.restrict(word(guess), feedback);
        let mut twice = once.clone();
        twice.restrict(word(guess), feedback);
        assert_eq!(twice, once);
    }
}

#[test]
fn restrict_only_raises_minimum_counts() {
    let mut filter = Filter::default();
    filter.restrict(word("eerie"), [Yellow, Yellow, Black, Black, Black]);
    assert_eq!(filter.min_count[Letter::new('e')], 2);
    filter.restrict(word("there"), [Black, Black, Yellow, Black, Black]);
    assert_eq!(filter.min_count[Letter::new('e')], 2);
    filter.restrict(word("geese"), [Black, Green, Yellow, Black, Yellow]);
    assert_eq!(filter.min_count[Letter::new('e')], 3);
}
