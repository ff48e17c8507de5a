use wordle_solver::feedback::Feedback::{Black, Green, Yellow};
use wordle_solver::game::Game;
use wordle_solver::simulation::{feedback_for, is_all_green, Simulation, UnknownWord};
use wordle_solver::stats::{LetterStats, MAX_WORDS};
use wordle_solver::word::Word;

fn pool(texts: &[&str]) -> Vec<Word> {
    texts.iter().map(|t| Word::from_text(t).unwrap()).collect()
}

fn one(text: &str) -> Word {
    Word::from_text(text).unwrap()
}

fn texts(words: &[Word]) -> Vec<String> {
    words.iter().map(|w| w.to_text()).collect()
}

#[test]
fn relevance_in_a_pool_of_two() {
    let stats = LetterStats::from_words(&pool(&["ready", "cardi"]));
    assert_eq!(stats.relevance(one("ready")), 7);
    assert_eq!(stats.relevance(one("cardi")), 7);
    assert_eq!(stats.relevance(one("bough")), 5);
    assert_eq!(stats.relevance(one("eeeee")), 2);
}

#[test]
fn relevance_counts_a_repeated_letter_once() {
    let stats = LetterStats::from_words(&pool(&["speed", "cider", "bough", "aaaaa"]));
    // four words, half is two: e is in two words, s and p and d in one or two
    assert_eq!(stats.relevance(one("eeeee")), 4);
    assert_eq!(stats.relevance(one("speed")), 3 + 3 + 4 + 4);
    assert_eq!(stats.relevance(one("aaaaa")), 3);
    assert_eq!(stats.relevance(one("zzzzz")), 2);
}

#[test]
fn relevance_in_the_empty_pool_is_zero() {
    let stats = LetterStats::default();
    assert_eq!(stats.relevance(one("ready")), 0);
    let same = LetterStats::from_words(&[]);
    assert_eq!(format!("{:?}", same), format!("{:?}", stats));
}

#[test]
fn remove_word_gives_the_statistics_of_the_words_left() {
    let all = pool(&["ready", "cardi", "bards", "split", "bough", "speed", "aaaaa"]);
    let mut stats = LetterStats::from_words(&all);
    let mut left = all.clone();
    for _ in 0..all.len() {
        let gone = left.remove(left.len() / 2);
        stats.remove_word(gone);
        let fresh = LetterStats::from_words(&left);
        assert_eq!(format!("{:?}", stats), format!("{:?}", fresh));
        for w in &all {
            assert_eq!(stats.relevance(*w), fresh.relevance(*w));
        }
    }
    assert_eq!(format!("{:?}", stats), format!("{:?}", LetterStats::default()));
}

#[test]
fn statistics_keep_a_word_that_occurs_twice() {
    let mut stats = LetterStats::from_words(&pool(&["ready", "ready", "bough"]));
    stats.remove_word(one("ready"));
    let fresh = LetterStats::from_words(&pool(&["ready", "bough"]));
    assert_eq!(format!("{:?}", stats.clone()), format!("{:?}", fresh));
}

#[test]
fn the_largest_pool_fits() {
    assert_eq!(MAX_WORDS, u32::MAX / 5);
}

#[test]
fn game_starts_with_the_whole_list() {
    let list = pool(&["ready", "cardi", "bards", "split", "bough"]);
    let game = Game::new(list.clone());
    assert_eq!(game.words(), &list[..]);
    assert_eq!(game.clone().words(), &list[..]);
    assert_eq!(game.words_at(&[4, 0, 0]), pool(&["bough", "ready", "ready"]));
    assert_eq!(game.words_at(&[]), Vec::<Word>::new());
}

#[test]
fn suggested_words_are_the_most_relevant_first() {
    let list = pool(&["ready", "cardi", "bards", "split", "bough", "speed", "aaaaa", "zzzzz"]);
    let game = Game::new(list.clone());
    let stats = LetterStats::from_words(&list);
    let mut scores: Vec<u32> = list.iter().map(|w| stats.relevance(*w)).collect();
    scores.sort();
    scores.reverse();
    for n in 0..=10usize {
        let best = game.suggested_words(n);
        assert_eq!(best.len(), n.min(list.len()));
        let got: Vec<u32> = best.iter().map(|w| stats.relevance(*w)).collect();
        assert_eq!(got, scores[..best.len()].to_vec());
        for (i, w) in best.iter().enumerate() {
            assert!(list.contains(w));
            assert!(!best[..i].contains(w));
        }
        assert_eq!(game.suggested_words(n), best);
    }
}

#[test]
fn suggested_words_differ_from_the_order_of_the_pool() {
    let list = pool(&["zzzzz", "aaaaa", "ready", "cardi"]);
    let game = Game::new(list);
    assert_eq!(texts(&game.suggested_words(2)).len(), 2);
    let best = texts(&game.suggested_words(4));
    assert_eq!(&best[2..], &["aaaaa".to_string(), "zzzzz".to_string()][..]);
    assert!(best[..2].contains(&"ready".to_string()));
    assert!(best[..2].contains(&"cardi".to_string()));
}

#[test]
fn suggested_word_is_the_first_suggestion() {
    let list = pool(&["zzzzz", "bough", "ready", "cardi", "bards"]);
    let game = Game::new(list.clone());
    let stats = LetterStats::from_words(&list);
    let best = game.suggested_word().unwrap();
    assert_eq!(vec![best], game.suggested_words(1));
    for w in &list {
        assert!(stats.relevance(*w) <= stats.relevance(best));
    }
}

#[test]
fn suggested_word_of_an_empty_pool_is_none() {
    let game = Game::new(Vec::new());
    assert_eq!(game.suggested_word(), None);
    assert_eq!(game.suggested_words(3), Vec::<Word>::new());
    assert_eq!(game.words().len(), 0);
}

#[test]
fn apply_feedback_keeps_the_words_that_match() {
    let list = pool(&["ready", "cardi", "bards", "split", "bough"]);
    let mut game = Game::new(list);
    game.apply_feedback(one("ready"), [Yellow, Black, Yellow, Green, Black]);
    assert_eq!(texts(game.words()), vec!["cardi", "bards"]);
    let fresh = Game::new(pool(&["cardi", "bards"]));
    assert_eq!(game.suggested_words(2), fresh.suggested_words(2));
    game.apply_feedback(one("cardi"), [Black, Green, Green, Green, Black]);
    assert_eq!(texts(game.words()), vec!["bards"]);
    game.apply_feedback(one("bards"), [Black, Black, Black, Black, Black]);
    assert_eq!(game.words().len(), 0);
    assert_eq!(game.suggested_word(), None);
}

#[test]
fn feedback_of_the_secret_itself_is_green() {
    assert_eq!(feedback_for(one("ready"), one("ready")), [Green; 5]);
    assert!(is_all_green(&[Green; 5]));
    assert!(!is_all_green(&[Green, Green, Green, Green, Yellow]));
    assert!(!is_all_green(&[Black, Green, Green, Green, Green]));
}

#[test]
fn feedback_of_speed_against_cider() {
    assert_eq!(
        feedback_for(one("cider"), one("speed")),
        [Black, Black, Black, Green, Yellow]
    );
}

#[test]
fn feedback_budgets_repeated_letters() {
    assert_eq!(
        feedback_for(one("delve"), one("speed")),
        [Black, Black, Yellow, Yellow, Yellow]
    );
    assert_eq!(
        feedback_for(one("fella"), one("speed")),
        [Black, Black, Yellow, Black, Black]
    );
    assert_eq!(
        feedback_for(one("abbey"), one("babes")),
        [Yellow, Yellow, Green, Green, Black]
    );
    assert_eq!(
        feedback_for(one("yyyye"), one("exxxe")),
        [Black, Black, Black, Black, Green]
    );
    assert_eq!(
        feedback_for(one("bough"), one("ready")),
        [Black, Black, Black, Black, Black]
    );
    assert_eq!(
        feedback_for(one("raced"), one("cardi")),
        [Yellow, Green, Yellow, Yellow, Black]
    );
}

#[test]
fn simulation_gets_its_feedback_from_the_secret() {
    let sim = Simulation::new(one("raced"), Game::new(pool(&["raced"])));
    assert_eq!(
        sim.get_feedback(one("speed")),
        [Black, Black, Black, Green, Green]
    );
}

#[test]
fn simulation_stops_after_the_round_that_guesses_the_secret() {
    let mut sim = Simulation::new(one("ready"), Game::new(pool(&["ready"])));
    assert_eq!(sim.run(), vec![Ok((one("ready"), [Green; 5]))]);
}

#[test]
fn simulation_ends_with_the_secret() {
    let list = pool(&["ready", "cardi", "bards", "split", "bough", "speed", "cider", "raced"]);
    for secret in &list {
        let mut sim = Simulation::new(*secret, Game::new(list.clone()));
        let rounds = sim.run();
        assert!(!rounds.is_empty() && rounds.len() <= list.len());
        assert_eq!(rounds.last(), Some(&Ok((*secret, [Green; 5]))));
        let mut guesses = Vec::new();
        for round in &rounds[..rounds.len() - 1] {
            let (guess, feedback) = round.unwrap();
            assert_eq!(feedback, feedback_for(*secret, guess));
            assert_ne!(feedback, [Green; 5]);
            assert!(list.contains(&guess));
            assert!(!guesses.contains(&guess));
            guesses.push(guess);
        }
    }
}

#[test]
fn simulation_round_by_round() {
    let list = pool(&["ready", "cardi", "bards"]);
    let mut sim = Simulation::new(one("bards"), Game::new(list.clone()));
    let mut game = Game::new(list);
    let mut rounds = Vec::new();
    loop {
        let guess = game.suggested_word().unwrap();
        let round = sim.next_round();
        assert_eq!(round, Ok((guess, feedback_for(one("bards"), guess))));
        game.apply_feedback(guess, round.unwrap().1);
        rounds.push(round);
        if guess == one("bards") {
            break;
        }
    }
    let mut again = Simulation::new(one("bards"), Game::new(pool(&["ready", "cardi", "bards"])));
    assert_eq!(again.run(), rounds);
}

#[test]
fn simulation_fails_on_a_word_that_is_not_in_the_list() {
    let list = pool(&["ready", "cardi", "bards", "split"]);
    let mut sim = Simulation::new(one("bough"), Game::new(list.clone()));
    let rounds = sim.run();
    assert_eq!(rounds.last(), Some(&Err(UnknownWord(one("bough")))));
    for round in &rounds[..rounds.len() - 1] {
        assert!(round.is_ok());
    }
    assert!(rounds.len() <= list.len() + 1);
    assert_eq!(sim.next_round(), Err(UnknownWord(one("bough"))));
}

#[test]
fn simulation_on_an_empty_list_fails_at_once() {
    let mut sim = Simulation::new(one("ready"), Game::new(Vec::new()));
    assert_eq!(sim.run(), vec![Err(UnknownWord(one("ready")))]);
}

#[test]
fn the_secret_is_never_filtered_out() {
    let list = pool(&["ready", "cardi", "bards", "split", "bough", "speed", "cider", "raced"]);
    for secret in &list {
        let mut game = Game::new(list.clone());
        for guess in &list {
            game.apply_feedback(*guess, feedback_for(*secret, *guess));
            assert!(game.words().contains(secret));
        }
        assert_eq!(game.words(), &[*secret][..]);
    }
}
