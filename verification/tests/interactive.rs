use wordle_solver::feedback::Feedback;
use wordle_solver::feedback::Feedback::{Black, Green, Yellow};
use wordle_solver::game::Game;
use wordle_solver::interactive::{Action, App, Key, LetterBlock, Row};
use wordle_solver::letter::Letter;
use wordle_solver::letter_set::LetterSet;
use wordle_solver::summary::{summarize, Summary, MAX_ROUNDS};
use wordle_solver::word::Word;

fn words(texts: &[&str]) -> Vec<Word> {
    texts.iter().map(|t| Word::from_text(t).unwrap()).collect()
}

fn w(text: &str) -> Word {
    Word::from_text(text).unwrap()
}

fn spelled(row: &Row) -> String {
    row.letters
        .iter()
        .map(|b| b.contents.map(char::from).unwrap_or('.'))
        .collect()
}

fn shades(row: &Row) -> [Feedback; 5] {
    [
        row.letters[0].color,
        row.letters[1].color,
        row.letters[2].color,
        row.letters[3].color,
        row.letters[4].color,
    ]
}

fn marked(row: &Row) -> Vec<usize> {
    (0..5).filter(|p| row.letters[*p].selected).collect()
}

fn type_word(app: &mut App, text: &str) {
    for _ in 0..5 {
        app.handle_key(Key::Backspace);
    }
    for c in text.chars() {
        assert_eq!(app.handle_key(Key::Char(c)), Some(Action::Draw));
    }
}

#[test]
fn exactly_one_letter() {
    assert_eq!(LetterSet::empty().exactly_one(), None);
    assert_eq!(LetterSet::full().exactly_one(), None);
    assert_eq!(
        LetterSet::from([Letter::new('q')]).exactly_one(),
        Some(Letter::new('q'))
    );
    assert_eq!(
        LetterSet::from([Letter::new('q'), Letter::new('a')]).exactly_one(),
        None
    );
}

#[test]
fn keys_that_stand_for_letters() {
    assert_eq!(Letter::from_key('a'), Some(Letter::new('a')));
    assert_eq!(Letter::from_key('Z'), Some(Letter::new('z')));
    assert_eq!(Letter::from_key('M'), Some(Letter::new('m')));
    assert_eq!(Letter::from_key('1'), None);
    assert_eq!(Letter::from_key('['), None);
    assert_eq!(Letter::from_key('@'), None);
    assert_eq!(Letter::from_key('é'), None);
}

#[test]
fn expected_feedback_settles_positions_where_the_pool_agrees() {
    let game = Game::new(words(&["cardi", "bards"]));
    let typed = w("darts").iter();
    let (letters, colors) = game.expected_feedback(typed, [Black; 5]);
    assert_eq!(Word::from(letters).to_text(), "dards");
    assert_eq!(colors, [Black, Green, Green, Green, Black]);
}

#[test]
fn expected_feedback_marks_common_letters_yellow() {
    let game = Game::new(words(&["cardi", "bards", "drain"]));
    let (letters, colors) = game.expected_feedback(w("ready").iter(), [Black; 5]);
    assert_eq!(Word::from(letters).to_text(), "ready");
    assert_eq!(colors, [Yellow, Black, Yellow, Yellow, Black]);
    let (_, kept) = game.expected_feedback(w("ready").iter(), [Green, Yellow, Black, Green, Yellow]);
    assert_eq!(kept, [Green, Yellow, Yellow, Green, Yellow]);
}

#[test]
fn expected_feedback_of_an_empty_pool() {
    let game = Game::new(Vec::new());
    let (letters, colors) = game.expected_feedback(w("ready").iter(), [Black, Black, Green, Black, Black]);
    assert_eq!(Word::from(letters).to_text(), "ready");
    assert_eq!(colors, [Yellow, Yellow, Green, Yellow, Yellow]);
}

#[test]
fn expected_feedback_of_a_single_word() {
    let game = Game::new(words(&["bards"]));
    let (letters, colors) = game.expected_feedback(w("ready").iter(), [Black; 5]);
    assert_eq!(Word::from(letters).to_text(), "bards");
    assert_eq!(colors, [Green; 5]);
}

#[test]
fn colors_cycle() {
    let mut block = LetterBlock::default();
    assert_eq!(block, LetterBlock { contents: None, color: Black, selected: false });
    block.cycle_color();
    assert_eq!(block.color, Yellow);
    block.cycle_color();
    assert_eq!(block.color, Green);
    block.cycle_color();
    assert_eq!(block.color, Black);
    assert_eq!(spelled(&Row::default()), ".....");
}

#[test]
fn a_new_board_holds_the_suggested_word() {
    let game = Game::new(words(&["ready", "cardi", "bards"]));
    let best = game.suggested_word().unwrap();
    let app = App::new(game);
    assert!(app.is_valid());
    assert_eq!(app.rows().len(), 1);
    assert_eq!(spelled(&app.rows()[0]), best.to_text());
    assert_eq!(marked(&app.rows()[0]), vec![0]);
    assert_eq!(app.cursor(), 0);
    assert!(!app.feedback_mode());
    assert_eq!(app.game().words().len(), 3);
}

#[test]
fn a_new_board_on_an_empty_game_is_blank() {
    let app = App::new(Game::new(Vec::new()));
    assert!(app.is_valid());
    assert_eq!(spelled(&app.rows()[0]), ".....");
    assert_eq!(marked(&app.rows()[0]), vec![0]);
}

#[test]
fn typing_and_backspace() {
    let mut app = App::new(Game::new(Vec::new()));
    assert_eq!(app.handle_key(Key::Backspace), None);
    assert_eq!(app.handle_key(Key::Enter), None);
    assert_eq!(app.handle_key(Key::Char('R')), Some(Action::Draw));
    assert_eq!(app.handle_key(Key::Char('e')), Some(Action::Draw));
    assert_eq!(app.handle_key(Key::Char('3')), None);
    assert_eq!(app.handle_key(Key::Left), None);
    assert_eq!(app.handle_key(Key::Other), None);
    assert_eq!(spelled(&app.rows()[0]), "re...");
    assert_eq!(app.cursor(), 2);
    assert_eq!(marked(&app.rows()[0]), vec![2]);
    assert_eq!(app.handle_key(Key::Backspace), Some(Action::Draw));
    assert_eq!(spelled(&app.rows()[0]), "r....");
    assert_eq!(marked(&app.rows()[0]), vec![1]);
    type_word(&mut app, "ready");
    assert_eq!(app.cursor(), 5);
    assert_eq!(marked(&app.rows()[0]), Vec::<usize>::new());
    assert_eq!(app.handle_key(Key::Char('x')), None);
    assert_eq!(spelled(&app.rows()[0]), "ready");
    assert_eq!(app.handle_key(Key::Esc), Some(Action::Exit));
    assert!(app.is_valid());
}

#[test]
fn a_round_on_the_board() {
    let mut app = App::new(Game::new(words(&["ready", "cardi", "bards", "split", "bough"])));
    type_word(&mut app, "ready");
    assert_eq!(app.handle_key(Key::Enter), Some(Action::Draw));
    assert!(app.feedback_mode());
    assert_eq!(app.cursor(), 0);
    assert_eq!(marked(&app.rows()[0]), vec![0]);
    assert_eq!(shades(&app.rows()[0]), [Black; 5]);
    assert_eq!(app.handle_key(Key::Char('a')), None);
    assert_eq!(app.handle_key(Key::Backspace), None);

    assert_eq!(app.handle_key(Key::Up), Some(Action::Draw));
    assert_eq!(app.handle_key(Key::Left), Some(Action::Draw));
    assert_eq!(app.cursor(), 4);
    assert_eq!(app.handle_key(Key::Right), Some(Action::Draw));
    assert_eq!(app.handle_key(Key::Right), Some(Action::Draw));
    assert_eq!(app.handle_key(Key::Right), Some(Action::Draw));
    assert_eq!(app.cursor(), 2);
    assert_eq!(app.handle_key(Key::Up), Some(Action::Draw));
    assert_eq!(app.handle_key(Key::Right), Some(Action::Draw));
    assert_eq!(app.handle_key(Key::Down), Some(Action::Draw));
    assert_eq!(marked(&app.rows()[0]), vec![3]);
    assert_eq!(shades(&app.rows()[0]), [Yellow, Black, Yellow, Green, Black]);
    assert_eq!(app.handle_key(Key::Esc), Some(Action::Exit));

    assert_eq!(app.handle_key(Key::Enter), Some(Action::Draw));
    assert!(!app.feedback_mode());
    assert!(app.is_valid());
    assert_eq!(app.rows().len(), 2);
    assert_eq!(marked(&app.rows()[0]), Vec::<usize>::new());
    assert_eq!(spelled(&app.rows()[0]), "ready");
    assert_eq!(app.game().words(), &words(&["cardi", "bards"])[..]);
    let best = app.game().suggested_word().unwrap();
    assert_eq!(spelled(&app.rows()[1]), best.to_text());
    assert_eq!(marked(&app.rows()[1]), vec![0]);
    assert_eq!(app.cursor(), 0);

    type_word(&mut app, "darts");
    assert_eq!(app.handle_key(Key::Enter), Some(Action::Draw));
    assert_eq!(spelled(&app.rows()[1]), "dards");
    assert_eq!(shades(&app.rows()[1]), [Black, Green, Green, Green, Black]);
}

#[test]
fn a_board_with_no_word_left() {
    let mut app = App::new(Game::new(words(&["ready"])));
    assert_eq!(app.handle_key(Key::Char('x')), Some(Action::Draw));
    type_word(&mut app, "bough");
    assert_eq!(app.handle_key(Key::Enter), Some(Action::Draw));
    assert_eq!(spelled(&app.rows()[0]), "ready");
    assert_eq!(shades(&app.rows()[0]), [Green; 5]);
    assert_eq!(app.handle_key(Key::Up), Some(Action::Draw));
    assert_eq!(app.handle_key(Key::Enter), Some(Action::Draw));
    assert_eq!(app.game().words().len(), 0);
    assert_eq!(spelled(&app.rows()[1]), ".....");
}

#[test]
fn summary_of_a_batch() {
    let results = vec![
        (w("ready"), 3usize),
        (w("cardi"), 2),
        (w("bards"), 7),
        (w("split"), 2),
        (w("bough"), 7),
        (w("speed"), 6),
    ];
    assert_eq!(
        summarize(&results),
        Some(Summary {
            min: (w("cardi"), 2),
            max: (w("bough"), 7),
            rounds: 27,
            games: 6,
            failed: 2,
        })
    );
    assert_eq!(MAX_ROUNDS, 6);
}

#[test]
fn summary_of_one_run_and_of_none() {
    assert_eq!(summarize(&[]), None);
    assert_eq!(
        summarize(&[(w("ready"), 1)]),
        Some(Summary {
            min: (w("ready"), 1),
            max: (w("ready"), 1),
            rounds: 1,
            games: 1,
            failed: 0,
        })
    );
}
