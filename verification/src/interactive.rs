use crate::feedback::Feedback;
use crate::game::Game;
use crate::game::GameView;
use crate::letter::Letter;
use crate::word::lemma_word_len;
use crate::word::Word;
use vstd::prelude::*;

verus! {

broadcast use lemma_word_len;

/// A key that the player has pressed.
#[derive(Debug, Clone, Copy, PartialEq, Eq)]
pub enum Key {
    Backspace,
    Char(char),
    Enter,
    Esc,
    Left,
    Right,
    Up,
    Down,
    /// Any key that the board does not use.
    Other,
}

/// What the caller is to do after a key.
#[derive(Debug, Clone, Copy, PartialEq, Eq)]
pub enum Action {
    /// Show the board again.
    Draw,
    /// Leave.
    Exit,
}

/// The colour that follows a colour when the player steps through them.
pub open spec fn next_color(color: Feedback) -> Feedback {
    match color {
        Feedback::Black => Feedback::Yellow,
        Feedback::Yellow => Feedback::Green,
        Feedback::Green => Feedback::Black,
    }
}

/// One position of a row of the board: the letter typed there, if any, its colour, and
/// whether the cursor stands on it.
#[derive(Debug, Clone, Copy, PartialEq, Eq)]
pub struct LetterBlock {
    pub contents: Option<Letter>,
    pub color: Feedback,
    pub selected: bool,
}

impl Default for LetterBlock {
    fn default() -> (r: Self)
        ensures
            r == blank_block(),
    {
        LetterBlock { contents: None, color: Feedback::Black, selected: false }
    }
}

impl LetterBlock {
    /// Steps to the next colour: black, yellow, green, and black again.
    pub fn cycle_color(&mut self)
        ensures
            *final(self) == (LetterBlock { color: next_color(old(self).color), ..*old(self) }),
    {
        self.color =
        match self.color {
            Feedback::Black => Feedback::Yellow,
            Feedback::Yellow => Feedback::Green,
            Feedback::Green => Feedback::Black,
        };
    }
}

/// One row of the board: a guess and its feedback.
#[derive(Debug, Clone, Copy)]
pub struct Row {
    pub letters: [LetterBlock; 5],
}

impl View for Row {
    type V = Seq<LetterBlock>;

    open spec fn view(&self) -> Seq<LetterBlock> {
        self.letters@
    }
}

impl Default for Row {
    fn default() -> (r: Self)
        ensures
            r@ == blank_row(),
    {
        let blank = LetterBlock::default();
        let r = Row { letters: [blank, blank, blank, blank, blank] };
        proof {
            assert(r@ =~= blank_row());
        }
        r
    }
}

/// A position with no letter, black, without the cursor.
pub open spec fn blank_block() -> LetterBlock {
    LetterBlock { contents: None, color: Feedback::Black, selected: false }
}

/// A row with no letters.
pub open spec fn blank_row() -> Seq<LetterBlock> {
    Seq::new(5, |p: int| blank_block())
}

/// The row with the mark of the cursor set or cleared at position `p`, where the row has
/// such a position.
pub open spec fn select(row: Seq<LetterBlock>, p: int, on: bool) -> Seq<LetterBlock> {
    if 0 <= p < 5 {
        row.update(p, LetterBlock { selected: on, ..row[p] })
    } else {
        row
    }
}

/// The row with the letter at position `p` set or cleared.
pub open spec fn put(row: Seq<LetterBlock>, p: int, contents: Option<Letter>) -> Seq<LetterBlock> {
    row.update(p, LetterBlock { contents, ..row[p] })
}

/// Whether every position of the row holds a letter.
pub open spec fn has_word(row: Seq<LetterBlock>) -> bool {
    forall|p: int| 0 <= p < 5 ==> (#[trigger] row[p]).contents is Some
}

/// The letters of a row.
pub open spec fn typed(row: Seq<LetterBlock>) -> Seq<Letter> {
    Seq::new(5, |p: int| row[p].contents->0)
}

/// The colours of a row.
pub open spec fn colors(row: Seq<LetterBlock>) -> Seq<Feedback> {
    Seq::new(5, |p: int| row[p].color)
}

/// The row with the letters of a word.
pub open spec fn filled(row: Seq<LetterBlock>, word: Word) -> Seq<LetterBlock> {
    Seq::new(5, |p: int| LetterBlock { contents: Some(word@[p]), ..row[p] })
}

/// The row with the letters and colours that the pool of a game makes one expect.
pub open spec fn expected(row: Seq<LetterBlock>, game: GameView) -> Seq<LetterBlock> {
    Seq::new(
        5,
        |p: int|
            LetterBlock {
                contents: Some(game.expected_block(p, row[p].contents->0, row[p].color).0),
                color: game.expected_block(p, row[p].contents->0, row[p].color).1,
                selected: row[p].selected,
            },
    )
}

/// The board: the rows played, the last of them under way; the cursor in that row; whether the
/// player is typing a word or setting its colours; and the game.
pub struct AppView {
    pub rows: Seq<Seq<LetterBlock>>,
    pub cursor: int,
    pub feedback_mode: bool,
    pub game: GameView,
}

impl AppView {
    /// The row under way.
    pub open spec fn last(self) -> Seq<LetterBlock> {
        self.rows.last()
    }

    /// The board with another row under way.
    pub open spec fn with_last(self, row: Seq<LetterBlock>) -> AppView {
        AppView { rows: self.rows.update(self.rows.len() - 1, row), ..self }
    }

    /// There is a row under way, the cursor is in it or just behind it, and colours are set
    /// only on a whole word, with the cursor on a letter.
    pub open spec fn wf(self) -> bool {
        &&& self.rows.len() >= 1
        &&& forall|i: int| 0 <= i < self.rows.len() ==> (#[trigger] self.rows[i]).len() == 5
        &&& 0 <= self.cursor <= 5
        &&& self.feedback_mode ==> self.cursor < 5 && has_word(self.last())
    }

    /// The board with the cursor at another position of the row under way.
    pub open spec fn set_cursor(self, cursor: int) -> AppView {
        AppView { cursor, ..self.with_last(select(select(self.last(), self.cursor, false), cursor, true)) }
    }

    /// The board with the word that the game suggests in the row under way, where the game
    /// suggests one.
    pub open spec fn fill_suggested_word(self) -> AppView {
        match self.game.suggestion() {
            Some(word) => self.with_last(filled(self.last(), word)),
            None => self,
        }
    }

    /// The board after a key in word mode, and what the caller is to do.
    pub open spec fn word_key(self, key: Key) -> (AppView, Option<Action>) {
        match key {
            Key::Backspace if self.cursor > 0 => {
                let moved = self.set_cursor(self.cursor - 1);
                (moved.with_last(put(moved.last(), moved.cursor, None)), Some(Action::Draw))
            },
            Key::Char(c) if Letter::of_key(c) is Some && self.cursor < 5 => (
                self.with_last(put(self.last(), self.cursor, Letter::of_key(c))).set_cursor(
                    self.cursor + 1,
                ),
                Some(Action::Draw),
            ),
            Key::Enter if has_word(self.last()) => {
                let moved = self.set_cursor(0);
                (
                    AppView { feedback_mode: true, ..moved.with_last(expected(moved.last(), self.game)) },
                    Some(Action::Draw),
                )
            },
            Key::Esc => (self, Some(Action::Exit)),
            _ => (self, None),
        }
    }

    /// The board after the player has confirmed the colours of the row under way: the game
    /// takes the round in, and a new row starts with the word that the game suggests.
    pub open spec fn confirm(self) -> AppView {
        let row = select(self.last(), self.cursor, false);
        let game = self.game.apply(Word::of_letters(typed(row)), colors(row));
        let next = AppView {
            rows: self.rows.update(self.rows.len() - 1, row).push(blank_row()),
            cursor: self.cursor,
            feedback_mode: self.feedback_mode,
            game,
        };
        AppView { feedback_mode: false, ..next.set_cursor(0) }.fill_suggested_word()
    }

    /// The board with the colour under the cursor stepped on.
    pub open spec fn cycle(self) -> AppView {
        self.with_last(
            self.last().update(
                self.cursor,
                LetterBlock {
                    color: next_color(self.last()[self.cursor].color),
                    ..self.last()[self.cursor]
                },
            ),
        )
    }

    /// The board after a key in feedback mode, and what the caller is to do.
    pub open spec fn feedback_key(self, key: Key) -> (AppView, Option<Action>) {
        match key {
            Key::Enter => (self.confirm(), Some(Action::Draw)),
            Key::Right => (self.set_cursor((self.cursor + 1) % 5), Some(Action::Draw)),
            Key::Left => (self.set_cursor((self.cursor + 4) % 5), Some(Action::Draw)),
            Key::Up => (self.cycle(), Some(Action::Draw)),
            Key::Down => (self.cycle().cycle(), Some(Action::Draw)),
            Key::Esc => (self, Some(Action::Exit)),
            _ => (self, None),
        }
    }

    /// The board after a key, and what the caller is to do.
    pub open spec fn key(self, key: Key) -> (AppView, Option<Action>) {
        if self.feedback_mode {
            self.feedback_key(key)
        } else {
            self.word_key(key)
        }
    }
}

/// The board of the interactive solver.
#[derive(Debug)]
pub struct App {
    rows: Vec<Row>,
    cursor: usize,
    feedback_mode: bool,
    game: Game,
}

impl View for App {
    type V = AppView;

    closed spec fn view(&self) -> AppView {
        AppView {
            rows: Seq::new(self.rows@.len(), |i: int| self.rows@[i]@),
            cursor: self.cursor as int,
            feedback_mode: self.feedback_mode,
            game: self.game@,
        }
    }
}

impl App {
    /// The row under way.
    fn last_row(&self) -> (r: Row)
        requires
            self@.rows.len() >= 1,
        ensures
            r@ == self@.last(),
    {
        self.rows[self.rows.len() - 1]
    }

    /// Puts another row in the place of the row under way.
    fn set_last_row(&mut self, row: Row)
        requires
            old(self)@.rows.len() >= 1,
        ensures
            final(self)@ == old(self)@.with_last(row@),
    {
        let n: usize = self.rows.len();
        self.rows[n - 1] = row;
        proof {
            assert(self@.rows =~= old(self)@.rows.update(n - 1, row@));
        }
    }

    /// Moves the cursor, and the mark of the cursor with it.
    fn set_cursor(&mut self, cursor: usize)
        requires
            old(self)@.rows.len() >= 1,
        ensures
            final(self)@ == old(self)@.set_cursor(cursor as int),
    {
        let mut row = self.last_row();
        let before: usize = self.cursor;
        if before < 5 {
            let mut block = row.letters[before];
            block.selected = false;
            row.letters[before] = block;
        }
        if cursor < 5 {
            let mut block = row.letters[cursor];
            block.selected = true;
            row.letters[cursor] = block;
        }
        self.cursor = cursor;
        self.set_last_row(row);
    }

    /// Sets or clears the letter under the cursor.
    fn set_contents(&mut self, contents: Option<Letter>)
        requires
            old(self)@.rows.len() >= 1,
            old(self)@.cursor < 5,
        ensures
            final(self)@ == old(self)@.with_last(put(old(self)@.last(), old(self)@.cursor, contents)),
    {
        let mut row = self.last_row();
        let mut block = row.letters[self.cursor];
        block.contents = contents;
        row.letters[self.cursor] = block;
        self.set_last_row(row);
    }

    /// Steps the colour under the cursor on.
    fn cycle(&mut self)
        requires
            old(self)@.rows.len() >= 1,
            old(self)@.cursor < 5,
        ensures
            final(self)@ == old(self)@.cycle(),
    {
        let mut row = self.last_row();
        let mut block = row.letters[self.cursor];
        block.cycle_color();
        row.letters[self.cursor] = block;
        self.set_last_row(row);
    }

    /// Puts the word that the game suggests into the row under way.
    fn fill_suggested_word(&mut self)
        requires
            old(self)@.rows.len() >= 1,
        ensures
            final(self)@ == old(self)@.fill_suggested_word(),
    {
        match self.game.suggested_word() {
            Some(word) => {
                let mut row = self.last_row();
                let ghost start = row@;
                let mut p: usize = 0;
                while p < 5
                    invariant
                        p <= 5,
                        start.len() == 5,
                        forall|q: int| 0 <= q < p ==> #[trigger] row@[q] == filled(start, word)[q],
                        forall|q: int| p <= q < 5 ==> #[trigger] row@[q] == start[q],
                    decreases 5 - p,
                {
                    let ghost before = row@;
                    let mut block = row.letters[p];
                    block.contents = Some(word.letter(p));
                    row.letters[p] = block;
                    proof {
                        assert(row@ =~= before.update(p as int, block));
                        assert(before[p as int] == start[p as int]);
                    }
                    p += 1;
                }
                proof {
                    assert(row@ =~= filled(start, word));
                }
                self.set_last_row(row);
            },
            None => {},
        }
    }

    /// Whether every position of the row under way holds a letter.
    fn has_word(&self) -> (r: bool)
        requires
            self@.rows.len() >= 1,
        ensures
            r == has_word(self@.last()),
    {
        let row = self.last_row();
        let mut p: usize = 0;
        while p < 5
            invariant
                p <= 5,
                row@ == self@.last(),
                forall|q: int| 0 <= q < p ==> (#[trigger] row@[q]).contents is Some,
            decreases 5 - p,
        {
            if row.letters[p].contents.is_none() {
                assert(!(row@[p as int].contents is Some));
                return false;
            }
            p += 1;
        }
        true
    }

    /// Sets the letters and colours of the row under way to what the pool of the game makes
    /// one expect.
    fn apply_expected_feedback(&mut self)
        requires
            old(self)@.rows.len() >= 1,
            has_word(old(self)@.last()),
        ensures
            final(self)@ == old(self)@.with_last(expected(old(self)@.last(), old(self)@.game)),
    {
        let mut row = self.last_row();
        let ghost start = row@;
        let letters: [Letter; 5] = [
            row.letters[0].contents.unwrap(),
            row.letters[1].contents.unwrap(),
            row.letters[2].contents.unwrap(),
            row.letters[3].contents.unwrap(),
            row.letters[4].contents.unwrap(),
        ];
        let shades: [Feedback; 5] = [
            row.letters[0].color,
            row.letters[1].color,
            row.letters[2].color,
            row.letters[3].color,
            row.letters[4].color,
        ];
        let (new_letters, new_shades) = self.game.expected_feedback(letters, shades);
        let mut p: usize = 0;
        while p < 5
            invariant
                p <= 5,
                start.len() == 5,
                forall|q: int|
                    0 <= q < 5 ==> (#[trigger] new_letters@[q], new_shades@[q])
                        == self@.game.expected_block(q, start[q].contents->0, start[q].color),
                forall|q: int| 0 <= q < p ==> #[trigger] row@[q] == expected(start, self@.game)[q],
                forall|q: int| p <= q < 5 ==> #[trigger] row@[q] == start[q],
            decreases 5 - p,
        {
            let ghost before = row@;
            let mut block = row.letters[p];
            block.contents = Some(new_letters[p]);
            block.color = new_shades[p];
            row.letters[p] = block;
            proof {
                assert(row@ =~= before.update(p as int, block));
                assert(before[p as int] == start[p as int]);
                assert((new_letters@[p as int], new_shades@[p as int])
                    == self@.game.expected_block(
                    p as int,
                    start[p as int].contents->0,
                    start[p as int].color,
                ));
            }
            p += 1;
        }
        proof {
            assert(row@ =~= expected(start, self@.game));
        }
        self.set_last_row(row);
    }
}

impl App {
    /// The board is in order: see `AppView::wf`.
    pub open spec fn wf(self) -> bool {
        self@.wf()
    }

    /// A board with one row, the cursor on its first position, and the word that the game
    /// suggests in it.
    pub fn new(game: Game) -> (r: Self)
        ensures
            r@ == (AppView {
                rows: seq![select(blank_row(), 0, true)],
                cursor: 0,
                feedback_mode: false,
                game: game@,
            }).fill_suggested_word(),
            r.wf(),
    {
        let mut rows: Vec<Row> = Vec::new();
        rows.push(Row::default());
        let mut app = App { rows, cursor: 0, feedback_mode: false, game };
        let ghost blank = app@;
        proof {
            assert(blank.rows =~= seq![blank_row()]);
        }
        app.set_cursor(0);
        proof {
            assert(select(select(blank_row(), 0, false), 0, true) =~= select(blank_row(), 0, true));
            assert(blank.last() == blank_row());
            assert(app@.rows =~= seq![select(blank_row(), 0, true)]);
        }
        app.fill_suggested_word();
        app
    }

    /// Whether the board is in order.
    pub fn is_valid(&self) -> (r: bool)
        ensures
            r == self.wf(),
    {
        if self.rows.len() == 0 || self.cursor > 5 {
            return false;
        }
        proof {
            assert forall|i: int| 0 <= i < self@.rows.len() implies (#[trigger] self@.rows[i]).len()
                == 5 by {}
        }
        if self.feedback_mode {
            self.cursor < 5 && self.has_word()
        } else {
            true
        }
    }

    /// The rows of the board, the last of them under way.
    pub fn rows(&self) -> (r: &[Row])
        ensures
            r@.len() == self@.rows.len(),
            forall|i: int| 0 <= i < r@.len() ==> (#[trigger] r@[i])@ == self@.rows[i],
    {
        self.rows.as_slice()
    }

    /// Where the cursor stands in the row under way.
    pub fn cursor(&self) -> (r: usize)
        ensures
            r == self@.cursor,
    {
        self.cursor
    }

    /// Whether the player is setting colours rather than typing a word.
    pub fn feedback_mode(&self) -> (r: bool)
        ensures
            r == self@.feedback_mode,
    {
        self.feedback_mode
    }

    /// The game behind the board.
    pub fn game(&self) -> (r: &Game)
        ensures
            r@ == self@.game,
    {
        &self.game
    }

    /// Takes a key in word mode: a letter goes under the cursor, backspace takes the last one
    /// back, and enter on a whole word turns to the colours.
    pub fn handle_key_in_word_mode(&mut self, key: Key) -> (r: Option<Action>)
        requires
            old(self).wf(),
            !old(self)@.feedback_mode,
        ensures
            (final(self)@, r) == old(self)@.word_key(key),
            final(self).wf(),
    {
        match key {
            Key::Backspace => {
                if self.cursor > 0 {
                    self.set_cursor(self.cursor - 1);
                    self.set_contents(None);
                    return Some(Action::Draw);
                }
                None
            },
            Key::Char(c) => {
                match Letter::from_key(c) {
                    Some(letter) => {
                        if self.cursor < 5 {
                            self.set_contents(Some(letter));
                            self.set_cursor(self.cursor + 1);
                            return Some(Action::Draw);
                        }
                        None
                    },
                    None => None,
                }
            },
            Key::Enter => {
                if self.has_word() {
                    self.set_cursor(0);
                    self.feedback_mode = true;
                    self.apply_expected_feedback();
                    return Some(Action::Draw);
                }
                None
            },
            Key::Esc => Some(Action::Exit),
            _ => None,
        }
    }

    /// Takes a key in feedback mode: the arrows move the cursor and step through the colours,
    /// and enter hands the round to the game and starts the next row.
    pub fn handle_key_in_feedback_mode(&mut self, key: Key) -> (r: Option<Action>)
        requires
            old(self).wf(),
            old(self)@.feedback_mode,
        ensures
            (final(self)@, r) == old(self)@.feedback_key(key),
            final(self).wf(),
    {
        match key {
            Key::Enter => {
                let mut row = self.last_row();
                let mut block = row.letters[self.cursor];
                block.selected = false;
                row.letters[self.cursor] = block;
                self.set_last_row(row);
                let letters: [Letter; 5] = [
                    row.letters[0].contents.unwrap(),
                    row.letters[1].contents.unwrap(),
                    row.letters[2].contents.unwrap(),
                    row.letters[3].contents.unwrap(),
                    row.letters[4].contents.unwrap(),
                ];
                let feedback: [Feedback; 5] = [
                    row.letters[0].color,
                    row.letters[1].color,
                    row.letters[2].color,
                    row.letters[3].color,
                    row.letters[4].color,
                ];
                proof {
                    assert(letters@ =~= typed(row@));
                    assert(feedback@ =~= colors(row@));
                }
                let word = Word::from(letters);
                self.game.apply_feedback(word, feedback);
                let ghost rows_before = self@.rows;
                self.rows.push(Row::default());
                proof {
                    assert(self@.rows =~= rows_before.push(blank_row()));
                }
                self.set_cursor(0);
                self.feedback_mode = false;
                self.fill_suggested_word();
                Some(Action::Draw)
            },
            Key::Right => {
                self.set_cursor((self.cursor + 1) % 5);
                Some(Action::Draw)
            },
            Key::Left => {
                self.set_cursor((self.cursor + 4) % 5);
                Some(Action::Draw)
            },
            Key::Up => {
                self.cycle();
                Some(Action::Draw)
            },
            Key::Down => {
                self.cycle();
                self.cycle();
                Some(Action::Draw)
            },
            Key::Esc => Some(Action::Exit),
            _ => None,
        }
    }

    /// Takes a key, and says what the caller is to do: show the board again, leave, or
    /// nothing.
    pub fn handle_key(&mut self, key: Key) -> (r: Option<Action>)
        requires
            old(self).wf(),
        ensures
            (final(self)@, r) == old(self)@.key(key),
            final(self).wf(),
    {
        if self.feedback_mode {
            self.handle_key_in_feedback_mode(key)
        } else {
            self.handle_key_in_word_mode(key)
        }
    }
}

} // verus!
