//! The game session: the board, the cursor, the difficulty, the pause state and
//! the timer, and what each key press does to them. Time is given by the caller
//! as milliseconds on a clock that does not go back.
use vstd::prelude::*;
use crate::grid::{
    Grid, cell, set_cell, candidates, complete, in_grid, peers, is_candidate, consistent, is_solution,
    unique_solution, empties, lemma_set_cell, lemma_candidates,
};
use crate::sudoku::{
    Sudoku, Difficulty, flag, valid_placement, is_fresh_puzzle, minimal_puzzle, lemma_fresh_puzzle_empties,
    lemma_hint_agrees_with_solutions, lemma_valid_placement_keeps_consistency,
};

verus! {

/// A key press, as far as the game tells keys apart.
#[derive(Clone, Copy, Debug, PartialEq, Eq, Structural)]
pub enum Key {
    Char(char),
    Up,
    Down,
    Left,
    Right,
    Backspace,
    Enter,
    Tab,
    Esc,
    Other,
}

/// The state of a game session.
pub struct App {
    pub sudoku: Sudoku,
    /// (row, column) of the selected cell.
    pub cursor: (usize, usize),
    pub should_quit: bool,
    pub message: Option<String>,
    pub difficulty: Difficulty,
    /// When the timer last started, in milliseconds.
    pub timer_start: Option<u64>,
    /// Time played, in milliseconds, as of the last pause or finish.
    pub timer_elapsed: u64,
    pub timer_stopped: bool,
    pub is_paused: bool,
}

/// The digit 1 to 9 that a character names, if any.
pub open spec fn digit_of(ch: char) -> Option<u8> {
    if '1' <= ch && ch <= '9' {
        Some((ch as u32 - '0' as u32) as u8)
    } else {
        None
    }
}

/// Milliseconds since `start` at time `now` (none if `now` is earlier; zero without a start).
pub open spec fn elapsed_at(start: Option<u64>, now: u64) -> u64 {
    match start {
        Some(t) => if now >= t { (now - t) as u64 } else { 0 },
        None => 0,
    }
}

/// How a cell is shown.
#[derive(Clone, Copy, Debug, PartialEq, Eq, Structural)]
pub enum CellLook {
    /// The selected cell.
    Cursor,
    /// An empty cell.
    Empty,
    /// A given of the puzzle.
    Given,
    /// A cell the player (or a hint) filled.
    Entered,
}

/// The label shown for a difficulty.
pub fn difficulty_label(d: Difficulty) -> (label: &'static str)
    ensures
        label@ == match d {
            Difficulty::Easy => " EASY "@,
            Difficulty::Medium => " MEDIUM "@,
            Difficulty::Hard => " HARD "@,
            Difficulty::Master => " MASTER "@,
        },
{
    match d {
        Difficulty::Easy => " EASY ",
        Difficulty::Medium => " MEDIUM ",
        Difficulty::Hard => " HARD ",
        Difficulty::Master => " MASTER ",
    }
}

pub open spec fn pause_text() -> Seq<char> {
    " PAUSE "@
}

impl App {
    /// The cursor is on the board.
    pub open spec fn cursor_on_board(self) -> bool {
        self.cursor.0 < 9 && self.cursor.1 < 9
    }

    /// The cursor is on the board, and every hint cell is filled.
    pub open spec fn wf(self) -> bool {
        &&& self.cursor_on_board()
        &&& forall|i: int, j: int| 0 <= i < 9 && 0 <= j < 9 && #[trigger] flag(self.sudoku.hint_filled, i, j)
            ==> cell(self.sudoku.grid, i, j) is Some
    }

    /// `f` is `o` with a new puzzle of `o`'s difficulty started at `now`.
    pub open spec fn restarted(o: App, f: App, now: u64) -> bool {
        &&& is_fresh_puzzle(f.sudoku, o.difficulty)
        &&& f.cursor == (0usize, 0usize)
        &&& f.should_quit == o.should_quit
        &&& f.message is None
        &&& f.difficulty == o.difficulty
        &&& f.timer_start == Some(now)
        &&& f.timer_elapsed == 0
        &&& !f.timer_stopped
        &&& !f.is_paused
    }

    /// `f` is `o` with only its board changed, to `s`.
    pub open spec fn with_sudoku(o: App, f: App, s: Sudoku) -> bool {
        f == App { sudoku: s, ..o }
    }

    /// What pressing `key` at time `now` does to the session `o`, giving `f`.
    pub open spec fn key_effect(o: App, f: App, key: Key, now: u64) -> bool {
        let (r, c) = (o.cursor.0 as int, o.cursor.1 as int);
        if key == Key::Char('q') {
            f == App { should_quit: true, ..o }
        } else if key == Key::Char('p') && !o.timer_stopped {
            if !o.is_paused {
                f == App {
                    is_paused: true,
                    timer_elapsed: elapsed_at(o.timer_start, now),
                    message: f.message,
                    ..o
                } && (f.message matches Some(m) && m@ == pause_text())
            } else {
                f == App {
                    is_paused: false,
                    timer_start: Some(if now >= o.timer_elapsed { (now - o.timer_elapsed) as u64 } else { 0 }),
                    message: None,
                    ..o
                }
            }
        } else if key == Key::Up && o.cursor.0 > 0 && !o.is_paused {
            f == App { cursor: ((o.cursor.0 - 1) as usize, o.cursor.1), ..o }
        } else if key == Key::Down && o.cursor.0 < 8 && !o.is_paused {
            f == App { cursor: ((o.cursor.0 + 1) as usize, o.cursor.1), ..o }
        } else if key == Key::Left && o.cursor.1 > 0 && !o.is_paused {
            f == App { cursor: (o.cursor.0, (o.cursor.1 - 1) as usize), ..o }
        } else if key == Key::Right && o.cursor.1 < 8 && !o.is_paused {
            f == App { cursor: (o.cursor.0, (o.cursor.1 + 1) as usize), ..o }
        } else if key == Key::Char('n') {
            Self::restarted(o, f, now)
        } else if key matches Key::Char(ch) && digit_of(ch) is Some && !o.is_paused {
            let n = digit_of(key->Char_0)->0;
            let placed = !flag(o.sudoku.fixed, r, c) && !flag(o.sudoku.hint_filled, r, c)
                && valid_placement(o.sudoku.grid, r, c, n);
            Self::with_sudoku(o, f, Sudoku {
                grid: if placed { set_cell(o.sudoku.grid, r, c, Some(n)) } else { o.sudoku.grid },
                ..o.sudoku
            })
        } else if (key == Key::Backspace || key == Key::Char('z')) && !o.is_paused {
            let cleared = !flag(o.sudoku.fixed, r, c) && !flag(o.sudoku.hint_filled, r, c);
            Self::with_sudoku(o, f, Sudoku {
                grid: if cleared { set_cell(o.sudoku.grid, r, c, None) } else { o.sudoku.grid },
                ..o.sudoku
            })
        } else if key == Key::Char('h') && !o.is_paused {
            let cs = candidates(o.sudoku.grid, r, c);
            let hinted = cell(o.sudoku.grid, r, c) is None && cs.len() == 1 && !flag(o.sudoku.fixed, r, c)
                && valid_placement(o.sudoku.grid, r, c, cs[0]);
            if hinted {
                f.sudoku.grid == set_cell(o.sudoku.grid, r, c, Some(cs[0]))
                && f.sudoku.fixed == o.sudoku.fixed
                && (forall|i: int, j: int| 0 <= i < 9 && 0 <= j < 9 ==>
                    #[trigger] flag(f.sudoku.hint_filled, i, j) == (flag(o.sudoku.hint_filled, i, j) || (i == r && j == c)))
                && f == App { sudoku: f.sudoku, ..o }
            } else {
                f == o
            }
        } else if key == Key::Tab {
            f == App { difficulty: o.difficulty.spec_next(), ..o }
        } else if key == Key::Enter && o.message is Some {
            Self::restarted(o, f, now)
        } else if key == Key::Esc {
            f == App { should_quit: true, ..o }
        } else {
            f == o
        }
    }

    /// What the check after a key press (or after none) at time `now` does to the
    /// session `o`, giving `f`: once the board is full, the timer stops, unless paused.
    pub open spec fn tick_effect(o: App, f: App, now: u64) -> bool {
        if !o.timer_stopped && !o.is_paused && complete(o.sudoku.grid) {
            f == App { timer_elapsed: elapsed_at(o.timer_start, now), timer_stopped: true, ..o }
        } else {
            f == o
        }
    }

    /// The keys that start a new game from `o`: 'n', and Enter while a message shows.
    pub open spec fn starts_new_game(o: App, key: Key) -> bool {
        key == Key::Char('n') || (key == Key::Enter && o.message is Some)
    }

    /// One turn of the game loop at time `now`: the key pressed, if any, takes `o`
    /// to `m`, and the check that follows takes `m` to `f`.
    pub open spec fn turn(o: App, m: App, f: App, key: Option<Key>, now: u64) -> bool {
        &&& match key {
            Some(k) => Self::key_effect(o, m, k, now),
            None => m == o,
        }
        &&& Self::tick_effect(m, f, now)
    }

    /// How cell (`row`, `col`) is shown: the cursor first, then empty, given or entered.
    pub fn cell_look(&self, row: usize, col: usize) -> (look: CellLook)
        requires
            row < 9,
            col < 9,
        ensures
            look == if (row, col) == self.cursor {
                CellLook::Cursor
            } else if cell(self.sudoku.grid, row as int, col as int) is None {
                CellLook::Empty
            } else if flag(self.sudoku.fixed, row as int, col as int) {
                CellLook::Given
            } else {
                CellLook::Entered
            },
    {
        if row == self.cursor.0 && col == self.cursor.1 {
            CellLook::Cursor
        } else if self.sudoku.grid[row][col].is_none() {
            CellLook::Empty
        } else if self.sudoku.is_fixed(row, col) {
            CellLook::Given
        } else {
            CellLook::Entered
        }
    }

    /// A session with a new Easy puzzle, its timer started at `now`.
    pub fn new(now: u64) -> (app: Self)
        ensures
            is_fresh_puzzle(app.sudoku, Difficulty::Easy),
            app.cursor == (0usize, 0usize),
            !app.should_quit,
            app.message is None,
            app.difficulty == Difficulty::Easy,
            app.timer_start == Some(now),
            app.timer_elapsed == 0,
            !app.timer_stopped,
            !app.is_paused,
            app.wf(),
    {
        let difficulty = Difficulty::Easy;
        App {
            sudoku: Sudoku::generate_puzzle(Some(difficulty)),
            cursor: (0, 0),
            should_quit: false,
            message: None,
            difficulty,
            timer_start: Some(now),
            timer_elapsed: 0,
            timer_stopped: false,
            is_paused: false,
        }
    }

    fn elapsed(start: Option<u64>, now: u64) -> (e: u64)
        ensures
            e == elapsed_at(start, now),
    {
        match start {
            Some(t) => now.saturating_sub(t),
            None => 0,
        }
    }

    fn restart(&mut self, now: u64)
        ensures
            Self::restarted(*old(self), *final(self), now),
    {
        self.sudoku = Sudoku::generate_puzzle(Some(self.difficulty));
        self.cursor = (0, 0);
        self.timer_start = Some(now);
        self.timer_elapsed = 0;
        self.timer_stopped = false;
        self.is_paused = false;
        self.message = None;
    }

    /// Applies one key press at time `now`.
    pub fn handle_key(&mut self, key: Key, now: u64)
        requires
            old(self).cursor_on_board(),
        ensures
            final(self).cursor_on_board(),
            old(self).wf() ==> final(self).wf(),
            Self::key_effect(*old(self), *final(self), key, now),
    {
        let digit: Option<u8> = match key {
            Key::Char(ch) => if '1' <= ch && ch <= '9' {
                Some((ch as u32 - '0' as u32) as u8)
            } else {
                None
            },
            _ => None,
        };
        let (row, col) = self.cursor;
        if key == Key::Char('q') {
            self.should_quit = true;
        } else if key == Key::Char('p') && !self.timer_stopped {
            self.is_paused = !self.is_paused;
            if self.is_paused {
                self.timer_elapsed = Self::elapsed(self.timer_start, now);
                self.message = Some(" PAUSE ".to_string());
            } else {
                self.timer_start = Some(now.saturating_sub(self.timer_elapsed));
                self.message = None;
            }
        } else if key == Key::Up && row > 0 && !self.is_paused {
            self.cursor.0 = row - 1;
        } else if key == Key::Down && row < 8 && !self.is_paused {
            self.cursor.0 = row + 1;
        } else if key == Key::Left && col > 0 && !self.is_paused {
            self.cursor.1 = col - 1;
        } else if key == Key::Right && col < 8 && !self.is_paused {
            self.cursor.1 = col + 1;
        } else if key == Key::Char('n') {
            self.restart(now);
        } else if digit.is_some() && !self.is_paused {
            let num = digit.unwrap();
            self.sudoku.set(row, col, num);
        } else if (key == Key::Backspace || key == Key::Char('z')) && !self.is_paused {
            self.sudoku.clear(row, col);
        } else if key == Key::Char('h') && !self.is_paused {
            if let Some(num) = self.sudoku.get_hint(row, col) {
                self.sudoku.set_hint(row, col, num);
            }
        } else if key == Key::Tab {
            self.difficulty = self.difficulty.next();
        } else if key == Key::Enter && self.message.is_some() {
            self.restart(now);
        } else if key == Key::Esc {
            self.should_quit = true;
        }
    }

    /// After a key press: once the board is full, the timer stops, unless paused.
    pub fn tick(&mut self, now: u64)
        ensures
            Self::tick_effect(*old(self), *final(self), now),
    {
        if !self.timer_stopped && !self.is_paused && self.sudoku.is_complete() {
            self.timer_elapsed = Self::elapsed(self.timer_start, now);
            self.timer_stopped = true;
        }
    }
}

/// Time spent paused does not count: pausing at `now1` and resuming at `now2`
/// leaves the timer showing, at any later `now3`, the time played before the
/// pause plus the time since the resume.
pub proof fn lemma_pause_resume(o: App, a: App, b: App, t: u64, now1: u64, now2: u64, now3: u64)
    requires
        !o.timer_stopped,
        !o.is_paused,
        o.timer_start == Some(t),
        t <= now1 <= now2 <= now3,
        App::key_effect(o, a, Key::Char('p'), now1),
        App::key_effect(a, b, Key::Char('p'), now2),
    ensures
        a.is_paused,
        a.timer_elapsed == now1 - t,
        !b.is_paused,
        b.message is None,
        elapsed_at(b.timer_start, now3) == (now1 - t) + (now3 - now2),
{
}

/// Once the timer has stopped, it stays stopped and shows the same time over
/// every run of turns of the game loop in which no key starts a new game; in
/// particular pausing does nothing then.
pub proof fn lemma_stopped_timer_stays(states: Seq<App>, mids: Seq<App>, keys: Seq<Option<Key>>, times: Seq<u64>)
    requires
        states.len() == keys.len() + 1,
        mids.len() == keys.len(),
        times.len() == keys.len(),
        states[0].timer_stopped,
        forall|i: int| 0 <= i < keys.len() ==> App::turn(states[i], #[trigger] mids[i], states[i + 1], keys[i], times[i]),
        forall|i: int| 0 <= i < keys.len() ==> !(#[trigger] keys[i] matches Some(k) && App::starts_new_game(states[i], k)),
    ensures
        forall|i: int| 0 <= i < states.len() ==> (#[trigger] states[i]).timer_stopped
            && states[i].timer_elapsed == states[0].timer_elapsed
            && states[i].timer_start == states[0].timer_start,
{
    assert forall|i: int| 0 <= i < states.len() implies (#[trigger] states[i]).timer_stopped
        && states[i].timer_elapsed == states[0].timer_elapsed
        && states[i].timer_start == states[0].timer_start by {
        lemma_stopped_prefix(states, mids, keys, times, i);
    }
}

proof fn lemma_stopped_prefix(states: Seq<App>, mids: Seq<App>, keys: Seq<Option<Key>>, times: Seq<u64>, k: int)
    requires
        states.len() == keys.len() + 1,
        mids.len() == keys.len(),
        times.len() == keys.len(),
        states[0].timer_stopped,
        forall|i: int| 0 <= i < keys.len() ==> App::turn(states[i], #[trigger] mids[i], states[i + 1], keys[i], times[i]),
        forall|i: int| 0 <= i < keys.len() ==> !(#[trigger] keys[i] matches Some(k) && App::starts_new_game(states[i], k)),
        0 <= k < states.len(),
    ensures
        states[k].timer_stopped,
        states[k].timer_elapsed == states[0].timer_elapsed,
        states[k].timer_start == states[0].timer_start,
    decreases k,
{
    if k > 0 {
        lemma_stopped_prefix(states, mids, keys, times, k - 1);
        assert(App::turn(states[k - 1], mids[k - 1], states[k], keys[k - 1], times[k - 1]));
        assert(!(keys[k - 1] matches Some(kk) && App::starts_new_game(states[k - 1], kk)));
    }
}

/// 'n', and Enter while a message shows, start a new puzzle of the difficulty
/// the session shows: 40, 50, 60 or 70 empty cells for Easy, Medium, Hard or
/// Master (fewer only when no filled cell can be emptied keeping the solution
/// unique), a unique solution, the difficulty kept, the cursor at the top left
/// and the timer running from `now`.
pub proof fn lemma_new_game_difficulty(o: App, f: App, key: Key, now: u64)
    requires
        App::key_effect(o, f, key, now),
        key == Key::Char('n') || (key == Key::Enter && o.message is Some),
    ensures
        is_fresh_puzzle(f.sudoku, o.difficulty),
        unique_solution(f.sudoku.grid),
        empties(f.sudoku.grid) == match o.difficulty {
            Difficulty::Easy => 40int,
            Difficulty::Medium => 50int,
            Difficulty::Hard => 60int,
            Difficulty::Master => 70int,
        } || minimal_puzzle(f.sudoku.grid),
        f.difficulty == o.difficulty,
        f.cursor == (0usize, 0usize),
        f.timer_start == Some(now),
        f.timer_elapsed == 0,
        !f.timer_stopped,
        !f.is_paused,
{
    lemma_fresh_puzzle_empties(f.sudoku, o.difficulty);
}

/// A digit key changes the board only by a valid move: every cell but the
/// cursor's stays as it was, and if the cursor's cell changed it now holds the
/// digit, no other cell of its row, column or box held that digit, and the cell
/// was neither a given nor a hint; so a board free of conflicts stays free of them.
pub proof fn lemma_digit_moves_are_valid(o: App, f: App, ch: char, now: u64)
    requires
        o.cursor_on_board(),
        '1' <= ch <= '9',
        App::key_effect(o, f, Key::Char(ch), now),
    ensures
        f.sudoku.fixed == o.sudoku.fixed,
        f.sudoku.hint_filled == o.sudoku.hint_filled,
        forall|i: int, j: int| in_grid(i, j) && (i != o.cursor.0 || j != o.cursor.1)
            ==> #[trigger] cell(f.sudoku.grid, i, j) == cell(o.sudoku.grid, i, j),
        cell(f.sudoku.grid, o.cursor.0 as int, o.cursor.1 as int)
            != cell(o.sudoku.grid, o.cursor.0 as int, o.cursor.1 as int) ==> {
            &&& cell(f.sudoku.grid, o.cursor.0 as int, o.cursor.1 as int) == digit_of(ch)
            &&& !flag(o.sudoku.fixed, o.cursor.0 as int, o.cursor.1 as int)
            &&& !flag(o.sudoku.hint_filled, o.cursor.0 as int, o.cursor.1 as int)
            &&& forall|i: int, j: int| in_grid(i, j) && peers(o.cursor.0 as int, o.cursor.1 as int, i, j)
                && (i != o.cursor.0 || j != o.cursor.1) ==> #[trigger] cell(o.sudoku.grid, i, j) != digit_of(ch)
        },
        consistent(o.sudoku.grid) ==> consistent(f.sudoku.grid),
{
    let (r, c) = (o.cursor.0 as int, o.cursor.1 as int);
    let g = o.sudoku.grid;
    let n = digit_of(ch)->0;
    assert(digit_of(ch) is Some);
    if !o.is_paused {
        let placed = !flag(o.sudoku.fixed, r, c) && !flag(o.sudoku.hint_filled, r, c)
            && valid_placement(g, r, c, n);
        if placed {
            lemma_set_cell(g, r, c, Some(n));
            assert forall|i: int, j: int| in_grid(i, j) && peers(r, c, i, j) && (i != r || j != c)
                implies #[trigger] cell(g, i, j) != Some(n) by {
                if i == r {
                    assert(cell(g, r, j) != Some(n));
                } else if j == c {
                    assert(cell(g, i, c) != Some(n));
                } else {
                    assert(cell(g, i, j) != Some(n));
                }
            }
            if consistent(g) {
                lemma_valid_placement_keeps_consistency(g, r, c, n);
            }
        }
    }
}

/// Backspace and 'z' do the same on every session; when not paused, on a cell
/// that is neither a given nor a hint, they empty that cell and leave every
/// other cell, the givens and the hints as they were.
pub proof fn lemma_clear_keys(o: App, f1: App, f2: App, now: u64)
    requires
        o.cursor_on_board(),
        App::key_effect(o, f1, Key::Backspace, now),
        App::key_effect(o, f2, Key::Char('z'), now),
    ensures
        f1 == f2,
        !o.is_paused && !flag(o.sudoku.fixed, o.cursor.0 as int, o.cursor.1 as int)
            && !flag(o.sudoku.hint_filled, o.cursor.0 as int, o.cursor.1 as int) ==> {
            &&& cell(f1.sudoku.grid, o.cursor.0 as int, o.cursor.1 as int) is None
            &&& forall|i: int, j: int| in_grid(i, j) && (i != o.cursor.0 || j != o.cursor.1)
                ==> #[trigger] cell(f1.sudoku.grid, i, j) == cell(o.sudoku.grid, i, j)
            &&& f1.sudoku.fixed == o.sudoku.fixed
            &&& f1.sudoku.hint_filled == o.sudoku.hint_filled
        },
{
    lemma_set_cell(o.sudoku.grid, o.cursor.0 as int, o.cursor.1 as int, None);
}

/// A hint never disagrees with a solution: if 'h' makes the cursor's cell a
/// hint, that cell was empty, the digit put there is the only candidate it had,
/// and every solution of the old board holds that digit there; no other cell changes.
pub proof fn lemma_hint_is_forced(o: App, f: App, now: u64, s: Grid)
    requires
        o.cursor_on_board(),
        App::key_effect(o, f, Key::Char('h'), now),
        !flag(o.sudoku.hint_filled, o.cursor.0 as int, o.cursor.1 as int),
        flag(f.sudoku.hint_filled, o.cursor.0 as int, o.cursor.1 as int),
        is_solution(s, o.sudoku.grid),
    ensures
        cell(o.sudoku.grid, o.cursor.0 as int, o.cursor.1 as int) is None,
        cell(f.sudoku.grid, o.cursor.0 as int, o.cursor.1 as int)
            == cell(s, o.cursor.0 as int, o.cursor.1 as int),
        forall|v: u8| #[trigger] is_candidate(o.sudoku.grid, o.cursor.0 as int, o.cursor.1 as int, v as int)
            ==> cell(f.sudoku.grid, o.cursor.0 as int, o.cursor.1 as int) == Some(v),
        forall|i: int, j: int| in_grid(i, j) && (i != o.cursor.0 || j != o.cursor.1)
            ==> #[trigger] cell(f.sudoku.grid, i, j) == cell(o.sudoku.grid, i, j),
{
    let (r, c) = (o.cursor.0 as int, o.cursor.1 as int);
    let g = o.sudoku.grid;
    let cs = candidates(g, r, c);
    lemma_candidates(g, r, c);
    assert(cell(g, r, c) is None && cs.len() == 1);
    lemma_set_cell(g, r, c, Some(cs[0]));
    lemma_hint_agrees_with_solutions(g, r, c, s);
    assert forall|v: u8| #[trigger] is_candidate(g, r, c, v as int) implies cell(f.sudoku.grid, r, c) == Some(v) by {
        assert(cs.contains(v));
    }
}

/// Givens and hints keep their values, and no cell becomes or stops being a
/// given or a hint, under every key but the ones that start a new game.
pub proof fn lemma_givens_stay(o: App, f: App, key: Key, now: u64)
    requires
        o.wf(),
        App::key_effect(o, f, key, now),
        key != Key::Char('n'),
        key != Key::Enter,
    ensures
        f.sudoku.fixed == o.sudoku.fixed,
        forall|i: int, j: int| 0 <= i < 9 && 0 <= j < 9 && #[trigger] flag(o.sudoku.hint_filled, i, j)
            ==> flag(f.sudoku.hint_filled, i, j),
        forall|i: int, j: int| 0 <= i < 9 && 0 <= j < 9
            && (flag(o.sudoku.fixed, i, j) || flag(o.sudoku.hint_filled, i, j))
            ==> #[trigger] cell(f.sudoku.grid, i, j) == cell(o.sudoku.grid, i, j),
{
    let (r, c) = (o.cursor.0 as int, o.cursor.1 as int);
    crate::grid::lemma_set_cell(o.sudoku.grid, r, c, None);
    if key == Key::Char('h') && !o.is_paused {
        let cs = candidates(o.sudoku.grid, r, c);
        if cell(o.sudoku.grid, r, c) is None && cs.len() == 1 {
            crate::grid::lemma_set_cell(o.sudoku.grid, r, c, Some(cs[0]));
        }
    }
    if key matches Key::Char(ch) && digit_of(ch) is Some && !o.is_paused {
        crate::grid::lemma_set_cell(o.sudoku.grid, r, c, Some(digit_of(key->Char_0)->0));
    }
}

} // verus!
