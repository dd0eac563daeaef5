use sudoku_tui::app::{difficulty_label, App, CellLook, Key};
use sudoku_tui::sudoku::Difficulty;

fn find_empty(app: &App) -> Option<(usize, usize)> {
    for r in 0..9 {
        for c in 0..9 {
            if app.sudoku.grid[r][c].is_none() {
                return Some((r, c));
            }
        }
    }
    None
}

fn move_to(app: &mut App, r: usize, c: usize) {
    while app.cursor.0 > r {
        app.handle_key(Key::Up, 0);
    }
    while app.cursor.0 < r {
        app.handle_key(Key::Down, 0);
    }
    while app.cursor.1 > c {
        app.handle_key(Key::Left, 0);
    }
    while app.cursor.1 < c {
        app.handle_key(Key::Right, 0);
    }
}

#[test]
fn new_session_starts_easy_at_the_top_left() {
    let app = App::new(1000);
    assert_eq!(app.cursor, (0, 0));
    assert!(!app.should_quit);
    assert_eq!(app.message, None);
    assert_eq!(app.difficulty, Difficulty::Easy);
    assert_eq!(app.timer_start, Some(1000));
    assert_eq!(app.timer_elapsed, 0);
    assert!(!app.timer_stopped);
    assert!(!app.is_paused);
    for r in 0..9 {
        for c in 0..9 {
            assert_eq!(app.sudoku.fixed[r][c], app.sudoku.grid[r][c].is_some());
        }
    }
}

#[test]
fn arrows_move_within_the_board() {
    let mut app = App::new(0);
    app.handle_key(Key::Up, 0);
    app.handle_key(Key::Left, 0);
    assert_eq!(app.cursor, (0, 0));
    for _ in 0..20 {
        app.handle_key(Key::Down, 0);
        app.handle_key(Key::Right, 0);
    }
    assert_eq!(app.cursor, (8, 8));
    app.handle_key(Key::Up, 0);
    app.handle_key(Key::Left, 0);
    assert_eq!(app.cursor, (7, 7));
}

#[test]
fn q_and_esc_quit() {
    let mut app = App::new(0);
    app.handle_key(Key::Char('q'), 0);
    assert!(app.should_quit);
    let mut app = App::new(0);
    app.handle_key(Key::Esc, 0);
    assert!(app.should_quit);
}

#[test]
fn tab_cycles_the_difficulty() {
    let mut app = App::new(0);
    app.handle_key(Key::Tab, 0);
    assert_eq!(app.difficulty, Difficulty::Medium);
    app.handle_key(Key::Tab, 0);
    app.handle_key(Key::Tab, 0);
    assert_eq!(app.difficulty, Difficulty::Master);
    app.handle_key(Key::Tab, 0);
    assert_eq!(app.difficulty, Difficulty::Easy);
}

#[test]
fn pause_shows_a_message_and_freezes_moves() {
    let mut app = App::new(1_000);
    app.handle_key(Key::Char('p'), 6_000);
    assert!(app.is_paused);
    assert_eq!(app.timer_elapsed, 5_000);
    assert_eq!(app.message.as_deref(), Some(" PAUSE "));
    app.handle_key(Key::Down, 6_500);
    assert_eq!(app.cursor, (0, 0));
    app.handle_key(Key::Char('p'), 9_000);
    assert!(!app.is_paused);
    assert_eq!(app.message, None);
    // the 3 s spent paused do not count
    assert_eq!(app.timer_start, Some(4_000));
    app.handle_key(Key::Down, 9_500);
    assert_eq!(app.cursor, (1, 0));
}

#[test]
fn digits_fill_and_z_clears_a_free_cell() {
    let mut app = App::new(0);
    let (r, c) = find_empty(&app).expect("a puzzle has empty cells");
    move_to(&mut app, r, c);
    let mut placed = None;
    for n in 1..=9u8 {
        let ch = (b'0' + n) as char;
        app.handle_key(Key::Char(ch), 0);
        if app.sudoku.grid[r][c].is_some() {
            placed = Some(n);
            break;
        }
    }
    assert_eq!(app.sudoku.grid[r][c], placed);
    assert!(placed.is_some());
    app.handle_key(Key::Char('z'), 0);
    assert_eq!(app.sudoku.grid[r][c], None);
    app.handle_key(Key::Char('0'), 0);
    assert_eq!(app.sudoku.grid[r][c], None);
}

#[test]
fn givens_cannot_be_changed() {
    let mut app = App::new(0);
    let mut given = None;
    for r in 0..9 {
        for c in 0..9 {
            if given.is_none() && app.sudoku.fixed[r][c] {
                given = Some((r, c));
            }
        }
    }
    let (r, c) = given.expect("a puzzle has givens");
    move_to(&mut app, r, c);
    let v = app.sudoku.grid[r][c];
    app.handle_key(Key::Backspace, 0);
    assert_eq!(app.sudoku.grid[r][c], v);
    for n in 1..=9u8 {
        app.handle_key(Key::Char((b'0' + n) as char), 0);
        assert_eq!(app.sudoku.grid[r][c], v);
    }
}

#[test]
fn h_fills_a_cell_with_a_single_candidate_as_a_hint() {
    let mut app = App::new(0);
    let mut grid = [[None; 9]; 9];
    for r in 0..9 {
        for c in 0..9 {
            grid[r][c] = Some(((3 * r + r / 3 + c) % 9 + 1) as u8);
        }
    }
    let v = grid[2][5];
    grid[2][5] = None;
    grid[6][1] = None;
    app.sudoku.grid = grid;
    for r in 0..9 {
        for c in 0..9 {
            app.sudoku.fixed[r][c] = grid[r][c].is_some();
            app.sudoku.hint_filled[r][c] = false;
        }
    }
    move_to(&mut app, 2, 5);
    app.handle_key(Key::Char('h'), 0);
    assert_eq!(app.sudoku.grid[2][5], v);
    assert!(app.sudoku.hint_filled[2][5]);
    // a hint cannot be cleared or overwritten
    app.handle_key(Key::Char('z'), 0);
    assert_eq!(app.sudoku.grid[2][5], v);
    app.handle_key(Key::Char('1'), 0);
    assert_eq!(app.sudoku.grid[2][5], v);
    // a given gets no hint
    move_to(&mut app, 0, 0);
    app.handle_key(Key::Char('h'), 0);
    assert!(!app.sudoku.hint_filled[0][0]);
    // no hint while paused
    move_to(&mut app, 6, 1);
    app.handle_key(Key::Char('p'), 0);
    app.handle_key(Key::Char('h'), 0);
    assert_eq!(app.sudoku.grid[6][1], None);
}

#[test]
fn n_and_enter_start_a_new_game() {
    let mut app = App::new(0);
    app.handle_key(Key::Tab, 0);
    app.handle_key(Key::Down, 0);
    app.handle_key(Key::Char('n'), 5_000);
    assert_eq!(app.cursor, (0, 0));
    assert_eq!(app.difficulty, Difficulty::Medium);
    assert_eq!(app.timer_start, Some(5_000));
    let mut empties = 0;
    for r in 0..9 {
        for c in 0..9 {
            if app.sudoku.grid[r][c].is_none() {
                empties += 1;
            }
        }
    }
    assert!(empties <= 50);
    // Enter does nothing without a message, restarts with one
    app.handle_key(Key::Down, 6_000);
    app.handle_key(Key::Enter, 6_000);
    assert_eq!(app.cursor, (1, 0));
    app.handle_key(Key::Char('p'), 7_000);
    app.handle_key(Key::Enter, 8_000);
    assert_eq!(app.cursor, (0, 0));
    assert!(!app.is_paused);
    assert_eq!(app.message, None);
    assert_eq!(app.timer_start, Some(8_000));
}

#[test]
fn tick_stops_the_timer_on_a_full_board() {
    let mut app = App::new(1_000);
    app.tick(2_000);
    assert!(!app.timer_stopped);
    // fill the board with any digits: the timer stops once it is full
    for r in 0..9 {
        for c in 0..9 {
            if app.sudoku.grid[r][c].is_none() {
                app.sudoku.grid[r][c] = Some(1);
            }
        }
    }
    app.tick(4_500);
    assert!(app.timer_stopped);
    assert_eq!(app.timer_elapsed, 3_500);
    app.handle_key(Key::Char('p'), 5_000);
    assert!(!app.is_paused);
}

#[test]
fn cells_and_difficulties_are_shown_by_kind() {
    let mut app = App::new(0);
    let mut grid = [[None; 9]; 9];
    grid[0][1] = Some(3);
    grid[0][2] = Some(4);
    app.sudoku.grid = grid;
    app.sudoku.fixed = [[false; 9]; 9];
    app.sudoku.fixed[0][1] = true;
    app.sudoku.grid[0][0] = Some(1);
    assert_eq!(app.cell_look(0, 0), CellLook::Cursor);
    assert_eq!(app.cell_look(0, 1), CellLook::Given);
    assert_eq!(app.cell_look(0, 2), CellLook::Entered);
    assert_eq!(app.cell_look(5, 5), CellLook::Empty);
    assert_eq!(difficulty_label(Difficulty::Easy), " EASY ");
    assert_eq!(difficulty_label(Difficulty::Medium), " MEDIUM ");
    assert_eq!(difficulty_label(Difficulty::Hard), " HARD ");
    assert_eq!(difficulty_label(Difficulty::Master), " MASTER ");
}

#[test]
fn a_new_game_always_has_empty_cells() {
    let app = App::new(0);
    let empties = app.sudoku.grid.iter().flatten().filter(|c| c.is_none()).count();
    assert!(empties >= 1 && empties <= 40);
}

#[test]
fn a_stopped_timer_stays_stopped_until_a_new_game() {
    let mut app = App::new(1_000);
    for r in 0..9 {
        for c in 0..9 {
            if app.sudoku.grid[r][c].is_none() {
                app.sudoku.grid[r][c] = Some(1);
            }
        }
    }
    app.tick(4_500);
    assert!(app.timer_stopped);
    let start = app.timer_start;
    let keys = [
        Key::Char('p'),
        Key::Down,
        Key::Char('z'),
        Key::Char('5'),
        Key::Tab,
        Key::Char('p'),
        Key::Char('h'),
        Key::Backspace,
        Key::Other,
    ];
    let mut now = 5_000;
    for key in keys {
        app.handle_key(key, now);
        app.tick(now);
        now += 700;
        assert!(app.timer_stopped);
        assert!(!app.is_paused);
        assert_eq!(app.timer_elapsed, 3_500);
        assert_eq!(app.timer_start, start);
    }
    app.tick(now);
    assert!(app.timer_stopped);
    app.handle_key(Key::Char('n'), now);
    app.tick(now);
    assert!(!app.timer_stopped);
    assert_eq!(app.timer_start, Some(now));
    assert_eq!(app.timer_elapsed, 0);
}
