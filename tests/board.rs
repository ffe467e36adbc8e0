use sudoku::Board;

const CLASSIC: &str =
    "53**7****6**195****98****6*8***6***34**8*3**17***2***6*6****28****419**5****8**79";

const CLASSIC_SOLVED: &str =
    "534678912672195348198342567859761423426853791713924856961537284287419635345286179";

const SEVENTEEN: &str =
    "***********8**3*85**1*2*******5*7*****4***1***9*******5******73**2*1********4***9";

fn grid(b: &Board) -> String {
    let mut s = String::new();
    for r in 0..9 {
        for c in 0..9 {
            s.push(b.entry(r, c).character());
        }
    }
    s
}

#[test]
fn new_board_is_blank() {
    let b = Board::new();
    assert_eq!(grid(&b), " ".repeat(81));
    assert!(!b.is_solved());
}

#[test]
fn load_all_digits_round_trip() {
    let mut b = Board::new();
    assert!(b.load(CLASSIC_SOLVED));
    for r in 0..9 {
        for c in 0..9 {
            let cell = b.entry(r, c);
            assert!(cell.is_set());
            assert_eq!(cell.character(), CLASSIC_SOLVED.as_bytes()[r * 9 + c] as char);
        }
    }
    assert!(b.is_solved());
}

#[test]
fn load_skips_other_characters() {
    let mut text = String::new();
    for (i, ch) in CLASSIC.chars().enumerate() {
        if i % 9 == 0 {
            text.push('\n');
        }
        text.push(ch);
        text.push(' ');
    }
    let mut a = Board::new();
    let mut b = Board::new();
    assert!(a.load(&text));
    assert!(b.load(CLASSIC));
    assert_eq!(grid(&a), grid(&b));
    assert_eq!(grid(&a), CLASSIC.replace('*', " "));
}

#[test]
fn load_too_short_fails_and_clears() {
    let mut b = Board::new();
    assert!(b.load(CLASSIC));
    let short = &CLASSIC_SOLVED[..80];
    assert!(!b.load(short));
    assert_eq!(grid(&b), " ".repeat(81));
}

#[test]
fn load_empty_text_fails() {
    let mut b = Board::new();
    assert!(!b.load(""));
    assert!(!b.load("abc xyz"));
    assert_eq!(grid(&b), " ".repeat(81));
}

#[test]
fn load_ignores_text_after_81_cells() {
    let mut b = Board::new();
    let text = format!("{}123", CLASSIC);
    assert!(b.load(&text));
    assert_eq!(grid(&b), CLASSIC.replace('*', " "));
}

#[test]
fn solve_classic_puzzle() {
    let mut b = Board::new();
    assert!(b.load(CLASSIC));
    assert!(b.solve());
    assert!(b.is_solved());
    assert_eq!(grid(&b), CLASSIC_SOLVED);
}

#[test]
fn solve_hard_puzzle_gets_stuck_with_givens_kept() {
    let mut b = Board::new();
    assert!(b.load(SEVENTEEN));
    assert!(!b.solve());
    assert!(!b.is_solved());
    let g = grid(&b);
    for (i, ch) in SEVENTEEN.chars().enumerate() {
        if ch != '*' {
            assert_eq!(g.as_bytes()[i] as char, ch);
        }
    }
}

#[test]
fn solve_solved_grid_is_unchanged() {
    let mut b = Board::new();
    assert!(b.load(CLASSIC_SOLVED));
    assert!(b.solve());
    assert_eq!(grid(&b), CLASSIC_SOLVED);
}

#[test]
fn solve_blank_grid_gets_stuck() {
    let mut b = Board::new();
    assert!(!b.solve());
    assert_eq!(grid(&b), " ".repeat(81));
}

#[test]
fn solve_one_missing_cell() {
    let mut text = String::from(CLASSIC_SOLVED);
    text.replace_range(40..41, "*");
    let mut b = Board::new();
    assert!(b.load(&text));
    assert!(b.solve());
    assert_eq!(grid(&b), CLASSIC_SOLVED);
}

#[test]
fn propagate_twice_changes_nothing() {
    let mut b = Board::new();
    assert!(b.load(CLASSIC));
    b.solve();
    let before = grid(&b);
    b.propagate(0, 0);
    assert_eq!(grid(&b), before);
}

#[test]
fn contradictory_puzzle_is_stuck() {
    let mut text = String::from("55");
    text.push_str(&"*".repeat(79));
    let mut b = Board::new();
    assert!(b.load(&text));
    assert!(!b.solve());
    let g = grid(&b);
    assert_eq!(&g[0..2], "55");
}

#[test]
fn clear_resets_board() {
    let mut b = Board::new();
    assert!(b.load(CLASSIC));
    b.clear();
    assert_eq!(grid(&b), " ".repeat(81));
}

#[test]
fn render_blank_board() {
    let b = Board::new();
    let row = "|       |       |       |\n";
    let border = "+-------+-------+-------+\n";
    let band = format!("{}{}{}{}", border, row, row, row);
    let expected = format!("{}{}{}{}", band, band, band, border);
    assert_eq!(b.render(), expected);
}

#[test]
fn render_loaded_puzzle() {
    let mut b = Board::new();
    assert!(b.load(CLASSIC));
    let text = b.render();
    let lines: Vec<&str> = text.lines().collect();
    assert_eq!(lines.len(), 13);
    assert_eq!(lines[0], "+-------+-------+-------+");
    assert_eq!(lines[1], "| 5 3   |   7   |       |");
    assert_eq!(lines[2], "| 6     | 1 9 5 |       |");
    assert_eq!(lines[4], "+-------+-------+-------+");
    assert_eq!(lines[11], "|       |   8   |   7 9 |");
    assert_eq!(lines[12], "+-------+-------+-------+");
}

#[test]
fn render_solved_puzzle() {
    let mut b = Board::new();
    assert!(b.load(CLASSIC));
    assert!(b.solve());
    let text = b.render();
    let lines: Vec<&str> = text.lines().collect();
    assert_eq!(lines[1], "| 5 3 4 | 6 7 8 | 9 1 2 |");
    assert_eq!(lines[11], "| 3 4 5 | 2 8 6 | 1 7 9 |");
}
