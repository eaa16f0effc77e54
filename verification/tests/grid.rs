use hyprclock::datemath::days_in_month;
use hyprclock::grid::{build_grid, render, Cell};

#[test]
fn march_grid_shape() {
    let text = render(2025, 3, 15);
    let lines: Vec<&str> = text.lines().collect();
    // exactly one header row, first
    assert_eq!(lines[0], "Mo Tu We Th Fr Sa Su");
    assert_eq!(lines.iter().filter(|l| **l == "Mo Tu We Th Fr Sa Su").count(), 1);
    // March 1 of 2025 is a Saturday: five leading blank cells
    assert!(lines[1].starts_with("                1 "));
    // the highlighted day is bracketed in its row
    assert!(lines.iter().any(|l| l.contains("[15]")));
    assert!(!text.contains("[14]"));
}

#[test]
fn numbered_cells_match_month_length() {
    for &(y, m) in &[(2024u16, 2u8), (2023, 2), (2025, 3), (2025, 6), (2025, 12)] {
        let text = render(y, m, 0);
        let mut lines = text.lines();
        assert_eq!(lines.next().unwrap(), "Mo Tu We Th Fr Sa Su");
        let numbered = lines.flat_map(|l| l.split_whitespace()).count();
        assert_eq!(numbered, days_in_month(y, m) as usize);
    }
}

#[test]
fn highlight_outside_month_is_ignored() {
    let text = render(2025, 2, 31);
    assert!(!text.contains('['));
    assert!(!text.contains(']'));
}

#[test]
fn grid_rows_are_weeks() {
    let g = build_grid(2025, 3, 15);
    // 5 blanks + 31 days = 36 cells: five full rows and one of a cell
    assert_eq!(g.rows.len(), 6);
    for row in g.rows.iter().take(5) {
        assert_eq!(row.len(), 7);
    }
    assert_eq!(g.rows[5].len(), 1);
    assert_eq!(g.rows[0][0], Cell::Blank);
    assert_eq!(g.rows[0][5], Cell::Day(1));
    let days: usize = g
        .rows
        .iter()
        .flat_map(|r| r.iter())
        .filter(|c| !matches!(c, Cell::Blank))
        .count();
    assert_eq!(days, 31);
    let selected: Vec<&Cell> = g
        .rows
        .iter()
        .flat_map(|r| r.iter())
        .filter(|c| matches!(c, Cell::Selected(_)))
        .collect();
    assert_eq!(selected.len(), 1);
    assert_eq!(*selected[0], Cell::Selected(15));
}

#[test]
fn exact_small_month() {
    // February 2026 starts on a Sunday and has 28 days.
    let text = render(2026, 2, 1);
    let expected = "Mo Tu We Th Fr Sa Su\n                  [ 1]\n 2  3  4  5  6  7  8 \n 9 10 11 12 13 14 15 \n16 17 18 19 20 21 22 \n23 24 25 26 27 28 ";
    assert_eq!(text, expected);
}
