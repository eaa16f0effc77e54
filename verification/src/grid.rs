//! The month grid: a Monday-first arrangement of a month's days and
//! its fixed-width text rendering with one day highlighted.

use crate::datemath::{days_in_month, days_in_month_spec, first_weekday_offset,
    first_weekday_offset_spec};
use crate::lines::{lemma_split_lines_bytes, lemma_split_prepend_line, split_lines, LINE_FEED};
use crate::text::{all_ascii, ascii_bytes, ascii_chars, is_digit, pad2, push_pad2, push_str_bytes,
    to_ascii_string};
use vstd::prelude::*;

verus! {

/// One cell of the month grid: padding before day 1 or after the last
/// day, a plain day number, or the highlighted day.
#[derive(Clone, Copy, PartialEq, Eq, Structural, Debug)]
pub enum Cell {
    Blank,
    Day(u8),
    Selected(u8),
}

pub open spec fn blank_cells(n: int) -> Seq<Cell> {
    Seq::new(n as nat, |i: int| Cell::Blank)
}

/// The day cells 1 through `n`, the one equal to `h` highlighted.
pub open spec fn day_cells(n: int, h: int) -> Seq<Cell> {
    Seq::new(
        n as nat,
        |i: int|
            if i + 1 == h {
                Cell::Selected((i + 1) as u8)
            } else {
                Cell::Day((i + 1) as u8)
            },
    )
}

/// The flat cell sequence of a month: the first-weekday offset as
/// blanks, then the day numbers.
pub open spec fn grid_cells(y: int, m: int, h: int) -> Seq<Cell> {
    blank_cells(first_weekday_offset_spec(y, m)) + day_cells(days_in_month_spec(y, m), h)
}

/// Cells grouped into week rows of seven; the last row keeps only the
/// cells that exist.
pub open spec fn rows_of(cells: Seq<Cell>) -> Seq<Seq<Cell>>
    decreases cells.len(),
{
    if cells.len() == 0 {
        seq![]
    } else if cells.len() <= 7 {
        seq![cells]
    } else {
        seq![cells.subrange(0, 7)] + rows_of(cells.skip(7))
    }
}

/// A rendered month: week rows of cells, Monday first.
pub struct MonthGrid {
    pub rows: Vec<Vec<Cell>>,
}

pub open spec fn rows_views(rows: Seq<Vec<Cell>>) -> Seq<Seq<Cell>> {
    rows.map_values(|r: Vec<Cell>| r@)
}

pub open spec fn rows_view(g: MonthGrid) -> Seq<Seq<Cell>> {
    rows_views(g.rows@)
}

/// The flat cells of a month, leading blanks then day numbers.
fn month_cells(year: u16, month: u8, highlight: u8) -> (r: Vec<Cell>)
    requires
        1 <= year <= 9999,
        1 <= month <= 12,
    ensures
        r@ == grid_cells(year as int, month as int, highlight as int),
{
    let offset = first_weekday_offset(year, month);
    let days = days_in_month(year, month);
    let mut v: Vec<Cell> = Vec::new();
    let mut i: u8 = 0;
    while i < offset
        invariant
            i <= offset,
            v@ == blank_cells(i as int),
        decreases offset - i,
    {
        v.push(Cell::Blank);
        proof {
            assert(v@ =~= blank_cells(i + 1));
        }
        i = i + 1;
    }
    let ghost blanks = blank_cells(offset as int);
    let mut d: u8 = 1;
    while d <= days
        invariant
            1 <= d <= days + 1,
            days < 32,
            highlight == highlight as int,
            v@ == blanks + day_cells(d - 1, highlight as int),
        decreases days + 1 - d,
    {
        if d == highlight {
            v.push(Cell::Selected(d));
        } else {
            v.push(Cell::Day(d));
        }
        proof {
            assert(v@ =~= blanks + day_cells(d as int, highlight as int));
        }
        d = d + 1;
    }
    proof {
        assert(v@ =~= grid_cells(year as int, month as int, highlight as int));
    }
    v
}

/// Arrange a month's cells into week rows: the offset blanks, then the
/// days, in rows of seven, the last row possibly shorter.
pub fn build_grid(year: u16, month: u8, highlight_day: u8) -> (g: MonthGrid)
    requires
        1 <= year <= 9999,
        1 <= month <= 12,
    ensures
        rows_view(g) == rows_of(grid_cells(year as int, month as int, highlight_day as int)),
{
    let cells = month_cells(year, month, highlight_day);
    let ghost all = cells@;
    let mut rows: Vec<Vec<Cell>> = Vec::new();
    let mut row: Vec<Cell> = Vec::new();
    let mut i: usize = 0;
    proof {
        assert(all.skip(0) =~= all);
        assert(row@ =~= all.subrange(0, 0));
        assert(rows_views(rows@) =~~= Seq::<Seq<Cell>>::empty());
    }
    while i < cells.len()
        invariant
            i <= all.len(),
            cells@ == all,
            row@.len() < 7,
            row@ == all.subrange(i - row@.len(), i as int),
            (i - row@.len()) % 7 == 0,
            rows_of(all) == rows_views(rows@) + rows_of(all.skip(i - row@.len())),
        decreases all.len() - i,
    {
        let ghost start = i - row@.len();
        row.push(cells[i]);
        proof {
            assert(row@ =~= all.subrange(start, i + 1));
        }
        if row.len() == 7 {
            let ghost prev = rows_views(rows@);
            let ghost chunk = row@;
            rows.push(row);
            row = Vec::new();
            proof {
                assert(rows_views(rows@) =~~= prev.push(chunk));
                let rest = all.skip(start);
                assert(rest.len() == all.len() - start);
                assert(chunk =~= rest.subrange(0, 7));
                if rest.len() > 7 {
                    assert(rows_of(rest) == seq![rest.subrange(0, 7)] + rows_of(rest.skip(7)));
                } else {
                    assert(rest.len() == 7);
                    assert(rows_of(rest) == seq![rest]);
                    assert(rest =~= rest.subrange(0, 7));
                    assert(rest.skip(7) =~= Seq::<Cell>::empty());
                    assert(rows_of(rest.skip(7)) =~= Seq::<Seq<Cell>>::empty());
                    assert(rows_of(rest) =~= seq![rest.subrange(0, 7)] + rows_of(rest.skip(7)));
                }
                assert(rest.skip(7) =~= all.skip(start + 7));
                assert(prev.push(chunk) + rows_of(all.skip(start + 7)) =~= prev + (seq![chunk]
                    + rows_of(all.skip(start + 7))));
                assert(row@ =~= all.subrange(i + 1 - 0, i + 1));
            }
        }
        i = i + 1;
    }
    let ghost start = i - row@.len();
    if row.len() > 0 {
        let ghost prev = rows_views(rows@);
        let ghost chunk = row@;
        rows.push(row);
        proof {
            assert(rows_views(rows@) =~~= prev.push(chunk));
            let rest = all.skip(start);
            assert(chunk =~= rest);
            assert(0 < rest.len() < 7);
            assert(rows_of(rest) == seq![rest]);
            assert(prev.push(chunk) =~= prev + seq![chunk]);
        }
    } else {
        proof {
            let rest = all.skip(start);
            assert(rest =~= row@);
            assert(rows_of(rest).len() == 0);
            assert(rows_views(rows@) + rows_of(rest) =~= rows_views(rows@));
        }
    }
    MonthGrid { rows }
}

/// The text of one cell: three blanks, a right-justified day number
/// and a space, or the day number in brackets.
pub open spec fn cell_bytes(c: Cell) -> Seq<u8> {
    match c {
        Cell::Blank => seq![0x20, 0x20, 0x20],
        Cell::Day(d) => pad2(d as int) + seq![0x20],
        Cell::Selected(d) => seq![0x5B] + pad2(d as int) + seq![0x5D],
    }
}

/// The text of the day cells: each cell's text, a line break after
/// every seventh cell counted from the row start.
pub open spec fn body_bytes(cells: Seq<Cell>, col: int) -> Seq<u8>
    decreases cells.len(),
{
    if cells.len() == 0 {
        seq![]
    } else {
        cell_bytes(cells[0]) + (if col == 6 {
            seq![LINE_FEED]
        } else {
            seq![]
        }) + body_bytes(
            cells.drop_first(),
            if col == 6 {
                0
            } else {
                col + 1
            },
        )
    }
}

pub open spec fn header_bytes() -> Seq<u8> {
    ascii_bytes("Mo Tu We Th Fr Sa Su"@)
}

/// The whole rendered month: the weekday header line, then the day
/// cells in week rows.
pub open spec fn grid_text(y: int, m: int, h: int) -> Seq<u8> {
    header_bytes() + seq![LINE_FEED] + body_bytes(grid_cells(y, m, h), 0)
}

pub open spec fn cell_small(c: Cell) -> bool {
    match c {
        Cell::Blank => true,
        Cell::Day(d) => d < 100,
        Cell::Selected(d) => d < 100,
    }
}

/// The bytes that can occur in the day-cell text: spaces, digits,
/// brackets and line breaks.
pub open spec fn grid_byte_ok(b: u8) -> bool {
    b == 0x20 || is_digit(b) || b == 0x5B || b == 0x5D || b == LINE_FEED
}

proof fn lemma_cell_bytes_ok(c: Cell)
    requires
        cell_small(c),
    ensures
        forall|k: int| 0 <= k < cell_bytes(c).len() ==> grid_byte_ok(#[trigger] cell_bytes(c)[k]),
        cell_bytes(c).len() >= 3,
{
}

proof fn lemma_body_bytes_ok(cells: Seq<Cell>, col: int)
    requires
        forall|i: int| 0 <= i < cells.len() ==> cell_small(#[trigger] cells[i]),
    ensures
        forall|k: int|
            0 <= k < body_bytes(cells, col).len() ==> grid_byte_ok(
                #[trigger] body_bytes(cells, col)[k],
            ),
    decreases cells.len(),
{
    if cells.len() > 0 {
        let b = body_bytes(cells, col);
        let c = cell_bytes(cells[0]);
        let sep: Seq<u8> = if col == 6 {
            seq![LINE_FEED]
        } else {
            seq![]
        };
        let ncol: int = if col == 6 {
            0
        } else {
            col + 1
        };
        let rest = body_bytes(cells.drop_first(), ncol);
        lemma_cell_bytes_ok(cells[0]);
        assert(forall|i: int|
            0 <= i < cells.drop_first().len() ==> cell_small(#[trigger] cells.drop_first()[i]));
        lemma_body_bytes_ok(cells.drop_first(), ncol);
        assert(b == c + sep + rest);
        assert forall|k: int| 0 <= k < b.len() implies grid_byte_ok(#[trigger] b[k]) by {
            if k < c.len() {
                assert(b[k] == c[k]);
            } else if k < c.len() + sep.len() {
                assert(b[k] == sep[k - c.len()]);
            } else {
                assert(b[k] == rest[k - c.len() - sep.len()]);
            }
        };
    }
}

proof fn lemma_grid_cells_small(y: int, m: int, h: int)
    requires
        1 <= m <= 12,
    ensures
        forall|i: int|
            0 <= i < grid_cells(y, m, h).len() ==> cell_small(#[trigger] grid_cells(y, m, h)[i]),
{
}

/// Render the month grid as text: the header row, then the day cells
/// in week rows, the cell of `highlight_day` bracketed. A highlight
/// outside the month leaves every cell plain.
pub fn render(year: u16, month: u8, highlight_day: u8) -> (r: String)
    requires
        1 <= year <= 9999,
        1 <= month <= 12,
    ensures
        r@ == ascii_chars(grid_text(year as int, month as int, highlight_day as int)),
{
    let out = render_bytes(year, month, highlight_day);
    to_ascii_string(&out)
}

/// The rendered month as bytes, all of them ASCII.
pub(crate) fn render_bytes(year: u16, month: u8, highlight_day: u8) -> (r: Vec<u8>)
    requires
        1 <= year <= 9999,
        1 <= month <= 12,
    ensures
        r@ == grid_text(year as int, month as int, highlight_day as int),
        all_ascii(r@),
{
    let ghost gtext = grid_text(year as int, month as int, highlight_day as int);
    let cells = month_cells(year, month, highlight_day);
    let mut out: Vec<u8> = Vec::new();
    let hdr = "Mo Tu We Th Fr Sa Su";
    proof {
        reveal_strlit("Mo Tu We Th Fr Sa Su");
        assert(hdr.is_ascii());
    }
    push_str_bytes(&mut out, hdr);
    out.push(LINE_FEED);
    let mut i: usize = 0;
    let mut col: u8 = 0;
    proof {
        assert(cells@.skip(0) =~= cells@);
        assert(gtext =~= out@ + body_bytes(cells@.skip(0), 0));
    }
    while i < cells.len()
        invariant
            i <= cells@.len(),
            col <= 6,
            cells@ == grid_cells(year as int, month as int, highlight_day as int),
            1 <= month <= 12,
            gtext == grid_text(year as int, month as int, highlight_day as int),
            gtext == out@ + body_bytes(cells@.skip(i as int), col as int),
        decreases cells@.len() - i,
    {
        proof {
            lemma_grid_cells_small(year as int, month as int, highlight_day as int);
            assert(cell_small(cells@[i as int]));
        }
        let ghost before = out@;
        let ghost oldcol = col as int;
        let c = cells[i];
        match c {
            Cell::Blank => {
                out.push(0x20);
                out.push(0x20);
                out.push(0x20);
            },
            Cell::Day(d) => {
                push_pad2(&mut out, d);
                out.push(0x20);
            },
            Cell::Selected(d) => {
                out.push(0x5B);
                push_pad2(&mut out, d);
                out.push(0x5D);
            },
        }
        proof {
            assert(out@ =~= before + cell_bytes(cells@[i as int]));
        }
        if col == 6 {
            out.push(LINE_FEED);
            col = 0;
        } else {
            col = col + 1;
        }
        proof {
            let pre = cells@.skip(i as int);
            assert(pre[0] == cells@[i as int]);
            assert(pre.drop_first() =~= cells@.skip(i + 1));
            let sep: Seq<u8> = if oldcol == 6 {
                seq![LINE_FEED]
            } else {
                seq![]
            };
            assert(out@ =~= before + cell_bytes(cells@[i as int]) + sep);
            assert(body_bytes(pre, oldcol) == cell_bytes(pre[0]) + sep + body_bytes(
                pre.drop_first(),
                col as int,
            ));
            assert(gtext =~= out@ + body_bytes(cells@.skip(i + 1), col as int));
        }
        i = i + 1;
    }
    proof {
        assert(cells@.skip(cells@.len() as int) =~= Seq::<Cell>::empty());
        assert(out@ + body_bytes(cells@.skip(cells@.len() as int), col as int) =~= out@);
        assert(out@ == gtext);
        lemma_grid_cells_small(year as int, month as int, highlight_day as int);
        lemma_body_bytes_ok(grid_cells(year as int, month as int, highlight_day as int), 0);
        reveal_strlit("Mo Tu We Th Fr Sa Su");
        let hb = header_bytes() + seq![LINE_FEED];
        let body = body_bytes(grid_cells(year as int, month as int, highlight_day as int), 0);
        assert forall|k: int| 0 <= k < gtext.len() implies gtext[k] < 0x80 by {
            if k < hb.len() {
                assert(gtext[k] == hb[k]);
            } else {
                assert(gtext[k] == body[k - hb.len()]);
                assert(grid_byte_ok(body[k - hb.len()]));
            }
        };
        assert(all_ascii(out@));
    }
    out
}

pub open spec fn count_numbered(cells: Seq<Cell>) -> int
    decreases cells.len(),
{
    if cells.len() == 0 {
        0
    } else {
        (if cells[0] is Blank {
            0int
        } else {
            1int
        }) + count_numbered(cells.drop_first())
    }
}

proof fn lemma_count_concat(a: Seq<Cell>, b: Seq<Cell>)
    ensures
        count_numbered(a + b) == count_numbered(a) + count_numbered(b),
    decreases a.len(),
{
    if a.len() == 0 {
        assert(a + b =~= b);
    } else {
        assert((a + b).drop_first() =~= a.drop_first() + b);
        assert((a + b)[0] == a[0]);
        lemma_count_concat(a.drop_first(), b);
    }
}

proof fn lemma_count_all_blank(s: Seq<Cell>)
    requires
        forall|i: int| 0 <= i < s.len() ==> s[i] is Blank,
    ensures
        count_numbered(s) == 0,
    decreases s.len(),
{
    if s.len() > 0 {
        lemma_count_all_blank(s.drop_first());
    }
}

pub open spec fn count_selected(cells: Seq<Cell>) -> int
    decreases cells.len(),
{
    if cells.len() == 0 {
        0
    } else {
        (if cells[0] is Selected {
            1int
        } else {
            0int
        }) + count_selected(cells.drop_first())
    }
}

proof fn lemma_count_selected_all_blank(s: Seq<Cell>)
    requires
        forall|i: int| 0 <= i < s.len() ==> s[i] is Blank,
    ensures
        count_selected(s) == 0,
    decreases s.len(),
{
    if s.len() > 0 {
        lemma_count_selected_all_blank(s.drop_first());
    }
}

proof fn lemma_count_selected_concat(a: Seq<Cell>, b: Seq<Cell>)
    ensures
        count_selected(a + b) == count_selected(a) + count_selected(b),
    decreases a.len(),
{
    if a.len() == 0 {
        assert(a + b =~= b);
    } else {
        assert((a + b).drop_first() =~= a.drop_first() + b);
        assert((a + b)[0] == a[0]);
        lemma_count_selected_concat(a.drop_first(), b);
    }
}

/// In the day cells 1 through `n`, exactly the cell numbered `h` is
/// highlighted, and no cell when `h` lies outside the month.
proof fn lemma_count_selected_days(n: int, h: int, from: int)
    requires
        0 <= from <= n,
    ensures
        count_selected(day_cells(n, h).skip(from)) == if from < h <= n {
            1int
        } else {
            0int
        },
    decreases n - from,
{
    let s = day_cells(n, h).skip(from);
    if from < n {
        assert(s[0] == day_cells(n, h)[from]);
        assert(s.drop_first() =~= day_cells(n, h).skip(from + 1));
        lemma_count_selected_days(n, h, from + 1);
    }
}

proof fn lemma_count_none_blank(s: Seq<Cell>)
    requires
        forall|i: int| 0 <= i < s.len() ==> !(s[i] is Blank),
    ensures
        count_numbered(s) == s.len(),
    decreases s.len(),
{
    if s.len() > 0 {
        lemma_count_none_blank(s.drop_first());
    }
}

/// Law: a rendered month shows exactly one numbered cell per day of
/// the month, and exactly one header row — the first line is the
/// weekday header and no later line repeats it.
pub proof fn lemma_render_counts(y: int, m: int, h: int)
    requires
        1 <= y,
        1 <= m <= 12,
    ensures
        count_numbered(grid_cells(y, m, h)) == days_in_month_spec(y, m),
        count_selected(grid_cells(y, m, h)) == if 1 <= h <= days_in_month_spec(y, m) {
            1int
        } else {
            0int
        },
        split_lines(grid_text(y, m, h)).len() >= 1,
        split_lines(grid_text(y, m, h))[0] == header_bytes(),
        forall|li: int|
            1 <= li < split_lines(grid_text(y, m, h)).len() ==> split_lines(grid_text(y, m, h))[li]
                != header_bytes(),
{
    let blanks = blank_cells(first_weekday_offset_spec(y, m));
    let days = day_cells(days_in_month_spec(y, m), h);
    lemma_count_concat(blanks, days);
    lemma_count_all_blank(blanks);
    lemma_count_none_blank(days);
    lemma_count_selected_concat(blanks, days);
    assert(count_selected(blanks) == 0) by {
        lemma_count_selected_all_blank(blanks);
    };
    assert(days.skip(0) =~= days);
    lemma_count_selected_days(days_in_month_spec(y, m), h, 0);

    reveal_strlit("Mo Tu We Th Fr Sa Su");
    let hdr = header_bytes();
    assert(hdr.len() == 20);
    assert(forall|k: int| 0 <= k < hdr.len() ==> hdr[k] != LINE_FEED);
    let body = body_bytes(grid_cells(y, m, h), 0);
    assert(hdr + seq![LINE_FEED] + body =~= grid_text(y, m, h));
    lemma_split_prepend_line(hdr, body);
    let rest = split_lines(body);
    assert(split_lines(grid_text(y, m, h)) == seq![hdr] + rest);
    lemma_grid_cells_small(y, m, h);
    lemma_body_bytes_ok(grid_cells(y, m, h), 0);
    lemma_split_lines_bytes(body);
    assert(hdr[0] == 'M' as u8);
    assert(!grid_byte_ok('M' as u8));
    assert forall|li: int| 1 <= li < split_lines(grid_text(y, m, h)).len() implies split_lines(
        grid_text(y, m, h),
    )[li] != hdr by {
        let line = rest[li - 1];
        assert(split_lines(grid_text(y, m, h))[li] == line);
        if line.len() == hdr.len() {
            assert(body.contains(line[0]));
            let w = choose|w: int| 0 <= w < body.len() && body[w] == line[0];
            assert(grid_byte_ok(body[w]));
            assert(line[0] != hdr[0]);
        }
    };
}

} // verus!
