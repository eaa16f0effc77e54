//! The calendar controller: the decisions behind the widget's
//! calendar. It turns a day's summaries into display text, refuses an
//! add-event request with an empty name, and composes the tooltip that
//! pairs the current month's heading with its rendered grid.

use crate::datemath::{valid_date, CalendarDate};
use crate::events::{append, append_spec, events_on, events_on_spec};
use crate::grid::{grid_text, render_bytes};
use crate::lines::LINE_FEED;
use crate::text::{all_ascii, ascii_bytes, ascii_chars, dec_bytes, is_digit, push_bytes, push_dec,
    push_str_bytes, to_ascii_string};
use vstd::prelude::*;

verus! {

/// Summaries joined one per line, with no closing line break.
pub open spec fn lines_joined(ls: Seq<Seq<u8>>) -> Seq<u8>
    decreases ls.len(),
{
    if ls.len() == 0 {
        seq![]
    } else {
        ls[0] + tail_joined(ls.drop_first())
    }
}

pub open spec fn tail_joined(ls: Seq<Seq<u8>>) -> Seq<u8>
    decreases ls.len(),
{
    if ls.len() == 0 {
        seq![]
    } else {
        seq![LINE_FEED] + ls[0] + tail_joined(ls.drop_first())
    }
}

proof fn lemma_joined_push(ls: Seq<Seq<u8>>, l: Seq<u8>)
    ensures
        ls.len() == 0 ==> lines_joined(ls.push(l)) == l,
        ls.len() > 0 ==> lines_joined(ls.push(l)) == lines_joined(ls) + seq![LINE_FEED] + l,
    decreases ls.len(),
{
    reveal_with_fuel(tail_joined, 3);
    lemma_tail_joined_push(ls.drop_first(), l);
    if ls.len() == 0 {
        assert(ls.push(l).drop_first() =~= Seq::<Seq<u8>>::empty());
        assert(lines_joined(ls.push(l)) =~= l);
    } else {
        assert(ls.push(l).drop_first() =~= ls.drop_first().push(l));
        assert(ls.push(l)[0] == ls[0]);
        assert(lines_joined(ls.push(l)) =~= lines_joined(ls) + seq![LINE_FEED] + l);
    }
}

proof fn lemma_tail_joined_push(ls: Seq<Seq<u8>>, l: Seq<u8>)
    ensures
        tail_joined(ls.push(l)) == tail_joined(ls) + seq![LINE_FEED] + l,
    decreases ls.len(),
{
    reveal_with_fuel(tail_joined, 3);
    if ls.len() == 0 {
        assert(ls.push(l).drop_first() =~= Seq::<Seq<u8>>::empty());
        assert(tail_joined(Seq::<Seq<u8>>::empty()) == Seq::<u8>::empty());
        assert(tail_joined(ls.push(l)) =~= tail_joined(ls) + seq![LINE_FEED] + l);
    } else {
        assert(ls.push(l).drop_first() =~= ls.drop_first().push(l));
        assert(ls.push(l)[0] == ls[0]);
        lemma_tail_joined_push(ls.drop_first(), l);
        assert(tail_joined(ls.push(l)) =~= tail_joined(ls) + seq![LINE_FEED] + l);
    }
}

/// Join a day's summaries for display, one per line. No summaries give
/// empty text, not an error message.
pub fn schedule_text(summaries: &Vec<Vec<u8>>) -> (r: Vec<u8>)
    ensures
        r@ == lines_joined(summaries.deep_view()),
{
    let ghost ls = summaries.deep_view();
    let mut out: Vec<u8> = Vec::new();
    let mut k: usize = 0;
    proof {
        assert(ls.subrange(0, 0) =~= Seq::<Seq<u8>>::empty());
    }
    while k < summaries.len()
        invariant
            k <= ls.len(),
            summaries.deep_view() == ls,
            out@ == lines_joined(ls.subrange(0, k as int)),
        decreases ls.len() - k,
    {
        proof {
            assert(summaries@[k as int]@ =~= ls[k as int]);
        }
        if k > 0 {
            out.push(LINE_FEED);
        }
        push_bytes(&mut out, summaries[k].as_slice());
        proof {
            assert(ls.subrange(0, k + 1 as int) =~= ls.subrange(0, k as int).push(ls[k as int]));
            lemma_joined_push(ls.subrange(0, k as int), ls[k as int]);
            if k == 0 {
                assert(out@ =~= lines_joined(ls.subrange(0, k + 1 as int)));
            } else {
                assert(out@ =~= lines_joined(ls.subrange(0, k as int)) + seq![LINE_FEED]
                    + ls[k as int]);
            }
        }
        k = k + 1;
    }
    proof {
        assert(ls.subrange(0, ls.len() as int) =~= ls);
    }
    out
}

/// The schedule shown on a day selection: the summaries of that day's
/// events, one per line.
pub fn day_schedule(contents: &Option<Vec<u8>>, date: CalendarDate) -> (r: Vec<u8>)
    ensures
        r@ == lines_joined(
            events_on_spec(
                match *contents {
                    Option::None => Option::<Seq<u8>>::None,
                    Option::Some(ref v) => Some(v@),
                },
                date,
            ),
        ),
{
    let summaries = events_on(contents, date);
    schedule_text(&summaries)
}

/// Handle an add-event confirmation: an empty name is a deliberate
/// no-op — nothing is written and no error is raised — while a
/// non-empty name yields the new file contents to write back.
pub fn add_event(
    contents: &Option<Vec<u8>>,
    date: CalendarDate,
    summary: &Vec<u8>,
    tod_seconds: u32,
) -> (r: Option<Vec<u8>>)
    requires
        valid_date(date),
        tod_seconds < 86400,
        (date.year == 9999 && date.month == 12 && date.day == 31) ==> tod_seconds == 0,
    ensures
        r is None <==> summary@.len() == 0,
        match r {
            Option::None => true,
            Option::Some(v) => v@ == append_spec(
                match *contents {
                    Option::None => Option::<Seq<u8>>::None,
                    Option::Some(ref c) => Some(c@),
                },
                date,
                summary@,
                tod_seconds as int,
            ),
        },
{
    if summary.len() == 0 {
        None
    } else {
        Some(append(contents, date, summary, tod_seconds))
    }
}

/// The name of a month, for the tooltip heading.
pub open spec fn month_name_spec(m: int) -> Seq<char> {
    if m == 1 {
        "January"@
    } else if m == 2 {
        "February"@
    } else if m == 3 {
        "March"@
    } else if m == 4 {
        "April"@
    } else if m == 5 {
        "May"@
    } else if m == 6 {
        "June"@
    } else if m == 7 {
        "July"@
    } else if m == 8 {
        "August"@
    } else if m == 9 {
        "September"@
    } else if m == 10 {
        "October"@
    } else if m == 11 {
        "November"@
    } else {
        "December"@
    }
}

/// The name of a month.
pub fn month_name(month: u8) -> (r: &'static str)
    requires
        1 <= month <= 12,
    ensures
        r@ == month_name_spec(month as int),
        r.is_ascii(),
{
    proof {
        reveal_strlit("January");
        reveal_strlit("February");
        reveal_strlit("March");
        reveal_strlit("April");
        reveal_strlit("May");
        reveal_strlit("June");
        reveal_strlit("July");
        reveal_strlit("August");
        reveal_strlit("September");
        reveal_strlit("October");
        reveal_strlit("November");
        reveal_strlit("December");
    }
    if month == 1 {
        "January"
    } else if month == 2 {
        "February"
    } else if month == 3 {
        "March"
    } else if month == 4 {
        "April"
    } else if month == 5 {
        "May"
    } else if month == 6 {
        "June"
    } else if month == 7 {
        "July"
    } else if month == 8 {
        "August"
    } else if month == 9 {
        "September"
    } else if month == 10 {
        "October"
    } else if month == 11 {
        "November"
    } else {
        "December"
    }
}

/// The tooltip text: the year and month name as a heading, then the
/// current month's grid with the given day highlighted, in the
/// widget's markup.
pub open spec fn tooltip_bytes(y: int, m: int, d: int) -> Seq<u8> {
    ascii_bytes("<big>"@) + dec_bytes(y) + seq![0x20u8] + ascii_bytes(month_name_spec(m))
        + ascii_bytes("</big>\n<tt><small>"@) + grid_text(y, m, d) + ascii_bytes("</small></tt>"@)
}

/// Compose the tooltip for a month: a heading of year and month name,
/// then the rendered grid with the given day highlighted.
pub fn generate_tooltip(year: u16, month: u8, day: u8) -> (r: String)
    requires
        1 <= year <= 9999,
        1 <= month <= 12,
    ensures
        r@ == ascii_chars(tooltip_bytes(year as int, month as int, day as int)),
{
    proof {
        reveal_strlit("<big>");
        reveal_strlit("</big>\n<tt><small>");
        reveal_strlit("</small></tt>");
        assert(("<big>").is_ascii());
        assert(("</big>\n<tt><small>").is_ascii());
        assert(("</small></tt>").is_ascii());
    }
    let mut out: Vec<u8> = Vec::new();
    push_str_bytes(&mut out, "<big>");
    push_dec(&mut out, year);
    out.push(0x20);
    let name = month_name(month);
    push_str_bytes(&mut out, name);
    push_str_bytes(&mut out, "</big>\n<tt><small>");
    let g = render_bytes(year, month, day);
    push_bytes(&mut out, g.as_slice());
    push_str_bytes(&mut out, "</small></tt>");
    proof {
        assert(out@ =~= tooltip_bytes(year as int, month as int, day as int));
        assert(all_ascii(out@)) by {
            let t = tooltip_bytes(year as int, month as int, day as int);
            let seg1 = ascii_bytes("<big>"@);
            let seg2 = dec_bytes(year as int);
            let seg3 = seq![0x20u8];
            let seg4 = ascii_bytes(month_name_spec(month as int));
            let seg5 = ascii_bytes("</big>\n<tt><small>"@);
            let seg6 = grid_text(year as int, month as int, day as int);
            let seg7 = ascii_bytes("</small></tt>"@);
            assert(forall|k: int| 0 <= k < seg2.len() ==> is_digit(#[trigger] seg2[k]));
            assert(forall|k: int| 0 <= k < seg4.len() ==> #[trigger] seg4[k] < 0x80);
            assert(forall|k: int| 0 <= k < seg6.len() ==> #[trigger] seg6[k] < 0x80);
            assert forall|k: int| 0 <= k < t.len() implies #[trigger] t[k] < 0x80 by {
                let a = seg1 + seg2 + seg3 + seg4 + seg5 + seg6;
                if k < seg1.len() {
                    assert(t[k] == seg1[k]);
                } else if k < seg1.len() + seg2.len() {
                    assert(t[k] == seg2[k - seg1.len()]);
                } else if k < seg1.len() + seg2.len() + seg3.len() {
                    assert(t[k] == 0x20);
                } else if k < seg1.len() + seg2.len() + seg3.len() + seg4.len() {
                    assert(t[k] == seg4[k - seg1.len() - seg2.len() - seg3.len()]);
                } else if k < seg1.len() + seg2.len() + seg3.len() + seg4.len() + seg5.len() {
                    assert(t[k] == seg5[k - seg1.len() - seg2.len() - seg3.len() - seg4.len()]);
                } else if k < a.len() {
                    assert(t[k] == seg6[k - seg1.len() - seg2.len() - seg3.len() - seg4.len() - seg5.len()]);
                } else {
                    assert(t[k] == seg7[k - a.len()]);
                }
            };
        };
    }
    to_ascii_string(&out)
}

} // verus!
