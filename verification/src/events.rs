//! The event store: calendar-interchange text in the RFC 5545 family,
//! read into events and written back.
//!
//! The store works on whole file contents handed in as bytes; reading
//! and writing the file itself is the embedding application's part. An
//! event is kept as its raw property lines, so a load followed by a
//! save writes the properties of every kept event back verbatim; text
//! between events (the calendar wrapper, other component kinds) is not
//! kept. A missing or unreadable calendar is treated as empty, never
//! as an error.

use crate::datemath::{next_day, next_day_spec, valid_date, CalendarDate};
use crate::lines::{lemma_split_lines_no_nl, lemma_split_prepend_line, split_lines,
    split_lines_exec, strip_cr, strip_cr_spec, CARRIAGE_RETURN, LINE_FEED};
use crate::text::{all_digits, ascii_bytes, bytes_eq, digits_val, four_digits, is_digit,
    lemma_four_digits_val, lemma_two_digits_val, parse_digits, push_bytes, push_four_digits,
    push_str_bytes, push_two_digits, str_to_bytes, two_digits};
use vstd::prelude::*;

verus! {

pub open spec fn begin_event_bytes() -> Seq<u8> {
    ascii_bytes("BEGIN:VEVENT"@)
}

pub open spec fn end_event_bytes() -> Seq<u8> {
    ascii_bytes("END:VEVENT"@)
}

pub open spec fn is_marker(l: Seq<u8>) -> bool {
    l == begin_event_bytes() || l == end_event_bytes()
}

/// The lines of a calendar text: split at line feeds, each line's one
/// trailing carriage return removed.
pub open spec fn stripped_lines(s: Seq<u8>) -> Seq<Seq<u8>> {
    split_lines(s).map_values(|l: Seq<u8>| strip_cr_spec(l))
}

/// Index of the first event marker line at or after `j`, or the line
/// count when there is none.
pub open spec fn find_marker(lines: Seq<Seq<u8>>, j: int) -> int
    decreases lines.len() - j,
{
    if j < 0 || j >= lines.len() {
        lines.len() as int
    } else if is_marker(lines[j]) {
        j
    } else {
        find_marker(lines, j + 1)
    }
}

proof fn lemma_find_marker(lines: Seq<Seq<u8>>, j: int)
    requires
        0 <= j <= lines.len(),
    ensures
        j <= find_marker(lines, j) <= lines.len(),
        forall|k: int| j <= k < find_marker(lines, j) ==> !is_marker(#[trigger] lines[k]),
        find_marker(lines, j) < lines.len() ==> is_marker(lines[find_marker(lines, j)]),
    decreases lines.len() - j,
{
    if j < lines.len() && !is_marker(lines[j]) {
        lemma_find_marker(lines, j + 1);
    }
}

/// The event blocks of a line list, read from position `i`: lines
/// between a begin and an end marker form a block, lines outside any
/// block are passed over, and a stray end marker, a nested begin
/// marker or an unclosed block refuses the whole text.
pub open spec fn parse_from_lines(lines: Seq<Seq<u8>>, i: int) -> Option<Seq<Seq<Seq<u8>>>>
    decreases lines.len() - i,
{
    if i < 0 || i >= lines.len() {
        Some(seq![])
    } else if lines[i] == end_event_bytes() {
        None
    } else if lines[i] == begin_event_bytes() {
        let e0 = find_marker(lines, i + 1);
        let e = if e0 < i + 1 {
            i + 1
        } else {
            e0
        };
        if e >= lines.len() {
            None
        } else if lines[e] == begin_event_bytes() {
            None
        } else {
            match parse_from_lines(lines, e + 1) {
                Option::None => None,
                Option::Some(rest) => Some(seq![lines.subrange(i + 1, e)] + rest),
            }
        }
    } else {
        parse_from_lines(lines, i + 1)
    }
}

/// The event blocks of a calendar text, or nothing when its block
/// structure is broken.
pub open spec fn parse_events(s: Seq<u8>) -> Option<Seq<Seq<Seq<u8>>>> {
    parse_from_lines(stripped_lines(s), 0)
}

/// What a load yields: no contents or a broken structure give the
/// empty calendar rather than an error.
pub open spec fn loaded_blocks(contents: Option<Seq<u8>>) -> Seq<Seq<Seq<u8>>> {
    match contents {
        Option::None => seq![],
        Option::Some(s) => match parse_events(s) {
            Option::None => seq![],
            Option::Some(b) => b,
        },
    }
}

/// A property line that the store may write back: free of line breaks
/// and not itself an event marker.
pub open spec fn line_wf(l: Seq<u8>) -> bool {
    &&& forall|k: int| 0 <= k < l.len() ==> l[k] != LINE_FEED
    &&& l != begin_event_bytes()
    &&& l != end_event_bytes()
}

pub open spec fn block_wf(b: Seq<Seq<u8>>) -> bool {
    forall|i: int| 0 <= i < b.len() ==> line_wf(#[trigger] b[i])
}

pub open spec fn blocks_wf(bs: Seq<Seq<Seq<u8>>>) -> bool {
    forall|i: int| 0 <= i < bs.len() ==> block_wf(#[trigger] bs[i])
}

/// One stored event: its property lines, kept verbatim.
pub struct Event {
    pub lines: Vec<Vec<u8>>,
}

impl View for Event {
    type V = Seq<Seq<u8>>;

    open spec fn view(&self) -> Seq<Seq<u8>> {
        self.lines.deep_view()
    }
}

impl DeepView for Event {
    type V = Seq<Seq<u8>>;

    open spec fn deep_view(&self) -> Seq<Seq<u8>> {
        self.view()
    }
}

/// A byte vector's copy.
fn clone_bytes(v: &Vec<u8>) -> (r: Vec<u8>)
    ensures
        r@ == v@,
{
    let r = v.clone();
    proof {
        assert(r@ =~= v@);
    }
    r
}

/// Split a calendar text into lines with line endings removed.
fn text_lines(text: &Vec<u8>) -> (r: Vec<Vec<u8>>)
    ensures
        r.deep_view() == stripped_lines(text@),
{
    let raw = split_lines_exec(text.as_slice());
    let mut out: Vec<Vec<u8>> = Vec::new();
    let mut j: usize = 0;
    while j < raw.len()
        invariant
            j <= raw@.len(),
            raw.deep_view() == split_lines(text@),
            out@.len() == j,
            forall|k: int|
                0 <= k < j ==> #[trigger] out.deep_view()[k] == strip_cr_spec(raw.deep_view()[k]),
        decreases raw@.len() - j,
    {
        let mut l = clone_bytes(&raw[j]);
        proof {
            assert(l@ == raw.deep_view()[j as int]);
        }
        strip_cr(&mut l);
        let ghost prev = out@;
        let ghost prevdeep = out.deep_view();
        let ghost lv = l@;
        out.push(l);
        proof {
            assert forall|k: int| 0 <= k < j + 1 implies #[trigger] out.deep_view()[k]
                == strip_cr_spec(raw.deep_view()[k]) by {
                if k < j {
                    assert(out@[k] == prev[k]);
                    assert(out.deep_view()[k] == prev[k].deep_view());
                    assert(prevdeep[k] == prev[k].deep_view());
                } else {
                    assert(out@[k]@ == lv);
                    assert(out@[k].deep_view() =~= lv);
                }
            };
        }
        j = j + 1;
    }
    proof {
        assert(out.deep_view() =~~= stripped_lines(text@));
    }
    out
}

/// Parse a calendar text into its events, or nothing when the block
/// structure is broken.
fn parse_events_exec(text: &Vec<u8>) -> (r: Option<Vec<Event>>)
    ensures
        match r {
            Option::Some(evs) => parse_events(text@) == Some(evs.deep_view()),
            Option::None => parse_events(text@) is None,
        },
{
    let lines = text_lines(text);
    let ghost lv = lines.deep_view();
    proof {
        reveal_strlit("BEGIN:VEVENT");
        reveal_strlit("END:VEVENT");
        assert(("BEGIN:VEVENT").is_ascii());
        assert(("END:VEVENT").is_ascii());
    }
    let begin_marker = str_to_bytes("BEGIN:VEVENT");
    let end_marker = str_to_bytes("END:VEVENT");
    let mut out: Vec<Event> = Vec::new();
    let mut i: usize = 0;
    proof {
        assert(out.deep_view() =~~= Seq::<Seq<Seq<u8>>>::empty());
    }
    while i < lines.len()
        invariant
            i <= lv.len(),
            lines.deep_view() == lv,
            begin_marker@ == begin_event_bytes(),
            end_marker@ == end_event_bytes(),
            lv == stripped_lines(text@),
            match parse_from_lines(lv, i as int) {
                Option::Some(rest) => parse_from_lines(lv, 0) == Some(out.deep_view() + rest),
                Option::None => parse_from_lines(lv, 0) is None,
            },
        decreases lv.len() - i,
    {
        proof {
            assert(lines@[i as int]@ == lv[i as int]);
        }
        if bytes_eq(lines[i].as_slice(), end_marker.as_slice()) {
            return None;
        } else if bytes_eq(lines[i].as_slice(), begin_marker.as_slice()) {
            let mut j: usize = i + 1;
            loop
                invariant_except_break
                    i + 1 <= j <= lv.len(),
                    lines.deep_view() == lv,
                    begin_marker@ == begin_event_bytes(),
                    end_marker@ == end_event_bytes(),
                    forall|k: int| i + 1 <= k < j ==> !is_marker(#[trigger] lv[k]),
                ensures
                    i + 1 <= j <= lv.len(),
                    forall|k: int| i + 1 <= k < j ==> !is_marker(#[trigger] lv[k]),
                    j < lv.len() ==> is_marker(lv[j as int]),
                    lines.deep_view() == lv,
                    begin_marker@ == begin_event_bytes(),
                    end_marker@ == end_event_bytes(),
                decreases lv.len() - j,
            {
                if j == lines.len() {
                    break ;
                }
                proof {
                    assert(lines@[j as int]@ == lv[j as int]);
                }
                if bytes_eq(lines[j].as_slice(), begin_marker.as_slice()) || bytes_eq(
                    lines[j].as_slice(),
                    end_marker.as_slice(),
                ) {
                    break ;
                }
                j = j + 1;
            }
            proof {
                lemma_find_marker(lv, i + 1);
                assert(find_marker(lv, i + 1) == j) by {
                    let f = find_marker(lv, i + 1);
                    if f < j {
                        assert(is_marker(lv[f]));
                    }
                    if f > j {
                        assert(j < lv.len());
                        assert(!is_marker(lv[j as int]));
                    }
                };
            }
            if j == lines.len() {
                return None;
            }
            proof {
                assert(lines@[j as int]@ == lv[j as int]);
            }
            if bytes_eq(lines[j].as_slice(), begin_marker.as_slice()) {
                return None;
            }
            let mut block: Vec<Vec<u8>> = Vec::new();
            let mut k: usize = i + 1;
            proof {
                assert(block.deep_view() =~~= lv.subrange(i + 1, k as int));
            }
            while k < j
                invariant
                    i + 1 <= k <= j <= lv.len(),
                    lines.deep_view() == lv,
                    block.deep_view() =~~= lv.subrange(i + 1, k as int),
                decreases j - k,
            {
                let l = clone_bytes(&lines[k]);
                proof {
                    assert(l@ == lv[k as int]);
                }
                let ghost prevb = block@;
                let ghost prevdeep = block.deep_view();
                let ghost lvk = l@;
                block.push(l);
                proof {
                    assert forall|w: int| 0 <= w < block@.len() implies #[trigger] block.deep_view()[w]
                        == lv.subrange(i + 1, k + 1 as int)[w] by {
                        assert(prevdeep.len() == k - i - 1);
                        assert(prevb.len() == prevdeep.len());
                        if w < prevb.len() {
                            assert(block@[w] == prevb[w]);
                            assert(prevdeep[w] == prevb[w].deep_view());
                            assert(prevdeep[w] == lv.subrange(i + 1, k as int)[w]);
                            assert(lv.subrange(i + 1, k as int)[w] == lv[i + 1 + w]);
                            assert(lv.subrange(i + 1, k + 1 as int)[w] == lv[i + 1 + w]);
                        } else {
                            assert(block@[w]@ == lvk);
                            assert(block@[w].deep_view() =~= lvk);
                            assert(lvk == lv[k as int]);
                            assert(w == k - i - 1);
                            assert(lv.subrange(i + 1, k + 1 as int)[w] == lv[k as int]);
                        }
                    };
                    assert(prevdeep.len() == k - i - 1);
                    assert(prevb.len() == prevdeep.len());
                    assert(block@.len() == prevb.len() + 1);
                    assert(block.deep_view().len() == lv.subrange(i + 1, k + 1 as int).len());
                    assert(block.deep_view() =~= lv.subrange(i + 1, k + 1 as int));
                }
                k = k + 1;
            }
            let ghost prev = out.deep_view();
            let ghost bv = block.deep_view();
            out.push(Event { lines: block });
            proof {
                assert(out.deep_view() =~~= prev.push(bv));
                assert(bv =~= lv.subrange(i + 1, j as int));
                let rest0 = parse_from_lines(lv, i as int);
                let restj = parse_from_lines(lv, j + 1 as int);
                assert(rest0 == match restj {
                    Option::None => Option::<Seq<Seq<Seq<u8>>>>::None,
                    Option::Some(r) => Some(seq![lv.subrange(i + 1, j as int)] + r),
                });
                if restj is Some {
                    assert(prev.push(bv) + restj.unwrap() =~= prev + (seq![
                        lv.subrange(i + 1, j as int),
                    ] + restj.unwrap()));
                }
            }
            i = j + 1;
        } else {
            proof {
                assert(!is_marker(lv[i as int]));
                assert(parse_from_lines(lv, i as int) == parse_from_lines(lv, i + 1));
            }
            i = i + 1;
        }
    }
    proof {
        assert(parse_from_lines(lv, i as int) == Some(Seq::<Seq<Seq<u8>>>::empty()));
        assert(out.deep_view() + Seq::<Seq<Seq<u8>>>::empty() =~= out.deep_view());
    }
    Some(out)
}

/// Read a calendar's events from its file contents; a missing file
/// (`None`) or a broken text yields the empty calendar.
pub fn load(contents: &Option<Vec<u8>>) -> (r: Vec<Event>)
    ensures
        r.deep_view() == loaded_blocks(match *contents {
            Option::None => Option::<Seq<u8>>::None,
            Option::Some(ref v) => Some(v@),
        }),
{
    match contents {
        Option::None => {
            let r: Vec<Event> = Vec::new();
            proof {
                assert(r.deep_view() =~~= Seq::<Seq<Seq<u8>>>::empty());
            }
            r
        },
        Option::Some(text) => {
            match parse_events_exec(text) {
                Option::Some(evs) => evs,
                Option::None => {
                    let r: Vec<Event> = Vec::new();
                    proof {
                        assert(r.deep_view() =~~= Seq::<Seq<Seq<u8>>>::empty());
                    }
                    r
                },
            }
        },
    }
}

pub open spec fn dtstart_name() -> Seq<u8> {
    ascii_bytes("DTSTART"@)
}

pub open spec fn summary_name() -> Seq<u8> {
    ascii_bytes("SUMMARY"@)
}

/// The summary shown for an event that carries none.
pub open spec fn unnamed_bytes() -> Seq<u8> {
    ascii_bytes("Unnamed event"@)
}

/// Whether a line carries the named property: the name, then a colon
/// before the value or a semicolon before parameters.
pub open spec fn prop_match(l: Seq<u8>, name: Seq<u8>) -> bool {
    &&& l.len() > name.len()
    &&& l.subrange(0, name.len() as int) == name
    &&& (l[name.len() as int] == 0x3A || l[name.len() as int] == 0x3B)
}

/// Index of the first colon at or after `j`, or the line length.
pub open spec fn find_colon(l: Seq<u8>, j: int) -> int
    decreases l.len() - j,
{
    if j < 0 || j >= l.len() {
        l.len() as int
    } else if l[j] == 0x3A {
        j
    } else {
        find_colon(l, j + 1)
    }
}

/// A property line's value: what follows the first colon. A line
/// without a colon has no value part.
pub open spec fn value_of(l: Seq<u8>) -> Seq<u8> {
    let c = find_colon(l, 0);
    if c < l.len() {
        l.subrange(c + 1, l.len() as int)
    } else {
        seq![]
    }
}

/// The first line of a block that carries the named property.
pub open spec fn first_prop(b: Seq<Seq<u8>>, name: Seq<u8>) -> Option<Seq<u8>>
    decreases b.len(),
{
    if b.len() == 0 {
        None
    } else if prop_match(b[0], name) {
        Some(b[0])
    } else {
        first_prop(b.drop_first(), name)
    }
}

/// An event's summary text, or the placeholder when it has none.
pub open spec fn summary_of(b: Seq<Seq<u8>>) -> Seq<u8> {
    match first_prop(b, summary_name()) {
        Option::None => unnamed_bytes(),
        Option::Some(l) => value_of(l),
    }
}

/// Whether the first eight bytes of a date-time value name the given
/// calendar date as year, month and day digits.
pub open spec fn ymd_on(v: Seq<u8>, q: CalendarDate) -> bool {
    &&& all_digits(v.subrange(0, 4))
    &&& all_digits(v.subrange(4, 6))
    &&& all_digits(v.subrange(6, 8))
    &&& digits_val(v.subrange(0, 4)) == q.year
    &&& digits_val(v.subrange(4, 6)) == q.month
    &&& digits_val(v.subrange(6, 8)) == q.day
}

/// Whether a start value falls on the given date: a bare date, or a
/// date-time in universal time. A floating date-time (no terminal
/// marker) or one under a named time zone never matches: its day is
/// ambiguous without a resolved zone.
pub open spec fn date_value_on(v: Seq<u8>, q: CalendarDate) -> bool {
    ||| (v.len() == 8 && ymd_on(v, q))
    ||| (v.len() == 16 && v[8] == 0x54 && v[15] == 0x5A && all_digits(v.subrange(9, 15)) && ymd_on(
        v,
        q,
    ))
}

/// Whether an event starts on the given date.
pub open spec fn start_on(b: Seq<Seq<u8>>, q: CalendarDate) -> bool {
    match first_prop(b, dtstart_name()) {
        Option::None => false,
        Option::Some(l) => date_value_on(value_of(l), q),
    }
}

/// The summaries of the events that start on the given date, in block
/// order.
pub open spec fn summaries_on(blocks: Seq<Seq<Seq<u8>>>, q: CalendarDate) -> Seq<Seq<u8>>
    decreases blocks.len(),
{
    if blocks.len() == 0 {
        seq![]
    } else {
        (if start_on(blocks[0], q) {
            seq![summary_of(blocks[0])]
        } else {
            seq![]
        }) + summaries_on(blocks.drop_first(), q)
    }
}

/// What a date query over file contents yields.
pub open spec fn events_on_spec(contents: Option<Seq<u8>>, q: CalendarDate) -> Seq<Seq<u8>> {
    summaries_on(loaded_blocks(contents), q)
}

/// Whether `l` begins with the bytes of `p`.
fn starts_with(l: &[u8], p: &[u8]) -> (r: bool)
    ensures
        r == (l@.len() >= p@.len() && l@.subrange(0, p@.len() as int) == p@),
{
    if l.len() < p.len() {
        return false;
    }
    let mut i: usize = 0;
    while i < p.len()
        invariant
            i <= p@.len() <= l@.len(),
            forall|k: int| 0 <= k < i ==> l@[k] == p@[k],
        decreases p@.len() - i,
    {
        if l[i] != p[i] {
            proof {
                assert(l@.subrange(0, p@.len() as int)[i as int] == l@[i as int]);
            }
            return false;
        }
        i = i + 1;
    }
    proof {
        assert(l@.subrange(0, p@.len() as int) =~= p@);
    }
    true
}

/// Whether a line carries the named property.
fn prop_match_exec(l: &[u8], name: &[u8]) -> (r: bool)
    ensures
        r == prop_match(l@, name@),
{
    if l.len() <= name.len() {
        return false;
    }
    if !starts_with(l, name) {
        return false;
    }
    let b = l[name.len()];
    b == 0x3A || b == 0x3B
}

/// A property line's value: the bytes after the first colon.
fn value_of_exec(l: &[u8]) -> (r: Vec<u8>)
    ensures
        r@ == value_of(l@),
{
    let mut j: usize = 0;
    while j < l.len() && l[j] != 0x3A
        invariant
            j <= l@.len(),
            find_colon(l@, 0) == find_colon(l@, j as int),
        decreases l@.len() - j,
    {
        j = j + 1;
    }
    proof {
        assert(j < l@.len() ==> find_colon(l@, 0) == j);
        assert(j >= l@.len() ==> find_colon(l@, 0) == l@.len());
    }
    let mut r: Vec<u8> = Vec::new();
    if j == l.len() {
        return r;
    }
    let mut k: usize = j + 1;
    while k < l.len()
        invariant
            j + 1 <= k <= l@.len(),
            r@ == l@.subrange(j + 1, k as int),
        decreases l@.len() - k,
    {
        r.push(l[k]);
        proof {
            assert(r@ =~= l@.subrange(j + 1, k + 1 as int));
        }
        k = k + 1;
    }
    r
}

/// Index of the first line of an event that carries the named
/// property.
fn first_prop_exec(lines: &Vec<Vec<u8>>, name: &[u8]) -> (r: Option<usize>)
    ensures
        match r {
            Option::Some(i) => i < lines@.len() && first_prop(lines.deep_view(), name@) == Some(
                lines.deep_view()[i as int],
            ),
            Option::None => first_prop(lines.deep_view(), name@) is None,
        },
{
    let ghost bl = lines.deep_view();
    let mut j: usize = 0;
    proof {
        assert(bl.skip(0) =~= bl);
    }
    while j < lines.len()
        invariant
            j <= bl.len(),
            lines.deep_view() == bl,
            first_prop(bl, name@) == first_prop(bl.skip(j as int), name@),
        decreases bl.len() - j,
    {
        proof {
            assert(lines@[j as int]@ == bl[j as int]);
            assert(bl.skip(j as int)[0] == bl[j as int]);
        }
        if prop_match_exec(lines[j].as_slice(), name) {
            return Some(j);
        }
        proof {
            assert(bl.skip(j as int).drop_first() =~= bl.skip(j + 1));
        }
        j = j + 1;
    }
    proof {
        assert(bl.skip(bl.len() as int) =~= Seq::<Seq<u8>>::empty());
    }
    None
}

/// Whether the leading year, month and day digits of a value name the
/// given date.
fn ymd_matches(v: &Vec<u8>, q: CalendarDate) -> (r: bool)
    requires
        v@.len() >= 8,
    ensures
        r == ymd_on(v@, q),
{
    let y = parse_digits(v.as_slice(), 0, 4);
    let m = parse_digits(v.as_slice(), 4, 6);
    let d = parse_digits(v.as_slice(), 6, 8);
    match (y, m, d) {
        (Option::Some(y), Option::Some(m), Option::Some(d)) => {
            y == q.year as u32 && m == q.month as u32 && d == q.day as u32
        },
        _ => false,
    }
}

/// Whether a start value falls on the given date.
fn date_value_matches(v: &Vec<u8>, q: CalendarDate) -> (r: bool)
    ensures
        r == date_value_on(v@, q),
{
    if v.len() == 8 {
        ymd_matches(v, q)
    } else if v.len() == 16 {
        if v[8] == 0x54 && v[15] == 0x5A {
            match parse_digits(v.as_slice(), 9, 15) {
                Option::Some(_) => ymd_matches(v, q),
                Option::None => false,
            }
        } else {
            false
        }
    } else {
        false
    }
}

impl Event {
    /// The event's summary text, or "Unnamed event" when it carries
    /// none.
    pub fn summary(&self) -> (r: Vec<u8>)
        ensures
            r@ == summary_of(self@),
    {
        proof {
            reveal_strlit("SUMMARY");
            assert(("SUMMARY").is_ascii());
        }
        let name = str_to_bytes("SUMMARY");
        match first_prop_exec(&self.lines, name.as_slice()) {
            Option::Some(i) => {
                proof {
                    assert(self.lines@[i as int]@ =~= self.lines.deep_view()[i as int]);
                }
                value_of_exec(self.lines[i].as_slice())
            },
            Option::None => {
                proof {
                    reveal_strlit("Unnamed event");
                    assert(("Unnamed event").is_ascii());
                }
                str_to_bytes("Unnamed event")
            },
        }
    }

    /// Whether the event starts on the given date: its start is a bare
    /// date or a universal-time date-time on that day. Floating and
    /// zone-named starts never match.
    pub fn matches_date(&self, date: CalendarDate) -> (r: bool)
        ensures
            r == start_on(self@, date),
    {
        proof {
            reveal_strlit("DTSTART");
            assert(("DTSTART").is_ascii());
        }
        let name = str_to_bytes("DTSTART");
        match first_prop_exec(&self.lines, name.as_slice()) {
            Option::Some(i) => {
                proof {
                    assert(self.lines@[i as int]@ =~= self.lines.deep_view()[i as int]);
                }
                let v = value_of_exec(self.lines[i].as_slice());
                date_value_matches(&v, date)
            },
            Option::None => false,
        }
    }
}

/// The summaries of the events in the given file contents that start
/// on the given date, in file order. Missing contents or a broken
/// text yield no summaries, never an error.
pub fn events_on(contents: &Option<Vec<u8>>, date: CalendarDate) -> (r: Vec<Vec<u8>>)
    ensures
        r.deep_view() == events_on_spec(
            match *contents {
                Option::None => Option::<Seq<u8>>::None,
                Option::Some(ref v) => Some(v@),
            },
            date,
        ),
        contents is None ==> r@.len() == 0,
{
    let evs = load(contents);
    let ghost bs = evs.deep_view();
    let mut r: Vec<Vec<u8>> = Vec::new();
    let mut k: usize = 0;
    proof {
        assert(bs.skip(0) =~= bs);
        assert(r.deep_view() =~~= Seq::<Seq<u8>>::empty());
    }
    while k < evs.len()
        invariant
            k <= bs.len(),
            evs.deep_view() == bs,
            summaries_on(bs, date) == r.deep_view() + summaries_on(bs.skip(k as int), date),
        decreases bs.len() - k,
    {
        proof {
            assert(evs@[k as int].deep_view() == bs[k as int]);
            assert(bs.skip(k as int)[0] == bs[k as int]);
            assert(bs.skip(k as int).drop_first() =~= bs.skip(k + 1));
        }
        if evs[k].matches_date(date) {
            let s = evs[k].summary();
            let ghost prev = r@;
            let ghost prevdeep = r.deep_view();
            let ghost sv = s@;
            r.push(s);
            proof {
                assert forall|w: int| 0 <= w < r@.len() implies #[trigger] r.deep_view()[w] == (
                prevdeep.push(sv))[w] by {
                    if w < prev.len() {
                        assert(r@[w] == prev[w]);
                        assert(prevdeep[w] == prev[w].deep_view());
                    } else {
                        assert(r@[w]@ == sv);
                        assert(r@[w].deep_view() =~= sv);
                    }
                };
                assert(r@.len() == prevdeep.len() + 1);
                assert(r.deep_view() =~= prevdeep.push(sv));
                assert(prevdeep.push(sv) =~= prevdeep + seq![sv]);
            }
        }
        k = k + 1;
    }
    proof {
        assert(bs.skip(bs.len() as int) =~= Seq::<Seq<Seq<u8>>>::empty());
        assert(r.deep_view() + summaries_on(bs.skip(bs.len() as int), date) =~= r.deep_view());
    }
    r
}

pub open spec fn crlf() -> Seq<u8> {
    seq![CARRIAGE_RETURN, LINE_FEED]
}

/// Lines joined with carriage-return line endings, the last line
/// terminated too.
pub open spec fn join_crlf(ls: Seq<Seq<u8>>) -> Seq<u8>
    decreases ls.len(),
{
    if ls.len() == 0 {
        seq![]
    } else {
        ls[0] + crlf() + join_crlf(ls.drop_first())
    }
}

pub open spec fn vcal_begin() -> Seq<u8> {
    ascii_bytes("BEGIN:VCALENDAR"@)
}

pub open spec fn vcal_version() -> Seq<u8> {
    ascii_bytes("VERSION:2.0"@)
}

pub open spec fn vcal_prodid() -> Seq<u8> {
    ascii_bytes("PRODID:-//hyprclock//EN"@)
}

pub open spec fn vcal_end() -> Seq<u8> {
    ascii_bytes("END:VCALENDAR"@)
}

/// An event's lines framed by its begin and end markers.
pub open spec fn block_lines(b: Seq<Seq<u8>>) -> Seq<Seq<u8>> {
    seq![begin_event_bytes()] + b + seq![end_event_bytes()]
}

pub open spec fn blocks_lines(bs: Seq<Seq<Seq<u8>>>) -> Seq<Seq<u8>>
    decreases bs.len(),
{
    if bs.len() == 0 {
        seq![]
    } else {
        block_lines(bs[0]) + blocks_lines(bs.drop_first())
    }
}

/// The whole calendar as lines: wrapper, framed events, closing line.
pub open spec fn calendar_lines(bs: Seq<Seq<Seq<u8>>>) -> Seq<Seq<u8>> {
    seq![vcal_begin(), vcal_version(), vcal_prodid()] + blocks_lines(bs) + seq![vcal_end()]
}

/// The file text that holds the given events.
pub open spec fn serialize_spec(bs: Seq<Seq<Seq<u8>>>) -> Seq<u8> {
    join_crlf(calendar_lines(bs))
}

proof fn lemma_join_crlf_concat(a: Seq<Seq<u8>>, b: Seq<Seq<u8>>)
    ensures
        join_crlf(a + b) == join_crlf(a) + join_crlf(b),
    decreases a.len(),
{
    if a.len() == 0 {
        assert(a + b =~= b);
        assert(join_crlf(a) + join_crlf(b) =~= join_crlf(b));
    } else {
        assert((a + b).drop_first() =~= a.drop_first() + b);
        assert((a + b)[0] == a[0]);
        lemma_join_crlf_concat(a.drop_first(), b);
        assert(join_crlf(a + b) =~= join_crlf(a) + join_crlf(b));
    }
}

proof fn lemma_join_crlf_push(ls: Seq<Seq<u8>>, l: Seq<u8>)
    ensures
        join_crlf(ls.push(l)) == join_crlf(ls) + l + crlf(),
{
    reveal_with_fuel(join_crlf, 3);
    assert(ls.push(l) =~= ls + seq![l]);
    lemma_join_crlf_concat(ls, seq![l]);
    assert(seq![l].drop_first() =~= Seq::<Seq<u8>>::empty());
    assert(join_crlf(seq![l]) =~= l + crlf());
    assert(join_crlf(ls) + (l + crlf()) =~= join_crlf(ls) + l + crlf());
}

proof fn lemma_blocks_lines_push(bs: Seq<Seq<Seq<u8>>>, b: Seq<Seq<u8>>)
    ensures
        blocks_lines(bs.push(b)) == blocks_lines(bs) + block_lines(b),
    decreases bs.len(),
{
    if bs.len() == 0 {
        reveal_with_fuel(blocks_lines, 3);
        assert(bs.push(b).drop_first() =~= Seq::<Seq<Seq<u8>>>::empty());
        assert(bs.push(b)[0] == b);
        assert(blocks_lines(bs.push(b)) =~= blocks_lines(bs) + block_lines(b));
    } else {
        assert(bs.push(b).drop_first() =~= bs.drop_first().push(b));
        assert(bs.push(b)[0] == bs[0]);
        lemma_blocks_lines_push(bs.drop_first(), b);
        assert(blocks_lines(bs.push(b)) =~= blocks_lines(bs) + block_lines(b));
    }
}

/// Append one line with its line ending.
fn push_line(out: &mut Vec<u8>, l: &[u8])
    ensures
        final(out)@ == old(out)@ + l@ + crlf(),
{
    push_bytes(out, l);
    out.push(CARRIAGE_RETURN);
    out.push(LINE_FEED);
    proof {
        assert(out@ =~= old(out)@ + l@ + crlf());
    }
}

/// Append one ASCII literal line with its line ending.
fn push_str_line(out: &mut Vec<u8>, s: &str)
    requires
        s.is_ascii(),
    ensures
        final(out)@ == old(out)@ + ascii_bytes(s@) + crlf(),
{
    push_str_bytes(out, s);
    out.push(CARRIAGE_RETURN);
    out.push(LINE_FEED);
    proof {
        assert(out@ =~= old(out)@ + ascii_bytes(s@) + crlf());
    }
}

/// Write the events back as one calendar text: the calendar wrapper,
/// then each event's lines framed by its markers.
#[verifier::rlimit(60)]
pub fn serialize_calendar(events: &Vec<Event>) -> (r: Vec<u8>)
    ensures
        r@ == serialize_spec(events.deep_view()),
{
    let ghost bs = events.deep_view();
    let ghost hd3 = seq![vcal_begin(), vcal_version(), vcal_prodid()];
    let mut out: Vec<u8> = Vec::new();
    proof {
        reveal_strlit("BEGIN:VCALENDAR");
        reveal_strlit("VERSION:2.0");
        reveal_strlit("PRODID:-//hyprclock//EN");
        assert(("BEGIN:VCALENDAR").is_ascii());
        assert(("VERSION:2.0").is_ascii());
        assert(("PRODID:-//hyprclock//EN").is_ascii());
    }
    push_str_line(&mut out, "BEGIN:VCALENDAR");
    push_str_line(&mut out, "VERSION:2.0");
    push_str_line(&mut out, "PRODID:-//hyprclock//EN");
    proof {
        reveal_with_fuel(join_crlf, 5);
        assert(hd3.drop_first() =~= seq![vcal_version(), vcal_prodid()]);
        assert(seq![vcal_version(), vcal_prodid()].drop_first() =~= seq![vcal_prodid()]);
        assert(seq![vcal_prodid()].drop_first() =~= Seq::<Seq<u8>>::empty());
        assert(out@ =~= join_crlf(hd3));
        assert(bs.subrange(0, 0) =~= Seq::<Seq<Seq<u8>>>::empty());
        assert(out@ =~= join_crlf(hd3) + join_crlf(blocks_lines(bs.subrange(0, 0))));
    }
    proof {
        reveal_strlit("BEGIN:VEVENT");
        reveal_strlit("END:VEVENT");
        assert(("BEGIN:VEVENT").is_ascii());
        assert(("END:VEVENT").is_ascii());
    }
    let begin_marker = str_to_bytes("BEGIN:VEVENT");
    let end_marker = str_to_bytes("END:VEVENT");
    let mut k: usize = 0;
    while k < events.len()
        invariant
            k <= bs.len(),
            events.deep_view() == bs,
            begin_marker@ == begin_event_bytes(),
            end_marker@ == end_event_bytes(),
            out@ == join_crlf(hd3) + join_crlf(blocks_lines(bs.subrange(0, k as int))),
        decreases bs.len() - k,
    {
        let ghost bv = bs[k as int];
        proof {
            assert(events@[k as int].deep_view() == bv);
        }
        push_line(&mut out, begin_marker.as_slice());
        let ev = &events[k];
        let mut t: usize = 0;
        let ghost base = out@;
        while t < ev.lines.len()
            invariant
                t <= bv.len(),
                ev.lines.deep_view() == bv,
                out@ == base + join_crlf(bv.subrange(0, t as int)),
            decreases bv.len() - t,
        {
            proof {
                assert(ev.lines@[t as int]@ =~= bv[t as int]);
            }
            push_line(&mut out, ev.lines[t].as_slice());
            proof {
                assert(bv.subrange(0, t + 1 as int) =~= bv.subrange(0, t as int).push(
                    bv[t as int],
                ));
                lemma_join_crlf_push(bv.subrange(0, t as int), bv[t as int]);
                assert(out@ =~= base + join_crlf(bv.subrange(0, t + 1 as int)));
            }
            t = t + 1;
        }
        push_line(&mut out, end_marker.as_slice());
        proof {
            reveal_with_fuel(join_crlf, 3);
            assert(bv.subrange(0, bv.len() as int) =~= bv);
            assert(bs.subrange(0, k + 1 as int) =~= bs.subrange(0, k as int).push(bv));
            lemma_blocks_lines_push(bs.subrange(0, k as int), bv);
            assert(block_lines(bv) =~= seq![begin_event_bytes()] + bv + seq![end_event_bytes()]);
            lemma_join_crlf_concat(seq![begin_event_bytes()], bv + seq![end_event_bytes()]);
            lemma_join_crlf_concat(bv, seq![end_event_bytes()]);
            assert(seq![begin_event_bytes()].drop_first() =~= Seq::<Seq<u8>>::empty());
            assert(join_crlf(seq![begin_event_bytes()]) =~= begin_event_bytes() + crlf());
            assert(seq![end_event_bytes()].drop_first() =~= Seq::<Seq<u8>>::empty());
            assert(join_crlf(seq![end_event_bytes()]) =~= end_event_bytes() + crlf());
            lemma_join_crlf_concat(blocks_lines(bs.subrange(0, k as int)), block_lines(bv));
            assert(seq![begin_event_bytes()] + (bv + seq![end_event_bytes()]) =~= block_lines(bv));
            assert(join_crlf(block_lines(bv)) =~= begin_event_bytes() + crlf() + join_crlf(bv)
                + (end_event_bytes() + crlf()));
            assert(out@ =~= join_crlf(hd3) + join_crlf(blocks_lines(bs.subrange(0, k + 1 as int))));
        }
        k = k + 1;
    }
    proof {
        reveal_strlit("END:VCALENDAR");
        assert(("END:VCALENDAR").is_ascii());
    }
    push_str_line(&mut out, "END:VCALENDAR");
    proof {
        reveal_with_fuel(join_crlf, 3);
        assert(bs.subrange(0, bs.len() as int) =~= bs);
        assert(calendar_lines(bs) =~= (hd3 + blocks_lines(bs)) + seq![vcal_end()]);
        lemma_join_crlf_concat(hd3 + blocks_lines(bs), seq![vcal_end()]);
        lemma_join_crlf_concat(hd3, blocks_lines(bs));
        assert(seq![vcal_end()].drop_first() =~= Seq::<Seq<u8>>::empty());
        assert(join_crlf(seq![vcal_end()]) =~= vcal_end() + crlf());
        assert(out@ =~= serialize_spec(bs));
    }
    out
}

/// The universal-time stamp of a date and a second of its day.
pub open spec fn stamp_bytes(y: int, m: int, d: int, t: int) -> Seq<u8> {
    four_digits(y) + two_digits(m) + two_digits(d) + seq![0x54u8] + two_digits(t / 3600)
        + two_digits(t / 60 % 60) + two_digits(t % 60) + seq![0x5Au8]
}

/// Where a whole-day span anchored at second `t` of a day ends: one
/// second before the same second of the next day, so at the last
/// second of the day itself when `t` is midnight.
pub open spec fn end_stamp(q: CalendarDate, t: int) -> Seq<u8> {
    if t == 0 {
        stamp_bytes(q.year as int, q.month as int, q.day as int, 86399)
    } else {
        let (y, m, d) = next_day_spec(q);
        stamp_bytes(y, m, d, t - 1)
    }
}

pub open spec fn dtstart_line_spec(q: CalendarDate, t: int) -> Seq<u8> {
    ascii_bytes("DTSTART:"@) + stamp_bytes(q.year as int, q.month as int, q.day as int, t)
}

pub open spec fn dtend_line_spec(q: CalendarDate, t: int) -> Seq<u8> {
    ascii_bytes("DTEND:"@) + end_stamp(q, t)
}

pub open spec fn summary_line_spec(s: Seq<u8>) -> Seq<u8> {
    ascii_bytes("SUMMARY:"@) + s
}

/// The property lines of a newly added whole-day event: start at
/// second `t` of the day, end one second short of a full day later,
/// and the given summary.
pub open spec fn event_block_spec(q: CalendarDate, s: Seq<u8>, t: int) -> Seq<Seq<u8>> {
    seq![dtstart_line_spec(q, t), dtend_line_spec(q, t), summary_line_spec(s)]
}

/// What an append writes: the events the contents held — none, when
/// the contents are missing or broken — with the new event after them.
pub open spec fn append_spec(contents: Option<Seq<u8>>, q: CalendarDate, s: Seq<u8>, t: int) -> Seq<
    u8,
> {
    serialize_spec(loaded_blocks(contents).push(event_block_spec(q, s, t)))
}

/// Append a universal-time stamp.
fn push_stamp(out: &mut Vec<u8>, y: u16, m: u8, d: u8, t: u32)
    requires
        y < 10000,
        m < 100,
        d < 100,
        t < 86400,
    ensures
        final(out)@ == old(out)@ + stamp_bytes(y as int, m as int, d as int, t as int),
{
    push_four_digits(out, y);
    push_two_digits(out, m);
    push_two_digits(out, d);
    out.push(0x54);
    assert(t / 3600 < 24);
    push_two_digits(out, (t / 3600) as u8);
    push_two_digits(out, (t / 60 % 60) as u8);
    push_two_digits(out, (t % 60) as u8);
    out.push(0x5A);
    proof {
        assert(out@ =~= old(out)@ + stamp_bytes(y as int, m as int, d as int, t as int));
    }
}

/// Build the stored form of a new whole-day event.
fn new_event(date: CalendarDate, summary: &Vec<u8>, tod_seconds: u32) -> (r: Event)
    requires
        valid_date(date),
        tod_seconds < 86400,
        (date.year == 9999 && date.month == 12 && date.day == 31) ==> tod_seconds == 0,
    ensures
        r@ == event_block_spec(date, summary@, tod_seconds as int),
{
    proof {
        reveal_strlit("DTSTART:");
        reveal_strlit("DTEND:");
        reveal_strlit("SUMMARY:");
        assert(("DTSTART:").is_ascii());
        assert(("DTEND:").is_ascii());
        assert(("SUMMARY:").is_ascii());
    }
    let mut l1 = str_to_bytes("DTSTART:");
    push_stamp(&mut l1, date.year, date.month, date.day, tod_seconds);
    let mut l2 = str_to_bytes("DTEND:");
    if tod_seconds == 0 {
        push_stamp(&mut l2, date.year, date.month, date.day, 86399);
    } else {
        let nd = next_day(date);
        push_stamp(&mut l2, nd.year, nd.month, nd.day, tod_seconds - 1);
    }
    let mut l3 = str_to_bytes("SUMMARY:");
    push_bytes(&mut l3, summary.as_slice());
    let ghost g1 = l1@;
    let ghost g2 = l2@;
    let ghost g3 = l3@;
    let mut ls: Vec<Vec<u8>> = Vec::new();
    ls.push(l1);
    ls.push(l2);
    ls.push(l3);
    proof {
        assert(ls@.len() == 3);
        assert(ls@[0]@ == g1);
        assert(ls@[1]@ == g2);
        assert(ls@[2]@ == g3);
        assert forall|w: int| 0 <= w < 3 implies #[trigger] ls.deep_view()[w]
            == event_block_spec(date, summary@, tod_seconds as int)[w] by {
            if w == 0 {
                assert(ls@[0].deep_view() =~= g1);
            } else if w == 1 {
                assert(ls@[1].deep_view() =~= g2);
            } else {
                assert(ls@[2].deep_view() =~= g3);
            }
        };
        assert(ls.deep_view() =~= event_block_spec(date, summary@, tod_seconds as int));
    }
    Event { lines: ls }
}

/// Add a whole-day event for the given date and write the whole
/// calendar anew: the events the contents held — none, when the file
/// was missing or broken — followed by the new one. `tod_seconds` is
/// the second of the day the span is anchored at, taken from the live
/// clock. Writing the returned text to the file is the caller's part;
/// only that write can fail.
pub fn append(contents: &Option<Vec<u8>>, date: CalendarDate, summary: &Vec<u8>, tod_seconds: u32) -> (r: Vec<u8>)
    requires
        valid_date(date),
        tod_seconds < 86400,
        (date.year == 9999 && date.month == 12 && date.day == 31) ==> tod_seconds == 0,
    ensures
        r@ == append_spec(
            match *contents {
                Option::None => Option::<Seq<u8>>::None,
                Option::Some(ref v) => Some(v@),
            },
            date,
            summary@,
            tod_seconds as int,
        ),
{
    let mut evs = load(contents);
    let ghost prev = evs.deep_view();
    let ghost prevraw = evs@;
    let e = new_event(date, summary, tod_seconds);
    let ghost ev = e@;
    evs.push(e);
    proof {
        assert forall|w: int| 0 <= w < evs@.len() implies #[trigger] evs.deep_view()[w]
            == prev.push(ev)[w] by {
            if w < prevraw.len() {
                assert(evs@[w] == prevraw[w]);
                assert(prev[w] == prevraw[w].deep_view());
            } else {
                assert(evs@[w].deep_view() == ev);
            }
        };
        assert(evs@.len() == prevraw.len() + 1);
        assert(prev.len() == prevraw.len());
        assert(evs.deep_view() =~= prev.push(ev));
    }
    serialize_calendar(&evs)
}

pub open spec fn lines_no_nl(ls: Seq<Seq<u8>>) -> bool {
    forall|li: int, k: int|
        0 <= li < ls.len() && 0 <= k < ls[li].len() ==> #[trigger] ls[li][k] != LINE_FEED
}

proof fn lemma_stripped_no_nl(s: Seq<u8>)
    ensures
        lines_no_nl(stripped_lines(s)),
{
    lemma_split_lines_no_nl(s);
    let raw = split_lines(s);
    let st = stripped_lines(s);
    assert forall|li: int, k: int|
        0 <= li < st.len() && 0 <= k < st[li].len() implies #[trigger] st[li][k] != LINE_FEED by {
        assert(st[li] == strip_cr_spec(raw[li]));
        assert(st[li][k] == raw[li][k]);
    };
}

proof fn lemma_parse_wf(lines: Seq<Seq<u8>>, i: int)
    requires
        0 <= i <= lines.len(),
        lines_no_nl(lines),
        parse_from_lines(lines, i) is Some,
    ensures
        blocks_wf(parse_from_lines(lines, i).unwrap()),
    decreases lines.len() - i,
{
    let r = parse_from_lines(lines, i).unwrap();
    if i >= lines.len() {
        assert(blocks_wf(r));
    } else if lines[i] == end_event_bytes() {
    } else if lines[i] == begin_event_bytes() {
        lemma_find_marker(lines, i + 1);
        let e = find_marker(lines, i + 1);
        let b = lines.subrange(i + 1, e);
        assert(block_wf(b)) by {
            assert forall|w: int| 0 <= w < b.len() implies line_wf(#[trigger] b[w]) by {
                assert(b[w] == lines[i + 1 + w]);
                assert(!is_marker(lines[i + 1 + w]));
                assert(forall|k: int| 0 <= k < b[w].len() ==> #[trigger] b[w][k] != LINE_FEED);
            };
        };
        lemma_parse_wf(lines, e + 1);
        let rest = parse_from_lines(lines, e + 1).unwrap();
        assert(r == seq![b] + rest);
        assert forall|w: int| 0 <= w < r.len() implies block_wf(#[trigger] r[w]) by {
            if w == 0 {
                assert(r[0] == b);
            } else {
                assert(r[w] == rest[w - 1]);
            }
        };
    } else {
        lemma_parse_wf(lines, i + 1);
    }
}

/// Whatever a load yields can be written back: its lines hold no line
/// breaks and are not markers.
pub proof fn lemma_loaded_wf(contents: Option<Seq<u8>>)
    ensures
        blocks_wf(loaded_blocks(contents)),
{
    match contents {
        Option::None => {
            assert(blocks_wf(loaded_blocks(contents)));
        },
        Option::Some(s) => {
            if parse_events(s) is Some {
                lemma_stripped_no_nl(s);
                lemma_parse_wf(stripped_lines(s), 0);
            } else {
                assert(blocks_wf(loaded_blocks(contents)));
            }
        },
    }
}

/// Splitting a line-ending-joined list of break-free lines gives the
/// list back.
proof fn lemma_stripped_join(ls: Seq<Seq<u8>>)
    requires
        lines_no_nl(ls),
    ensures
        stripped_lines(join_crlf(ls)) == ls,
    decreases ls.len(),
{
    if ls.len() == 0 {
        assert(split_lines(join_crlf(ls)).len() == 0);
        assert(stripped_lines(join_crlf(ls)) =~= ls);
    } else {
        let l0 = ls[0];
        let rest = ls.drop_first();
        let l0cr = l0 + seq![CARRIAGE_RETURN];
        assert(join_crlf(ls) =~= l0cr + seq![LINE_FEED] + join_crlf(rest));
        assert(forall|k: int| 0 <= k < l0cr.len() ==> l0cr[k] != LINE_FEED);
        lemma_split_prepend_line(l0cr, join_crlf(rest));
        assert(split_lines(join_crlf(ls)) == seq![l0cr] + split_lines(join_crlf(rest)));
        assert(lines_no_nl(rest)) by {
            assert forall|li: int, k: int|
                0 <= li < rest.len() && 0 <= k < rest[li].len() implies #[trigger] rest[li][k]
                != LINE_FEED by {
                assert(rest[li] == ls[li + 1]);
            };
        };
        lemma_stripped_join(rest);
        assert(strip_cr_spec(l0cr) =~= l0);
        assert(stripped_lines(join_crlf(ls)) =~= ls) by {
            let st = stripped_lines(join_crlf(ls));
            let sp = split_lines(join_crlf(ls));
            assert forall|w: int| 0 <= w < st.len() implies #[trigger] st[w] == ls[w] by {
                assert(st[w] == strip_cr_spec(sp[w]));
                if w == 0 {
                    assert(sp[0] == l0cr);
                } else {
                    assert(sp[w] == split_lines(join_crlf(rest))[w - 1]);
                    assert(stripped_lines(join_crlf(rest))[w - 1] == strip_cr_spec(
                        split_lines(join_crlf(rest))[w - 1],
                    ));
                    assert(ls[w] == rest[w - 1]);
                }
            };
        };
    }
}

/// The wrapper lines are free of line breaks and are not markers, and
/// the two markers differ.
proof fn lemma_frame_lines()
    ensures
        !is_marker(vcal_begin()),
        !is_marker(vcal_version()),
        !is_marker(vcal_prodid()),
        !is_marker(vcal_end()),
        begin_event_bytes() != end_event_bytes(),
        forall|k: int| 0 <= k < vcal_begin().len() ==> #[trigger] vcal_begin()[k] != LINE_FEED,
        forall|k: int| 0 <= k < vcal_version().len() ==> #[trigger] vcal_version()[k] != LINE_FEED,
        forall|k: int| 0 <= k < vcal_prodid().len() ==> #[trigger] vcal_prodid()[k] != LINE_FEED,
        forall|k: int| 0 <= k < vcal_end().len() ==> #[trigger] vcal_end()[k] != LINE_FEED,
        forall|k: int|
            0 <= k < begin_event_bytes().len() ==> #[trigger] begin_event_bytes()[k] != LINE_FEED,
        forall|k: int|
            0 <= k < end_event_bytes().len() ==> #[trigger] end_event_bytes()[k] != LINE_FEED,
{
    reveal_strlit("BEGIN:VCALENDAR");
    reveal_strlit("VERSION:2.0");
    reveal_strlit("PRODID:-//hyprclock//EN");
    reveal_strlit("END:VCALENDAR");
    reveal_strlit("BEGIN:VEVENT");
    reveal_strlit("END:VEVENT");
    assert(vcal_begin().len() == 15);
    assert(vcal_version().len() == 11);
    assert(vcal_prodid().len() == 23);
    assert(vcal_end().len() == 13);
    assert(begin_event_bytes().len() == 12);
    assert(end_event_bytes().len() == 10);
}

proof fn lemma_blocks_lines_no_nl(bs: Seq<Seq<Seq<u8>>>)
    requires
        blocks_wf(bs),
    ensures
        lines_no_nl(blocks_lines(bs)),
    decreases bs.len(),
{
    lemma_frame_lines();
    if bs.len() > 0 {
        let hd = block_lines(bs[0]);
        let tl = blocks_lines(bs.drop_first());
        assert(blocks_wf(bs.drop_first())) by {
            assert forall|w: int| 0 <= w < bs.drop_first().len() implies block_wf(
                #[trigger] bs.drop_first()[w],
            ) by {
                assert(bs.drop_first()[w] == bs[w + 1]);
            };
        };
        lemma_blocks_lines_no_nl(bs.drop_first());
        assert(block_wf(bs[0]));
        assert(lines_no_nl(hd)) by {
            assert forall|li: int, k: int|
                0 <= li < hd.len() && 0 <= k < hd[li].len() implies #[trigger] hd[li][k]
                != LINE_FEED by {
                if li == 0 {
                    assert(hd[0] == begin_event_bytes());
                } else if li <= bs[0].len() {
                    assert(hd[li] == bs[0][li - 1]);
                    assert(line_wf(bs[0][li - 1]));
                } else {
                    assert(hd[li] == end_event_bytes());
                }
            };
        };
        assert forall|li: int, k: int|
            0 <= li < blocks_lines(bs).len() && 0 <= k < blocks_lines(bs)[li].len() implies
            #[trigger] blocks_lines(bs)[li][k] != LINE_FEED by {
            assert(blocks_lines(bs) == hd + tl);
            if li < hd.len() {
                assert(blocks_lines(bs)[li] == hd[li]);
            } else {
                assert(blocks_lines(bs)[li] == tl[li - hd.len()]);
            }
        };
    }
}

/// Reading framed event blocks followed by the closing wrapper line
/// recovers exactly those blocks.
proof fn lemma_parse_blocks_at(lines: Seq<Seq<u8>>, i: int, bs: Seq<Seq<Seq<u8>>>)
    requires
        0 <= i <= lines.len(),
        blocks_wf(bs),
        lines.subrange(i, lines.len() as int) == blocks_lines(bs) + seq![vcal_end()],
    ensures
        parse_from_lines(lines, i) == Some(bs),
    decreases bs.len(),
{
    lemma_frame_lines();
    let tail = lines.subrange(i, lines.len() as int);
    if bs.len() == 0 {
        assert(blocks_lines(bs) == Seq::<Seq<u8>>::empty());
        assert(tail =~= seq![vcal_end()]);
        assert(lines.len() - i == 1);
        assert(lines[i] == tail[0]);
        assert(parse_from_lines(lines, i) == parse_from_lines(lines, i + 1));
        assert(bs =~= Seq::<Seq<Seq<u8>>>::empty());
    } else {
        let b0 = bs[0];
        let rest = bs.drop_first();
        assert(block_wf(b0));
        assert(blocks_lines(bs) == block_lines(b0) + blocks_lines(rest));
        let bl = block_lines(b0);
        assert(bl.len() == b0.len() + 2);
        let brs = blocks_lines(rest);
        assert(blocks_lines(bs).len() == bl.len() + brs.len());
        assert(tail.len() == lines.len() - i);
        assert(tail.len() == blocks_lines(bs).len() + 1);
        let e = i + 1 + b0.len();
        assert(e + brs.len() + 2 == lines.len());
        assert(lines[i] == tail[0]);
        assert(tail[0] == bl[0]);
        assert(bl[0] == begin_event_bytes());
        assert(e < lines.len());
        assert(lines[e] == tail[e - i]);
        assert(tail[e - i] == bl[b0.len() as int + 1]);
        assert(bl[b0.len() as int + 1] == end_event_bytes());
        assert forall|w: int| i + 1 <= w < e implies !is_marker(#[trigger] lines[w]) by {
            assert(lines[w] == tail[w - i]);
            assert(tail[w - i] == bl[w - i]);
            assert(bl[w - i] == b0[w - i - 1]);
            assert(line_wf(b0[w - i - 1]));
        };
        lemma_find_marker(lines, i + 1);
        let f = find_marker(lines, i + 1);
        assert(f == e) by {
            if f < e {
                assert(is_marker(lines[f]));
                assert(!is_marker(lines[f]));
            }
            if f > e {
                assert(!is_marker(lines[e]));
            }
        };
        assert(lines[e] != begin_event_bytes());
        assert(lines.subrange(i + 1, e) =~= b0) by {
            assert forall|w: int| 0 <= w < b0.len() implies lines.subrange(i + 1, e)[w] == b0[w] by {
                assert(lines.subrange(i + 1, e)[w] == lines[i + 1 + w]);
                assert(lines[i + 1 + w] == tail[1 + w]);
                assert(tail[1 + w] == bl[1 + w]);
            };
        };
        assert(blocks_wf(rest)) by {
            assert forall|w: int| 0 <= w < rest.len() implies block_wf(#[trigger] rest[w]) by {
                assert(rest[w] == bs[w + 1]);
            };
        };
        assert(lines.len() - e - 1 == brs.len() + 1);
        assert(lines.subrange(e + 1, lines.len() as int) =~= brs + seq![vcal_end()]) by {
            assert forall|w: int| 0 <= w < lines.len() - e - 1 implies lines.subrange(
                e + 1,
                lines.len() as int,
            )[w] == (brs + seq![vcal_end()])[w] by {
                assert(lines.subrange(e + 1, lines.len() as int)[w] == lines[e + 1 + w]);
                assert(lines[e + 1 + w] == tail[e + 1 + w - i]);
                assert(tail[e + 1 + w - i] == (blocks_lines(bs) + seq![vcal_end()])[b0.len() as int
                    + 2 + w]);
                if w < brs.len() {
                    assert((blocks_lines(bs) + seq![vcal_end()])[b0.len() as int + 2 + w]
                        == blocks_lines(bs)[b0.len() as int + 2 + w]);
                    assert(blocks_lines(bs)[b0.len() as int + 2 + w] == brs[w]);
                    assert((brs + seq![vcal_end()])[w] == brs[w]);
                } else {
                    assert(w == brs.len());
                    assert((blocks_lines(bs) + seq![vcal_end()])[b0.len() as int + 2 + w]
                        == vcal_end());
                    assert((brs + seq![vcal_end()])[w] == vcal_end());
                }
            };
        };
        lemma_parse_blocks_at(lines, e + 1, rest);
        assert(parse_from_lines(lines, i) == Some(seq![b0] + rest));
        assert(seq![b0] + rest =~= bs);
    }
}

/// Law: writing events out and reading the text back yields the same
/// events, for any events a load can yield or an append can write.
pub proof fn lemma_save_load_round_trip(bs: Seq<Seq<Seq<u8>>>)
    requires
        blocks_wf(bs),
    ensures
        parse_events(serialize_spec(bs)) == Some(bs),
{
    lemma_frame_lines();
    let cl = calendar_lines(bs);
    let hd3 = seq![vcal_begin(), vcal_version(), vcal_prodid()];
    lemma_blocks_lines_no_nl(bs);
    assert(lines_no_nl(cl)) by {
        assert forall|li: int, k: int|
            0 <= li < cl.len() && 0 <= k < cl[li].len() implies #[trigger] cl[li][k]
            != LINE_FEED by {
            if li < 3 {
                assert(cl[li] == hd3[li]);
            } else if li < 3 + blocks_lines(bs).len() {
                assert(cl[li] == blocks_lines(bs)[li - 3]);
            } else {
                assert(cl[li] == vcal_end());
            }
        };
    };
    lemma_stripped_join(cl);
    assert(cl[0] == vcal_begin());
    assert(cl[1] == vcal_version());
    assert(cl[2] == vcal_prodid());
    assert(cl.len() >= 4);
    assert(parse_from_lines(cl, 0) == parse_from_lines(cl, 1));
    assert(parse_from_lines(cl, 1) == parse_from_lines(cl, 2));
    assert(parse_from_lines(cl, 2) == parse_from_lines(cl, 3));
    assert(cl.subrange(3, cl.len() as int) =~= blocks_lines(bs) + seq![vcal_end()]);
    lemma_parse_blocks_at(cl, 3, bs);
}

proof fn lemma_summaries_concat(a: Seq<Seq<Seq<u8>>>, b: Seq<Seq<Seq<u8>>>, q: CalendarDate)
    ensures
        summaries_on(a + b, q) == summaries_on(a, q) + summaries_on(b, q),
    decreases a.len(),
{
    if a.len() == 0 {
        assert(a + b =~= b);
        assert(summaries_on(a, q) + summaries_on(b, q) =~= summaries_on(b, q));
    } else {
        assert((a + b).drop_first() =~= a.drop_first() + b);
        assert((a + b)[0] == a[0]);
        lemma_summaries_concat(a.drop_first(), b, q);
        assert(summaries_on(a + b, q) =~= summaries_on(a, q) + summaries_on(b, q));
    }
}

/// The lines a fresh whole-day event is written with: they are safe to
/// write back, the event starts on its date, and its summary is the
/// given text.
#[verifier::rlimit(60)]
proof fn lemma_event_block(q: CalendarDate, s: Seq<u8>, t: int)
    requires
        valid_date(q),
        0 <= t < 86400,
        forall|k: int| 0 <= k < s.len() ==> s[k] != LINE_FEED,
    ensures
        block_wf(event_block_spec(q, s, t)),
        start_on(event_block_spec(q, s, t), q),
        summary_of(event_block_spec(q, s, t)) == s,
{
    reveal_strlit("DTSTART:");
    reveal_strlit("DTEND:");
    reveal_strlit("SUMMARY:");
    reveal_strlit("DTSTART");
    reveal_strlit("SUMMARY");
    reveal_strlit("BEGIN:VEVENT");
    reveal_strlit("END:VEVENT");
    let b = event_block_spec(q, s, t);
    let l1 = dtstart_line_spec(q, t);
    let l2 = dtend_line_spec(q, t);
    let l3 = summary_line_spec(s);
    let st = stamp_bytes(q.year as int, q.month as int, q.day as int, t);
    lemma_four_digits_val(q.year as int);
    lemma_two_digits_val(q.month as int);
    lemma_two_digits_val(q.day as int);
    lemma_two_digits_val(t / 3600);
    lemma_two_digits_val(t / 60 % 60);
    lemma_two_digits_val(t % 60);
    assert(st.len() == 16);
    assert(forall|k: int| 0 <= k < st.len() ==> #[trigger] st[k] != LINE_FEED) by {
        assert forall|k: int| 0 <= k < st.len() implies #[trigger] st[k] != LINE_FEED by {
            if k < 4 {
                assert(st[k] == four_digits(q.year as int)[k]);
                assert(is_digit(st[k]));
            } else if k < 6 {
                assert(st[k] == two_digits(q.month as int)[k - 4]);
                assert(is_digit(st[k]));
            } else if k < 8 {
                assert(st[k] == two_digits(q.day as int)[k - 6]);
                assert(is_digit(st[k]));
            } else if k == 8 {
                assert(st[k] == 0x54);
            } else if k < 11 {
                assert(st[k] == two_digits(t / 3600)[k - 9]);
                assert(is_digit(st[k]));
            } else if k < 13 {
                assert(st[k] == two_digits(t / 60 % 60)[k - 11]);
                assert(is_digit(st[k]));
            } else if k < 15 {
                assert(st[k] == two_digits(t % 60)[k - 13]);
                assert(is_digit(st[k]));
            } else {
                assert(st[k] == 0x5A);
            }
        };
    };
    // the start line names the date in universal time
    assert(l1.len() == 24);
    assert(ascii_bytes("DTSTART:"@).len() == 8);
    assert(prop_match(l1, dtstart_name())) by {
        assert(dtstart_name().len() == 7);
        assert(l1.subrange(0, 7) =~= dtstart_name());
        assert(l1[7] == ':' as u8);
    };
    assert(first_prop(b, dtstart_name()) == Some(l1));
    assert(find_colon(l1, 0) == 7) by {
        reveal_with_fuel(find_colon, 10);
        assert(l1[0] == 'D' as u8 && l1[1] == 'T' as u8 && l1[2] == 'S' as u8 && l1[3] == 'T' as u8
            && l1[4] == 'A' as u8 && l1[5] == 'R' as u8 && l1[6] == 'T' as u8);
        assert(l1[7] == ':' as u8);
    };
    let v = value_of(l1);
    assert(v =~= st);
    assert(date_value_on(st, q)) by {
        assert(st.subrange(0, 4) =~= four_digits(q.year as int));
        assert(st.subrange(4, 6) =~= two_digits(q.month as int));
        assert(st.subrange(6, 8) =~= two_digits(q.day as int));
        assert(digits_val(st.subrange(0, 4)) == q.year as int % 10000);
        assert(q.year as int % 10000 == q.year);
        assert(digits_val(st.subrange(4, 6)) == q.month as int % 100);
        assert(q.month as int % 100 == q.month);
        assert(digits_val(st.subrange(6, 8)) == q.day as int % 100);
        assert(q.day as int % 100 == q.day);
        assert(st[8] == 0x54 && st[15] == 0x5A);
        assert(all_digits(st.subrange(9, 15))) by {
            assert forall|k: int| 0 <= k < 6 implies is_digit(#[trigger] st.subrange(9, 15)[k]) by {
                assert(st.subrange(9, 15)[k] == st[9 + k]);
                if k < 2 {
                    assert(st[9 + k] == two_digits(t / 3600)[k + 1 - 1]);
                } else if k < 4 {
                    assert(st[9 + k] == two_digits(t / 60 % 60)[k - 2]);
                } else {
                    assert(st[9 + k] == two_digits(t % 60)[k - 4]);
                }
            };
        };
    };
    assert(start_on(b, q));
    // the summary line carries the summary
    assert(l3.len() == 8 + s.len());
    assert(!prop_match(l1, summary_name())) by {
        assert(l1.subrange(0, 7)[0] == 'D' as u8);
        assert(summary_name()[0] == 'S' as u8);
    };
    assert(!prop_match(l2, summary_name())) by {
        if l2.len() > 7 {
            assert(l2[0] == ascii_bytes("DTEND:"@)[0]);
            assert(l2[0] == 'D' as u8);
            if l2.subrange(0, 7) == summary_name() {
                assert(l2.subrange(0, 7)[0] == 'S' as u8);
            }
        }
    };
    assert(prop_match(l3, summary_name())) by {
        assert(l3.subrange(0, 7) =~= summary_name());
        assert(l3[7] == ':' as u8);
    };
    assert(b.drop_first() =~= seq![l2, l3]);
    assert(seq![l2, l3].drop_first() =~= seq![l3]);
    assert(first_prop(b, summary_name()) == Some(l3)) by {
        reveal_with_fuel(first_prop, 5);
        assert(seq![l3].drop_first() =~= Seq::<Seq<u8>>::empty());
        assert(seq![l2, l3][0] == l2 && seq![l3][0] == l3);
    };
    assert(find_colon(l3, 0) == 7) by {
        reveal_with_fuel(find_colon, 10);
        assert(l3[0] == 'S' as u8 && l3[1] == 'U' as u8 && l3[2] == 'M' as u8 && l3[3] == 'M' as u8
            && l3[4] == 'A' as u8 && l3[5] == 'R' as u8 && l3[6] == 'Y' as u8);
        assert(l3[7] == ':' as u8);
    };
    assert(value_of(l3) =~= s);
    // every line can be written back
    assert(line_wf(l1)) by {
        assert(forall|k: int| 0 <= k < 8 ==> #[trigger] ascii_bytes("DTSTART:"@)[k] != LINE_FEED);
        assert(forall|k: int| 0 <= k < l1.len() ==> #[trigger] l1[k] != LINE_FEED);
        assert(begin_event_bytes().len() == 12);
        assert(end_event_bytes().len() == 10);
    };
    assert(line_wf(l2)) by {
        let e2 = end_stamp(q, t);
        assert(forall|k: int| 0 <= k < 6 ==> #[trigger] ascii_bytes("DTEND:"@)[k] != LINE_FEED);
        assert(forall|k: int| 0 <= k < e2.len() ==> #[trigger] e2[k] != LINE_FEED) by {
            lemma_stamp_no_nl(q, t);
        };
        assert(forall|k: int| 0 <= k < l2.len() ==> #[trigger] l2[k] != LINE_FEED);
        assert(l2.len() == 22);
        assert(begin_event_bytes().len() == 12);
        assert(end_event_bytes().len() == 10);
    };
    assert(line_wf(l3)) by {
        assert(forall|k: int| 0 <= k < 8 ==> #[trigger] ascii_bytes("SUMMARY:"@)[k] != LINE_FEED);
        assert(forall|k: int| 0 <= k < l3.len() ==> #[trigger] l3[k] != LINE_FEED);
        assert(l3[0] == 'S' as u8);
        assert(begin_event_bytes()[0] == 'B' as u8);
        assert(end_event_bytes()[0] == 'E' as u8);
        assert(l3 != begin_event_bytes());
        assert(l3 != end_event_bytes());
    };
    assert(block_wf(b)) by {
        assert forall|w: int| 0 <= w < b.len() implies line_wf(#[trigger] b[w]) by {
            if w == 0 {
                assert(b[w] == l1);
            } else if w == 1 {
                assert(b[w] == l2);
            } else {
                assert(b[w] == l3);
            }
        };
    };
}

/// Every byte of a universal-time stamp is a digit or one of its two
/// letter markers.
proof fn lemma_stamp_no_nl(q: CalendarDate, t: int)
    requires
        0 <= t,
    ensures
        forall|k: int|
            0 <= k < end_stamp(q, t).len() ==> #[trigger] end_stamp(q, t)[k] != LINE_FEED,
        end_stamp(q, t).len() == 16,
{
    let e = end_stamp(q, t);
    let (y2, m2, d2, t2): (int, int, int, int) = if t == 0 {
        (q.year as int, q.month as int, q.day as int, 86399int)
    } else {
        let (y, m, d) = next_day_spec(q);
        (y, m, d, t - 1)
    };
    assert(y2 >= 0 && m2 >= 0 && d2 >= 0 && t2 >= 0);
    assert(e == stamp_bytes(y2, m2, d2, t2));
    lemma_four_digits_val(y2);
    lemma_two_digits_val(m2);
    lemma_two_digits_val(d2);
    lemma_two_digits_val(t2 / 3600);
    lemma_two_digits_val(t2 / 60 % 60);
    lemma_two_digits_val(t2 % 60);
    assert forall|k: int| 0 <= k < e.len() implies #[trigger] e[k] != LINE_FEED by {
        if k < 4 {
            assert(e[k] == four_digits(y2)[k]);
            assert(is_digit(e[k]));
        } else if k < 6 {
            assert(e[k] == two_digits(m2)[k - 4]);
            assert(is_digit(e[k]));
        } else if k < 8 {
            assert(e[k] == two_digits(d2)[k - 6]);
            assert(is_digit(e[k]));
        } else if k == 8 {
            assert(e[k] == 0x54);
        } else if k < 11 {
            assert(e[k] == two_digits(t2 / 3600)[k - 9]);
            assert(is_digit(e[k]));
        } else if k < 13 {
            assert(e[k] == two_digits(t2 / 60 % 60)[k - 11]);
            assert(is_digit(e[k]));
        } else if k < 15 {
            assert(e[k] == two_digits(t2 % 60)[k - 13]);
            assert(is_digit(e[k]));
        } else {
            assert(e[k] == 0x5A);
        }
    };
}

/// Law: a read of the day right after an append observes the appended
/// event — the day's summaries are the earlier ones with the new
/// summary after them. This holds whatever the earlier contents were:
/// a missing or broken file acts as an empty calendar.
#[verifier::rlimit(60)]
pub proof fn lemma_append_then_events_on(
    contents: Option<Seq<u8>>,
    q: CalendarDate,
    s: Seq<u8>,
    t: int,
)
    requires
        valid_date(q),
        0 <= t < 86400,
        forall|k: int| 0 <= k < s.len() ==> s[k] != LINE_FEED,
    ensures
        events_on_spec(Some(append_spec(contents, q, s, t)), q) == events_on_spec(contents, q).push(
            s,
        ),
{
    let bs = loaded_blocks(contents);
    lemma_loaded_wf(contents);
    let nb = event_block_spec(q, s, t);
    lemma_event_block(q, s, t);
    let all = bs.push(nb);
    assert(blocks_wf(all)) by {
        assert forall|w: int| 0 <= w < all.len() implies block_wf(#[trigger] all[w]) by {
            if w < bs.len() {
                assert(all[w] == bs[w]);
            } else {
                assert(all[w] == nb);
            }
        };
    };
    lemma_save_load_round_trip(all);
    assert(loaded_blocks(Some(append_spec(contents, q, s, t))) == all);
    assert(all =~= bs + seq![nb]);
    lemma_summaries_concat(bs, seq![nb], q);
    assert(seq![nb].drop_first() =~= Seq::<Seq<Seq<u8>>>::empty());
    assert(summaries_on(seq![nb], q) =~= seq![s]) by {
        reveal_with_fuel(summaries_on, 3);
        assert(seq![nb][0] == nb);
        assert(start_on(nb, q));
        assert(summary_of(nb) == s);
    };
    assert(summaries_on(all, q) =~= summaries_on(bs, q).push(s));
}

/// Law: a query does not change what it reads — two reads of the same
/// contents for the same date yield the same summaries, however often
/// they are repeated.
pub proof fn lemma_events_on_repeatable(
    first: Option<Seq<u8>>,
    second: Option<Seq<u8>>,
    q: CalendarDate,
)
    requires
        first == second,
    ensures
        events_on_spec(first, q) == events_on_spec(second, q),
{
}

} // verus!
