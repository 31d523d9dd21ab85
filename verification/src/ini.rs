//! A minimal `[Section]` / `Key=Value` editor for `Skyrim.ini` and
//! `SkyrimPrefs.ini`. It keeps the text's lines and comments as they are and
//! touches only the one key that it is asked to set, adding the section or the
//! key where they are missing. Sections and keys match whatever the case of
//! their ASCII letters, as the game reads these files.

use crate::text;
use vstd::prelude::*;

verus! {

/// The line that opens a section.
pub open spec fn header(section: Seq<char>) -> Seq<char> {
    seq!['['] + section + seq![']']
}

/// The line that gives a key its value.
pub open spec fn entry(key: Seq<char>, value: Seq<char>) -> Seq<char> {
    key + seq!['='] + value
}

/// Whether a line opens some section.
pub open spec fn opens_section(line: Seq<char>) -> bool {
    let t = text::trimmed(line);
    t.len() > 0 && t[0] == '['
}

/// Whether a line opens this section.
pub open spec fn is_header(line: Seq<char>, section: Seq<char>) -> bool {
    text::ascii_fold(text::trimmed(line)) == text::ascii_fold(header(section))
}

/// What a line holds before its first equals sign.
pub open spec fn key_part(line: Seq<char>) -> Seq<char> {
    line.take(text::position(line, '='))
}

/// Whether a line is about this key.
pub open spec fn is_key_line(line: Seq<char>, key: Seq<char>) -> bool {
    text::ascii_fold(text::trimmed(key_part(line))) == text::ascii_fold(key)
}

/// The first line at or after `i` that opens this section, or the number of
/// lines.
pub open spec fn section_at(lines: Seq<Seq<char>>, section: Seq<char>, i: int) -> int
    decreases lines.len() - i,
{
    if i >= lines.len() || is_header(lines[i], section) {
        i
    } else {
        section_at(lines, section, i + 1)
    }
}

/// The first line at or after `i` that opens a section, or the number of
/// lines.
pub open spec fn section_end(lines: Seq<Seq<char>>, i: int) -> int
    decreases lines.len() - i,
{
    if i >= lines.len() || opens_section(lines[i]) {
        i
    } else {
        section_end(lines, i + 1)
    }
}

/// The first line at or after `i` and before `end` that is about this key, or
/// `end`.
pub open spec fn key_at(lines: Seq<Seq<char>>, key: Seq<char>, i: int, end: int) -> int
    decreases end - i,
{
    if i >= end || is_key_line(lines[i], key) {
        i
    } else {
        key_at(lines, key, i + 1, end)
    }
}

/// The lines after the key has been given its value: its first line in the
/// first section of that name is replaced, or a line is added at the section's
/// end, or the section is added at the end of all, after an empty line unless
/// there is one or there are no lines.
pub open spec fn lines_with(
    lines: Seq<Seq<char>>,
    section: Seq<char>,
    key: Seq<char>,
    value: Seq<char>,
) -> Seq<Seq<char>> {
    let at = section_at(lines, section, 0);
    if at < lines.len() {
        let end = section_end(lines, at + 1);
        let k = key_at(lines, key, at + 1, end);
        if k < end {
            lines.update(k, entry(key, value))
        } else {
            lines.insert(end, entry(key, value))
        }
    } else if lines.len() > 0 && lines.last().len() > 0 {
        lines + seq![Seq::empty(), header(section), entry(key, value)]
    } else {
        lines + seq![header(section), entry(key, value)]
    }
}

/// How a line of a text ends.
#[derive(Debug, Clone, Copy, PartialEq, Eq, Structural)]
pub enum LineEnd {
    /// With a newline.
    Lf,
    /// With a carriage return and a newline.
    CrLf,
    /// With the text: only the last line can.
    Open,
}

/// The characters that end a line.
pub open spec fn end_chars(end: LineEnd) -> Seq<char> {
    match end {
        LineEnd::Lf => seq!['\n'],
        LineEnd::CrLf => seq!['\r', '\n'],
        LineEnd::Open => Seq::empty(),
    }
}

/// How the lines of a text end.
pub open spec fn line_ends(s: Seq<char>) -> Seq<LineEnd>
    decreases s.len(),
{
    if s.len() == 0 {
        Seq::empty()
    } else {
        let i = text::position(s, '\n');
        if 0 <= i < s.len() {
            seq![
                if i > 0 && s[i - 1] == '\r' {
                    LineEnd::CrLf
                } else {
                    LineEnd::Lf
                },
            ] + line_ends(s.skip(i + 1))
        } else {
            seq![LineEnd::Open]
        }
    }
}

/// The text of lines with these ends.
pub open spec fn glued(lines: Seq<Seq<char>>, ends: Seq<LineEnd>) -> Seq<char>
    decreases lines.len(),
{
    if lines.len() == 0 {
        Seq::empty()
    } else {
        lines[0] + end_chars(ends[0]) + glued(lines.drop_first(), ends.drop_first())
    }
}

/// How a line that is written ends: as the first line does, and with a newline
/// where there is none.
pub open spec fn usual_end(ends: Seq<LineEnd>) -> LineEnd {
    if ends.len() > 0 && ends[0] != LineEnd::Open {
        ends[0]
    } else {
        LineEnd::Lf
    }
}

/// The ends with that of line `i` made the usual one, where the text ended it.
pub open spec fn closed_at(ends: Seq<LineEnd>, i: int) -> Seq<LineEnd> {
    if 0 <= i < ends.len() && ends[i] == LineEnd::Open {
        ends.update(i, usual_end(ends))
    } else {
        ends
    }
}

/// How the lines end after the key has been given its value: as before, and
/// the lines that are written, and one that another is written after, with an
/// end of their own.
pub open spec fn ends_with(
    lines: Seq<Seq<char>>,
    ends: Seq<LineEnd>,
    section: Seq<char>,
    key: Seq<char>,
) -> Seq<LineEnd> {
    let usual = usual_end(ends);
    let at = section_at(lines, section, 0);
    if at < lines.len() {
        let end = section_end(lines, at + 1);
        let k = key_at(lines, key, at + 1, end);
        if k < end {
            closed_at(ends, k)
        } else {
            closed_at(ends, end - 1).insert(end, usual)
        }
    } else if lines.len() > 0 && lines.last().len() > 0 {
        closed_at(ends, lines.len() - 1) + seq![usual, usual, usual]
    } else {
        closed_at(ends, lines.len() - 1) + seq![usual, usual]
    }
}

/// The text after the key has been given its value: every line but the one
/// that is set keeps its characters and its end.
pub open spec fn text_with(
    original: Seq<char>,
    section: Seq<char>,
    key: Seq<char>,
    value: Seq<char>,
) -> Seq<char> {
    let lines = text::lines(original);
    glued(
        lines_with(lines, section, key, value),
        ends_with(lines, line_ends(original), section, key),
    )
}

/// The value that the lines from `i` on give the key, where `inside` tells
/// whether line `i` stands in the section.
pub open spec fn value_from(
    lines: Seq<Seq<char>>,
    section: Seq<char>,
    key: Seq<char>,
    i: int,
    inside: bool,
) -> Option<Seq<char>>
    decreases lines.len() - i,
{
    if i >= lines.len() {
        None
    } else {
        let t = text::trimmed(lines[i]);
        let eq = text::position(t, '=');
        if opens_section(lines[i]) {
            value_from(lines, section, key, i + 1, is_header(lines[i], section))
        } else if inside && eq < t.len() && is_key_line(t, key) {
            Some(text::trimmed(t.skip(eq + 1)))
        } else {
            value_from(lines, section, key, i + 1, inside)
        }
    }
}

/// The value of the key in the text.
pub open spec fn value_in(contents: Seq<char>, section: Seq<char>, key: Seq<char>) -> Option<
    Seq<char>,
> {
    value_from(text::lines(contents), section, key, 0, false)
}

fn make_header(section: &str) -> (r: String)
    ensures
        r@ == header(section@),
{
    proof {
        reveal_strlit("[");
        reveal_strlit("]");
    }
    let r = text::concat3("[", section, "]");
    assert(r@ =~= header(section@));
    r
}

fn make_entry(key: &str, value: &str) -> (r: String)
    ensures
        r@ == entry(key@, value@),
{
    proof {
        reveal_strlit("=");
    }
    let r = text::concat3(key, "=", value);
    assert(r@ =~= entry(key@, value@));
    r
}

/// What a line holds before its first equals sign, without outer white space.
fn key_of(line: &str) -> (r: String)
    ensures
        r@ == text::trimmed(key_part(line@)),
{
    let chars = text::chars_of(line);
    let i: usize = text::find_char(&chars, '=');
    assert(chars@.subrange(0, i as int) =~= key_part(line@));
    text::trim(text::slice_text(&chars, 0, i).as_str())
}

proof fn lemma_trimmed_first(s: Seq<char>)
    ensures
        (text::trimmed(s).len() > 0) == (text::trimmed_start(s).len() > 0),
        text::trimmed(s).len() > 0 ==> text::trimmed(s)[0] == text::trimmed_start(s)[0],
{
    let t = text::trimmed_start(s);
    text::lemma_trimmed_start_is(s);
    text::lemma_trimmed_end_is(t);
    if t.len() > 0 && text::trimmed_end(t).len() == 0 {
        assert(text::is_space(t[0]));
    }
}

fn line_opens_section(line: &str) -> (r: bool)
    ensures
        r == opens_section(line@),
{
    let t = text::chars_of(text::trim_start(line).as_str());
    proof {
        lemma_trimmed_first(line@);
    }
    t.len() > 0 && t[0] == '['
}

/// The characters that end a line.
fn end_text(end: LineEnd) -> (r: &'static str)
    ensures
        r@ == end_chars(end),
{
    proof {
        reveal_strlit("\n");
        reveal_strlit("\r\n");
        reveal_strlit("");
        assert("\n"@ =~= seq!['\n']);
        assert("\r\n"@ =~= seq!['\r', '\n']);
        assert(""@ =~= Seq::<char>::empty());
    }
    match end {
        LineEnd::Lf => "\n",
        LineEnd::CrLf => "\r\n",
        LineEnd::Open => "",
    }
}

/// There are as many ends as lines.
proof fn lemma_ends_len(s: Seq<char>)
    ensures
        line_ends(s).len() == text::lines(s).len(),
    decreases s.len(),
{
    if s.len() > 0 {
        let i = text::position(s, '\n');
        if 0 <= i < s.len() {
            lemma_ends_len(s.skip(i + 1));
        }
    }
}

/// How the lines of a text end.
fn find_ends(s: &str) -> (r: Vec<LineEnd>)
    ensures
        r@ == line_ends(s@),
        r@.len() == text::lines(s@).len(),
{
    proof {
        lemma_ends_len(s@);
    }
    let x = text::chars_of(s);
    let mut out: Vec<LineEnd> = Vec::new();
    let mut from: usize = 0;
    assert(x@.skip(0) =~= x@);
    assert(out@ + line_ends(x@.skip(0)) =~= line_ends(x@));
    while from < x.len()
        invariant
            from <= x@.len(),
            out@ + line_ends(x@.skip(from as int)) == line_ends(x@),
        decreases x.len() - from,
    {
        let i: usize = text::find_from(&x, '\n', from);
        let ghost t = x@.skip(from as int);
        let ghost before = out@;
        if i == x.len() {
            out.push(LineEnd::Open);
            assert(line_ends(t) == seq![LineEnd::Open]);
            assert(x@.skip(i as int) =~= Seq::<char>::empty());
            assert(out@ + line_ends(x@.skip(i as int)) =~= before + seq![LineEnd::Open]);
            from = i;
        } else {
            let end = if i > from && x[i - 1] == '\r' {
                LineEnd::CrLf
            } else {
                LineEnd::Lf
            };
            out.push(end);
            if i > from {
                assert(t[i - from - 1] == x@[i - 1]);
            }
            assert(t.skip(i - from + 1) =~= x@.skip(i + 1));
            assert(line_ends(t) == seq![end] + line_ends(x@.skip(i + 1)));
            assert(out@ + line_ends(x@.skip(i + 1)) =~= before + line_ends(t));
            from = i + 1;
        }
    }
    assert(x@.skip(from as int) =~= Seq::<char>::empty());
    assert(out@ + line_ends(x@.skip(from as int)) =~= out@);
    out
}

/// The text of lines with these ends.
fn glue(lines: &Vec<String>, ends: &Vec<LineEnd>) -> (r: String)
    requires
        ends@.len() == lines@.len(),
    ensures
        r@ == glued(lines.deep_view(), ends@),
{
    let ghost lv = lines.deep_view();
    let mut out = String::new();
    let mut i: usize = 0;
    proof {
        assert(lv.skip(0) =~= lv);
        assert(ends@.skip(0) =~= ends@);
        assert(out@ + glued(lv, ends@) =~= glued(lv, ends@));
    }
    while i < lines.len()
        invariant
            i <= lines@.len(),
            ends@.len() == lines@.len(),
            lv == lines.deep_view(),
            out@ + glued(lv.skip(i as int), ends@.skip(i as int)) == glued(lv, ends@),
        decreases lines.len() - i,
    {
        let ghost before = out@;
        out.append(lines[i].as_str());
        out.append(end_text(ends[i]));
        proof {
            let l = lv.skip(i as int);
            let e = ends@.skip(i as int);
            assert(l[0] == lines@[i as int]@);
            assert(l.drop_first() =~= lv.skip(i + 1));
            assert(e.drop_first() =~= ends@.skip(i + 1));
            assert(out@ + glued(lv.skip(i + 1), ends@.skip(i + 1)) =~= before + glued(l, e));
        }
        i += 1;
    }
    assert(glued(lv.skip(i as int), ends@.skip(i as int)) =~= Seq::<char>::empty());
    assert(out@ =~= glued(lv, ends@));
    out
}

/// Gives line `i` the usual end, where the text ended it.
fn close_at(ends: &mut Vec<LineEnd>, i: usize, usual: LineEnd)
    requires
        i < old(ends)@.len(),
        usual == usual_end(old(ends)@),
    ensures
        final(ends)@ == closed_at(old(ends)@, i as int),
{
    if ends[i] == LineEnd::Open {
        ends.set(i, usual);
    }
}

/// The text with `key=value` under `[section]`. The section and the key are
/// added where they are missing; every other line stays as it is, with its
/// end.
pub fn set_ini_value(original: &str, section: &str, key: &str, value: &str) -> (r: String)
    ensures
        r@ == text_with(original@, section@, key@, value@),
{
    let mut lines = text::split_lines(original);
    let mut ends = find_ends(original);
    let ghost before = lines.deep_view();
    let ghost old_ends = ends@;
    let usual = if ends.len() > 0 && ends[0] != LineEnd::Open {
        ends[0]
    } else {
        LineEnd::Lf
    };
    let head = make_header(section);
    let line = make_entry(key, value);
    let mut at: usize = 0;
    while at < lines.len() && !text::same_ignoring_case(
        text::trim(lines[at].as_str()).as_str(),
        head.as_str(),
    )
        invariant
            at <= lines@.len(),
            lines.deep_view() == before,
            head@ == header(section@),
            section_at(before, section@, 0) == section_at(before, section@, at as int),
        decreases lines.len() - at,
    {
        at += 1;
    }
    if at < lines.len() {
        let mut end: usize = at + 1;
        while end < lines.len() && !line_opens_section(lines[end].as_str())
            invariant
                at < end <= lines@.len(),
                lines.deep_view() == before,
                section_end(before, at + 1) == section_end(before, end as int),
            decreases lines.len() - end,
        {
            end += 1;
        }
        let mut k: usize = at + 1;
        while k < end && !text::same_ignoring_case(key_of(lines[k].as_str()).as_str(), key)
            invariant
                at < k <= end <= lines@.len(),
                lines.deep_view() == before,
                key_at(before, key@, at + 1, end as int) == key_at(before, key@, k as int, end as int),
            decreases end - k,
        {
            k += 1;
        }
        if k < end {
            lines.set(k, line);
            assert(lines.deep_view() =~= before.update(k as int, entry(key@, value@)));
            close_at(&mut ends, k, usual);
        } else {
            lines.insert(end, line);
            assert(lines.deep_view() =~= before.insert(end as int, entry(key@, value@)));
            close_at(&mut ends, end - 1, usual);
            ends.insert(end, usual);
        }
    } else {
        if lines.len() > 0 {
            let last: usize = lines.len() - 1;
            close_at(&mut ends, last, usual);
            if !lines[last].as_str().is_empty() {
                lines.push(String::new());
                ends.push(usual);
            }
        }
        lines.push(head);
        lines.push(line);
        ends.push(usual);
        ends.push(usual);
        assert(lines.deep_view() =~= lines_with(before, section@, key@, value@));
        assert(ends@ =~= ends_with(before, old_ends, section@, key@));
    }
    glue(&lines, &ends)
}

/// The value of `key` under `[section]`, if the text has one.
pub fn get_ini_value(contents: &str, section: &str, key: &str) -> (r: Option<String>)
    ensures
        match r {
            Some(v) => value_in(contents@, section@, key@) == Some(v@),
            None => value_in(contents@, section@, key@) == None::<Seq<char>>,
        },
{
    let lines = text::split_lines(contents);
    let ghost all = lines.deep_view();
    let head = make_header(section);
    let mut inside = false;
    let mut i: usize = 0;
    while i < lines.len()
        invariant
            i <= lines@.len(),
            all == lines.deep_view(),
            all == text::lines(contents@),
            head@ == header(section@),
            value_in(contents@, section@, key@) == value_from(
                all,
                section@,
                key@,
                i as int,
                inside,
            ),
        decreases lines.len() - i,
    {
        let t = text::trim(lines[i].as_str());
        if line_opens_section(lines[i].as_str()) {
            inside = text::same_ignoring_case(t.as_str(), head.as_str());
        } else if inside {
            if let Some(parts) = text::split_once(t.as_str(), '=') {
                if text::same_ignoring_case(text::trim(parts.0.as_str()).as_str(), key) {
                    return Some(text::trim(parts.1.as_str()));
                }
            }
        }
        i += 1;
    }
    None
}

// ---------------------------------------------------------------------------
// What a read gives back of a write
// ---------------------------------------------------------------------------

/// Whether the section, the key and the value can be written as one line each
/// and the key be told from its surroundings: none holds a newline, and the
/// key has no outer white space, holds no equals sign and does not begin with
/// a bracket.
pub open spec fn writable(section: Seq<char>, key: Seq<char>, value: Seq<char>) -> bool {
    &&& text::lacks(section, '\n')
    &&& text::lacks(key, '\n')
    &&& text::lacks(value, '\n')
    &&& text::lacks(key, '=')
    &&& text::trimmed(key) == key
    &&& (key.len() > 0 ==> key[0] != '[')
}

/// Reading depends on a line only through what trimming leaves of it.
proof fn lemma_value_from_trimmed(
    a: Seq<Seq<char>>,
    b: Seq<Seq<char>>,
    section: Seq<char>,
    key: Seq<char>,
    i: int,
    inside: bool,
)
    requires
        a.len() == b.len(),
        0 <= i,
        forall|k: int| 0 <= k < a.len() ==> text::trimmed(#[trigger] a[k]) == text::trimmed(b[k]),
    ensures
        value_from(a, section, key, i, inside) == value_from(b, section, key, i, inside),
    decreases a.len() - i,
{
    if i < a.len() {
        assert(text::trimmed(a[i]) == text::trimmed(b[i]));
        lemma_value_from_trimmed(a, b, section, key, i + 1, inside);
        lemma_value_from_trimmed(a, b, section, key, i + 1, is_header(a[i], section));
    }
}

proof fn lemma_fold_bracket(c: char)
    requires
        text::ascii_lower(c) == '[',
    ensures
        c == '[',
{
}

/// A line that opens this section opens a section.
proof fn lemma_header_opens(line: Seq<char>, section: Seq<char>)
    requires
        is_header(line, section),
    ensures
        opens_section(line),
{
    let t = text::trimmed(line);
    let h = header(section);
    assert(text::ascii_fold(t).len() == text::ascii_fold(h).len());
    assert(text::ascii_fold(t)[0] == text::ascii_fold(h)[0]);
    assert(h[0] == '[');
    lemma_fold_bracket(t[0]);
}

proof fn lemma_header_is_header(section: Seq<char>)
    ensures
        text::trimmed(header(section)) == header(section),
        is_header(header(section), section),
{
    let h = header(section);
    text::lemma_trimmed_eq(h, 0, h.len() as int);
    assert(h.subrange(0, h.len() as int) =~= h);
}

/// Trimming a line does not change which key it is about, nor what it gives
/// it.
proof fn lemma_key_line_trimmed(line: Seq<char>, key: Seq<char>)
    requires
        text::position(line, '=') < line.len(),
    ensures
        ({
            let t = text::trimmed(line);
            &&& text::position(t, '=') < t.len()
            &&& is_key_line(t, key) == is_key_line(line, key)
            &&& text::trimmed(t.skip(text::position(t, '=') + 1)) == text::trimmed(
                line.skip(text::position(line, '=') + 1),
            )
        }),
{
    let t = text::trimmed(line);
    let p = text::position(line, '=');
    text::lemma_position_is(line, '=');
    let (a, b) = text::lemma_trimmed_is(line);
    assert(a <= p < b) by {
        if p < a || b <= p {
            assert(text::is_space(line[p]));
        }
    }
    assert(t[p - a] == line[p]);
    assert forall|j: int| 0 <= j < p - a implies #[trigger] t[j] != '=' by {
        assert(t[j] == line[a + j]);
    }
    text::lemma_position(t, '=', p - a);
    let k = line.take(p);
    assert forall|j: int| 0 <= j < a implies text::is_space(#[trigger] k[j]) by {
        assert(k[j] == line[j]);
    }
    text::lemma_trimmed_inner(k, a, p);
    assert(k.subrange(a, p) =~= t.take(p - a));
    let v = line.skip(p + 1);
    assert forall|j: int| b - p - 1 <= j < v.len() implies text::is_space(#[trigger] v[j]) by {
        assert(v[j] == line[p + 1 + j]);
    }
    text::lemma_trimmed_inner(v, 0, b - p - 1);
    assert(v.subrange(0, b - p - 1) =~= t.skip(p - a + 1));
}

/// A line without an equals sign has none after trimming.
proof fn lemma_no_equals_trimmed(line: Seq<char>)
    requires
        text::position(line, '=') == line.len(),
    ensures
        text::position(text::trimmed(line), '=') == text::trimmed(line).len(),
{
    let t = text::trimmed(line);
    text::lemma_position_is(line, '=');
    let (a, b) = text::lemma_trimmed_is(line);
    assert forall|j: int| 0 <= j < t.len() implies #[trigger] t[j] != '=' by {
        assert(t[j] == line[a + j]);
    }
    text::lemma_position(t, '=', t.len() as int);
}

/// A line is read as an assignment to a key if it is about the key and has an
/// equals sign.
pub open spec fn assigns(line: Seq<char>, key: Seq<char>) -> bool {
    text::position(line, '=') < line.len() && is_key_line(line, key)
}

/// One step of reading.
proof fn lemma_value_step(
    lines: Seq<Seq<char>>,
    section: Seq<char>,
    key: Seq<char>,
    i: int,
    inside: bool,
)
    requires
        0 <= i < lines.len(),
    ensures
        value_from(lines, section, key, i, inside) == (if opens_section(lines[i]) {
            value_from(lines, section, key, i + 1, is_header(lines[i], section))
        } else if inside && assigns(lines[i], key) {
            Some(text::trimmed(lines[i].skip(text::position(lines[i], '=') + 1)))
        } else {
            value_from(lines, section, key, i + 1, inside)
        }),
{
    text::lemma_position_is(lines[i], '=');
    if text::position(lines[i], '=') < lines[i].len() {
        lemma_key_line_trimmed(lines[i], key);
    } else {
        lemma_no_equals_trimmed(lines[i]);
    }
}

/// The line that a write adds opens no section and assigns to the key what was
/// written.
proof fn lemma_entry(section: Seq<char>, key: Seq<char>, value: Seq<char>)
    requires
        writable(section, key, value),
    ensures
        !opens_section(entry(key, value)),
        text::position(entry(key, value), '=') == key.len(),
        key_part(entry(key, value)) == key,
        entry(key, value).skip(key.len() as int + 1) == value,
        text::lacks(entry(key, value), '\n'),
{
    let e = entry(key, value);
    assert forall|j: int| 0 <= j < key.len() implies #[trigger] e[j] != '=' by {
        assert(e[j] == key[j]);
    }
    assert(e[key.len() as int] == '=');
    text::lemma_position(e, '=', key.len() as int);
    assert(e.take(key.len() as int) =~= key);
    assert(e.skip(key.len() as int + 1) =~= value);
    let t = text::trimmed(e);
    let (a, b) = text::lemma_trimmed_is(e);
    if t.len() > 0 {
        let (x, y) = text::lemma_trimmed_is(key);
        assert(t[0] == e[a]);
        if key.len() == 0 {
            assert(e[0] == '=');
            assert(!text::is_space(e[0]));
            if a > 0 {
                assert(text::is_space(e[0]));
            }
        } else {
            assert(x == 0 && y == key.len()) by {
                assert(key.subrange(x, y).len() == key.len());
            }
            assert(e[0] == key[0]);
            if a > 0 {
                assert(text::is_space(e[0]));
            }
        }
    }
    assert forall|j: int| 0 <= j < e.len() implies #[trigger] e[j] != '\n' by {
        if j < key.len() {
            assert(e[j] == key[j]);
        } else if j > key.len() {
            assert(e[j] == value[j - key.len() - 1]);
        }
    }
}

proof fn lemma_section_at(lines: Seq<Seq<char>>, section: Seq<char>, i: int)
    requires
        0 <= i <= lines.len(),
    ensures
        i <= section_at(lines, section, i) <= lines.len(),
        section_at(lines, section, i) < lines.len() ==> is_header(
            lines[section_at(lines, section, i)],
            section,
        ),
        forall|j: int|
            i <= j < section_at(lines, section, i) ==> !is_header(#[trigger] lines[j], section),
    decreases lines.len() - i,
{
    if i < lines.len() && !is_header(lines[i], section) {
        lemma_section_at(lines, section, i + 1);
    }
}

proof fn lemma_section_end(lines: Seq<Seq<char>>, i: int)
    requires
        0 <= i <= lines.len(),
    ensures
        i <= section_end(lines, i) <= lines.len(),
        section_end(lines, i) < lines.len() ==> opens_section(lines[section_end(lines, i)]),
        forall|j: int| i <= j < section_end(lines, i) ==> !opens_section(#[trigger] lines[j]),
    decreases lines.len() - i,
{
    if i < lines.len() && !opens_section(lines[i]) {
        lemma_section_end(lines, i + 1);
    }
}

proof fn lemma_key_at(lines: Seq<Seq<char>>, key: Seq<char>, i: int, end: int)
    requires
        0 <= i <= end <= lines.len(),
    ensures
        i <= key_at(lines, key, i, end) <= end,
        key_at(lines, key, i, end) < end ==> is_key_line(lines[key_at(lines, key, i, end)], key),
        forall|j: int| i <= j < key_at(lines, key, i, end) ==> !is_key_line(#[trigger] lines[j], key),
    decreases end - i,
{
    if i < end && !is_key_line(lines[i], key) {
        lemma_key_at(lines, key, i + 1, end);
    }
}

/// Reading passes over lines before `to` that neither open this section nor,
/// in it, assign to the key.
proof fn lemma_value_skip(
    lines: Seq<Seq<char>>,
    section: Seq<char>,
    key: Seq<char>,
    i: int,
    to: int,
    inside: bool,
)
    requires
        0 <= i <= to <= lines.len(),
        !inside ==> forall|j: int| i <= j < to ==> !is_header(#[trigger] lines[j], section),
        inside ==> forall|j: int|
            i <= j < to ==> !opens_section(#[trigger] lines[j]) && !assigns(lines[j], key),
    ensures
        value_from(lines, section, key, i, inside) == value_from(lines, section, key, to, inside),
    decreases to - i,
{
    if i < to {
        lemma_value_step(lines, section, key, i, inside);
        lemma_value_skip(lines, section, key, i + 1, to, inside);
    }
}

/// The lines that a write leaves hold no newline.
proof fn lemma_written_lines_lack_newline(
    lines: Seq<Seq<char>>,
    section: Seq<char>,
    key: Seq<char>,
    value: Seq<char>,
)
    requires
        writable(section, key, value),
        forall|k: int| 0 <= k < lines.len() ==> text::lacks(#[trigger] lines[k], '\n'),
    ensures
        lines_with(lines, section, key, value).len() > 0,
        forall|k: int|
            0 <= k < lines_with(lines, section, key, value).len() ==> text::lacks(
                #[trigger] lines_with(lines, section, key, value)[k],
                '\n',
            ),
{
    let out = lines_with(lines, section, key, value);
    let h = header(section);
    lemma_entry(section, key, value);
    lemma_section_at(lines, section, 0);
    assert(text::lacks(h, '\n')) by {
        assert forall|j: int| 0 <= j < h.len() implies #[trigger] h[j] != '\n' by {
            if 0 < j < h.len() - 1 {
                assert(h[j] == section[j - 1]);
            }
        }
    }
    let at = section_at(lines, section, 0);
    if at < lines.len() {
        lemma_section_end(lines, at + 1);
        let end = section_end(lines, at + 1);
        lemma_key_at(lines, key, at + 1, end);
        assert forall|k: int| 0 <= k < out.len() implies text::lacks(#[trigger] out[k], '\n') by {
            if key_at(lines, key, at + 1, end) < end {
                if k != key_at(lines, key, at + 1, end) {
                    assert(out[k] == lines[k]);
                }
            } else if k < end {
                assert(out[k] == lines[k]);
            } else if k > end {
                assert(out[k] == lines[k - 1]);
            }
        }
    } else {
        assert forall|k: int| 0 <= k < out.len() implies text::lacks(#[trigger] out[k], '\n') by {
            if k < lines.len() {
                assert(out[k] == lines[k]);
            }
        }
    }
}

/// Whether lines with these ends can be told apart in their text: none holds a
/// newline, and only the last may end with the text, where it is not empty.
pub open spec fn can_be_told(lines: Seq<Seq<char>>, ends: Seq<LineEnd>) -> bool {
    &&& ends.len() == lines.len()
    &&& forall|k: int| 0 <= k < lines.len() ==> text::lacks(#[trigger] lines[k], '\n')
    &&& forall|k: int|
        0 <= k < ends.len() && #[trigger] ends[k] == LineEnd::Open ==> k == ends.len() - 1
            && lines[k].len() > 0
}

proof fn lemma_ends_first(line: Seq<char>, rest: Seq<char>)
    requires
        text::lacks(line, '\n'),
    ensures
        line_ends(line + seq!['\n'] + rest) == seq![
            if line.len() > 0 && line.last() == '\r' {
                LineEnd::CrLf
            } else {
                LineEnd::Lf
            },
        ] + line_ends(rest),
{
    let s = line + seq!['\n'] + rest;
    assert forall|j: int| 0 <= j < line.len() implies #[trigger] s[j] != '\n' by {
        assert(s[j] == line[j]);
    }
    assert(s[line.len() as int] == '\n');
    text::lemma_position(s, '\n', line.len() as int);
    assert(s.skip(line.len() as int + 1) =~= rest);
    if line.len() > 0 {
        assert(s[line.len() - 1] == line.last());
    }
}

/// The lines of a text and their ends can be told apart, and they are the text.
proof fn lemma_glued_back(s: Seq<char>)
    ensures
        can_be_told(text::lines(s), line_ends(s)),
        glued(text::lines(s), line_ends(s)) == s,
    decreases s.len(),
{
    lemma_ends_len(s);
    text::lemma_lines_lack_newline(s);
    let l = text::lines(s);
    let e = line_ends(s);
    if s.len() > 0 {
        text::lemma_position_is(s, '\n');
        let i = text::position(s, '\n');
        if i < s.len() {
            let rest = s.skip(i + 1);
            lemma_glued_back(rest);
            assert(l.drop_first() =~= text::lines(rest));
            assert(e.drop_first() =~= line_ends(rest));
            assert(l[0] == text::without_cr(s.take(i)));
            assert(l[0] + end_chars(e[0]) =~= s.take(i + 1)) by {
                if i > 0 {
                    assert(s.take(i).last() == s[i - 1]);
                }
            }
            assert(glued(l, e) =~= s.take(i + 1) + rest);
            assert(s.take(i + 1) + rest =~= s);
            assert forall|k: int|
                0 <= k < e.len() && #[trigger] e[k] == LineEnd::Open implies k == e.len() - 1
                && l[k].len() > 0 by {
                if k > 0 {
                    assert(e[k] == line_ends(rest)[k - 1]);
                    assert(l[k] == text::lines(rest)[k - 1]);
                }
            }
        } else {
            assert(l == seq![s]);
            assert(e == seq![LineEnd::Open]);
            assert(l.drop_first() =~= Seq::<Seq<char>>::empty());
            assert(glued(l.drop_first(), e.drop_first()) =~= Seq::<char>::empty());
            assert(glued(l, e) =~= s);
        }
    } else {
        assert(glued(l, e) =~= s);
    }
}

/// Reading the text of lines gives the lines back, but for a carriage return
/// that then counts as part of a line's end.
proof fn lemma_lines_of_glued(lines: Seq<Seq<char>>, ends: Seq<LineEnd>)
    requires
        can_be_told(lines, ends),
    ensures
        text::lines(glued(lines, ends)).len() == lines.len(),
        line_ends(glued(lines, ends)).len() == lines.len(),
        forall|k: int|
            0 <= k < lines.len() ==> #[trigger] text::lines(glued(lines, ends))[k] == lines[k]
                || text::lines(glued(lines, ends))[k] == text::without_cr(lines[k]),
        forall|k: int|
            0 <= k < lines.len() ==> (#[trigger] line_ends(glued(lines, ends))[k] == LineEnd::Open)
                == (ends[k] == LineEnd::Open),
    decreases lines.len(),
{
    let g = glued(lines, ends);
    if lines.len() > 0 {
        let l = lines.drop_first();
        let e = ends.drop_first();
        let rest = glued(l, e);
        assert forall|k: int| 0 <= k < l.len() implies text::lacks(#[trigger] l[k], '\n') by {
            assert(l[k] == lines[k + 1]);
        }
        assert forall|k: int| 0 <= k < e.len() && #[trigger] e[k] == LineEnd::Open implies k
            == e.len() - 1 && l[k].len() > 0 by {
            assert(e[k] == ends[k + 1]);
        }
        lemma_lines_of_glued(l, e);
        let first = lines[0];
        assert(text::lacks(first, '\n'));
        match ends[0] {
            LineEnd::Lf => {
                text::lemma_lines_first(first, rest);
                lemma_ends_first(first, rest);
            },
            LineEnd::CrLf => {
                let with_cr = first.push('\r');
                assert forall|j: int| 0 <= j < with_cr.len() implies #[trigger] with_cr[j]
                    != '\n' by {
                    if j < first.len() {
                        assert(with_cr[j] == first[j]);
                    }
                }
                assert(g =~= with_cr + seq!['\n'] + rest);
                text::lemma_lines_first(with_cr, rest);
                lemma_ends_first(with_cr, rest);
                assert(with_cr.drop_last() =~= first);
            },
            LineEnd::Open => {
                assert(ends[0] == LineEnd::Open);
                assert(lines.len() == 1);
                assert(rest =~= Seq::<char>::empty());
                assert(g =~= first);
                text::lemma_position_is(first, '\n');
                if text::position(first, '\n') < first.len() {
                    assert(first[text::position(first, '\n')] == '\n');
                }
            },
        }
        assert forall|k: int| 0 <= k < lines.len() implies #[trigger] text::lines(g)[k] == lines[k]
            || text::lines(g)[k] == text::without_cr(lines[k]) by {
            if k > 0 {
                assert(text::lines(g)[k] == text::lines(rest)[k - 1]);
                assert(l[k - 1] == lines[k]);
            }
        }
        assert forall|k: int| 0 <= k < lines.len() implies (#[trigger] line_ends(g)[k]
            == LineEnd::Open) == (ends[k] == LineEnd::Open) by {
            if k > 0 {
                assert(line_ends(g)[k] == line_ends(rest)[k - 1]);
                assert(e[k - 1] == ends[k]);
            }
        }
    } else {
        assert(g =~= Seq::<char>::empty());
    }
}

/// The lines that a write leaves can be told apart.
proof fn lemma_written_can_be_told(
    original: Seq<char>,
    section: Seq<char>,
    key: Seq<char>,
    value: Seq<char>,
)
    requires
        writable(section, key, value),
    ensures
        can_be_told(
            lines_with(text::lines(original), section, key, value),
            ends_with(text::lines(original), line_ends(original), section, key),
        ),
{
    let lines = text::lines(original);
    let ends = line_ends(original);
    lemma_glued_back(original);
    lemma_written_lines_lack_newline(lines, section, key, value);
    let out = lines_with(lines, section, key, value);
    let oe = ends_with(lines, ends, section, key);
    lemma_section_at(lines, section, 0);
    let at = section_at(lines, section, 0);
    if at < lines.len() {
        lemma_section_end(lines, at + 1);
        let end = section_end(lines, at + 1);
        lemma_key_at(lines, key, at + 1, end);
        let k = key_at(lines, key, at + 1, end);
        if k < end {
            assert forall|j: int| 0 <= j < oe.len() && #[trigger] oe[j] == LineEnd::Open implies j
                == oe.len() - 1 && out[j].len() > 0 by {
                assert(ends[j] == LineEnd::Open);
            }
        } else {
            let base = closed_at(ends, end - 1);
            assert forall|j: int| 0 <= j < oe.len() && #[trigger] oe[j] == LineEnd::Open implies j
                == oe.len() - 1 && out[j].len() > 0 by {
                if j < end {
                    assert(oe[j] == base[j]);
                    assert(ends[j] == LineEnd::Open);
                } else if j > end {
                    assert(oe[j] == base[j - 1]);
                    assert(ends[j - 1] == LineEnd::Open);
                    assert(out[j] == lines[j - 1]);
                }
            }
        }
    } else {
        let base = closed_at(ends, lines.len() - 1);
        assert forall|j: int| 0 <= j < oe.len() && #[trigger] oe[j] == LineEnd::Open implies j
            == oe.len() - 1 && out[j].len() > 0 by {
            if j < lines.len() {
                assert(oe[j] == base[j]);
                assert(ends[j] == LineEnd::Open);
            }
        }
    }
}

/// Reading the written text is reading the written lines.
proof fn lemma_read_written(
    original: Seq<char>,
    section: Seq<char>,
    key: Seq<char>,
    value: Seq<char>,
    s: Seq<char>,
    k: Seq<char>,
)
    requires
        writable(section, key, value),
    ensures
        value_in(text_with(original, section, key, value), s, k) == value_from(
            lines_with(text::lines(original), section, key, value),
            s,
            k,
            0,
            false,
        ),
{
    let lines = text::lines(original);
    let out = lines_with(lines, section, key, value);
    let oe = ends_with(lines, line_ends(original), section, key);
    lemma_written_can_be_told(original, section, key, value);
    lemma_lines_of_glued(out, oe);
    let back = text::lines(text_with(original, section, key, value));
    assert forall|i: int| 0 <= i < back.len() implies text::trimmed(#[trigger] back[i])
        == text::trimmed(out[i]) by {
        text::lemma_trimmed_without_cr(out[i]);
    }
    lemma_value_from_trimmed(back, out, s, k, 0, false);
}

/// What was written under a section and a key is read back under them, without
/// outer white space and whatever the case of the letters in which they are
/// asked for.
pub proof fn lemma_get_after_set(
    original: Seq<char>,
    section: Seq<char>,
    key: Seq<char>,
    value: Seq<char>,
    s: Seq<char>,
    k: Seq<char>,
)
    requires
        writable(section, key, value),
        text::ascii_fold(s) == text::ascii_fold(section),
        text::ascii_fold(k) == text::ascii_fold(key),
    ensures
        value_in(text_with(original, section, key, value), s, k) == Some(text::trimmed(value)),
{
    let lines = text::lines(original);
    let out = lines_with(lines, section, key, value);
    let e = entry(key, value);
    lemma_read_written(original, section, key, value, s, k);
    lemma_same_names(section, key, s, k);
    lemma_entry(section, key, value);
    lemma_section_at(lines, section, 0);
    let at = section_at(lines, section, 0);
    if at < lines.len() {
        lemma_section_end(lines, at + 1);
        let end = section_end(lines, at + 1);
        lemma_key_at(lines, key, at + 1, end);
        let m = key_at(lines, key, at + 1, end);
        assert forall|j: int| 0 <= j < m implies #[trigger] out[j] == lines[j] by {}
        assert(out[m] == e);
        lemma_header_opens(lines[at], section);
        assert forall|j: int| 0 <= j < at implies !is_header(#[trigger] out[j], s) by {
            assert(out[j] == lines[j]);
        }
        lemma_value_skip(out, s, k, 0, at, false);
        assert(out[at] == lines[at]);
        lemma_value_step(out, s, k, at, false);
        assert forall|j: int| at + 1 <= j < m implies !opens_section(#[trigger] out[j]) && !assigns(
            out[j],
            k,
        ) by {
            assert(out[j] == lines[j]);
        }
        lemma_value_skip(out, s, k, at + 1, m, true);
        lemma_value_step(out, s, k, m, true);
    } else {
        let n = out.len() - 2;
        assert(out[n] == header(section));
        assert(out[n + 1] == e);
        lemma_header_is_header(section);
        lemma_header_opens(header(section), section);
        assert forall|j: int| 0 <= j < n implies !is_header(#[trigger] out[j], s) by {
            if j < lines.len() {
                assert(out[j] == lines[j]);
            } else {
                assert(out[j] == Seq::<char>::empty());
                if is_header(out[j], s) {
                    lemma_header_opens(out[j], s);
                    let (a, b) = text::lemma_trimmed_is(out[j]);
                }
            }
        }
        lemma_value_skip(out, s, k, 0, n, false);
        lemma_value_step(out, s, k, n, false);
        lemma_value_step(out, s, k, n + 1, true);
    }
    text::lemma_trimmed_twice(key);
}

/// Names that differ only in the case of letters match the same lines.
proof fn lemma_same_names(section: Seq<char>, key: Seq<char>, s: Seq<char>, k: Seq<char>)
    requires
        text::ascii_fold(s) == text::ascii_fold(section),
        text::ascii_fold(k) == text::ascii_fold(key),
    ensures
        forall|l: Seq<char>| #[trigger] is_header(l, s) == is_header(l, section),
        forall|l: Seq<char>| #[trigger] is_key_line(l, k) == is_key_line(l, key),
        forall|l: Seq<char>| #[trigger] assigns(l, k) == assigns(l, key),
{
    lemma_fold_header(s, section);
}

proof fn lemma_fold_header(s: Seq<char>, t: Seq<char>)
    ensures
        text::ascii_fold(header(s)) == text::ascii_fold(header(t)) <==> text::ascii_fold(s)
            == text::ascii_fold(t),
{
    let a = text::ascii_fold(header(s));
    let b = text::ascii_fold(header(t));
    let x = text::ascii_fold(s);
    let y = text::ascii_fold(t);
    if x == y {
        assert(s.len() == t.len()) by {
            assert(x.len() == y.len());
        }
        assert forall|j: int| 0 <= j < a.len() implies a[j] == b[j] by {
            if 0 < j < a.len() - 1 {
                assert(a[j] == x[j - 1]);
                assert(b[j] == y[j - 1]);
            }
        }
        assert(a =~= b);
    }
    if a == b {
        assert(a.len() == b.len());
        assert forall|j: int| 0 <= j < x.len() implies x[j] == y[j] by {
            assert(a[j + 1] == x[j]);
            assert(b[j + 1] == y[j]);
        }
        assert(x =~= y);
    }
}

/// Two lists that read the same from `to` on, wherever the read stands, and
/// have the same lines from `i` to there, read the same from `i` on.
proof fn lemma_same_before(
    a: Seq<Seq<char>>,
    b: Seq<Seq<char>>,
    s: Seq<char>,
    k: Seq<char>,
    i: int,
    to: int,
    inside: bool,
)
    requires
        0 <= i <= to <= a.len(),
        to <= b.len(),
        forall|j: int| i <= j < to ==> #[trigger] a[j] == b[j],
        value_from(a, s, k, to, true) == value_from(b, s, k, to, true),
        value_from(a, s, k, to, false) == value_from(b, s, k, to, false),
    ensures
        value_from(a, s, k, i, inside) == value_from(b, s, k, i, inside),
    decreases to - i,
{
    if i < to {
        assert(a[i] == b[i]);
        lemma_same_before(a, b, s, k, i + 1, to, inside);
        lemma_same_before(a, b, s, k, i + 1, to, is_header(a[i], s));
    }
}

/// The same within a section, where the read stands inside or outside all
/// along.
proof fn lemma_same_before_within(
    a: Seq<Seq<char>>,
    b: Seq<Seq<char>>,
    s: Seq<char>,
    k: Seq<char>,
    i: int,
    to: int,
    inside: bool,
)
    requires
        0 <= i <= to <= a.len(),
        to <= b.len(),
        forall|j: int| i <= j < to ==> #[trigger] a[j] == b[j] && !opens_section(a[j]),
        value_from(a, s, k, to, inside) == value_from(b, s, k, to, inside),
    ensures
        value_from(a, s, k, i, inside) == value_from(b, s, k, i, inside),
    decreases to - i,
{
    if i < to {
        assert(a[i] == b[i]);
        lemma_same_before_within(a, b, s, k, i + 1, to, inside);
    }
}

/// Lists with the same lines from `i` and from `j` on read the same from
/// there.
proof fn lemma_same_after(
    a: Seq<Seq<char>>,
    b: Seq<Seq<char>>,
    s: Seq<char>,
    k: Seq<char>,
    i: int,
    j: int,
    inside: bool,
)
    requires
        0 <= i <= a.len(),
        0 <= j <= b.len(),
        a.len() - i == b.len() - j,
        forall|m: int| i <= m < a.len() ==> #[trigger] a[m] == b[m - i + j],
    ensures
        value_from(a, s, k, i, inside) == value_from(b, s, k, j, inside),
    decreases a.len() - i,
{
    if i < a.len() {
        assert(a[i] == b[j]);
        lemma_same_after(a, b, s, k, i + 1, j + 1, inside);
        lemma_same_after(a, b, s, k, i + 1, j + 1, is_header(a[i], s));
    }
}

/// A write leaves every other key as it was: under other sections, and other
/// keys under its own.
pub proof fn lemma_set_leaves_others(
    original: Seq<char>,
    section: Seq<char>,
    key: Seq<char>,
    value: Seq<char>,
    s: Seq<char>,
    k: Seq<char>,
)
    requires
        writable(section, key, value),
        text::ascii_fold(s) != text::ascii_fold(section) || text::ascii_fold(k)
            != text::ascii_fold(key),
    ensures
        value_in(text_with(original, section, key, value), s, k) == value_in(original, s, k),
{
    let lines = text::lines(original);
    let out = lines_with(lines, section, key, value);
    let e = entry(key, value);
    lemma_read_written(original, section, key, value, s, k);
    lemma_entry(section, key, value);
    lemma_section_at(lines, section, 0);
    lemma_fold_header(s, section);
    let at = section_at(lines, section, 0);
    if at < lines.len() {
        lemma_section_end(lines, at + 1);
        let end = section_end(lines, at + 1);
        lemma_key_at(lines, key, at + 1, end);
        let m = key_at(lines, key, at + 1, end);
        lemma_header_opens(lines[at], section);
        let now = is_header(lines[at], s);
        assert forall|j: int| 0 <= j < m implies #[trigger] lines[j] == out[j] by {}
        assert(out[m] == e);
        assert(now ==> !assigns(e, k));
        lemma_value_step(out, s, k, m, now);
        if m < end {
            assert(now ==> !assigns(lines[m], k));
            lemma_value_step(lines, s, k, m, now);
            assert forall|j: int| m + 1 <= j < lines.len() implies #[trigger] lines[j] == out[j] by {}
            lemma_same_after(lines, out, s, k, m + 1, m + 1, now);
        } else {
            assert forall|j: int| end <= j < lines.len() implies #[trigger] lines[j] == out[j + 1] by {}
            lemma_same_after(lines, out, s, k, end, end + 1, now);
        }
        lemma_same_before_within(lines, out, s, k, at + 1, m, now);
        assert(lines[at] == out[at]);
        lemma_value_step(lines, s, k, at, true);
        lemma_value_step(lines, s, k, at, false);
        lemma_value_step(out, s, k, at, true);
        lemma_value_step(out, s, k, at, false);
        lemma_same_before(lines, out, s, k, 0, at, false);
    } else {
        let n = out.len() - 2;
        let h = header(section);
        assert(out[n] == h && out[n + 1] == e);
        lemma_header_is_header(section);
        lemma_header_opens(h, section);
        assert(is_header(h, s) ==> !assigns(e, k));
        assert forall|inside: bool| value_from(out, s, k, lines.len() as int, inside)
            == None::<Seq<char>> by {
            lemma_value_step(out, s, k, n, inside);
            lemma_value_step(out, s, k, n + 1, is_header(h, s));
            assert(value_from(out, s, k, n + 2, is_header(h, s)) == None::<Seq<char>>);
            if n > lines.len() {
                let blank = out[lines.len() as int];
                assert(blank == Seq::<char>::empty());
                let (a, b) = text::lemma_trimmed_is(blank);
                lemma_value_step(out, s, k, lines.len() as int, inside);
            }
        }
        assert forall|j: int| 0 <= j < lines.len() implies #[trigger] lines[j] == out[j] by {}
        assert(value_from(out, s, k, lines.len() as int, true) == None::<Seq<char>>);
        assert(value_from(out, s, k, lines.len() as int, false) == None::<Seq<char>>);
        lemma_same_before(lines, out, s, k, 0, lines.len() as int, false);
    }
}

proof fn lemma_glued_add(
    a: Seq<Seq<char>>,
    x: Seq<LineEnd>,
    b: Seq<Seq<char>>,
    y: Seq<LineEnd>,
)
    requires
        a.len() == x.len(),
    ensures
        glued(a + b, x + y) == glued(a, x) + glued(b, y),
    decreases a.len(),
{
    if a.len() == 0 {
        assert(a + b =~= b);
        assert(x + y =~= y);
        assert(glued(a, x) + glued(b, y) =~= glued(b, y));
    } else {
        lemma_glued_add(a.drop_first(), x.drop_first(), b, y);
        assert((a + b).drop_first() =~= a.drop_first() + b);
        assert((x + y).drop_first() =~= x.drop_first() + y);
        assert(glued(a + b, x + y) =~= glued(a, x) + glued(b, y));
    }
}

proof fn lemma_glued_one(line: Seq<char>, end: LineEnd)
    ensures
        glued(seq![line], seq![end]) == line + end_chars(end),
{
    let l = seq![line];
    let e = seq![end];
    assert(l.drop_first() =~= Seq::<Seq<char>>::empty());
    assert(glued(l.drop_first(), e.drop_first()) =~= Seq::<char>::empty());
    assert(glued(l, e) =~= line + end_chars(end));
}

/// What an end of its own adds behind a last line.
pub open spec fn closing(ends: Seq<LineEnd>, i: int) -> Seq<char> {
    if 0 <= i < ends.len() && ends[i] == LineEnd::Open {
        end_chars(usual_end(ends))
    } else {
        Seq::empty()
    }
}

proof fn lemma_glued_closed(lines: Seq<Seq<char>>, ends: Seq<LineEnd>)
    requires
        lines.len() == ends.len(),
    ensures
        glued(lines, closed_at(ends, lines.len() - 1)) == glued(lines, ends) + closing(
            ends,
            lines.len() - 1,
        ),
{
    let n = lines.len() - 1;
    if lines.len() == 0 {
        assert(glued(lines, ends) + closing(ends, n) =~= glued(lines, ends));
    } else {
        let a = lines.take(n);
        let x = ends.take(n);
        let c = closed_at(ends, n);
        assert(lines =~= a + seq![lines[n]]);
        assert(ends =~= x + seq![ends[n]]);
        assert(c =~= x + seq![c[n]]);
        lemma_glued_add(a, x, seq![lines[n]], seq![ends[n]]);
        lemma_glued_add(a, x, seq![lines[n]], seq![c[n]]);
        lemma_glued_one(lines[n], ends[n]);
        lemma_glued_one(lines[n], c[n]);
        assert(glued(lines, c) =~= glued(lines, ends) + closing(ends, n));
    }
}

proof fn lemma_replaced_text(
    lines: Seq<Seq<char>>,
    ends: Seq<LineEnd>,
    k: int,
    e: Seq<char>,
) -> (r: (Seq<char>, Seq<char>))
    requires
        can_be_told(lines, ends),
        0 <= k < lines.len(),
    ensures
        glued(lines, ends) == r.0 + lines[k] + r.1,
        glued(lines.update(k, e), closed_at(ends, k)) == r.0 + (e + closing(ends, k)) + r.1,
{
    let oe = closed_at(ends, k);
    let a = lines.take(k);
    let x = ends.take(k);
    let b = lines.skip(k + 1);
    let y = ends.skip(k + 1);
    assert(lines =~= a + (seq![lines[k]] + b));
    assert(ends =~= x + (seq![ends[k]] + y));
    assert(lines.update(k, e) =~= a + (seq![e] + b));
    assert(oe =~= x + (seq![oe[k]] + y));
    lemma_glued_add(a, x, seq![lines[k]] + b, seq![ends[k]] + y);
    lemma_glued_add(seq![lines[k]], seq![ends[k]], b, y);
    lemma_glued_one(lines[k], ends[k]);
    lemma_glued_add(a, x, seq![e] + b, seq![oe[k]] + y);
    lemma_glued_add(seq![e], seq![oe[k]], b, y);
    lemma_glued_one(e, oe[k]);
    let before = glued(a, x);
    let behind = end_chars(ends[k]) + glued(b, y);
    assert(glued(lines, ends) =~= before + lines[k] + behind);
    if ends[k] == LineEnd::Open {
        assert(k == ends.len() - 1);
        assert(b.len() == 0);
        assert(glued(b, y) =~= Seq::<char>::empty());
    }
    assert(glued(lines.update(k, e), oe) =~= before + (e + closing(ends, k)) + behind);
    (before, behind)
}

proof fn lemma_inserted_text(
    lines: Seq<Seq<char>>,
    ends: Seq<LineEnd>,
    end: int,
    e: Seq<char>,
) -> (r: (Seq<char>, Seq<char>))
    requires
        can_be_told(lines, ends),
        0 < end <= lines.len(),
    ensures
        glued(lines, ends) == r.0 + r.1,
        glued(lines.insert(end, e), closed_at(ends, end - 1).insert(end, usual_end(ends))) == r.0
            + (closing(ends, end - 1) + e + end_chars(usual_end(ends))) + r.1,
{
    let usual = usual_end(ends);
    let a = lines.take(end);
    let x = ends.take(end);
    let b = lines.skip(end);
    let y = ends.skip(end);
    let c = closed_at(ends, end - 1);
    assert(usual_end(x) == usual) by {
        assert(x[0] == ends[0]);
    }
    assert(x[end - 1] == ends[end - 1]);
    let xc = closed_at(x, end - 1);
    assert(lines =~= a + b);
    assert(ends =~= x + y);
    assert(lines.insert(end, e) =~= a + (seq![e] + b));
    assert(c =~= xc + y);
    assert(c.insert(end, usual) =~= xc + (seq![usual] + y));
    lemma_glued_add(a, x, b, y);
    lemma_glued_closed(a, x);
    lemma_glued_add(a, xc, seq![e] + b, seq![usual] + y);
    lemma_glued_add(seq![e], seq![usual], b, y);
    lemma_glued_one(e, usual);
    assert(closing(x, end - 1) == closing(ends, end - 1));
    assert(glued(lines.insert(end, e), c.insert(end, usual)) =~= glued(a, x) + (closing(
        ends,
        end - 1,
    ) + e + end_chars(usual)) + glued(b, y));
    (glued(a, x), glued(b, y))
}

/// A write changes the text in one place only: what stands before it and what
/// stands behind it is kept to the character, line ends and all, and what is
/// replaced there is nothing or the one line of the key. The place is returned
/// as the text before it, what stood there, what stands there now and the text
/// behind it.
pub proof fn lemma_set_leaves_the_rest(
    original: Seq<char>,
    section: Seq<char>,
    key: Seq<char>,
    value: Seq<char>,
) -> (r: (Seq<char>, Seq<char>, Seq<char>, Seq<char>))
    ensures
        original == r.0 + r.1 + r.3,
        text_with(original, section, key, value) == r.0 + r.2 + r.3,
        text::lacks(r.1, '\n'),
        r.1.len() > 0 ==> is_key_line(r.1, key),
{
    let lines = text::lines(original);
    let ends = line_ends(original);
    let usual = usual_end(ends);
    let n = lines.len() as int;
    let e = entry(key, value);
    let none = Seq::<char>::empty();
    lemma_glued_back(original);
    lemma_section_at(lines, section, 0);
    let at = section_at(lines, section, 0);
    if at < n {
        lemma_section_end(lines, at + 1);
        let end = section_end(lines, at + 1);
        lemma_key_at(lines, key, at + 1, end);
        let k = key_at(lines, key, at + 1, end);
        if k < end {
            let (before, behind) = lemma_replaced_text(lines, ends, k, e);
            assert(text::lacks(lines[k], '\n'));
            (before, lines[k], e + closing(ends, k), behind)
        } else {
            let (before, behind) = lemma_inserted_text(lines, ends, end, e);
            assert(original =~= before + none + behind);
            (before, none, closing(ends, end - 1) + e + end_chars(usual), behind)
        }
    } else {
        let out = lines_with(lines, section, key, value);
        let oe = ends_with(lines, ends, section, key);
        let c = closed_at(ends, n - 1);
        let more = out.skip(n);
        let more_ends = oe.skip(n);
        assert(out =~= lines + more);
        assert(oe =~= c + more_ends);
        lemma_glued_closed(lines, ends);
        lemma_glued_add(lines, c, more, more_ends);
        let new = closing(ends, n - 1) + glued(more, more_ends);
        assert(original =~= original + none + none);
        assert(glued(out, oe) =~= original + new + none);
        (original, none, new, none)
    }
}

/// Where the carriage return at a line's end counts does not change which key
/// the line is about.
proof fn lemma_key_line_without_cr(line: Seq<char>, key: Seq<char>)
    ensures
        is_key_line(text::without_cr(line), key) == is_key_line(line, key),
{
    let t = text::without_cr(line);
    text::lemma_position_is(line, '=');
    let p = text::position(line, '=');
    if line.len() > 0 && line.last() == '\r' {
        if p < line.len() {
            assert(p < t.len()) by {
                assert(line[p] == '=');
            }
            assert forall|j: int| 0 <= j < p implies #[trigger] t[j] != '=' by {
                assert(t[j] == line[j]);
            }
            assert(t[p] == line[p]);
            text::lemma_position(t, '=', p);
            assert(t.take(p) =~= line.take(p));
        } else {
            assert forall|j: int| 0 <= j < t.len() implies #[trigger] t[j] != '=' by {
                assert(t[j] == line[j]);
            }
            text::lemma_position(t, '=', t.len() as int);
            assert(t.take(t.len() as int) =~= t);
            assert(line.take(p) =~= line);
            text::lemma_trimmed_without_cr(line);
        }
    }
}

/// Lines that differ only in a carriage return at their ends have the same
/// sections and keys at the same places.
proof fn lemma_same_places(
    a: Seq<Seq<char>>,
    b: Seq<Seq<char>>,
    section: Seq<char>,
    key: Seq<char>,
    i: int,
    end: int,
)
    requires
        a.len() == b.len(),
        0 <= i,
        end <= a.len(),
        forall|j: int|
            0 <= j < a.len() ==> #[trigger] b[j] == a[j] || b[j] == text::without_cr(a[j]),
    ensures
        section_at(a, section, i) == section_at(b, section, i),
        section_end(a, i) == section_end(b, i),
        key_at(a, key, i, end) == key_at(b, key, i, end),
    decreases a.len() - i,
{
    if i < a.len() {
        assert(b[i] == a[i] || b[i] == text::without_cr(a[i]));
        text::lemma_trimmed_without_cr(a[i]);
        lemma_key_line_without_cr(a[i], key);
        lemma_same_places(a, b, section, key, i + 1, end);
    }
}

proof fn lemma_section_at_is(lines: Seq<Seq<char>>, section: Seq<char>, i: int, at: int)
    requires
        0 <= i <= at < lines.len(),
        is_header(lines[at], section),
        forall|j: int| i <= j < at ==> !is_header(#[trigger] lines[j], section),
    ensures
        section_at(lines, section, i) == at,
    decreases at - i,
{
    if i < at {
        lemma_section_at_is(lines, section, i + 1, at);
    }
}

proof fn lemma_section_end_is(lines: Seq<Seq<char>>, i: int, end: int)
    requires
        0 <= i <= end <= lines.len(),
        end < lines.len() ==> opens_section(lines[end]),
        forall|j: int| i <= j < end ==> !opens_section(#[trigger] lines[j]),
    ensures
        section_end(lines, i) == end,
    decreases end - i,
{
    if i < end {
        lemma_section_end_is(lines, i + 1, end);
    }
}

proof fn lemma_key_at_is(lines: Seq<Seq<char>>, key: Seq<char>, i: int, k: int, end: int)
    requires
        0 <= i <= k < end <= lines.len(),
        is_key_line(lines[k], key),
        forall|j: int| i <= j < k ==> !is_key_line(#[trigger] lines[j], key),
    ensures
        key_at(lines, key, i, end) == k,
    decreases k - i,
{
    if i < k {
        lemma_key_at_is(lines, key, i + 1, k, end);
    }
}

/// Where the key is found in the written lines: at the line that was written.
proof fn lemma_written_place(
    lines: Seq<Seq<char>>,
    ends: Seq<LineEnd>,
    section: Seq<char>,
    key: Seq<char>,
    value: Seq<char>,
) -> (r: (int, int, int))
    requires
        writable(section, key, value),
        ends.len() == lines.len(),
    ensures
        ({
            let out = lines_with(lines, section, key, value);
            let (at, k, end) = r;
            &&& 0 <= at < k < end <= out.len()
            &&& section_at(out, section, 0) == at
            &&& section_end(out, at + 1) == end
            &&& key_at(out, key, at + 1, end) == k
            &&& out[k] == entry(key, value)
            &&& ends_with(lines, ends, section, key).len() == out.len()
            &&& ends_with(lines, ends, section, key)[k] != LineEnd::Open
        }),
{
    let out = lines_with(lines, section, key, value);
    let e = entry(key, value);
    lemma_entry(section, key, value);
    lemma_section_at(lines, section, 0);
    let at = section_at(lines, section, 0);
    if at < lines.len() {
        lemma_section_end(lines, at + 1);
        let end = section_end(lines, at + 1);
        lemma_key_at(lines, key, at + 1, end);
        let k = key_at(lines, key, at + 1, end);
        assert forall|j: int| 0 <= j < k implies #[trigger] out[j] == lines[j] by {}
        assert(out[k] == e);
        assert(out[at] == lines[at]);
        assert forall|j: int| 0 <= j < at implies !is_header(#[trigger] out[j], section) by {
            assert(out[j] == lines[j]);
        }
        lemma_section_at_is(out, section, 0, at);
        let new_end = if k < end {
            end
        } else {
            end + 1
        };
        assert forall|j: int| at + 1 <= j < new_end implies !opens_section(#[trigger] out[j]) by {
            if j < k {
                assert(out[j] == lines[j]);
            } else if j > k {
                assert(out[j] == lines[j]);
            }
        }
        if new_end < out.len() {
            assert(out[new_end] == lines[end]);
        }
        lemma_section_end_is(out, at + 1, new_end);
        assert forall|j: int| at + 1 <= j < k implies !is_key_line(#[trigger] out[j], key) by {
            assert(out[j] == lines[j]);
        }
        lemma_key_at_is(out, key, at + 1, k, new_end);
        (at, k, new_end)
    } else {
        let n = out.len() - 2;
        assert(out[n] == header(section));
        assert(out[n + 1] == e);
        lemma_header_is_header(section);
        assert forall|j: int| 0 <= j < n implies !is_header(#[trigger] out[j], section) by {
            if j < lines.len() {
                assert(out[j] == lines[j]);
            } else {
                assert(out[j] == Seq::<char>::empty());
                if is_header(out[j], section) {
                    lemma_header_opens(out[j], section);
                    let (a, b) = text::lemma_trimmed_is(out[j]);
                }
            }
        }
        lemma_section_at_is(out, section, 0, n);
        lemma_section_end_is(out, n + 1, n + 2);
        lemma_key_at_is(out, key, n + 1, n + 1, n + 2);
        (n, n + 1, n + 2)
    }
}

/// The same write made again leaves the text as it is, whatever its line ends,
/// as long as the value does not end in a carriage return.
pub proof fn lemma_set_twice(
    original: Seq<char>,
    section: Seq<char>,
    key: Seq<char>,
    value: Seq<char>,
)
    requires
        writable(section, key, value),
        value.len() > 0 ==> value.last() != '\r',
    ensures
        text_with(text_with(original, section, key, value), section, key, value) == text_with(
            original,
            section,
            key,
            value,
        ),
{
    let lines = text::lines(original);
    let ends = line_ends(original);
    let e = entry(key, value);
    lemma_ends_len(original);
    let out = lines_with(lines, section, key, value);
    let oe = ends_with(lines, ends, section, key);
    let written = text_with(original, section, key, value);
    let (at, k, end) = lemma_written_place(lines, ends, section, key, value);
    lemma_written_can_be_told(original, section, key, value);
    lemma_lines_of_glued(out, oe);
    lemma_glued_back(written);
    let back = text::lines(written);
    let back_ends = line_ends(written);
    lemma_same_places(out, back, section, key, 0, end);
    lemma_same_places(out, back, section, key, at + 1, end);
    assert(e.last() != '\r') by {
        if value.len() > 0 {
            assert(e.last() == value.last());
        } else {
            assert(e.last() == '=');
        }
    }
    assert(back[k] == e);
    assert(back_ends[k] != LineEnd::Open);
    assert(lines_with(back, section, key, value) =~= back);
    assert(ends_with(back, back_ends, section, key) =~= back_ends);
}

/// A value is read from the first line behind the first header of its section
/// that gives the key one, up to the next header: what stands behind the line's
/// first equals sign, without outer white space. Sections and keys match
/// whatever the case of their letters and whatever white space is around them.
pub proof fn lemma_value_is_read_from_its_line(
    lines: Seq<Seq<char>>,
    section: Seq<char>,
    key: Seq<char>,
    h: int,
    k: int,
    a: Seq<char>,
    b: Seq<char>,
)
    requires
        0 <= h < k < lines.len(),
        text::ascii_fold(text::trimmed(lines[h])) == text::ascii_fold(seq!['['] + section + seq![']']),
        forall|j: int|
            0 <= j < h ==> text::ascii_fold(text::trimmed(#[trigger] lines[j])) != text::ascii_fold(
                seq!['['] + section + seq![']'],
            ),
        forall|j: int|
            h < j <= k ==> text::trimmed(#[trigger] lines[j]).len() == 0 || text::trimmed(
                lines[j],
            )[0] != '[',
        forall|j: int|
            h < j < k ==> text::lacks(#[trigger] lines[j], '=') || text::ascii_fold(
                text::trimmed(lines[j].take(text::position(lines[j], '='))),
            ) != text::ascii_fold(key),
        lines[k] == a + seq!['='] + b,
        text::lacks(a, '='),
        text::ascii_fold(text::trimmed(a)) == text::ascii_fold(key),
    ensures
        value_from(lines, section, key, 0, false) == Some(text::trimmed(b)),
{
    assert forall|j: int| 0 <= j < h implies !is_header(#[trigger] lines[j], section) by {}
    lemma_value_skip(lines, section, key, 0, h, false);
    lemma_header_opens(lines[h], section);
    lemma_value_step(lines, section, key, h, false);
    assert forall|j: int| h + 1 <= j < k implies !opens_section(#[trigger] lines[j]) && !assigns(
        lines[j],
        key,
    ) by {
        if text::lacks(lines[j], '=') {
            text::lemma_one_piece(lines[j], '=');
        }
    }
    lemma_value_skip(lines, section, key, h + 1, k, true);
    let line = lines[k];
    assert forall|j: int| 0 <= j < a.len() implies #[trigger] line[j] != '=' by {
        assert(line[j] == a[j]);
    }
    assert(line[a.len() as int] == '=');
    text::lemma_position(line, '=', a.len() as int);
    assert(line.take(a.len() as int) =~= a);
    assert(line.skip(a.len() as int + 1) =~= b);
    lemma_value_step(lines, section, key, k, true);
}

/// Where no line opens the section there is no value.
pub proof fn lemma_no_section_no_value(
    lines: Seq<Seq<char>>,
    section: Seq<char>,
    key: Seq<char>,
)
    requires
        forall|j: int|
            0 <= j < lines.len() ==> text::ascii_fold(text::trimmed(#[trigger] lines[j]))
                != text::ascii_fold(seq!['['] + section + seq![']']),
    ensures
        value_from(lines, section, key, 0, false) is None,
{
    assert forall|j: int| 0 <= j < lines.len() implies !is_header(#[trigger] lines[j], section) by {}
    lemma_value_skip(lines, section, key, 0, lines.len() as int, false);
}

/// Where no line of the text gives this key a value there is none.
pub proof fn lemma_no_key_no_value(
    lines: Seq<Seq<char>>,
    section: Seq<char>,
    key: Seq<char>,
    i: int,
    inside: bool,
)
    requires
        0 <= i,
        forall|j: int|
            0 <= j < lines.len() ==> text::lacks(#[trigger] lines[j], '=') || text::ascii_fold(
                text::trimmed(lines[j].take(text::position(lines[j], '='))),
            ) != text::ascii_fold(key),
    ensures
        value_from(lines, section, key, i, inside) is None,
    decreases lines.len() - i,
{
    if i < lines.len() {
        lemma_value_step(lines, section, key, i, inside);
        if text::lacks(lines[i], '=') {
            text::lemma_one_piece(lines[i], '=');
        }
        lemma_no_key_no_value(lines, section, key, i + 1, inside);
        lemma_no_key_no_value(lines, section, key, i + 1, is_header(lines[i], section));
    }
}

/// Where a value is written in a section that is there: in the place of the
/// key's first line in it, or else at the section's end, before the next header.
/// All other lines stay.
pub proof fn lemma_value_is_written_into_its_section(
    lines: Seq<Seq<char>>,
    section: Seq<char>,
    key: Seq<char>,
    value: Seq<char>,
    h: int,
    e: int,
    k: int,
)
    requires
        0 <= h < e <= lines.len(),
        text::ascii_fold(text::trimmed(lines[h])) == text::ascii_fold(seq!['['] + section + seq![']']),
        forall|j: int|
            0 <= j < h ==> text::ascii_fold(text::trimmed(#[trigger] lines[j])) != text::ascii_fold(
                seq!['['] + section + seq![']'],
            ),
        e < lines.len() ==> text::trimmed(lines[e]).len() > 0 && text::trimmed(lines[e])[0] == '[',
        forall|j: int|
            h < j < e ==> text::trimmed(#[trigger] lines[j]).len() == 0 || text::trimmed(
                lines[j],
            )[0] != '[',
        h < k <= e,
        forall|j: int|
            h < j < k ==> text::ascii_fold(
                text::trimmed((#[trigger] lines[j]).take(text::position(lines[j], '='))),
            ) != text::ascii_fold(key),
        k < e ==> text::ascii_fold(text::trimmed(lines[k].take(text::position(lines[k], '='))))
            == text::ascii_fold(key),
    ensures
        k < e ==> lines_with(lines, section, key, value) == lines.update(
            k,
            key + seq!['='] + value,
        ),
        k == e ==> lines_with(lines, section, key, value) == lines.insert(
            e,
            key + seq!['='] + value,
        ),
{
    lemma_section_at(lines, section, 0);
    let at = section_at(lines, section, 0);
    assert(is_header(lines[h], section));
    assert(at == h) by {
        if at < h {
            assert(!is_header(lines[at], section));
        }
    }
    assert forall|j: int| h + 1 <= j < e implies !opens_section(#[trigger] lines[j]) by {}
    lemma_section_end_is(lines, h + 1, e);
    lemma_key_at(lines, key, h + 1, e);
    let found = key_at(lines, key, h + 1, e);
    assert(found == k) by {
        if found < k {
            assert(is_key_line(lines[found], key));
        }
        if k < found {
            assert(!is_key_line(lines[k], key));
        }
    }
}

/// Where a value is written whose section is not there: behind all lines, under
/// a header of its own, with an empty line before it unless there is one or
/// there are no lines.
pub proof fn lemma_new_section_is_written_last(
    lines: Seq<Seq<char>>,
    section: Seq<char>,
    key: Seq<char>,
    value: Seq<char>,
)
    requires
        forall|j: int|
            0 <= j < lines.len() ==> text::ascii_fold(text::trimmed(#[trigger] lines[j]))
                != text::ascii_fold(seq!['['] + section + seq![']']),
    ensures
        lines.len() > 0 && lines.last().len() > 0 ==> lines_with(lines, section, key, value)
            == lines + seq![
            Seq::empty(),
            seq!['['] + section + seq![']'],
            key + seq!['='] + value,
        ],
        lines.len() == 0 || lines.last().len() == 0 ==> lines_with(lines, section, key, value)
            == lines + seq![seq!['['] + section + seq![']'], key + seq!['='] + value],
{
    lemma_section_at(lines, section, 0);
    let at = section_at(lines, section, 0);
    if at < lines.len() {
        assert(is_header(lines[at], section));
    }
}

/// A line that is written ends as the first line of the text does, and with a
/// plain newline where that has no end; every other line keeps its end, but one
/// that ended with the text, where the written line comes behind or in its
/// place.
pub proof fn lemma_ends_of_written_lines(
    lines: Seq<Seq<char>>,
    ends: Seq<LineEnd>,
    section: Seq<char>,
    key: Seq<char>,
    i: int,
)
    requires
        ends.len() == lines.len(),
        forall|j: int| 0 <= j < ends.len() - 1 ==> #[trigger] ends[j] != LineEnd::Open,
    ensures
        ({
            let after = ends_with(lines, ends, section, key);
            let usual = if ends.len() > 0 && ends[0] == LineEnd::CrLf {
                LineEnd::CrLf
            } else {
                LineEnd::Lf
            };
            &&& after.len() >= ends.len()
            &&& 0 <= i < after.len() && !(i < ends.len() && after[i] == ends[i]) ==> after[i]
                == usual || (0 < i && i <= ends.len() && after[i] == ends[i - 1])
        }),
{
    lemma_section_at(lines, section, 0);
    let at = section_at(lines, section, 0);
    if at < lines.len() {
        lemma_section_end(lines, at + 1);
        let end = section_end(lines, at + 1);
        lemma_key_at(lines, key, at + 1, end);
    }
}

/// The lines of a text and their ends are the whole text.
pub proof fn lemma_lines_and_ends_are_the_text(s: Seq<char>)
    ensures
        glued(text::lines(s), line_ends(s)) == s,
{
    lemma_glued_back(s);
}

} // verus!
