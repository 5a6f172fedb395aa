//! Records of text: one record a line, and in each line the two coordinates
//! of a point as its first two fields, set apart by blanks.
use vstd::prelude::*;

verus! {

/// A stretch of a line, from the character at `start` up to, not including,
/// the one at `end`.
#[derive(Clone, Copy, PartialEq, Eq, Structural, Debug)]
pub struct Span {
    pub start: usize,
    pub end: usize,
}

/// `c` is a blank: a character with the Unicode property `White_Space`.
pub open spec fn is_blank(c: char) -> bool {
    let u = c as u32;
    ||| 0x09 <= u <= 0x0D
    ||| u == 0x20
    ||| u == 0x85
    ||| u == 0xA0
    ||| u == 0x1680
    ||| 0x2000 <= u <= 0x200A
    ||| u == 0x2028
    ||| u == 0x2029
    ||| u == 0x202F
    ||| u == 0x205F
    ||| u == 0x3000
}

/// Every character of `line` from `from` up to `to` is a blank.
pub open spec fn blank(line: Seq<char>, from: int, to: int) -> bool {
    forall|i: int| from <= i < to ==> is_blank(#[trigger] line[i])
}

/// `s..e` is the first field of `line` at or after `from`: blanks lead up to
/// it, it holds no blank, and it ends at a blank or with the line.
pub open spec fn field_after(line: Seq<char>, from: int, s: int, e: int) -> bool {
    &&& 0 <= from <= s < e <= line.len()
    &&& blank(line, from, s)
    &&& forall|i: int| s <= i < e ==> !is_blank(#[trigger] line[i])
    &&& e < line.len() ==> is_blank(line[e])
}

/// A line has at most one first field after a given place.
pub proof fn lemma_field_after_unique(line: Seq<char>, from: int, s: int, e: int, t: int, f: int)
    requires
        field_after(line, from, s, e),
        field_after(line, from, t, f),
    ensures
        s == t,
        e == f,
{
    if s < t {
        assert(!is_blank(line[s]));
    } else if t < s {
        assert(!is_blank(line[t]));
    }
    if e < f {
        assert(!is_blank(line[e]));
    } else if f < e {
        assert(!is_blank(line[f]));
    }
}

/// Whether `c` is a blank.
pub fn blank_char(c: char) -> (r: bool)
    ensures
        r == is_blank(c),
{
    let u: u32 = c as u32;
    (0x09 <= u && u <= 0x0D) || u == 0x20 || u == 0x85 || u == 0xA0 || u == 0x1680 || (0x2000 <= u
        && u <= 0x200A) || u == 0x2028 || u == 0x2029 || u == 0x202F || u == 0x205F || u == 0x3000
}

/// The first field of `line` at or after `from`, or `None` where only blanks
/// are left.
pub fn next_field(line: &Vec<char>, from: usize) -> (r: Option<Span>)
    requires
        from <= line@.len(),
    ensures
        match r {
            Some(f) => field_after(line@, from as int, f.start as int, f.end as int),
            None => blank(line@, from as int, line@.len() as int),
        },
{
    let mut s: usize = from;
    while s < line.len() && blank_char(line[s])
        invariant
            from <= s <= line@.len(),
            blank(line@, from as int, s as int),
        decreases line@.len() - s,
    {
        s = s + 1;
    }
    if s == line.len() {
        return None;
    }
    let mut e: usize = s + 1;
    while e < line.len() && !blank_char(line[e])
        invariant
            s < e <= line@.len(),
            forall|i: int| s <= i < e ==> !is_blank(#[trigger] line@[i]),
        decreases line@.len() - e,
    {
        e = e + 1;
    }
    Some(Span { start: s, end: e })
}

/// `x` and `y` are the first two fields of `line`.
pub open spec fn two_fields(line: Seq<char>, x: Span, y: Span) -> bool {
    &&& field_after(line, 0, x.start as int, x.end as int)
    &&& field_after(line, x.end as int, y.start as int, y.end as int)
}

/// `line` holds fewer than two fields: none, or one with only blanks after it.
pub open spec fn short(line: Seq<char>) -> bool {
    ||| blank(line, 0, line.len() as int)
    ||| exists|s: int, e: int|
        #![trigger field_after(line, 0, s, e)]
        field_after(line, 0, s, e) && blank(line, e, line.len() as int)
}

/// A line that holds fewer than two fields has no first two fields.
pub proof fn lemma_short_has_no_two_fields(line: Seq<char>, x: Span, y: Span)
    requires
        short(line),
    ensures
        !two_fields(line, x, y),
{
    if two_fields(line, x, y) {
        assert(!is_blank(line[x.start as int]));
        assert(!is_blank(line[y.start as int]));
        if !blank(line, 0, line.len() as int) {
            let (s, e) = choose|s: int, e: int|
                #![trigger field_after(line, 0, s, e)]
                field_after(line, 0, s, e) && blank(line, e, line.len() as int);
            lemma_field_after_unique(line, 0, s, e, x.start as int, x.end as int);
        }
    }
}

/// The first two fields of `line`, or `None` where it holds fewer than two.
/// What follows the second field is not looked at.
pub fn fields(line: &Vec<char>) -> (r: Option<(Span, Span)>)
    ensures
        r is None <==> short(line@),
        r matches Some((x, y)) ==> two_fields(line@, x, y),
{
    match next_field(line, 0) {
        None => None,
        Some(x) => match next_field(line, x.end) {
            None => None,
            Some(y) => {
                proof {
                    if short(line@) {
                        lemma_short_has_no_two_fields(line@, x, y);
                    }
                }
                Some((x, y))
            },
        },
    }
}

/// A line of a text and its first two fields, which count from the start of
/// the line.
#[derive(Clone, Copy, PartialEq, Eq, Structural, Debug)]
pub struct Record {
    pub line: Span,
    pub x: Span,
    pub y: Span,
}

/// `l` is a line of `text`: it starts with the text or after a line feed,
/// ends before a line feed or with the text, and holds no line feed. After
/// the last line feed of a text no empty line follows.
pub open spec fn is_line(text: Seq<char>, l: Span) -> bool {
    &&& l.start <= l.end <= text.len()
    &&& l.start < text.len()
    &&& l.start > 0 ==> text[l.start - 1] == '\n'
    &&& l.end < text.len() ==> text[l.end as int] == '\n'
    &&& forall|i: int| l.start <= i < l.end ==> #[trigger] text[i] != '\n'
}

/// The characters of the line `l` of `text`.
pub open spec fn line_of(text: Seq<char>, l: Span) -> Seq<char> {
    text.subrange(l.start as int, l.end as int)
}

/// `lines` are the first lines of `text`, in their order, none left out.
pub open spec fn leading_lines(text: Seq<char>, lines: Seq<Span>) -> bool {
    &&& forall|k: int| 0 <= k < lines.len() ==> is_line(text, #[trigger] lines[k])
    &&& lines.len() > 0 ==> lines[0].start == 0
    &&& forall|j: int, k: int|
        0 <= j < lines.len() && k == j + 1 && k < lines.len() ==> (#[trigger] lines[k]).start == (
        #[trigger] lines[j]).end + 1
}

/// `lines` are all the lines of `text`.
pub open spec fn all_lines(text: Seq<char>, lines: Seq<Span>) -> bool {
    &&& leading_lines(text, lines)
    &&& if lines.len() == 0 {
        text.len() == 0
    } else {
        lines.last().end + 1 >= text.len()
    }
}

/// The lines of which `records` tell.
pub open spec fn lines_of(records: Seq<Record>) -> Seq<Span> {
    Seq::new(records.len(), |k: int| records[k].line)
}

/// `records` hold every line of `text`, in order, each with its first two
/// fields.
pub open spec fn recorded(text: Seq<char>, records: Seq<Record>) -> bool {
    &&& all_lines(text, lines_of(records))
    &&& forall|k: int|
        0 <= k < records.len() ==> two_fields(
            line_of(text, (#[trigger] records[k]).line),
            records[k].x,
            records[k].y,
        )
}

/// Line `n` of `text`, counted from zero, is its first line that holds fewer
/// than two fields.
pub open spec fn first_short_line(text: Seq<char>, n: int) -> bool {
    exists|lines: Seq<Span>|
        {
            &&& #[trigger] leading_lines(text, lines)
            &&& 0 <= n
            &&& lines.len() == n + 1
            &&& forall|k: int| 0 <= k < n ==> !short(line_of(text, #[trigger] lines[k]))
            &&& short(line_of(text, lines[n]))
        }
}

/// A text has its lines in one way only: two lists of its first lines agree
/// as far as both go.
pub proof fn lemma_lines_unique(text: Seq<char>, a: Seq<Span>, b: Seq<Span>, k: int)
    requires
        leading_lines(text, a),
        leading_lines(text, b),
        0 <= k < a.len(),
        k < b.len(),
    ensures
        a[k] == b[k],
    decreases k,
{
    if k > 0 {
        lemma_lines_unique(text, a, b, k - 1);
        assert(a[k].start == a[k - 1].end + 1);
        assert(b[k].start == b[k - 1].end + 1);
    }
    assert(is_line(text, a[k]) && is_line(text, b[k]));
    if a[k].end < b[k].end {
        assert(text[a[k].end as int] != '\n');
    } else if b[k].end < a[k].end {
        assert(text[b[k].end as int] != '\n');
    }
}

/// A text whose every line has a record has no line with fewer than two
/// fields.
pub proof fn lemma_recorded_has_no_short_line(text: Seq<char>, records: Seq<Record>, n: int)
    requires
        recorded(text, records),
    ensures
        !first_short_line(text, n),
{
    if first_short_line(text, n) {
        let lines = choose|lines: Seq<Span>|
            {
                &&& #[trigger] leading_lines(text, lines)
                &&& 0 <= n
                &&& lines.len() == n + 1
                &&& forall|k: int| 0 <= k < n ==> !short(line_of(text, #[trigger] lines[k]))
                &&& short(line_of(text, lines[n]))
            };
        let held = lines_of(records);
        if n < records.len() {
            lemma_lines_unique(text, lines, held, n);
            assert(records[n].line == lines[n]);
            lemma_short_has_no_two_fields(line_of(text, lines[n]), records[n].x, records[n].y);
        } else if records.len() == 0 {
            assert(is_line(text, lines[0]));
        } else {
            let m = records.len() - 1;
            lemma_lines_unique(text, lines, held, m);
            assert(lines[m + 1].start == lines[m].end + 1);
            assert(is_line(text, lines[m + 1]));
        }
    }
}

/// The records of `text`, one for each of its lines, or the number of the
/// first line, counted from zero, that holds fewer than two fields.
pub fn records(text: &Vec<char>) -> (r: Result<Vec<Record>, usize>)
    ensures
        match r {
            Ok(v) => recorded(text@, v@),
            Err(n) => first_short_line(text@, n as int),
        },
{
    let mut out: Vec<Record> = Vec::new();
    let mut pos: usize = 0;
    while pos < text.len()
        invariant
            pos <= text@.len(),
            out@.len() <= pos,
            leading_lines(text@, lines_of(out@)),
            forall|k: int|
                0 <= k < out@.len() ==> two_fields(
                    line_of(text@, (#[trigger] out@[k]).line),
                    out@[k].x,
                    out@[k].y,
                ),
            forall|k: int|
                0 <= k < out@.len() ==> !short(line_of(text@, (#[trigger] lines_of(out@)[k]))),
            out@.len() == 0 ==> pos == 0,
            pos < text@.len() && pos > 0 ==> text@[pos - 1] == '\n',
            out@.len() > 0 && pos < text@.len() ==> pos == out@.last().line.end + 1,
            out@.len() > 0 && pos >= text@.len() ==> out@.last().line.end + 1 >= text@.len(),
        decreases text@.len() - pos,
    {
        let start: usize = pos;
        let mut end: usize = pos;
        let mut line: Vec<char> = Vec::new();
        while end < text.len() && text[end] != '\n'
            invariant
                start <= end <= text@.len(),
                line@ == text@.subrange(start as int, end as int),
                forall|i: int| start <= i < end ==> #[trigger] text@[i] != '\n',
            decreases text@.len() - end,
        {
            line.push(text[end]);
            assert(text@.subrange(start as int, end as int + 1) =~= text@.subrange(
                start as int,
                end as int,
            ).push(text@[end as int]));
            end = end + 1;
        }
        let here = Span { start, end };
        assert(is_line(text@, here));
        let ghost before = lines_of(out@);
        match fields(&line) {
            None => {
                proof {
                    let lines = before.push(here);
                    assert(leading_lines(text@, lines));
                    assert(lines.len() == out@.len() + 1);
                    assert(forall|k: int|
                        0 <= k < out@.len() ==> !short(line_of(text@, #[trigger] lines[k]))) by {
                        assert(forall|k: int| 0 <= k < out@.len() ==> lines[k] == before[k]);
                    }
                    assert(short(line_of(text@, lines[out@.len() as int])));
                }
                return Err(out.len());
            },
            Some((x, y)) => {
                out.push(Record { line: here, x, y });
                assert(lines_of(out@) =~= before.push(here));
            },
        }
        if end < text.len() {
            pos = end + 1;
        } else {
            pos = end;
        }
    }
    Ok(out)
}

} // verus!
