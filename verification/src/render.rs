use vstd::prelude::*;
use vstd::string::StringExecFns;
use yansi::Paint;
use crate::span::{models_of, spans_in_bounds, spans_sorted_disjoint, Deletion, SpanModel};
use crate::text::{chars_string, str_chars};

verus! {

/// Which side of a deletion a context part stands on, deciding how a long
/// part is truncated.
#[derive(Clone, Copy, Debug)]
pub enum Side {
    /// Context before the first deletion of a line: truncated at its left.
    Left,
    /// Context between two deletions: truncated at both ends when long.
    Center,
    /// Context after the last deletion of a line: truncated at its right.
    Right,
}

/// The first `n` characters of `s`, or all of them when `s` is shorter.
pub open spec fn first_chars(s: Seq<char>, n: int) -> Seq<char> {
    s.take(
        if n <= s.len() {
            n
        } else {
            s.len() as int
        },
    )
}

/// The last `n` characters of `s`, or all of them when `s` is shorter.
pub open spec fn last_chars(s: Seq<char>, n: int) -> Seq<char> {
    s.skip(
        if n <= s.len() {
            s.len() - n
        } else {
            0
        },
    )
}

/// How a context part is shown: a part of more than ten characters is
/// truncated to its nearest ten characters at the relevant edge with an
/// ellipsis marker, and a part between two deletions is shown whole up to
/// thirty characters, beyond that truncated from both ends.
pub open spec fn part_rendering(part: Seq<char>, side: Side) -> Seq<char> {
    if part.len() <= 10 {
        part
    } else {
        match side {
            Side::Left => seq!['.', '.', '.', ' '] + last_chars(part, 10),
            Side::Center => if part.len() <= 30 {
                part
            } else {
                first_chars(part, 10) + seq![' ', '.', '.', '.', ' '] + last_chars(part, 10)
            },
            Side::Right => first_chars(part, 10) + seq![' ', '.', '.', '.'],
        }
    }
}

/// The first `n` characters of `s`.
pub fn take_first_chars(s: &str, n: usize) -> (r: String)
    ensures
        r@ == first_chars(s@, n as int),
{
    let chars = str_chars(s);
    let m = if n <= chars.len() {
        n
    } else {
        chars.len()
    };
    let mut out: Vec<char> = Vec::new();
    let mut i: usize = 0;
    while i < m
        invariant
            0 <= i <= m <= chars@.len(),
            chars@ == s@,
            out@ == s@.take(i as int),
        decreases m - i,
    {
        out.push(chars[i]);
        proof {
            assert(out@ =~= s@.take(i + 1));
        }
        i = i + 1;
    }
    chars_string(&out)
}

/// The last `n` characters of `s`.
pub fn take_last_chars(s: &str, n: usize) -> (r: String)
    ensures
        r@ == last_chars(s@, n as int),
{
    let chars = str_chars(s);
    let start = if n <= chars.len() {
        chars.len() - n
    } else {
        0
    };
    let mut out: Vec<char> = Vec::new();
    let mut i: usize = start;
    while i < chars.len()
        invariant
            start <= i <= chars@.len(),
            chars@ == s@,
            out@ == s@.subrange(start as int, i as int),
        decreases chars@.len() - i,
    {
        out.push(chars[i]);
        proof {
            assert(out@ =~= s@.subrange(start as int, i + 1));
        }
        i = i + 1;
    }
    proof {
        assert(s@.subrange(start as int, s@.len() as int) =~= last_chars(s@, n as int));
    }
    chars_string(&out)
}

/// Append one context part to the line being composed, truncated as its
/// side calls for.
pub fn add_part(part: &str, string: &mut String, side: Side)
    ensures
        final(string)@ == old(string)@ + part_rendering(part@, side),
{
    let chars = str_chars(part);
    let count = chars.len();
    if count > 10 {
        match side {
            Side::Left => {
                let w = take_last_chars(part, 10);
                string.append("... ");
                string.append(w.as_str());
                proof {
                    reveal_strlit("... ");
                    assert("... "@ =~= seq!['.', '.', '.', ' ']);
                }
            },
            Side::Center => {
                if count <= 30 {
                    string.append(part);
                } else {
                    let w1 = take_first_chars(part, 10);
                    let w2 = take_last_chars(part, 10);
                    string.append(w1.as_str());
                    string.append(" ... ");
                    string.append(w2.as_str());
                    proof {
                        reveal_strlit(" ... ");
                        assert(" ... "@ =~= seq![' ', '.', '.', '.', ' ']);
                    }
                }
            },
            Side::Right => {
                let w = take_first_chars(part, 10);
                string.append(w.as_str());
                string.append(" ...");
                proof {
                    reveal_strlit(" ...");
                    assert(" ..."@ =~= seq![' ', '.', '.', '.']);
                }
            },
        }
    } else {
        string.append(part);
    }
}

/// One piece of a rendered preview line: a stretch of context shown around
/// the deletions, or the text of one deletion.
pub struct Segment {
    pub piece: String,
    pub deleted: bool,
}

impl View for Segment {
    type V = (Seq<char>, bool);

    open spec fn view(&self) -> (Seq<char>, bool) {
        (self.piece@, self.deleted)
    }
}

/// One line of the preview: the zero-based source line number and its
/// pieces in order.
pub struct PreviewLine {
    pub line: usize,
    pub segments: Vec<Segment>,
}

pub open spec fn segment_views(s: Seq<Segment>) -> Seq<(Seq<char>, bool)> {
    s.map_values(|g: Segment| g@)
}

pub open spec fn preview_views(r: Seq<PreviewLine>) -> Seq<(int, Seq<(Seq<char>, bool)>)> {
    r.map_values(|p: PreviewLine| (p.line as int, segment_views(p.segments@)))
}

/// The position of the newline before `p`, or -1 when `p` stands on the
/// first line.
pub open spec fn prev_newline(text: Seq<char>, p: int) -> int
    decreases p,
{
    if p <= 0 {
        -1
    } else if text[p - 1] == '\n' {
        p - 1
    } else {
        prev_newline(text, p - 1)
    }
}

/// The position of the first newline at or after `p`, or the text length
/// when none follows.
pub open spec fn next_newline(text: Seq<char>, p: int) -> int
    decreases text.len() - p,
{
    if p >= text.len() {
        text.len() as int
    } else if text[p] == '\n' {
        p
    } else {
        next_newline(text, p + 1)
    }
}

/// The middle pieces of a line: for each deletion after the first, the gap
/// before it and then its own text.
pub open spec fn segs_mid(text: Seq<char>, ds: Seq<SpanModel>, k: int) -> Seq<(Seq<char>, bool)>
    decreases k,
{
    if k <= 1 {
        Seq::empty()
    } else {
        segs_mid(text, ds, k - 1) + seq![
            (
                part_rendering(text.subrange(ds[k - 2].end + 1, ds[k - 1].start), Side::Center),
                false,
            ),
            (text.subrange(ds[k - 1].start, ds[k - 1].end + 1), true),
        ]
    }
}

/// The pieces of one rendered line, for the deletions `ds` that begin on
/// it: the context from the line start to the first deletion, the
/// deletions with the gaps between them, and the context up to the line
/// end, which excludes the line terminator and a carriage return directly
/// before it.
pub open spec fn line_segs(text: Seq<char>, ds: Seq<SpanModel>) -> Seq<(Seq<char>, bool)> {
    let ls = prev_newline(text, ds[0].start) + 1;
    let nn = next_newline(text, ds.last().end + 1);
    let ce = if nn < text.len() && nn > ls && text[nn - 1] == '\r' {
        nn - 1
    } else {
        nn
    };
    let rs = if ds.last().end + 1 <= ce {
        ds.last().end + 1
    } else {
        ce
    };
    seq![
        (part_rendering(text.subrange(ls, ds[0].start), Side::Left), false),
        (text.subrange(ds[0].start, ds[0].end + 1), true),
    ] + segs_mid(text, ds, ds.len() as int) + seq![
        (part_rendering(text.subrange(rs, ce), Side::Right), false),
    ]
}

/// The position after the run of spans that begin on the same line as span
/// `i`.
pub open spec fn group_end(s: Seq<SpanModel>, i: int) -> int
    decreases s.len() - i,
{
    if i + 1 < s.len() && s[i + 1].line == s[i].line {
        group_end(s, i + 1)
    } else {
        i + 1
    }
}

proof fn lemma_group_end_bounds(s: Seq<SpanModel>, i: int)
    requires
        0 <= i < s.len(),
    ensures
        i < group_end(s, i) <= s.len(),
        forall|j: int| i <= j < group_end(s, i) ==> (#[trigger] s[j]).line == s[i].line,
    decreases s.len() - i,
{
    if i + 1 < s.len() && s[i + 1].line == s[i].line {
        lemma_group_end_bounds(s, i + 1);
    }
}

/// The whole preview: one entry per source line holding at least one
/// deletion, in order, with the line's pieces.
pub open spec fn preview_model(text: Seq<char>, s: Seq<SpanModel>, i: int) -> Seq<
    (int, Seq<(Seq<char>, bool)>),
>
    decreases s.len() - i,
    via preview_model_decreases
{
    if i < 0 || i >= s.len() {
        Seq::empty()
    } else {
        let e = group_end(s, i);
        seq![(s[i].line, line_segs(text, s.subrange(i, e)))] + preview_model(text, s, e)
    }
}

#[via_fn]
proof fn preview_model_decreases(text: Seq<char>, s: Seq<SpanModel>, i: int) {
    if 0 <= i < s.len() {
        lemma_group_end_bounds(s, i);
    }
}

fn find_next_newline(chars: &Vec<char>, p: usize) -> (r: usize)
    requires
        p <= chars@.len(),
    ensures
        r == next_newline(chars@, p as int),
        p <= r <= chars@.len(),
{
    let n = chars.len();
    let mut q = p;
    while q < n && chars[q] != '\n'
        invariant
            p <= q <= n,
            n == chars@.len(),
            next_newline(chars@, p as int) == next_newline(chars@, q as int),
        decreases n - q,
    {
        q = q + 1;
    }
    proof {
        lemma_next_newline_bounds(chars@, p as int);
    }
    q
}

proof fn lemma_next_newline_bounds(text: Seq<char>, p: int)
    requires
        p <= text.len(),
    ensures
        p <= next_newline(text, p) <= text.len(),
    decreases text.len() - p,
{
    if p < text.len() && text[p] != '\n' {
        lemma_next_newline_bounds(text, p + 1);
    }
}

fn find_line_start(chars: &Vec<char>, p: usize) -> (r: usize)
    requires
        p <= chars@.len(),
    ensures
        r == prev_newline(chars@, p as int) + 1,
        r <= p,
{
    let mut q = p;
    while q > 0 && chars[q - 1] != '\n'
        invariant
            0 <= q <= p <= chars@.len(),
            prev_newline(chars@, p as int) == prev_newline(chars@, q as int),
        decreases q,
    {
        q = q - 1;
    }
    proof {
        lemma_prev_newline_bounds(chars@, q as int);
    }
    q
}

proof fn lemma_prev_newline_bounds(text: Seq<char>, p: int)
    ensures
        prev_newline(text, p) < p || p <= 0,
        -1 <= prev_newline(text, p),
    decreases p,
{
    if p > 0 && text[p - 1] != '\n' {
        lemma_prev_newline_bounds(text, p - 1);
    }
}

fn slice_string(chars: &Vec<char>, a: usize, b: usize) -> (r: String)
    requires
        a <= b <= chars@.len(),
    ensures
        r@ == chars@.subrange(a as int, b as int),
{
    let mut out: Vec<char> = Vec::new();
    let mut i = a;
    while i < b
        invariant
            a <= i <= b <= chars@.len(),
            out@ == chars@.subrange(a as int, i as int),
        decreases b - i,
    {
        out.push(chars[i]);
        proof {
            assert(out@ =~= chars@.subrange(a as int, i + 1));
        }
        i = i + 1;
    }
    chars_string(&out)
}

fn context_segment(chars: &Vec<char>, a: usize, b: usize, side: Side) -> (g: Segment)
    requires
        a <= b <= chars@.len(),
    ensures
        g@ == (part_rendering(chars@.subrange(a as int, b as int), side), false),
{
    let piece = slice_string(chars, a, b);
    let mut s = String::new();
    add_part(piece.as_str(), &mut s, side);
    Segment { piece: s, deleted: false }
}

/// The pieces of one preview line, for the deletions at positions
/// `[lo, hi)` of the list, which all begin on the same source line.
fn build_line_segments(chars: &Vec<char>, deletions: &Vec<Deletion>, lo: usize, hi: usize) -> (r:
    Vec<Segment>)
    requires
        lo < hi <= deletions@.len(),
        spans_sorted_disjoint(models_of(deletions@)),
        spans_in_bounds(models_of(deletions@), chars@.len() as int),
    ensures
        segment_views(r@) == line_segs(
            chars@,
            models_of(deletions@).subrange(lo as int, hi as int),
        ),
{
    let ghost ds = models_of(deletions@).subrange(lo as int, hi as int);
    let cn = chars.len();
    let mut out: Vec<Segment> = Vec::new();
    let first = deletions[lo];
    let last = deletions[hi - 1];
    proof {
        assert(ds[0] == deletions@[lo as int]@);
        assert(ds.last() == deletions@[hi - 1]@);
        assert(models_of(deletions@)[lo as int].wf() && models_of(deletions@)[lo as int].end
            < chars@.len());
        assert(models_of(deletions@)[hi - 1].wf() && models_of(deletions@)[hi - 1].end
            < chars@.len());
    }
    let ls = find_line_start(chars, first.start);
    let nn = find_next_newline(chars, last.end + 1);
    let ce = if nn < chars.len() && nn > ls && chars[nn - 1] == '\r' {
        nn - 1
    } else {
        nn
    };
    let rs = if last.end + 1 <= ce {
        last.end + 1
    } else {
        ce
    };
    proof {
        assert(ls <= first.start) by {
            lemma_prev_newline_bounds(chars@, first.start as int);
        }
    }
    out.push(context_segment(chars, ls, first.start, Side::Left));
    out.push(Segment { piece: slice_string(chars, first.start, first.end + 1), deleted: true });
    proof {
        assert(segment_views(out@) =~= seq![
            (part_rendering(chars@.subrange(ls as int, ds[0].start), Side::Left), false),
            (chars@.subrange(ds[0].start, ds[0].end + 1), true),
        ]);
    }
    let mut k: usize = lo + 1;
    while k < hi
        invariant
            lo + 1 <= k <= hi <= deletions@.len(),
            ds == models_of(deletions@).subrange(lo as int, hi as int),
            cn == chars@.len(),
            ls as int == prev_newline(chars@, ds[0].start) + 1,
            ls <= first.start,
            first == deletions@[lo as int],
            spans_sorted_disjoint(models_of(deletions@)),
            spans_in_bounds(models_of(deletions@), chars@.len() as int),
            segment_views(out@) == seq![
                (part_rendering(chars@.subrange(ls as int, ds[0].start), Side::Left), false),
                (chars@.subrange(ds[0].start, ds[0].end + 1), true),
            ] + segs_mid(chars@, ds, k - lo),
        decreases hi - k,
    {
        let prev = deletions[k - 1];
        let cur = deletions[k];
        proof {
            assert(ds[k - lo - 1] == deletions@[k - 1]@);
            assert(ds[k - lo] == deletions@[k as int]@);
            assert(models_of(deletions@)[k - 1].end < models_of(deletions@)[k as int].start);
            assert(models_of(deletions@)[k as int].wf());
            assert(models_of(deletions@)[k as int].end < chars@.len());
        }
        let g1 = context_segment(chars, prev.end + 1, cur.start, Side::Center);
        let g2 = Segment { piece: slice_string(chars, cur.start, cur.end + 1), deleted: true };
        let ghost before = segment_views(out@);
        out.push(g1);
        out.push(g2);
        proof {
            assert(segment_views(out@) =~= before + seq![g1@, g2@]);
            assert(g1@ == (
                part_rendering(
                    chars@.subrange(ds[k - lo - 1].end + 1, ds[k - lo].start),
                    Side::Center,
                ),
                false,
            ));
            assert(g2@ == (chars@.subrange(ds[k - lo].start, ds[k - lo].end + 1), true));
            assert(segs_mid(chars@, ds, k + 1 - lo) =~= segs_mid(chars@, ds, k - lo) + seq![
                g1@,
                g2@,
            ]);
            assert(segment_views(out@) =~= seq![
                (part_rendering(chars@.subrange(ls as int, ds[0].start), Side::Left), false),
                (chars@.subrange(ds[0].start, ds[0].end + 1), true),
            ] + segs_mid(chars@, ds, k + 1 - lo));
        }
        k = k + 1;
    }
    out.push(context_segment(chars, rs, ce, Side::Right));
    proof {
        assert(segment_views(out@) =~= line_segs(chars@, ds));
    }
    out
}

/// The structured preview of what would be deleted: one entry per source
/// line on which at least one deletion begins, holding the line's pieces
/// with long context collapsed.
pub fn preview_segments(text: &str, deletions: &Vec<Deletion>) -> (r: Vec<PreviewLine>)
    requires
        spans_sorted_disjoint(models_of(deletions@)),
        spans_in_bounds(models_of(deletions@), text@.len() as int),
    ensures
        preview_views(r@) == preview_model(text@, models_of(deletions@), 0),
{
    let ghost s = models_of(deletions@);
    let chars = str_chars(text);
    let n = deletions.len();
    let mut out: Vec<PreviewLine> = Vec::new();
    let mut i: usize = 0;
    while i < n
        invariant
            0 <= i <= n,
            n == deletions@.len(),
            s == models_of(deletions@),
            chars@ == text@,
            spans_sorted_disjoint(s),
            spans_in_bounds(s, text@.len() as int),
            preview_model(text@, s, 0) == preview_views(out@) + preview_model(text@, s, i as int),
        decreases n - i,
    {
        let line = deletions[i].line;
        let mut e: usize = i + 1;
        while e < n && deletions[e].line == line
            invariant
                i < e <= n,
                n == deletions@.len(),
                s == models_of(deletions@),
                line == deletions@[i as int].line,
                forall|j: int| i <= j < e ==> (#[trigger] s[j]).line == s[i as int].line,
                group_end(s, i as int) == group_end(s, e - 1),
            decreases n - e,
        {
            proof {
                assert(s[e as int] == deletions@[e as int]@);
                assert(s[e - 1].line == s[i as int].line);
            }
            e = e + 1;
        }
        proof {
            assert(group_end(s, e - 1) == e);
        }
        let segs = build_line_segments(&chars, deletions, i, e);
        out.push(PreviewLine { line, segments: segs });
        proof {
            assert(preview_model(text@, s, i as int) == seq![
                (s[i as int].line, line_segs(text@, s.subrange(i as int, e as int))),
            ] + preview_model(text@, s, e as int));
            assert(preview_views(out@) =~= old_views_plus(out@, text@, s, i as int, e as int));
        }
        i = e;
    }
    out
}

/// The views of the preview built so far: what the loop invariant needs of
/// the freshly pushed line.
spec fn old_views_plus(
    out: Seq<PreviewLine>,
    text: Seq<char>,
    s: Seq<SpanModel>,
    i: int,
    e: int,
) -> Seq<(int, Seq<(Seq<char>, bool)>)> {
    preview_views(out.drop_last()) + seq![(s[i].line, line_segs(text, s.subrange(i, e)))]
}

pub open spec fn digit_char(d: int) -> char {
    if d == 0 {
        '0'
    } else if d == 1 {
        '1'
    } else if d == 2 {
        '2'
    } else if d == 3 {
        '3'
    } else if d == 4 {
        '4'
    } else if d == 5 {
        '5'
    } else if d == 6 {
        '6'
    } else if d == 7 {
        '7'
    } else if d == 8 {
        '8'
    } else {
        '9'
    }
}

pub open spec fn decimal_digits(n: int) -> Seq<char>
    decreases n,
{
    if n <= 0 {
        Seq::empty()
    } else {
        decimal_digits(n / 10).push(digit_char(n % 10))
    }
}

/// The decimal rendering of a number.
pub open spec fn decimal_of(n: int) -> Seq<char> {
    if n == 0 {
        seq!['0']
    } else {
        decimal_digits(n)
    }
}

fn exec_digit_char(d: usize) -> (c: char)
    requires
        d < 10,
    ensures
        c == digit_char(d as int),
{
    if d == 0 {
        '0'
    } else if d == 1 {
        '1'
    } else if d == 2 {
        '2'
    } else if d == 3 {
        '3'
    } else if d == 4 {
        '4'
    } else if d == 5 {
        '5'
    } else if d == 6 {
        '6'
    } else if d == 7 {
        '7'
    } else if d == 8 {
        '8'
    } else {
        '9'
    }
}

fn push_decimal(n: usize, out: &mut Vec<char>)
    ensures
        final(out)@ == old(out)@ + decimal_of(n as int),
{
    if n == 0 {
        out.push('0');
        proof {
            assert(out@ =~= old(out)@ + decimal_of(0));
        }
        return ;
    }
    let mut rev: Vec<char> = Vec::new();
    let mut m = n;
    while m > 0
        invariant
            0 <= m <= n,
            decimal_digits(n as int) == decimal_digits(m as int) + rev@.reverse(),
        decreases m,
    {
        let ghost oldrev = rev@;
        let d = m % 10;
        rev.push(exec_digit_char(d));
        proof {
            assert(decimal_digits(m as int) == decimal_digits(m as int / 10).push(
                digit_char(m as int % 10),
            ));
            assert(rev@.reverse() =~= seq![digit_char(m as int % 10)] + oldrev.reverse());
            assert(decimal_digits(m as int / 10) + rev@.reverse() =~= decimal_digits(m as int)
                + oldrev.reverse());
        }
        m = m / 10;
    }
    let ghost base = out@;
    let mut k: usize = rev.len();
    while k > 0
        invariant
            0 <= k <= rev@.len(),
            out@ == base + rev@.reverse().take(rev@.len() - k),
        decreases k,
    {
        out.push(rev[k - 1]);
        proof {
            assert(rev@.reverse()[rev@.len() - k] == rev@[k - 1]);
            assert(out@ =~= base + rev@.reverse().take(rev@.len() - (k - 1)));
        }
        k = k - 1;
    }
    proof {
        assert(rev@.reverse().take(rev@.len() as int) =~= rev@.reverse());
        assert(decimal_digits(n as int) =~= rev@.reverse());
        assert(out@ == base + decimal_of(n as int));
    }
}

/// The label that opens a rendered line, naming its one-indexed line
/// number.
pub open spec fn line_label(number: int) -> Seq<char> {
    seq!['L'] + decimal_of(number) + seq![':', ' ']
}

fn make_line_label(number: usize) -> (r: String)
    ensures
        r@ == line_label(number as int),
{
    let mut out: Vec<char> = Vec::new();
    out.push('L');
    proof {
        assert(out@ =~= seq!['L']);
    }
    push_decimal(number, &mut out);
    out.push(':');
    out.push(' ');
    proof {
        assert(out@ =~= line_label(number as int));
    }
    chars_string(&out)
}

/// `s` with every newline and carriage return removed.
pub open spec fn without_line_breaks(s: Seq<char>) -> Seq<char>
    decreases s.len(),
{
    if s.len() == 0 {
        Seq::empty()
    } else {
        let r = without_line_breaks(s.drop_last());
        if s.last() == '\n' || s.last() == '\r' {
            r
        } else {
            r.push(s.last())
        }
    }
}

fn strip_line_breaks(s: &str) -> (r: String)
    ensures
        r@ == without_line_breaks(s@),
{
    let chars = str_chars(s);
    let n = chars.len();
    let mut out: Vec<char> = Vec::new();
    let mut i: usize = 0;
    while i < n
        invariant
            0 <= i <= n,
            n == chars@.len(),
            chars@ == s@,
            out@ == without_line_breaks(s@.take(i as int)),
        decreases n - i,
    {
        let c = chars[i];
        proof {
            assert(s@.take(i + 1).drop_last() =~= s@.take(i as int));
            assert(s@.take(i + 1).last() == s@[i as int]);
        }
        if c != '\n' && c != '\r' {
            out.push(c);
        }
        i = i + 1;
    }
    proof {
        assert(s@.take(n as int) =~= s@);
    }
    chars_string(&out)
}

/// Relies on yansi's Paint trait for str: the piece styled dim, as the
/// line label of the preview is shown.
#[verifier::external_body]
fn style_dim(s: &str) -> String {
    format!("{}", s.dim())
}

/// Relies on yansi's Paint trait for str: the piece styled red and bold,
/// as deleted text is highlighted in the preview.
#[verifier::external_body]
fn style_deleted(s: &str) -> String {
    format!("{}", s.red().bold())
}

/// The printable preview lines: for each source line on which a deletion
/// begins, its dimmed label followed by the line's pieces, deletions
/// highlighted, long context collapsed, and line breaks stripped from every
/// piece.  The pieces themselves, before styling, are exactly those of the
/// structured preview.
pub fn render_deletions(text: &str, deletions: &Vec<Deletion>) -> (r: Vec<String>)
    requires
        spans_sorted_disjoint(models_of(deletions@)),
        spans_in_bounds(models_of(deletions@), text@.len() as int),
    ensures
        r@.len() == preview_model(text@, models_of(deletions@), 0).len(),
{
    let lines = preview_segments(text, deletions);
    let mut out: Vec<String> = Vec::new();
    let mut i: usize = 0;
    while i < lines.len()
        invariant
            0 <= i <= lines@.len(),
            out@.len() == i,
        decreases lines@.len() - i,
    {
        let entry = &lines[i];
        let number = if entry.line < usize::MAX {
            entry.line + 1
        } else {
            entry.line
        };
        let label = make_line_label(number);
        let mut composed = style_dim(label.as_str());
        let mut j: usize = 0;
        while j < entry.segments.len()
            decreases entry.segments@.len() - j,
        {
            let seg = &entry.segments[j];
            let plain = strip_line_breaks(seg.piece.as_str());
            if seg.deleted {
                let styled = style_deleted(plain.as_str());
                composed.append(styled.as_str());
            } else {
                composed.append(plain.as_str());
            }
            j = j + 1;
        }
        out.push(composed);
        i = i + 1;
    }
    proof {
        assert(preview_views(lines@).len() == lines@.len());
    }
    out
}

} // verus!
