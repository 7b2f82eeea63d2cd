use vstd::prelude::*;
use vstd::string::StringExecFns;
use crate::pattern::{fire_model, matcher_advance, matcher_step, MatcherModel, Pattern, Type};
use crate::span::{
    models_of, sorted_by_start, spans_in_bounds, spans_sorted_disjoint, Deletion, SpanModel,
};
use crate::text::{chars_string, newline_count, str_chars, ws_char};

verus! {

/// Characters that cannot occur in a command name: the escape marker, the
/// two braces, the comment marker and the newline, each of which the scan
/// interprets structurally.
pub open spec fn forbidden_in_name(c: char) -> bool {
    c == '\\' || c == '{' || c == '}' || c == '%' || c == '\n'
}

/// A command name is a non-empty word free of structural characters.
pub open spec fn valid_command_name(name: Seq<char>) -> bool {
    &&& name.len() >= 1
    &&& forall|j: int| 0 <= j < name.len() ==> !forbidden_in_name(#[trigger] name[j])
}

pub open spec fn valid_commands(cmds: Seq<Seq<char>>) -> bool {
    forall|k: int| 0 <= k < cmds.len() ==> valid_command_name(#[trigger] cmds[k])
}

/// The command names, as character sequences.
pub open spec fn command_views(commands: Seq<&str>) -> Seq<Seq<char>> {
    commands.map_values(|s: &str| s@)
}

/// Decide whether the scanner accepts a command name: it must be non-empty
/// and free of structural characters.
pub fn command_name_ok(name: &str) -> (b: bool)
    ensures
        b == valid_command_name(name@),
{
    let chars = str_chars(name);
    let n = chars.len();
    if n == 0 {
        return false;
    }
    let mut i: usize = 0;
    while i < n
        invariant
            0 <= i <= n,
            n == chars@.len(),
            chars@ == name@,
            forall|j: int| 0 <= j < i ==> !forbidden_in_name(#[trigger] name@[j]),
        decreases n - i,
    {
        let c = chars[i];
        if c == '\\' || c == '{' || c == '}' || c == '%' || c == '\n' {
            return false;
        }
        i = i + 1;
    }
    true
}

/// The matcher registered for the command `name`: it matches the escape
/// marker followed by the name.
pub open spec fn command_pattern(name: Seq<char>) -> MatcherModel {
    MatcherModel { ptext: seq!['\\'] + name, command: true, start: None, cur: 0 }
}

/// A matcher for a fixed literal sequence.
pub open spec fn literal_pattern(t: Seq<char>) -> MatcherModel {
    MatcherModel { ptext: t, command: false, start: None, cur: 0 }
}

/// The full pattern table: one command matcher per requested name, in order,
/// then literal matchers for the escaped opening brace, the escaped closing
/// brace and the escaped comment marker.
pub open spec fn init_matchers(cmds: Seq<Seq<char>>) -> Seq<MatcherModel> {
    Seq::new(cmds.len() as nat, |k: int| command_pattern(cmds[k])) + seq![
        literal_pattern(seq!['\\', '{']),
        literal_pattern(seq!['\\', '}']),
        literal_pattern(seq!['\\', '%']),
    ]
}

/// Mathematical state of the scan: the matcher table, the brace nesting
/// depth, the stack of depths at which tracked commands opened, the comment
/// flag, the current zero-based line, the tentative opening spans whose
/// closing brace is still missing, and the completed deletion pairs.
#[verifier::ext_equal]
pub struct ScanModel {
    pub matchers: Seq<MatcherModel>,
    pub depth: int,
    pub stack: Seq<int>,
    pub commented: bool,
    pub line: int,
    pub tentative: Seq<SpanModel>,
    pub pairs: Seq<(SpanModel, SpanModel)>,
}

/// A structural fault found during the scan.
pub enum ScanIssue {
    /// An unescaped closing brace at nesting depth zero, at this position.
    ClosingAtTopLevel { at: int },
    /// A closing brace closes a tracked group but no tentative opening span
    /// is available, at this position.
    ClosingWithoutOpening { at: int },
    /// The document ended with open groups or unpaired tentative openings.
    Unclosed,
}

pub open spec fn init_scan(cmds: Seq<Seq<char>>) -> ScanModel {
    ScanModel {
        matchers: init_matchers(cmds),
        depth: 0,
        stack: Seq::empty(),
        commented: false,
        line: 0,
        tentative: Seq::empty(),
        pairs: Seq::empty(),
    }
}

/// The first matcher, in table order, that completes on the character `c`
/// at position `idx`, with the start and length it reports.
pub open spec fn first_fire(ms: Seq<MatcherModel>, k: int, idx: int, c: char) -> Option<
    (int, int, int),
>
    decreases ms.len() - k,
{
    if k < 0 || k >= ms.len() {
        None
    } else {
        match matcher_step(ms[k], idx, c).1 {
            Some((s, l)) => Some((k, s, l)),
            None => first_fire(ms, k + 1, idx, c),
        }
    }
}

/// Every matcher stepped on the character `c` at position `idx`.
pub open spec fn step_all(ms: Seq<MatcherModel>, idx: int, c: char) -> Seq<MatcherModel> {
    Seq::new(ms.len(), |k: int| matcher_step(ms[k], idx, c).0)
}

/// Every matcher returned to its fresh state.
pub open spec fn reset_all(ms: Seq<MatcherModel>) -> Seq<MatcherModel> {
    ms.map_values(|m: MatcherModel| m.fresh())
}

/// One step of the scan on the character `c` standing at position `i`.
///
/// A newline first advances the line counter.  Unless the position is
/// commented, the matchers run next, in table order, and the first completed
/// match consumes the character: a completed command records a tentative
/// opening span and opens a tracked group, a completed literal records
/// nothing, and either way the whole table restarts.  A character no matcher
/// consumed is then interpreted structurally: braces track depth and close
/// tracked groups, the comment marker sets the comment flag, a newline
/// clears it.
pub open spec fn scan_step(st: ScanModel, i: int, c: char) -> Result<ScanModel, ScanIssue> {
    let st0 = if c == '\n' {
        ScanModel { line: st.line + 1, ..st }
    } else {
        st
    };
    if !st0.commented && first_fire(st0.matchers, 0, i, c) is Some {
        let (k, s, l) = first_fire(st0.matchers, 0, i, c)->0;
        let st1 = ScanModel { matchers: reset_all(st0.matchers), ..st0 };
        if st0.matchers[k].command {
            Ok(ScanModel {
                stack: st1.stack.push(st1.depth),
                depth: st1.depth + 1,
                tentative: st1.tentative.push(
                    SpanModel { start: s, end: s + l - 1, line: st1.line },
                ),
                ..st1
            })
        } else {
            Ok(st1)
        }
    } else {
        let st1 = if st0.commented {
            st0
        } else {
            ScanModel { matchers: step_all(st0.matchers, i, c), ..st0 }
        };
        if c == '}' && !st1.commented {
            if st1.depth == 0 {
                Err(ScanIssue::ClosingAtTopLevel { at: i })
            } else {
                let d = st1.depth - 1;
                if st1.stack.len() > 0 && st1.stack.last() == d {
                    if st1.tentative.len() == 0 {
                        Err(ScanIssue::ClosingWithoutOpening { at: i })
                    } else {
                        Ok(ScanModel {
                            depth: d,
                            stack: st1.stack.drop_last(),
                            tentative: st1.tentative.drop_last(),
                            pairs: st1.pairs.push(
                                (
                                    st1.tentative.last(),
                                    SpanModel { start: i, end: i, line: st1.line },
                                ),
                            ),
                            ..st1
                        })
                    }
                } else {
                    Ok(ScanModel { depth: d, ..st1 })
                }
            }
        } else if c == '{' && !st1.commented {
            Ok(ScanModel { depth: st1.depth + 1, ..st1 })
        } else if c == '%' {
            Ok(ScanModel { commented: true, ..st1 })
        } else if c == '\n' {
            Ok(ScanModel { commented: false, ..st1 })
        } else {
            Ok(st1)
        }
    }
}

/// The scan state after the first `n` characters of `text`.
pub open spec fn scan_prefix(cmds: Seq<Seq<char>>, text: Seq<char>, n: int) -> Result<
    ScanModel,
    ScanIssue,
>
    decreases n,
{
    if n <= 0 {
        Ok(init_scan(cmds))
    } else {
        match scan_prefix(cmds, text, n - 1) {
            Ok(st) => scan_step(st, n - 1, text[n - 1]),
            Err(e) => Err(e),
        }
    }
}

/// The completed deletion pairs of a full scan of `text`, or the structural
/// fault that stopped it.  A document that ends with open groups or
/// unpaired tentative openings is refused.
pub open spec fn scan_pairs(cmds: Seq<Seq<char>>, text: Seq<char>) -> Result<
    Seq<(SpanModel, SpanModel)>,
    ScanIssue,
> {
    match scan_prefix(cmds, text, text.len() as int) {
        Ok(st) => if st.depth != 0 || st.tentative.len() > 0 {
            Err(ScanIssue::Unclosed)
        } else {
            Ok(st.pairs)
        },
        Err(e) => Err(e),
    }
}

/// Whether the position `t` of `text` stands inside a line comment: the
/// comment flag of the scan is set when the scan reaches it.
pub open spec fn commented_at(cmds: Seq<Seq<char>>, text: Seq<char>, t: int) -> bool {
    match scan_prefix(cmds, text, t) {
        Ok(st) => st.commented,
        Err(_) => false,
    }
}

/// A deletion pair survives the optional one-indexed inclusive line range
/// only when both its opening line and its closing line lie within it.
pub open spec fn pair_in_range(
    p: (SpanModel, SpanModel),
    from: Option<usize>,
    to: Option<usize>,
) -> bool {
    let from_ok = match from {
        Some(f) => p.0.line + 1 >= f && p.1.line + 1 >= f,
        None => true,
    };
    let to_ok = match to {
        Some(t) => p.0.line + 1 <= t && p.1.line + 1 <= t,
        None => true,
    };
    from_ok && to_ok
}

/// The deletion pairs that survive the line range, in completion order.
pub open spec fn filtered_pairs(
    pairs: Seq<(SpanModel, SpanModel)>,
    from: Option<usize>,
    to: Option<usize>,
) -> Seq<(SpanModel, SpanModel)>
    decreases pairs.len(),
{
    if pairs.len() == 0 {
        Seq::empty()
    } else {
        let rest = filtered_pairs(pairs.drop_last(), from, to);
        if pair_in_range(pairs.last(), from, to) {
            rest.push(pairs.last())
        } else {
            rest
        }
    }
}

/// `d` inserted into `s` before the first span whose start position is not
/// below its own.
pub open spec fn insert_span(s: Seq<SpanModel>, d: SpanModel) -> Seq<SpanModel>
    decreases s.len(),
{
    if s.len() == 0 {
        seq![d]
    } else if d.start <= s[0].start {
        seq![d] + s
    } else {
        seq![s[0]] + insert_span(s.drop_first(), d)
    }
}

/// The spans of the pairs, flattened into one list ascending by start
/// position.
pub open spec fn sorted_spans(pairs: Seq<(SpanModel, SpanModel)>) -> Seq<SpanModel>
    decreases pairs.len(),
{
    if pairs.len() == 0 {
        Seq::empty()
    } else {
        insert_span(insert_span(sorted_spans(pairs.drop_last()), pairs.last().0), pairs.last().1)
    }
}

/// The span list of a successful scan of `text`: the deletion pairs that
/// survive the line range, flattened and ordered by start position.
pub open spec fn find_model(
    text: Seq<char>,
    cmds: Seq<Seq<char>>,
    from: Option<usize>,
    to: Option<usize>,
) -> Result<Seq<SpanModel>, ScanIssue> {
    match scan_pairs(cmds, text) {
        Ok(pairs) => Ok(sorted_spans(filtered_pairs(pairs, from, to))),
        Err(e) => Err(e),
    }
}

/// The spans of the completed pairs, interleaved: the opening and closing
/// span of each pair in order.
pub open spec fn flat_pairs(pairs: Seq<(SpanModel, SpanModel)>) -> Seq<SpanModel> {
    Seq::new(
        2 * pairs.len(),
        |t: int|
            if t % 2 == 0 {
                pairs[t / 2].0
            } else {
                pairs[t / 2].1
            },
    )
}

/// Every span a scan state has recorded: the spans of the completed pairs,
/// then the tentative openings.
pub open spec fn recorded_spans(st: ScanModel) -> Seq<SpanModel> {
    flat_pairs(st.pairs) + st.tentative
}

/// Two spans with no character in common.
pub open spec fn spans_disjoint(a: SpanModel, b: SpanModel) -> bool {
    a.end < b.start || b.end < a.start
}

pub open spec fn pairwise_disjoint(f: Seq<SpanModel>) -> bool {
    forall|i: int, j: int|
        0 <= i < f.len() && 0 <= j < f.len() && i != j ==> spans_disjoint(
            #[trigger] f[i],
            #[trigger] f[j],
        )
}

/// A recorded span lies before `bound`, covers no newline, carries the
/// zero-based line of its first character, and stands entirely outside
/// comments.
pub open spec fn span_good(
    d: SpanModel,
    cmds: Seq<Seq<char>>,
    text: Seq<char>,
    bound: int,
) -> bool {
    &&& d.wf()
    &&& d.end < bound
    &&& (forall|t: int| d.start <= t <= d.end ==> text[t] != '\n')
    &&& d.line == newline_count(text, d.start)
    &&& (forall|t: int| d.start <= t <= d.end ==> !commented_at(cmds, text, t))
}

pub open spec fn spans_good(
    f: Seq<SpanModel>,
    cmds: Seq<Seq<char>>,
    text: Seq<char>,
    bound: int,
) -> bool {
    forall|i: int| 0 <= i < f.len() ==> span_good(#[trigger] f[i], cmds, text, bound)
}

/// The fixed texts of the pattern table: the escape marker followed by each
/// command name, then the three escaped literals.
pub open spec fn matcher_shape(ms: Seq<MatcherModel>, cmds: Seq<Seq<char>>) -> bool {
    &&& ms.len() == cmds.len() + 3
    &&& (forall|k: int|
        0 <= k < cmds.len() ==> (#[trigger] ms[k]).ptext == seq!['\\'] + cmds[k] && ms[k].command)
    &&& ms[cmds.len() as int].ptext == seq!['\\', '{'] && !ms[cmds.len() as int].command
    &&& ms[cmds.len() as int + 1].ptext == seq!['\\', '}'] && !ms[cmds.len() as int + 1].command
    &&& ms[cmds.len() as int + 2].ptext == seq!['\\', '%'] && !ms[cmds.len() as int + 2].command
}

/// What the table shape gives each matcher text: it opens with the escape
/// marker; a command text continues with name characters only, a literal
/// text with a single structural character.
pub open spec fn matcher_text_ok(m: MatcherModel) -> bool {
    &&& m.ptext.len() >= 2
    &&& m.ptext[0] == '\\'
    &&& (m.command ==> forall|t: int|
        1 <= t < m.ptext.len() ==> !forbidden_in_name(#[trigger] m.ptext[t]))
    &&& (!m.command ==> m.ptext.len() == 2 && (m.ptext[1] == '{' || m.ptext[1] == '}'
        || m.ptext[1] == '%'))
}

/// The state of one matcher while the scan stands before position `i`: a
/// partial match is contiguous, consists of its target characters then
/// tolerated white space, began after every recorded span ended, and runs
/// entirely outside comments.
pub open spec fn matcher_at(
    m: MatcherModel,
    spans: Seq<SpanModel>,
    cmds: Seq<Seq<char>>,
    text: Seq<char>,
    i: int,
) -> bool {
    &&& m.wf()
    &&& (m.start matches Some(s) ==> {
        let len = m.ptext.len() as int;
        &&& m.cur >= 1
        &&& s + m.cur == i
        &&& (forall|t: int| 0 <= t < m.cur && t < len ==> text[s + t] == m.ptext[t])
        &&& (forall|t: int|
            len <= t < m.cur ==> ws_char(#[trigger] text[s + t]) && text[s + t] != '\n')
        &&& (forall|t: int| s <= t < i ==> !commented_at(cmds, text, t))
        &&& (forall|j: int| 0 <= j < spans.len() ==> (#[trigger] spans[j]).end < s)
    })
}

/// Everything the scan maintains, step by step, while no structural fault
/// has been found.
pub open spec fn scan_inv(st: ScanModel, cmds: Seq<Seq<char>>, text: Seq<char>, i: int) -> bool {
    &&& matcher_shape(st.matchers, cmds)
    &&& (forall|k: int|
        0 <= k < st.matchers.len() ==> matcher_at(
            #[trigger] st.matchers[k],
            recorded_spans(st),
            cmds,
            text,
            i,
        ))
    &&& 0 <= st.depth <= i
    &&& st.line == newline_count(text, i)
    &&& st.stack.len() == st.tentative.len()
    &&& (forall|j: int| 0 <= j < st.stack.len() ==> 0 <= #[trigger] st.stack[j] < st.depth)
    &&& (forall|j1: int, j2: int|
        0 <= j1 < j2 < st.stack.len() ==> st.stack[j1] < st.stack[j2])
    &&& (st.commented ==> forall|k: int|
        0 <= k < st.matchers.len() ==> (#[trigger] st.matchers[k]).start is None)
    &&& spans_good(recorded_spans(st), cmds, text, i)
    &&& pairwise_disjoint(recorded_spans(st))
    &&& (cmds.len() == 0 ==> st.stack.len() == 0 && st.pairs.len() == 0)
}

proof fn lemma_newline_count_le(text: Seq<char>, n: int)
    requires
        n >= 0,
    ensures
        0 <= newline_count(text, n) <= n,
    decreases n,
{
    if n > 0 {
        lemma_newline_count_le(text, n - 1);
    }
}

proof fn lemma_newline_count_stable(text: Seq<char>, a: int, b: int)
    requires
        0 <= a <= b,
        forall|t: int| a <= t < b ==> text[t] != '\n',
    ensures
        newline_count(text, a) == newline_count(text, b),
    decreases b - a,
{
    if a < b {
        lemma_newline_count_stable(text, a, b - 1);
    }
}

proof fn lemma_first_fire_none(ms: Seq<MatcherModel>, k: int, idx: int, c: char)
    requires
        first_fire(ms, k, idx, c) is None,
        0 <= k,
    ensures
        forall|j: int| k <= j < ms.len() ==> matcher_step(#[trigger] ms[j], idx, c).1 is None,
    decreases ms.len() - k,
{
    if k < ms.len() {
        lemma_first_fire_none(ms, k + 1, idx, c);
    }
}

proof fn lemma_first_fire_some(ms: Seq<MatcherModel>, k0: int, idx: int, c: char)
    requires
        0 <= k0,
        first_fire(ms, k0, idx, c) is Some,
    ensures
        ({
            let (k, s, l) = first_fire(ms, k0, idx, c)->0;
            &&& k0 <= k < ms.len()
            &&& matcher_step(ms[k], idx, c).1 == Some((s, l))
        }),
    decreases ms.len() - k0,
{
    if k0 < ms.len() && matcher_step(ms[k0], idx, c).1 is None {
        lemma_first_fire_some(ms, k0 + 1, idx, c);
    }
}

/// A matcher that does not complete on one of the four structural
/// characters abandons any partial match: no target continues with a
/// structural character, and the escape marker is none of them.
proof fn lemma_structural_reset(m: MatcherModel, i: int, c: char)
    requires
        m.wf(),
        matcher_text_ok(m),
        matcher_step(m, i, c).1 is None,
        c == '}' || c == '{' || c == '%' || c == '\n',
    ensures
        matcher_step(m, i, c).0.start is None,
        matcher_step(m, i, c).0.cur == 0,
{
    assert(!ws_char('}'));
    assert(!ws_char('{'));
    assert(!ws_char('%'));
}

/// One matcher stepped on the document character at `i` keeps its
/// invariant, provided it does not complete there.
proof fn lemma_matcher_plain(
    m: MatcherModel,
    spans: Seq<SpanModel>,
    cmds: Seq<Seq<char>>,
    text: Seq<char>,
    i: int,
    c: char,
)
    requires
        matcher_at(m, spans, cmds, text, i),
        matcher_text_ok(m),
        c == text[i],
        0 <= i,
        !commented_at(cmds, text, i),
        forall|j: int| 0 <= j < spans.len() ==> (#[trigger] spans[j]).end < i,
        matcher_step(m, i, c).1 is None,
    ensures
        matcher_at(matcher_step(m, i, c).0, spans, cmds, text, i + 1),
{
    let m2 = matcher_step(m, i, c).0;
    let len = m.ptext.len() as int;
    if m.cur >= len && m.command && ws_char(c) && c != '\n' {
        assert(m.start is Some);
        let s = m.start->0;
        assert forall|t: int| len <= t < m2.cur implies ws_char(#[trigger] text[s + t]) && text[s
            + t] != '\n' by {
            if t == m.cur {
                assert(text[s + t] == c);
            }
        }
    } else {
        if m2.start is Some {
            let s2 = m2.start->0;
            assert forall|t: int| 0 <= t < m2.cur && t < len implies text[s2 + t]
                == m2.ptext[t] by {
                if t == m2.cur - 1 {
                    assert(text[i] == c);
                }
            }
        }
    }
}

proof fn lemma_shape_text_ok(ms: Seq<MatcherModel>, cmds: Seq<Seq<char>>)
    requires
        matcher_shape(ms, cmds),
        valid_commands(cmds),
    ensures
        forall|k: int| 0 <= k < ms.len() ==> matcher_text_ok(#[trigger] ms[k]),
{
    assert forall|k: int| 0 <= k < ms.len() implies matcher_text_ok(#[trigger] ms[k]) by {
        if k < cmds.len() {
            assert(valid_command_name(cmds[k]));
            assert(ms[k].ptext == seq!['\\'] + cmds[k]);
            assert(ms[k].ptext[0] == '\\');
            assert forall|t: int| 1 <= t < ms[k].ptext.len() implies !forbidden_in_name(
                #[trigger] ms[k].ptext[t],
            ) by {
                assert(ms[k].ptext[t] == cmds[k][t - 1]);
            }
        } else {
            assert(k == cmds.len() || k == cmds.len() + 1 || k == cmds.len() + 2);
        }
    }
}

/// One successful step of the scan keeps its invariant.
#[verifier::rlimit(60)]
proof fn lemma_step_preserves_inv(st: ScanModel, cmds: Seq<Seq<char>>, text: Seq<char>, i: int)
    requires
        valid_commands(cmds),
        scan_inv(st, cmds, text, i),
        0 <= i < text.len(),
        scan_prefix(cmds, text, i) == Ok::<ScanModel, ScanIssue>(st),
    ensures
        scan_step(st, i, text[i]) matches Ok(st2) ==> scan_inv(st2, cmds, text, i + 1),
{
    let c = text[i];
    let st0 = if c == '\n' {
        ScanModel { line: st.line + 1, ..st }
    } else {
        st
    };
    lemma_shape_text_ok(st.matchers, cmds);
    lemma_newline_count_le(text, i);
    assert(commented_at(cmds, text, i) == st.commented);
    assert(st0.line == newline_count(text, i + 1));
    let rec = recorded_spans(st);
    assert(recorded_spans(st0) == rec);
    assert(forall|j: int| 0 <= j < rec.len() ==> (#[trigger] rec[j]).end < i);
    if !st0.commented && first_fire(st0.matchers, 0, i, c) is Some {
        let (k, s, l) = first_fire(st0.matchers, 0, i, c)->0;
        lemma_first_fire_some(st0.matchers, 0, i, c);
        let m = st.matchers[k];
        assert(matcher_step(m, i, c).1 == Some((s, l)));
        assert(matcher_at(m, rec, cmds, text, i));
        let ms1 = reset_all(st0.matchers);
        assert(matcher_shape(ms1, cmds)) by {
            assert forall|k2: int| 0 <= k2 < ms1.len() implies #[trigger] ms1[k2]
                == st.matchers[k2].fresh() by {}
        }
        assert(forall|k2: int|
            0 <= k2 < ms1.len() ==> (#[trigger] ms1[k2]).start is None && ms1[k2].cur == 0);
        if m.command {
            let len = m.ptext.len() as int;
            assert(c == '{' && m.cur >= len && s == m.start->0 && l == m.cur + 1) by {
                if !(m.cur >= len && m.command) {
                    assert(matcher_step(m, i, c) == matcher_advance(m, i, c));
                    assert(matcher_step(m, i, c).1 is None);
                } else {
                    if ws_char(c) && c != '\n' {
                        assert(matcher_step(m, i, c).1 is None);
                    } else if c == '{' {
                    } else {
                        assert(matcher_step(m, i, c) == matcher_advance(m.fresh(), i, c));
                        assert(matcher_step(m, i, c).1 is None);
                    }
                }
            }
            assert(m.cur >= 1 && m.start is Some);
            let sp = m.start->0;
            assert(sp + m.cur == i);
            let nd = SpanModel { start: s, end: s + l - 1, line: st0.line };
            assert(nd.end == i);
            assert(nd.wf());
            assert forall|t: int| nd.start <= t <= nd.end implies text[t] != '\n' by {
                if t - sp < len {
                    assert(text[t] == m.ptext[t - sp]);
                    if t == sp {
                        assert(m.ptext[0] == '\\');
                    } else {
                        assert(!forbidden_in_name(m.ptext[t - sp]));
                    }
                } else if t < i {
                    assert(ws_char(text[sp + (t - sp)]) && text[sp + (t - sp)] != '\n');
                } else {
                    assert(text[t] == '{');
                }
            }
            lemma_newline_count_stable(text, sp, i);
            assert(nd.line == newline_count(text, nd.start));
            assert forall|t: int| nd.start <= t <= nd.end implies !commented_at(
                cmds,
                text,
                t,
            ) by {
                if t < i {
                    assert(!commented_at(cmds, text, sp + (t - sp)));
                }
            }
            match scan_step(st, i, c) {
                Ok(st2) => {
                    let rec2 = recorded_spans(st2);
                    assert(rec2 =~= rec.push(nd));
                    assert(spans_good(rec2, cmds, text, i + 1)) by {
                        assert forall|j: int| 0 <= j < rec2.len() implies span_good(
                            #[trigger] rec2[j],
                            cmds,
                            text,
                            i + 1,
                        ) by {
                            if j < rec.len() {
                                assert(span_good(rec[j], cmds, text, i));
                            }
                        }
                    }
                    assert(pairwise_disjoint(rec2)) by {
                        assert forall|a: int, b: int|
                            0 <= a < rec2.len() && 0 <= b < rec2.len() && a
                                != b implies spans_disjoint(
                            #[trigger] rec2[a],
                            #[trigger] rec2[b],
                        ) by {
                            if a < rec.len() && b < rec.len() {
                                assert(spans_disjoint(rec[a], rec[b]));
                            } else if a < rec.len() {
                                assert(rec[a].end < sp);
                            } else {
                                assert(rec[b].end < sp);
                            }
                        }
                    }
                    assert(st2.matchers == ms1);
                    assert(st2.stack.len() == st2.tentative.len());
                    assert(scan_inv(st2, cmds, text, i + 1));
                },
                Err(_) => {},
            }
        } else {
            match scan_step(st, i, c) {
                Ok(st2) => {
                    assert(st2.matchers == ms1);
                    assert(recorded_spans(st2) == rec);
                    assert(scan_inv(st2, cmds, text, i + 1));
                },
                Err(_) => {},
            }
        }
    } else {
        if st.commented {
            match scan_step(st, i, c) {
                Ok(st2) => {
                    assert(st2.matchers == st.matchers);
                    assert(recorded_spans(st2) == rec);
                    assert(forall|k2: int|
                        0 <= k2 < st2.matchers.len() ==> (#[trigger] st2.matchers[k2]).start
                            is None && st2.matchers[k2].cur == 0);
                    assert(scan_inv(st2, cmds, text, i + 1));
                },
                Err(_) => {},
            }
        } else {
            let ms2 = step_all(st.matchers, i, c);
            lemma_first_fire_none(st0.matchers, 0, i, c);
            assert(forall|k2: int|
                0 <= k2 < st.matchers.len() ==> matcher_step(
                    #[trigger] st.matchers[k2],
                    i,
                    c,
                ).1 is None);
            assert(matcher_shape(ms2, cmds)) by {
                assert forall|k2: int| 0 <= k2 < ms2.len() implies (#[trigger] ms2[k2]).ptext
                    == st.matchers[k2].ptext && ms2[k2].command == st.matchers[k2].command by {}
            }
            if c == '}' || c == '{' || c == '%' || c == '\n' {
                assert forall|k2: int| 0 <= k2 < ms2.len() implies (#[trigger] ms2[k2]).start
                    is None && ms2[k2].cur == 0 by {
                    lemma_structural_reset(st.matchers[k2], i, c);
                }
                if c == '}' {
                    if st.depth == 0 {
                    } else {
                        let d = st.depth - 1;
                        if st.stack.len() > 0 && st.stack.last() == d {
                            assert(st.tentative.len() == st.stack.len());
                            let open = st.tentative.last();
                            let close = SpanModel { start: i, end: i, line: st0.line };
                            assert(span_good(close, cmds, text, i + 1)) by {
                                assert(text[i] == '}');
                                assert(!commented_at(cmds, text, i));
                            }
                            match scan_step(st, i, c) {
                                Ok(st2) => {
                                    let fp = flat_pairs(st.pairs);
                                    let fl = fp.len() as int;
                                    let tl = st.tentative.len() as int;
                                    assert(flat_pairs(st2.pairs) =~= fp + seq![open, close]);
                                    let rec2 = recorded_spans(st2);
                                    assert(rec2 =~= fp + seq![open, close]
                                        + st.tentative.drop_last());
                                    assert(open == rec[fl + tl - 1]);
                                    assert(rec2.len() == rec.len() + 1);
                                    assert forall|j: int|
                                        0 <= j < rec2.len() && j != fl + 1 implies #[trigger] rec2[j]
                                        == rec[spec_old_index(j, fl, tl)] && 0 <= spec_old_index(j, fl, tl) < rec.len() by {
                                        if j < fl {
                                        } else if j == fl {
                                            assert(rec2[j] == open);
                                        } else {
                                            assert(rec2[j] == st.tentative[j - fl - 2]);
                                            assert(rec[j - 2] == st.tentative[j - 2 - fl]);
                                        }
                                    }
                                    assert(rec2[fl + 1] == close);
                                    assert(spans_good(rec2, cmds, text, i + 1)) by {
                                        assert forall|j: int| 0 <= j < rec2.len() implies span_good(
                                            #[trigger] rec2[j],
                                            cmds,
                                            text,
                                            i + 1,
                                        ) by {
                                            if j != fl + 1 {
                                                assert(span_good(
                                                    rec[spec_old_index(j, fl, tl)],
                                                    cmds,
                                                    text,
                                                    i,
                                                ));
                                            }
                                        }
                                    }
                                    assert(pairwise_disjoint(rec2)) by {
                                        assert forall|a: int, b: int|
                                            0 <= a < rec2.len() && 0 <= b < rec2.len() && a
                                                != b implies spans_disjoint(
                                            #[trigger] rec2[a],
                                            #[trigger] rec2[b],
                                        ) by {
                                            if a == fl + 1 {
                                                assert(rec[spec_old_index(b, fl, tl)].end < i);
                                            } else if b == fl + 1 {
                                                assert(rec[spec_old_index(a, fl, tl)].end < i);
                                            } else {
                                                let oa = spec_old_index(a, fl, tl);
                                                let ob = spec_old_index(b, fl, tl);
                                                assert(oa != ob);
                                                assert(spans_disjoint(rec[oa], rec[ob]));
                                            }
                                        }
                                    }
                                    assert(st2.stack.len() == st2.tentative.len());
                                    assert(forall|j: int|
                                        0 <= j < st2.stack.len() ==> 0 <= #[trigger] st2.stack[j]
                                            < st2.depth);
                                    assert(scan_inv(st2, cmds, text, i + 1));
                                },
                                Err(_) => {},
                            }
                        } else {
                            match scan_step(st, i, c) {
                                Ok(st2) => {
                                    assert(recorded_spans(st2) == rec);
                                    assert forall|j: int|
                                        0 <= j < st2.stack.len() implies 0 <= #[trigger] st2.stack[j]
                                        < st2.depth by {
                                        if st.stack.len() > 0 {
                                            if j < st.stack.len() - 1 {
                                                assert(st.stack[j] < st.stack[st.stack.len() - 1]);
                                            }
                                        }
                                    }
                                    assert(scan_inv(st2, cmds, text, i + 1));
                                },
                                Err(_) => {},
                            }
                        }
                    }
                } else {
                    match scan_step(st, i, c) {
                        Ok(st2) => {
                            assert(recorded_spans(st2) == rec);
                            assert(scan_inv(st2, cmds, text, i + 1));
                        },
                        Err(_) => {},
                    }
                }
            } else {
                assert forall|k2: int| 0 <= k2 < ms2.len() implies matcher_at(
                    #[trigger] ms2[k2],
                    rec,
                    cmds,
                    text,
                    i + 1,
                ) by {
                    lemma_matcher_plain(st.matchers[k2], rec, cmds, text, i, c);
                }
                match scan_step(st, i, c) {
                    Ok(st2) => {
                        assert(st2.matchers == ms2);
                        assert(recorded_spans(st2) == rec);
                        assert(st2.commented == st.commented);
                        assert(scan_inv(st2, cmds, text, i + 1));
                    },
                    Err(_) => {},
                }
            }
        }
    }
}

/// The position in the previous recorded-span list that position `j` of the
/// list after a pair completion came from, with `fl` the flattened length of
/// the previous pairs: the completed pair's opening span moved there from
/// the end of the tentative list.
spec fn spec_old_index(j: int, fl: int, tl: int) -> int {
    if j < fl {
        j
    } else if j == fl {
        fl + tl - 1
    } else {
        j - 2
    }
}

/// A window of at most `count` characters on each side of position `pos`,
/// clipped to the document.
pub open spec fn context_around(text: Seq<char>, pos: int, count: int) -> Seq<char> {
    let p = if pos <= text.len() {
        pos
    } else {
        text.len() as int
    };
    let lo = if p - count >= 0 {
        p - count
    } else {
        0
    };
    let hi = if p + count <= text.len() {
        p + count
    } else {
        text.len() as int
    };
    text.subrange(lo, hi)
}

fn context_chars(chars: &Vec<char>, pos: usize, count: usize) -> (r: String)
    ensures
        r@ == context_around(chars@, pos as int, count as int),
{
    let n = chars.len();
    let p = if pos <= n {
        pos
    } else {
        n
    };
    let lo = if p >= count {
        p - count
    } else {
        0
    };
    let hi = if count <= n - p {
        p + count
    } else {
        n
    };
    let mut out: Vec<char> = Vec::new();
    let mut t = lo;
    while t < hi
        invariant
            lo <= t <= hi <= n,
            n == chars@.len(),
            out@ == chars@.subrange(lo as int, t as int),
        decreases hi - t,
    {
        out.push(chars[t]);
        proof {
            assert(out@ =~= chars@.subrange(lo as int, t + 1));
        }
        t = t + 1;
    }
    proof {
        assert(chars@.subrange(lo as int, hi as int) =~= context_around(
            chars@,
            pos as int,
            count as int,
        ));
    }
    chars_string(&out)
}

/// A window of `char_count` characters on each side of the character
/// position `pos`, clipped to the document.
pub fn get_context_around(text: &str, pos: usize, char_count: usize) -> (r: String)
    ensures
        r@ == context_around(text@, pos as int, char_count as int),
{
    let chars = str_chars(text);
    context_chars(&chars, pos, char_count)
}

/// The matcher states of a pattern table.
pub open spec fn pattern_models(ps: Seq<Pattern>) -> Seq<MatcherModel> {
    ps.map_values(|p: Pattern| p@)
}

/// Build the executable pattern table for the requested command names.
fn build_patterns(commands: &Vec<&str>) -> (ps: Vec<Pattern>)
    ensures
        pattern_models(ps@) == init_matchers(command_views(commands@)),
{
    let n = commands.len();
    let mut ps: Vec<Pattern> = Vec::new();
    for k in 0..n
        invariant
            n == commands@.len(),
            ps@.len() == k,
            forall|j: int|
                0 <= j < k ==> #[trigger] ps@[j]@ == command_pattern(command_views(commands@)[j]),
    {
        let mut s = String::from_str("\\");
        s.append(commands[k]);
        proof {
            reveal_strlit("\\");
            assert(s@ =~= seq!['\\'] + commands@[k as int]@);
        }
        ps.push(Pattern::new(s.as_str(), Type::Command));
    }
    let p1 = Pattern::new("\\{", Type::Other);
    let p2 = Pattern::new("\\}", Type::Other);
    let p3 = Pattern::new("\\%", Type::Other);
    proof {
        reveal_strlit("\\{");
        reveal_strlit("\\}");
        reveal_strlit("\\%");
        assert(p1@.ptext =~= seq!['\\', '{']);
        assert(p2@.ptext =~= seq!['\\', '}']);
        assert(p3@.ptext =~= seq!['\\', '%']);
    }
    ps.push(p1);
    ps.push(p2);
    ps.push(p3);
    proof {
        assert(pattern_models(ps@) =~= init_matchers(command_views(commands@)));
    }
    ps
}

/// A structural fault that made the scan refuse the document.
#[derive(Debug)]
pub enum ScanError {
    /// An unescaped closing brace was found at nesting depth zero; the
    /// payload is a window of the document around the offending character.
    UnmatchedClosingBracket { context: String },
    /// A closing brace closes a tracked group but no tentative opening span
    /// is recorded; the payload is a window around the offending character.
    UnmatchedClosingForTrackedCommand { context: String },
    /// The document ended while brace groups or tracked commands were open.
    UnclosedOpeningBracket,
    /// The lower line bound exceeds the upper line bound.
    InvalidRange,
}

impl ScanError {
    /// The error explained, with the document context where there is one.
    pub fn message(&self) -> (r: String)
        ensures
            match self {
                ScanError::UnmatchedClosingBracket { context } => r@
                    == "It seems that there is a closing bracket without opening counterpart! Stopping! (no changes made) "@
                    + context@,
                ScanError::UnmatchedClosingForTrackedCommand { context } => r@
                    == "It seems that there is a closing bracket without matching opening bracket! Stopping! (no changes made) "@
                    + context@,
                ScanError::UnclosedOpeningBracket => r@
                    == "It seems that there is a opening bracket without closing counterpart! Stopping! (no changes made)"@,
                ScanError::InvalidRange => r@
                    == "The lower line bound must not exceed the upper line bound! Stopping! (no changes made)"@,
            },
    {
        match self {
            ScanError::UnmatchedClosingBracket { context } => {
                let mut s = String::from_str(
                    "It seems that there is a closing bracket without opening counterpart! Stopping! (no changes made) ",
                );
                s.append(context.as_str());
                s
            },
            ScanError::UnmatchedClosingForTrackedCommand { context } => {
                let mut s = String::from_str(
                    "It seems that there is a closing bracket without matching opening bracket! Stopping! (no changes made) ",
                );
                s.append(context.as_str());
                s
            },
            ScanError::UnclosedOpeningBracket => String::from_str(
                "It seems that there is a opening bracket without closing counterpart! Stopping! (no changes made)",
            ),
            ScanError::InvalidRange => String::from_str(
                "The lower line bound must not exceed the upper line bound! Stopping! (no changes made)",
            ),
        }
    }
}

/// The reported error carries the fault the scan model found, with the
/// context window the fault position calls for.
pub open spec fn error_matches(e: ScanError, issue: ScanIssue, text: Seq<char>) -> bool {
    match issue {
        ScanIssue::ClosingAtTopLevel { at } => e matches ScanError::UnmatchedClosingBracket {
            context,
        } && context@ == context_around(text, at, 10),
        ScanIssue::ClosingWithoutOpening {
            at,
        } => e matches ScanError::UnmatchedClosingForTrackedCommand { context } && context@
            == context_around(text, at, 10),
        ScanIssue::Unclosed => e == ScanError::UnclosedOpeningBracket,
    }
}

/// The pairs of `s`, as mathematical values.
pub open spec fn pair_models(s: Seq<(Deletion, Deletion)>) -> Seq<(SpanModel, SpanModel)> {
    s.map_values(|p: (Deletion, Deletion)| (p.0@, p.1@))
}

/// The scan state the executable locals stand for.
pub open spec fn exec_state_model(
    ps: Seq<Pattern>,
    depth: usize,
    stack: Seq<usize>,
    commented: bool,
    line: usize,
    tentative: Seq<Deletion>,
    pairs: Seq<(Deletion, Deletion)>,
) -> ScanModel {
    ScanModel {
        matchers: pattern_models(ps),
        depth: depth as int,
        stack: stack.map_values(|d: usize| d as int),
        commented,
        line: line as int,
        tentative: models_of(tentative),
        pairs: pair_models(pairs),
    }
}

/// A scan stopped by a fault stays stopped.
proof fn lemma_scan_prefix_stops(cmds: Seq<Seq<char>>, text: Seq<char>, a: int, b: int)
    requires
        0 <= a <= b,
        scan_prefix(cmds, text, a) is Err,
    ensures
        scan_prefix(cmds, text, b) == scan_prefix(cmds, text, a),
    decreases b - a,
{
    if a < b {
        lemma_scan_prefix_stops(cmds, text, a, b - 1);
    }
}

/// The completed match the table reports covers the characters up to and
/// including the current one.
proof fn lemma_fire_bounds(
    ms: Seq<MatcherModel>,
    spans: Seq<SpanModel>,
    cmds: Seq<Seq<char>>,
    text: Seq<char>,
    i: int,
    c: char,
)
    requires
        forall|k: int| 0 <= k < ms.len() ==> matcher_at(#[trigger] ms[k], spans, cmds, text, i),
        forall|k: int| 0 <= k < ms.len() ==> matcher_text_ok(#[trigger] ms[k]),
        first_fire(ms, 0, i, c) is Some,
        0 <= i,
    ensures
        ({
            let (k, s, l) = first_fire(ms, 0, i, c)->0;
            &&& 0 <= k < ms.len()
            &&& 0 <= s
            &&& 1 <= l
            &&& s + l == i + 1
        }),
{
    lemma_first_fire_some(ms, 0, i, c);
    let (k, s, l) = first_fire(ms, 0, i, c)->0;
    let m = ms[k];
    assert(matcher_step(m, i, c).1 == Some((s, l)));
    let len = m.ptext.len() as int;
    if m.cur >= len && m.command {
        if ws_char(c) && c != '\n' {
            assert(matcher_step(m, i, c).1 is None);
        } else if c == '{' {
            assert(m.cur >= 1 && m.start is Some);
            assert(m.start->0 + m.cur == i);
        } else {
            assert(matcher_step(m, i, c) == matcher_advance(m.fresh(), i, c));
        }
    } else {
        assert(matcher_step(m, i, c) == matcher_advance(m, i, c));
    }
}

/// Feed the character `c` standing at position `idx` to every pattern in
/// table order.  The first completed match consumes the character and
/// returns every pattern to its fresh state; the result reports the match's
/// start, its length, and whether a command pattern completed.
fn step_patterns(patterns: &mut Vec<Pattern>, idx: usize, c: char) -> (r: Option<
    (usize, usize, bool),
>)
    requires
        forall|j: int|
            0 <= j < old(patterns)@.len() ==> (#[trigger] pattern_models(old(patterns)@)[j]).wf(),
        forall|j: int|
            0 <= j < old(patterns)@.len() ==> (#[trigger] pattern_models(
                old(patterns)@,
            )[j]).ptext.len() >= 1,
        forall|j: int|
            0 <= j < old(patterns)@.len() ==> (#[trigger] pattern_models(old(patterns)@)[j]).cur
                <= idx,
        idx < usize::MAX,
    ensures
        final(patterns)@.len() == old(patterns)@.len(),
        match first_fire(pattern_models(old(patterns)@), 0, idx as int, c) {
            Some(f) => {
                &&& pattern_models(final(patterns)@) == reset_all(pattern_models(old(patterns)@))
                &&& r matches Some(t) && t.0 == f.1 && t.1 == f.2 && t.2 == pattern_models(
                    old(patterns)@,
                )[f.0].command
            },
            None => {
                &&& pattern_models(final(patterns)@) == step_all(
                    pattern_models(old(patterns)@),
                    idx as int,
                    c,
                )
                &&& r is None
            },
        },
{
    let ghost ms = pattern_models(old(patterns)@);
    let n = patterns.len();
    let mut k: usize = 0;
    while k < n
        invariant
            0 <= k <= n,
            n == patterns@.len(),
            ms == pattern_models(old(patterns)@),
            ms.len() == n,
            idx < usize::MAX,
            forall|j: int| 0 <= j < n ==> (#[trigger] ms[j]).wf(),
            forall|j: int| 0 <= j < n ==> (#[trigger] ms[j]).ptext.len() >= 1,
            forall|j: int| 0 <= j < n ==> (#[trigger] ms[j]).cur <= idx,
            first_fire(ms, 0, idx as int, c) == first_fire(ms, k as int, idx as int, c),
            forall|j: int|
                0 <= j < k ==> #[trigger] patterns@[j]@ == matcher_step(ms[j], idx as int, c).0,
            forall|j: int|
                0 <= j < k ==> matcher_step(#[trigger] ms[j], idx as int, c).1 is None,
            forall|j: int| k <= j < n ==> #[trigger] patterns@[j]@ == ms[j],
        decreases n - k,
    {
        let res = patterns[k].next(idx, c);
        match res {
            Some((s, l)) => {
                let is_cmd = patterns[k].is_command();
                proof {
                    assert(fire_model(res) == matcher_step(ms[k as int], idx as int, c).1);
                    assert(first_fire(ms, k as int, idx as int, c) == Some(
                        (k as int, s as int, l as int),
                    ));
                }
                let mut j: usize = 0;
                while j < n
                    invariant
                        0 <= j <= n,
                        n == patterns@.len(),
                        ms.len() == n,
                        forall|t: int|
                            0 <= t < n ==> #[trigger] patterns@[t]@.ptext == ms[t].ptext
                                && patterns@[t]@.command == ms[t].command,
                        forall|t: int| 0 <= t < j ==> #[trigger] patterns@[t]@ == ms[t].fresh(),
                    decreases n - j,
                {
                    let q = &mut patterns[j];
                    q.reset();
                    j = j + 1;
                }
                proof {
                    assert(pattern_models(patterns@) =~= reset_all(ms));
                }
                return Some((s, l, is_cmd));
            },
            None => {
                proof {
                    assert(fire_model(res) == matcher_step(ms[k as int], idx as int, c).1);
                    assert(first_fire(ms, k as int, idx as int, c) == first_fire(
                        ms,
                        k as int + 1,
                        idx as int,
                        c,
                    ));
                }
                k = k + 1;
            },
        }
    }
    proof {
        assert(first_fire(ms, n as int, idx as int, c) is None);
        assert(pattern_models(patterns@) =~= step_all(ms, idx as int, c));
    }
    None
}

/// Scan the whole document once and collect the completed deletion pairs,
/// or report the structural fault that stopped the scan.
fn scan_document(chars: &Vec<char>, patterns: &mut Vec<Pattern>, Ghost(cmds): Ghost<
    Seq<Seq<char>>,
>) -> (r: Result<Vec<(Deletion, Deletion)>, ScanError>)
    requires
        valid_commands(cmds),
        pattern_models(old(patterns)@) == init_matchers(cmds),
    ensures
        match scan_pairs(cmds, chars@) {
            Ok(ps) => r matches Ok(v) && pair_models(v@) == ps,
            Err(issue) => r matches Err(e) && error_matches(e, issue, chars@),
        },
        scan_pairs(cmds, chars@) matches Ok(ps) ==> spans_good(
            flat_pairs(ps),
            cmds,
            chars@,
            chars@.len() as int,
        ) && pairwise_disjoint(flat_pairs(ps)),
{
    let n = chars.len();
    let mut depth: usize = 0;
    let mut deleted_depths: Vec<usize> = Vec::new();
    let mut commented: bool = false;
    let mut line: usize = 0;
    let mut deletions: Vec<Deletion> = Vec::new();
    let mut deleted_commands: Vec<(Deletion, Deletion)> = Vec::new();
    let mut i: usize = 0;

    proof {
        assert(exec_state_model(
            patterns@,
            depth,
            deleted_depths@,
            commented,
            line,
            deletions@,
            deleted_commands@,
        ) =~= init_scan(cmds));
        assert(scan_inv(init_scan(cmds), cmds, chars@, 0)) by {
            assert(recorded_spans(init_scan(cmds)) =~= Seq::<SpanModel>::empty());
            assert(matcher_shape(init_matchers(cmds), cmds));
        }
    }

    while i < n
        invariant
            0 <= i <= n,
            n == chars@.len(),
            valid_commands(cmds),
            scan_prefix(cmds, chars@, i as int) == Ok::<ScanModel, ScanIssue>(
                exec_state_model(
                    patterns@,
                    depth,
                    deleted_depths@,
                    commented,
                    line,
                    deletions@,
                    deleted_commands@,
                ),
            ),
            scan_inv(
                exec_state_model(
                    patterns@,
                    depth,
                    deleted_depths@,
                    commented,
                    line,
                    deletions@,
                    deleted_commands@,
                ),
                cmds,
                chars@,
                i as int,
            ),
        decreases n - i,
    {
        let ghost st = exec_state_model(
            patterns@,
            depth,
            deleted_depths@,
            commented,
            line,
            deletions@,
            deleted_commands@,
        );
        let c = chars[i];
        proof {
            lemma_step_preserves_inv(st, cmds, chars@, i as int);
            lemma_newline_count_le(chars@, i as int);
            lemma_shape_text_ok(st.matchers, cmds);
            assert forall|j: int| 0 <= j < patterns@.len() implies (#[trigger] pattern_models(
                patterns@,
            )[j]).cur <= i by {
                let m = pattern_models(patterns@)[j];
                assert(matcher_at(m, recorded_spans(st), cmds, chars@, i as int));
                if m.start is Some {
                    assert(m.start->0 + m.cur == i);
                }
            }
        }
        if c == '\n' {
            line = line + 1;
        }
        let ghost st0 = if c == '\n' {
            ScanModel { line: st.line + 1, ..st }
        } else {
            st
        };
        let fired = if commented {
            None
        } else {
            step_patterns(patterns, i, c)
        };
        match fired {
            Some((s, l, is_cmd)) => {
                proof {
                    assert(first_fire(st0.matchers, 0, i as int, c) is Some);
                    lemma_fire_bounds(
                        st.matchers,
                        recorded_spans(st),
                        cmds,
                        chars@,
                        i as int,
                        c,
                    );
                    assert(s + l == i + 1);
                }
                if is_cmd {
                    deleted_depths.push(depth);
                    depth = depth + 1;
                    let d = Deletion::range(s, s + l - 1, line);
                    deletions.push(d);
                    proof {
                        match scan_step(st, i as int, c) {
                            Ok(st2) => {
                                assert(exec_state_model(
                                    patterns@,
                                    depth,
                                    deleted_depths@,
                                    commented,
                                    line,
                                    deletions@,
                                    deleted_commands@,
                                ) =~= st2);
                            },
                            Err(_) => {
                                assert(false);
                            },
                        }
                    }
                } else {
                    proof {
                        match scan_step(st, i as int, c) {
                            Ok(st2) => {
                                assert(exec_state_model(
                                    patterns@,
                                    depth,
                                    deleted_depths@,
                                    commented,
                                    line,
                                    deletions@,
                                    deleted_commands@,
                                ) =~= st2);
                            },
                            Err(_) => {
                                assert(false);
                            },
                        }
                    }
                }
            },
            None => {
                if c == '}' && !commented {
                    if depth == 0 {
                        let ctx = context_chars(chars, i, 10);
                        proof {
                            assert(scan_step(st, i as int, c) == Err::<ScanModel, ScanIssue>(
                                ScanIssue::ClosingAtTopLevel { at: i as int },
                            ));
                            lemma_scan_prefix_stops(cmds, chars@, i as int + 1, n as int);
                        }
                        return Err(ScanError::UnmatchedClosingBracket { context: ctx });
                    }
                    depth = depth - 1;
                    if deleted_depths.len() > 0 {
                        let lastd = deleted_depths[deleted_depths.len() - 1];
                        if lastd == depth {
                            deleted_depths.pop();
                            if deletions.len() == 0 {
                                let ctx = context_chars(chars, i, 10);
                                proof {
                                    assert(scan_step(st, i as int, c) == Err::<
                                        ScanModel,
                                        ScanIssue,
                                    >(ScanIssue::ClosingWithoutOpening { at: i as int }));
                                    lemma_scan_prefix_stops(cmds, chars@, i as int + 1, n as int);
                                }
                                return Err(
                                    ScanError::UnmatchedClosingForTrackedCommand { context: ctx },
                                );
                            }
                            let opening = deletions.pop().unwrap();
                            let closing = Deletion::range(i, i, line);
                            deleted_commands.push((opening, closing));
                        }
                    }
                } else if c == '{' && !commented {
                    depth = depth + 1;
                } else if c == '%' {
                    commented = true;
                } else if c == '\n' {
                    commented = false;
                }
                proof {
                    match scan_step(st, i as int, c) {
                        Ok(st2) => {
                            assert(exec_state_model(
                                patterns@,
                                depth,
                                deleted_depths@,
                                commented,
                                line,
                                deletions@,
                                deleted_commands@,
                            ) =~= st2);
                        },
                        Err(_) => {
                            assert(false);
                        },
                    }
                }
            },
        }
        i = i + 1;
    }
    let ghost stf = exec_state_model(
        patterns@,
        depth,
        deleted_depths@,
        commented,
        line,
        deletions@,
        deleted_commands@,
    );
    if depth > 0 || deletions.len() > 0 {
        proof {
            assert(scan_pairs(cmds, chars@) == Err::<Seq<(SpanModel, SpanModel)>, ScanIssue>(
                ScanIssue::Unclosed,
            ));
        }
        return Err(ScanError::UnclosedOpeningBracket);
    }
    proof {
        assert(scan_pairs(cmds, chars@) == Ok::<Seq<(SpanModel, SpanModel)>, ScanIssue>(
            pair_models(deleted_commands@),
        ));
        assert(flat_pairs(pair_models(deleted_commands@)) =~= recorded_spans(stf));
    }
    Ok(deleted_commands)
}

/// Every reachable scan state is well formed.
pub proof fn lemma_scan_well_formed(cmds: Seq<Seq<char>>, text: Seq<char>, n: int)
    requires
        valid_commands(cmds),
        0 <= n <= text.len(),
    ensures
        scan_prefix(cmds, text, n) matches Ok(st) ==> scan_inv(st, cmds, text, n),
    decreases n,
{
    if n == 0 {
        assert(recorded_spans(init_scan(cmds)) =~= Seq::<SpanModel>::empty());
    } else {
        lemma_scan_well_formed(cmds, text, n - 1);
        match scan_prefix(cmds, text, n - 1) {
            Ok(st) => {
                lemma_step_preserves_inv(st, cmds, text, n - 1);
            },
            Err(_) => {},
        }
    }
}

/// `insert_span` places the new span exactly at the first position whose
/// start is not below its own.
proof fn lemma_insert_span_at(s: Seq<SpanModel>, d: SpanModel, j: int)
    requires
        0 <= j <= s.len(),
        forall|t: int| 0 <= t < j ==> (#[trigger] s[t]).start < d.start,
        j < s.len() ==> d.start <= s[j].start,
    ensures
        insert_span(s, d) == s.subrange(0, j) + seq![d] + s.subrange(j, s.len() as int),
    decreases j,
{
    if s.len() == 0 {
        assert(insert_span(s, d) =~= s.subrange(0, j) + seq![d] + s.subrange(j, s.len() as int));
    } else if j == 0 {
        assert(insert_span(s, d) =~= s.subrange(0, j) + seq![d] + s.subrange(j, s.len() as int));
    } else {
        assert(s[0].start < d.start);
        let s1 = s.drop_first();
        assert forall|t: int| 0 <= t < j - 1 implies (#[trigger] s1[t]).start < d.start by {
            assert(s1[t] == s[t + 1]);
        }
        lemma_insert_span_at(s1, d, j - 1);
        assert(insert_span(s, d) == seq![s[0]] + insert_span(s1, d));
        assert(insert_span(s, d) =~= s.subrange(0, j) + seq![d] + s.subrange(j, s.len() as int));
    }
}

/// Insert one deletion into a list kept ascending by start position.
fn insert_deletion(v: &mut Vec<Deletion>, d: Deletion)
    requires
        sorted_by_start(models_of(old(v)@)),
    ensures
        models_of(final(v)@) == insert_span(models_of(old(v)@), d@),
        final(v)@.len() == old(v)@.len() + 1,
        sorted_by_start(models_of(final(v)@)),
        forall|a: int|
            0 <= a < final(v)@.len() ==> (models_of(final(v)@)[a] == d@ || exists|b: int|
                0 <= b < old(v)@.len() && models_of(final(v)@)[a] == models_of(old(v)@)[b]),
        (forall|t: int| 0 <= t < old(v)@.len() ==> spans_disjoint(models_of(old(v)@)[t], d@))
            && pairwise_disjoint(models_of(old(v)@)) ==> pairwise_disjoint(models_of(final(v)@)),
{
    let ghost s = models_of(old(v)@);
    let n = v.len();
    let mut j: usize = 0;
    while j < n && v[j].start < d.start
        invariant
            0 <= j <= n,
            n == v@.len(),
            v@ == old(v)@,
            s == models_of(old(v)@),
            forall|t: int| 0 <= t < j ==> (#[trigger] s[t]).start < d.start,
        decreases n - j,
    {
        proof {
            assert(s.len() == old(v)@.len());
            assert(s[j as int] == old(v)@[j as int]@);
        }
        j = j + 1;
    }
    proof {
        lemma_insert_span_at(s, d@, j as int);
    }
    v.insert(j, d);
    proof {
        assert(models_of(v@) =~= s.subrange(0, j as int) + seq![d@] + s.subrange(
            j as int,
            s.len() as int,
        ));
        let f = models_of(v@);
        assert forall|a: int|
            0 <= a < f.len() implies (f[a] == d@ || exists|b: int|
            0 <= b < s.len() && f[a] == s[b]) by {
            if a < j {
                assert(f[a] == s[a]);
            } else if a > j {
                assert(f[a] == s[a - 1]);
            }
        }
        assert(sorted_by_start(f)) by {
            assert forall|a: int, b: int| 0 <= a < b < f.len() implies f[a].start
                <= f[b].start by {
                let oa = if a < j {
                    a
                } else {
                    a - 1
                };
                let ob = if b < j {
                    b
                } else {
                    b - 1
                };
                if a == j {
                    assert(f[a] == d@);
                    assert(f[b] == s[ob] && j <= ob);
                } else if b == j {
                    assert(f[b] == d@);
                    assert(f[a] == s[oa] && oa < j);
                } else {
                    assert(f[a] == s[oa] && f[b] == s[ob]);
                    if oa < ob {
                    } else {
                        assert(oa == ob && a < j && b > j);
                        assert(s[oa].start < d.start <= s[ob].start);
                    }
                }
            }
        }
        if (forall|t: int| 0 <= t < s.len() ==> spans_disjoint(#[trigger] s[t], d@))
            && pairwise_disjoint(s) {
            assert forall|a: int, b: int|
                0 <= a < f.len() && 0 <= b < f.len() && a != b implies spans_disjoint(
                #[trigger] f[a],
                #[trigger] f[b],
            ) by {
                let oa = if a < j {
                    a
                } else {
                    a - 1
                };
                let ob = if b < j {
                    b
                } else {
                    b - 1
                };
                if a == j {
                    assert(f[b] == s[ob]);
                    assert(spans_disjoint(s[ob], d@));
                } else if b == j {
                    assert(f[a] == s[oa]);
                    assert(spans_disjoint(s[oa], d@));
                } else {
                    assert(f[a] == s[oa] && f[b] == s[ob]);
                    assert(oa != ob);
                }
            }
        }
    }
}

/// Every span already kept is disjoint from both spans of every pair not
/// yet considered.
pub open spec fn cross_ok(
    kept: Seq<(SpanModel, SpanModel)>,
    all: Seq<(SpanModel, SpanModel)>,
    j: int,
    n: int,
) -> bool {
    forall|x: int, t: int|
        #![trigger flat_pairs(kept)[x], flat_pairs(all)[2 * t]]
        0 <= x < flat_pairs(kept).len() && j <= t < n ==> spans_disjoint(
            flat_pairs(kept)[x],
            flat_pairs(all)[2 * t],
        ) && spans_disjoint(flat_pairs(kept)[x], flat_pairs(all)[2 * t + 1])
}

/// Keep the deletion pairs whose opening and closing lines both lie within
/// the requested one-indexed inclusive range.
fn filter_range(pairs: &Vec<(Deletion, Deletion)>, from: Option<usize>, to: Option<usize>) -> (r:
    Vec<(Deletion, Deletion)>)
    requires
        pairwise_disjoint(flat_pairs(pair_models(pairs@))),
    ensures
        pair_models(r@) == filtered_pairs(pair_models(pairs@), from, to),
        forall|a: int|
            0 <= a < r@.len() ==> exists|b: int|
                0 <= b < pairs@.len() && #[trigger] r@[a] == pairs@[b],
        pairwise_disjoint(flat_pairs(pair_models(r@))),
{
    let ghost all = pair_models(pairs@);
    let n = pairs.len();
    let mut out: Vec<(Deletion, Deletion)> = Vec::new();
    let mut j: usize = 0;
    while j < n
        invariant
            0 <= j <= n,
            n == pairs@.len(),
            all == pair_models(pairs@),
            pairwise_disjoint(flat_pairs(all)),
            pair_models(out@) == filtered_pairs(all.subrange(0, j as int), from, to),
            forall|a: int|
                0 <= a < out@.len() ==> exists|b: int|
                    0 <= b < pairs@.len() && #[trigger] out@[a] == pairs@[b],
            pairwise_disjoint(flat_pairs(pair_models(out@))),
            cross_ok(pair_models(out@), all, j as int, n as int),
        decreases n - j,
    {
        let opening_line = pairs[j].0.line;
        let closing_line = pairs[j].1.line;
        let from_ok = match from {
            Some(f) => f == 0 || (opening_line >= f - 1 && closing_line >= f - 1),
            None => true,
        };
        let to_ok = match to {
            Some(t) => t >= 1 && opening_line <= t - 1 && closing_line <= t - 1,
            None => true,
        };
        proof {
            assert((from_ok && to_ok) == pair_in_range(all[j as int], from, to));
        }
        let ghost prev = pair_models(out@);
        if from_ok && to_ok {
            out.push((pairs[j].0, pairs[j].1));
            proof {
                assert(pair_models(out@) =~= prev.push(all[j as int]));
                assert(flat_pairs(pair_models(out@)) =~= flat_pairs(prev) + seq![
                    flat_pairs(all)[2 * j],
                    flat_pairs(all)[2 * j + 1],
                ]);
                assert forall|x: int, y: int|
                    0 <= x < flat_pairs(pair_models(out@)).len() && 0 <= y < flat_pairs(
                        pair_models(out@),
                    ).len() && x != y implies spans_disjoint(
                    #[trigger] flat_pairs(pair_models(out@))[x],
                    #[trigger] flat_pairs(pair_models(out@))[y],
                ) by {
                    let fp = flat_pairs(prev);
                    if x >= fp.len() && y >= fp.len() {
                        assert(spans_disjoint(flat_pairs(all)[2 * j], flat_pairs(all)[2 * j + 1]));
                    } else if x >= fp.len() {
                        assert(spans_disjoint(fp[y], flat_pairs(all)[2 * j]) && spans_disjoint(
                            fp[y],
                            flat_pairs(all)[2 * j + 1],
                        ));
                    } else if y >= fp.len() {
                        assert(spans_disjoint(fp[x], flat_pairs(all)[2 * j]) && spans_disjoint(
                            fp[x],
                            flat_pairs(all)[2 * j + 1],
                        ));
                    }
                }
            }
        }
        proof {
            assert(all.subrange(0, j + 1).drop_last() =~= all.subrange(0, j as int));
            assert(all.subrange(0, j + 1).last() == all[j as int]);
            assert(pair_models(out@) =~= filtered_pairs(all.subrange(0, j + 1), from, to));
            assert(cross_ok(pair_models(out@), all, j + 1, n as int)) by {
                assert forall|x: int, t: int|
                    #![trigger flat_pairs(pair_models(out@))[x], flat_pairs(all)[2 * t]]
                    0 <= x < flat_pairs(pair_models(out@)).len() && j + 1 <= t
                        < n implies spans_disjoint(
                    flat_pairs(pair_models(out@))[x],
                    flat_pairs(all)[2 * t],
                ) && spans_disjoint(flat_pairs(pair_models(out@))[x], flat_pairs(all)[2 * t + 1]) by {
                    let fo = flat_pairs(pair_models(out@));
                    let fp = flat_pairs(prev);
                    let fa = flat_pairs(all);
                    assert(fa.len() == 2 * n);
                    if x < fp.len() {
                        assert(fo[x] == fp[x]);
                        assert(spans_disjoint(fp[x], fa[2 * t]) && spans_disjoint(
                            fp[x],
                            fa[2 * t + 1],
                        ));
                    } else {
                        let idx = 2 * j + (x - fp.len());
                        assert(fo[x] == fa[idx]);
                        assert(0 <= idx < fa.len());
                        assert(idx != 2 * t && idx != 2 * t + 1);
                        assert(spans_disjoint(fa[idx], fa[2 * t]));
                        assert(spans_disjoint(fa[idx], fa[2 * t + 1]));
                    }
                }
            }
        }
        j = j + 1;
    }
    proof {
        assert(all.subrange(0, n as int) =~= all);
    }
    out
}

proof fn lemma_insert_span_membership(s: Seq<SpanModel>, d: SpanModel)
    ensures
        insert_span(s, d).len() == s.len() + 1,
        forall|a: int|
            0 <= a < insert_span(s, d).len() ==> (#[trigger] insert_span(s, d)[a] == d
                || s.contains(insert_span(s, d)[a])),
    decreases s.len(),
{
    if s.len() == 0 {
    } else if d.start <= s[0].start {
        assert forall|a: int|
            0 <= a < insert_span(s, d).len() implies (#[trigger] insert_span(s, d)[a] == d
            || s.contains(insert_span(s, d)[a])) by {
            if a > 0 {
                assert(insert_span(s, d)[a] == s[a - 1]);
            }
        }
    } else {
        lemma_insert_span_membership(s.drop_first(), d);
        assert forall|a: int|
            0 <= a < insert_span(s, d).len() implies (#[trigger] insert_span(s, d)[a] == d
            || s.contains(insert_span(s, d)[a])) by {
            if a == 0 {
                assert(insert_span(s, d)[0] == s[0]);
                assert(s.contains(s[0]));
            } else {
                assert(insert_span(s, d)[a] == insert_span(s.drop_first(), d)[a - 1]);
                if insert_span(s.drop_first(), d)[a - 1] != d {
                    let b = choose|b: int|
                        0 <= b < s.drop_first().len() && s.drop_first()[b] == insert_span(
                            s.drop_first(),
                            d,
                        )[a - 1];
                    assert(s[b + 1] == s.drop_first()[b]);
                }
            }
        }
    }
}

/// `x` is the opening or closing span of one of the pairs.
pub open spec fn among_pairs(x: SpanModel, pairs: Seq<(SpanModel, SpanModel)>) -> bool {
    exists|b: int| 0 <= b < pairs.len() && (x == (#[trigger] pairs[b]).0 || x == pairs[b].1)
}

/// `p` is one of the pairs, and lies within the range.
pub open spec fn among_in_range(
    p: (SpanModel, SpanModel),
    pairs: Seq<(SpanModel, SpanModel)>,
    from: Option<usize>,
    to: Option<usize>,
) -> bool {
    exists|b: int|
        0 <= b < pairs.len() && p == #[trigger] pairs[b] && pair_in_range(pairs[b], from, to)
}

/// Every span of the flattened ascending list is the opening or closing
/// span of one of the pairs.
pub proof fn lemma_sorted_spans_membership(pairs: Seq<(SpanModel, SpanModel)>)
    ensures
        sorted_spans(pairs).len() == 2 * pairs.len(),
        forall|a: int|
            0 <= a < sorted_spans(pairs).len() ==> among_pairs(
                #[trigger] sorted_spans(pairs)[a],
                pairs,
            ),
    decreases pairs.len(),
{
    if pairs.len() > 0 {
        lemma_sorted_spans_membership(pairs.drop_last());
        let rest = sorted_spans(pairs.drop_last());
        let mid = insert_span(rest, pairs.last().0);
        lemma_insert_span_membership(rest, pairs.last().0);
        lemma_insert_span_membership(mid, pairs.last().1);
        assert forall|a: int| 0 <= a < sorted_spans(pairs).len() implies among_pairs(
            #[trigger] sorted_spans(pairs)[a],
            pairs,
        ) by {
            let x = sorted_spans(pairs)[a];
            assert(pairs[pairs.len() - 1] == pairs.last());
            if x == pairs.last().1 {
                assert(among_pairs(x, pairs));
            } else {
                assert(mid.contains(x));
                let c = choose|c: int| 0 <= c < mid.len() && mid[c] == x;
                if mid[c] == pairs.last().0 {
                    assert(among_pairs(x, pairs));
                } else {
                    assert(rest.contains(mid[c]));
                    let e = choose|e: int| 0 <= e < rest.len() && rest[e] == mid[c];
                    assert(among_pairs(rest[e], pairs.drop_last()));
                    let b = choose|b: int|
                        0 <= b < pairs.drop_last().len() && (rest[e] == (
                        #[trigger] pairs.drop_last()[b]).0 || rest[e] == pairs.drop_last()[b].1);
                    assert(pairs[b] == pairs.drop_last()[b]);
                    assert(among_pairs(x, pairs));
                }
            }
        }
    }
}

/// Every pair the range filter keeps is one of the scan's pairs, and lies
/// within the range.
pub proof fn lemma_filtered_membership(
    pairs: Seq<(SpanModel, SpanModel)>,
    from: Option<usize>,
    to: Option<usize>,
)
    ensures
        forall|a: int|
            0 <= a < filtered_pairs(pairs, from, to).len() ==> among_in_range(
                #[trigger] filtered_pairs(pairs, from, to)[a],
                pairs,
                from,
                to,
            ),
    decreases pairs.len(),
{
    if pairs.len() > 0 {
        lemma_filtered_membership(pairs.drop_last(), from, to);
        assert forall|a: int| 0 <= a < filtered_pairs(pairs, from, to).len() implies among_in_range(
            #[trigger] filtered_pairs(pairs, from, to)[a],
            pairs,
            from,
            to,
        ) by {
            let f = filtered_pairs(pairs, from, to);
            let fr = filtered_pairs(pairs.drop_last(), from, to);
            if a < fr.len() {
                assert(f[a] == fr[a]);
                assert(among_in_range(fr[a], pairs.drop_last(), from, to));
                let b = choose|b: int|
                    0 <= b < pairs.drop_last().len() && fr[a] == #[trigger] pairs.drop_last()[b]
                        && pair_in_range(pairs.drop_last()[b], from, to);
                assert(pairs[b] == pairs.drop_last()[b]);
                assert(among_in_range(f[a], pairs, from, to));
            } else {
                assert(f[a] == pairs.last() && pair_in_range(pairs.last(), from, to));
                assert(pairs[pairs.len() - 1] == pairs.last());
                assert(among_in_range(f[a], pairs, from, to));
            }
        }
    }
}

/// Every span the result of a successful scan holds lies entirely outside
/// line comments: a command occurrence between an unescaped comment marker
/// and the next newline is never matched, whatever the command set.
pub proof fn lemma_comment_suppression(
    text: Seq<char>,
    cmds: Seq<Seq<char>>,
    from: Option<usize>,
    to: Option<usize>,
)
    requires
        valid_commands(cmds),
    ensures
        find_model(text, cmds, from, to) matches Ok(spans) ==> forall|a: int, t: int|
            #![trigger spans[a], commented_at(cmds, text, t)]
            0 <= a < spans.len() && spans[a].start <= t <= spans[a].end ==> !commented_at(
                cmds,
                text,
                t,
            ),
{
    lemma_scan_well_formed(cmds, text, text.len() as int);
    match scan_pairs(cmds, text) {
        Ok(pairs) => {
            match scan_prefix(cmds, text, text.len() as int) {
                Ok(st) => {
                    assert(flat_pairs(pairs) =~= recorded_spans(st));
                },
                Err(_) => {},
            }
            let spans = sorted_spans(filtered_pairs(pairs, from, to));
            lemma_sorted_spans_membership(filtered_pairs(pairs, from, to));
            lemma_filtered_membership(pairs, from, to);
            assert forall|a: int, t: int|
                #![trigger spans[a], commented_at(cmds, text, t)]
                0 <= a < spans.len() && spans[a].start <= t <= spans[a].end implies !commented_at(
                cmds,
                text,
                t,
            ) by {
                assert(among_pairs(spans[a], filtered_pairs(pairs, from, to)));
                let c = choose|c: int|
                    0 <= c < filtered_pairs(pairs, from, to).len() && (spans[a] == (
                    #[trigger] filtered_pairs(pairs, from, to)[c]).0 || spans[a] == filtered_pairs(
                        pairs,
                        from,
                        to,
                    )[c].1);
                assert(among_in_range(filtered_pairs(pairs, from, to)[c], pairs, from, to));
                let b = choose|b: int|
                    0 <= b < pairs.len() && filtered_pairs(pairs, from, to)[c]
                        == #[trigger] pairs[b] && pair_in_range(pairs[b], from, to);
                assert(flat_pairs(pairs)[2 * b] == pairs[b].0);
                assert(flat_pairs(pairs)[2 * b + 1] == pairs[b].1);
                assert(span_good(pairs[b].0, cmds, text, text.len() as int));
                assert(span_good(pairs[b].1, cmds, text, text.len() as int));
            }
        },
        Err(_) => {},
    }
}

/// A deletion pair whose opening and closing lines do not both lie within
/// the requested range contributes neither of its spans to the result, even
/// if part of its line range overlaps it.
pub proof fn lemma_range_exclusivity(
    text: Seq<char>,
    cmds: Seq<Seq<char>>,
    from: Option<usize>,
    to: Option<usize>,
    b: int,
)
    requires
        valid_commands(cmds),
        scan_pairs(cmds, text) matches Ok(pairs) && 0 <= b < pairs.len() && !pair_in_range(
            pairs[b],
            from,
            to,
        ),
    ensures
        find_model(text, cmds, from, to) matches Ok(spans) ==> !spans.contains(
            scan_pairs(cmds, text)->Ok_0[b].0,
        ) && !spans.contains(scan_pairs(cmds, text)->Ok_0[b].1),
{
    lemma_scan_well_formed(cmds, text, text.len() as int);
    let pairs = scan_pairs(cmds, text)->Ok_0;
    match scan_prefix(cmds, text, text.len() as int) {
        Ok(st) => {
            assert(flat_pairs(pairs) =~= recorded_spans(st));
        },
        Err(_) => {},
    }
    let spans = sorted_spans(filtered_pairs(pairs, from, to));
    lemma_sorted_spans_membership(filtered_pairs(pairs, from, to));
    lemma_filtered_membership(pairs, from, to);
    assert forall|x: SpanModel| #[trigger]
        spans.contains(x) implies x != pairs[b].0 && x != pairs[b].1 by {
        let a = choose|a: int| 0 <= a < spans.len() && spans[a] == x;
        assert(among_pairs(spans[a], filtered_pairs(pairs, from, to)));
        let c = choose|c: int|
            0 <= c < filtered_pairs(pairs, from, to).len() && (spans[a] == (
            #[trigger] filtered_pairs(pairs, from, to)[c]).0 || spans[a] == filtered_pairs(
                pairs,
                from,
                to,
            )[c].1);
        assert(among_in_range(filtered_pairs(pairs, from, to)[c], pairs, from, to));
        let b2 = choose|b2: int|
            0 <= b2 < pairs.len() && filtered_pairs(pairs, from, to)[c] == #[trigger] pairs[b2]
                && pair_in_range(pairs[b2], from, to);
        assert(b2 != b);
        let xi = if x == pairs[b2].0 {
            2 * b2
        } else {
            2 * b2 + 1
        };
        assert(flat_pairs(pairs)[xi] == x);
        assert(span_good(flat_pairs(pairs)[xi], cmds, text, text.len() as int));
        if x == pairs[b].0 {
            assert(flat_pairs(pairs)[2 * b] == x);
            assert(spans_disjoint(flat_pairs(pairs)[xi], flat_pairs(pairs)[2 * b]));
        }
        if x == pairs[b].1 {
            assert(flat_pairs(pairs)[2 * b + 1] == x);
            assert(spans_disjoint(flat_pairs(pairs)[xi], flat_pairs(pairs)[2 * b + 1]));
        }
    }
}

/// Every brace of the document is escaped: it directly follows the escape
/// marker.
pub open spec fn braces_escaped(text: Seq<char>) -> bool {
    forall|i: int|
        0 <= i < text.len() && ((#[trigger] text[i]) == '{' || text[i] == '}') ==> i >= 1 && text[i
            - 1] == '\\'
}

/// What the scan state looks like while an empty command set runs over a
/// document with escaped braces only: nothing is ever opened or recorded,
/// and outside comments the three literal matchers stand together either
/// fresh or one character into a match that began at the escape marker.
spec fn noop_state(st: ScanModel, text: Seq<char>, i: int) -> bool {
    &&& matcher_shape(st.matchers, Seq::empty())
    &&& st.depth == 0
    &&& st.stack.len() == 0
    &&& st.tentative.len() == 0
    &&& st.pairs.len() == 0
    &&& (forall|k: int|
        0 <= k < st.matchers.len() ==> ((#[trigger] st.matchers[k]).start is None
            && st.matchers[k].cur == 0) || (st.matchers[k].start == Some(i - 1)
            && st.matchers[k].cur == 1 && i >= 1 && text[i - 1] == '\\' && !st.commented))
    &&& ((i >= 1 && text[i - 1] == '\\' && !st.commented) ==> forall|k: int|
        0 <= k < st.matchers.len() ==> (#[trigger] st.matchers[k]).start == Some(i - 1)
            && st.matchers[k].cur == 1)
}

proof fn lemma_noop_step(st: ScanModel, text: Seq<char>, i: int)
    requires
        braces_escaped(text),
        noop_state(st, text, i),
        0 <= i < text.len(),
    ensures
        scan_step(st, i, text[i]) matches Ok(st2) && noop_state(st2, text, i + 1),
{
    let c = text[i];
    let st0 = st;
    lemma_shape_text_ok(st.matchers, Seq::empty());
    if st.commented {
        assert(forall|k: int|
            0 <= k < st.matchers.len() ==> (#[trigger] st.matchers[k]).start is None
                && st.matchers[k].cur == 0);
    } else {
        if first_fire(st0.matchers, 0, i, c) is Some {
            lemma_first_fire_some(st0.matchers, 0, i, c);
            let (k, s, l) = first_fire(st0.matchers, 0, i, c)->0;
            assert(!st0.matchers[k].command);
            assert(c != '\\') by {
                let m = st0.matchers[k];
                if m.cur >= m.ptext.len() as int && m.command {
                } else {
                    assert(matcher_step(m, i, c) == matcher_advance(m, i, c));
                }
            }
            assert forall|k2: int| 0 <= k2 < reset_all(st0.matchers).len() implies (
            #[trigger] reset_all(st0.matchers)[k2]).start is None && reset_all(
                st0.matchers,
            )[k2].cur == 0 by {}
        } else {
            lemma_first_fire_none(st0.matchers, 0, i, c);
            if c == '}' || c == '{' {
                assert(i >= 1 && text[i - 1] == '\\');
                let k = if c == '{' {
                    0int
                } else {
                    1int
                };
                let m = st.matchers[k];
                assert(m.cur == 1 && m.start == Some(i - 1));
                assert(m.ptext[1] == c);
                assert(matcher_step(m, i, c) == matcher_advance(m, i, c));
                assert(matcher_step(m, i, c).1 is Some);
                assert(false);
            } else if c == '%' || c == '\n' {
                assert forall|k: int| 0 <= k < step_all(st.matchers, i, c).len() implies (
                #[trigger] step_all(st.matchers, i, c)[k]).start is None && step_all(
                    st.matchers,
                    i,
                    c,
                )[k].cur == 0 by {
                    lemma_structural_reset(st.matchers[k], i, c);
                }
            } else if c == '\\' {
                assert forall|k: int| 0 <= k < step_all(st.matchers, i, c).len() implies (
                #[trigger] step_all(st.matchers, i, c)[k]).start == Some(i) && step_all(
                    st.matchers,
                    i,
                    c,
                )[k].cur == 1 by {
                    let m = st.matchers[k];
                    assert(m.ptext[0] == '\\' && (m.ptext[1] == '{' || m.ptext[1] == '}'
                        || m.ptext[1] == '%'));
                }
            } else {
                assert forall|k: int| 0 <= k < step_all(st.matchers, i, c).len() implies (
                #[trigger] step_all(st.matchers, i, c)[k]).start is None && step_all(
                    st.matchers,
                    i,
                    c,
                )[k].cur == 0 by {
                    let m = st.matchers[k];
                    assert(m.ptext[0] == '\\' && (m.ptext[1] == '{' || m.ptext[1] == '}'
                        || m.ptext[1] == '%'));
                }
            }
        }
    }
}

/// The no-op law: scanning a document whose braces are all escaped with an
/// empty command set succeeds and reports an empty span list, so applying
/// the result leaves the document unchanged.
pub proof fn lemma_noop_scan(text: Seq<char>, from: Option<usize>, to: Option<usize>)
    requires
        braces_escaped(text),
    ensures
        find_model(text, Seq::empty(), from, to) matches Ok(spans) && spans.len() == 0,
{
    lemma_noop_prefix(text, text.len() as int);
    match scan_prefix(Seq::empty(), text, text.len() as int) {
        Ok(st) => {
            assert(scan_pairs(Seq::empty(), text) == Ok::<Seq<(SpanModel, SpanModel)>, ScanIssue>(
                st.pairs,
            ));
            assert(filtered_pairs(st.pairs, from, to) =~= Seq::<(SpanModel, SpanModel)>::empty());
        },
        Err(_) => {
            assert(false);
        },
    }
}

proof fn lemma_noop_prefix(text: Seq<char>, n: int)
    requires
        braces_escaped(text),
        0 <= n <= text.len(),
    ensures
        scan_prefix(Seq::empty(), text, n) matches Ok(st) && noop_state(st, text, n),
    decreases n,
{
    if n == 0 {
        assert(noop_state(init_scan(Seq::empty()), text, 0));
    } else {
        lemma_noop_prefix(text, n - 1);
        match scan_prefix(Seq::empty(), text, n - 1) {
            Ok(st) => {
                lemma_noop_step(st, text, n - 1);
            },
            Err(_) => {
                assert(false);
            },
        }
    }
}

/// A list of well-formed spans that is ordered by start position and has no
/// two spans sharing a character is strictly ascending.
proof fn lemma_sorted_disjoint(s: Seq<SpanModel>)
    requires
        sorted_by_start(s),
        pairwise_disjoint(s),
        forall|a: int| 0 <= a < s.len() ==> (#[trigger] s[a]).wf(),
    ensures
        spans_sorted_disjoint(s),
{
    assert forall|a: int, b: int| 0 <= a < b < s.len() implies s[a].end < s[b].start by {
        assert(spans_disjoint(s[a], s[b]));
        assert(s[a].start <= s[b].start);
    }
}

/// Scan the document once for the requested command invocations and return
/// the ascending list of character spans to delete, or the structural fault
/// that forbids any deletion.
///
/// The spans come in pairs: each recognized command contributes the span of
/// its name through its opening brace and the one-character span of its
/// matching closing brace, kept only when both lie within the optional
/// one-indexed inclusive line range.  On success the list is ascending, its
/// spans are disjoint, each lies on a single line of the document, and none
/// stands inside a line comment; with an empty command set the list is
/// empty.  The fault cases are exactly those of the scan model: an unescaped
/// closing brace at depth zero, a tracked group whose opening span is
/// missing, a document that ends with open groups, and a lower line bound
/// above the upper one.
pub fn find_deletions(text: &str, commands: Vec<&str>, from: Option<usize>, to: Option<usize>) -> (r:
    Result<Vec<Deletion>, ScanError>)
    requires
        valid_commands(command_views(commands@)),
    ensures
        ({
            let cmds = command_views(commands@);
            let bad = from is Some && to is Some && from->0 > to->0;
            &&& (bad ==> (r matches Err(e) && e == ScanError::InvalidRange))
            &&& (!bad ==> match find_model(text@, cmds, from, to) {
                Ok(spans) => r matches Ok(v) && models_of(v@) == spans,
                Err(issue) => r matches Err(e) && error_matches(e, issue, text@),
            })
            &&& (r matches Ok(v) ==> {
                let md = models_of(v@);
                &&& md.len() % 2 == 0
                &&& spans_sorted_disjoint(md)
                &&& spans_in_bounds(md, text@.len() as int)
                &&& spans_good(md, cmds, text@, text@.len() as int)
            })
            &&& (commands@.len() == 0 ==> (r matches Ok(v) ==> v@.len() == 0))
        }),
{
    let ghost cmds = command_views(commands@);
    if let (Some(f), Some(t)) = (from, to) {
        if f > t {
            return Err(ScanError::InvalidRange);
        }
    }
    let chars = str_chars(text);
    let mut patterns = build_patterns(&commands);
    let pairs = match scan_document(&chars, &mut patterns, Ghost(cmds)) {
        Ok(p) => p,
        Err(e) => {
            return Err(e);
        },
    };
    let ghost all = pair_models(pairs@);
    proof {
        assert(scan_pairs(cmds, text@) == Ok::<Seq<(SpanModel, SpanModel)>, ScanIssue>(all));
        lemma_scan_well_formed(cmds, text@, text@.len() as int);
    }
    let filtered = filter_range(&pairs, from, to);
    let ghost fps = pair_models(filtered@);
    proof {
        assert(spans_good(flat_pairs(fps), cmds, text@, text@.len() as int)) by {
            assert forall|x: int| 0 <= x < flat_pairs(fps).len() implies span_good(
                #[trigger] flat_pairs(fps)[x],
                cmds,
                text@,
                text@.len() as int,
            ) by {
                let a = x / 2;
                assert(0 <= a < filtered@.len());
                let b = choose|b: int| 0 <= b < pairs@.len() && filtered@[a] == pairs@[b];
                assert(fps[a] == all[b]);
                assert(flat_pairs(all)[2 * b] == all[b].0 && flat_pairs(all)[2 * b + 1]
                    == all[b].1);
                assert(span_good(flat_pairs(all)[2 * b], cmds, text@, text@.len() as int));
                assert(span_good(flat_pairs(all)[2 * b + 1], cmds, text@, text@.len() as int));
            }
        }
    }
    let mut result: Vec<Deletion> = Vec::new();
    let fl = filtered.len();
    let mut j: usize = 0;
    while j < fl
        invariant
            0 <= j <= fl,
            fl == filtered@.len(),
            fps == pair_models(filtered@),
            spans_good(flat_pairs(fps), cmds, text@, text@.len() as int),
            pairwise_disjoint(flat_pairs(fps)),
            models_of(result@) == sorted_spans(fps.subrange(0, j as int)),
            result@.len() == 2 * j,
            sorted_by_start(models_of(result@)),
            pairwise_disjoint(models_of(result@)),
            forall|a: int|
                #![trigger models_of(result@)[a]]
                0 <= a < result@.len() ==> exists|b: int|
                    0 <= b < flat_pairs(fps).len() && models_of(result@)[a] == #[trigger] flat_pairs(
                        fps,
                    )[b],
            forall|a: int, t: int|
                0 <= a < result@.len() && j <= t < fl ==> spans_disjoint(
                    #[trigger] models_of(result@)[a],
                    #[trigger] fps[t].0,
                ) && spans_disjoint(models_of(result@)[a], fps[t].1),
        decreases fl - j,
    {
        let op = filtered[j].0;
        let cl = filtered[j].1;
        let ghost before = models_of(result@);
        proof {
            assert(op@ == fps[j as int].0 && cl@ == fps[j as int].1);
            assert(flat_pairs(fps)[2 * j] == fps[j as int].0 && flat_pairs(fps)[2 * j + 1]
                == fps[j as int].1);
            assert(forall|t: int|
                0 <= t < before.len() ==> spans_disjoint(#[trigger] before[t], op@));
        }
        insert_deletion(&mut result, op);
        let ghost mid = models_of(result@);
        proof {
            assert(spans_disjoint(fps[j as int].0, fps[j as int].1));
            assert forall|t: int| 0 <= t < mid.len() implies spans_disjoint(
                #[trigger] mid[t],
                cl@,
            ) by {
                if mid[t] == op@ {
                } else {
                    let b = choose|b: int| 0 <= b < before.len() && mid[t] == before[b];
                    assert(spans_disjoint(before[b], fps[j as int].1));
                }
            }
        }
        insert_deletion(&mut result, cl);
        proof {
            assert(fps.subrange(0, j + 1).drop_last() =~= fps.subrange(0, j as int));
            assert(fps.subrange(0, j + 1).last() == fps[j as int]);
            assert(models_of(result@) == sorted_spans(fps.subrange(0, j + 1)));
            assert forall|a: int|
                #![trigger models_of(result@)[a]]
                0 <= a < result@.len() implies exists|b: int|
                0 <= b < flat_pairs(fps).len() && models_of(result@)[a] == #[trigger] flat_pairs(
                    fps,
                )[b] by {
                let x = models_of(result@)[a];
                if x == cl@ {
                    assert(x == flat_pairs(fps)[2 * j + 1]);
                } else {
                    let m = choose|m: int| 0 <= m < mid.len() && x == mid[m];
                    if mid[m] == op@ {
                        assert(x == flat_pairs(fps)[2 * j]);
                    } else {
                        let b0 = choose|b0: int| 0 <= b0 < before.len() && mid[m] == before[b0];
                        assert(exists|b: int|
                            0 <= b < flat_pairs(fps).len() && before[b0] == flat_pairs(fps)[b]);
                    }
                }
            }
            assert forall|a: int, t: int|
                0 <= a < result@.len() && j + 1 <= t < fl implies spans_disjoint(
                #[trigger] models_of(result@)[a],
                #[trigger] fps[t].0,
            ) && spans_disjoint(models_of(result@)[a], fps[t].1) by {
                let x = models_of(result@)[a];
                assert(fps[t].0 == flat_pairs(fps)[2 * t] && fps[t].1 == flat_pairs(fps)[2 * t
                    + 1]);
                if x == cl@ {
                    assert(spans_disjoint(flat_pairs(fps)[2 * j + 1], flat_pairs(fps)[2 * t]));
                    assert(spans_disjoint(flat_pairs(fps)[2 * j + 1], flat_pairs(fps)[2 * t + 1]));
                } else {
                    let m = choose|m: int| 0 <= m < mid.len() && x == mid[m];
                    if mid[m] == op@ {
                        assert(spans_disjoint(flat_pairs(fps)[2 * j], flat_pairs(fps)[2 * t]));
                        assert(spans_disjoint(flat_pairs(fps)[2 * j], flat_pairs(fps)[2 * t + 1]));
                    } else {
                        let b0 = choose|b0: int| 0 <= b0 < before.len() && mid[m] == before[b0];
                        assert(spans_disjoint(before[b0], fps[t].0) && spans_disjoint(
                            before[b0],
                            fps[t].1,
                        ));
                    }
                }
            }
        }
        j = j + 1;
    }
    proof {
        assert(fps.subrange(0, fl as int) =~= fps);
        assert(models_of(result@) == sorted_spans(filtered_pairs(all, from, to)));
        assert forall|a: int| 0 <= a < models_of(result@).len() implies span_good(
            #[trigger] models_of(result@)[a],
            cmds,
            text@,
            text@.len() as int,
        ) by {
            let b = choose|b: int|
                0 <= b < flat_pairs(fps).len() && models_of(result@)[a] == flat_pairs(fps)[b];
            assert(span_good(flat_pairs(fps)[b], cmds, text@, text@.len() as int));
        }
        lemma_sorted_disjoint(models_of(result@));
        if commands@.len() == 0 {
            assert(all.len() == 0);
            assert(fl == 0);
        }
    }
    Ok(result)
}

} // verus!
