use vstd::prelude::*;
use crate::text::{is_ws_char, str_chars, ws_char};

verus! {

/// The two kinds of registered pattern.
#[derive(Clone, Copy, Debug, PartialEq, Eq, Structural)]
pub enum Type {
    /// The pattern text is a command prefix; once it has been consumed the
    /// matcher tolerates a run of non-newline white space and completes on
    /// an opening brace, which the reported length includes.
    Command,
    /// The pattern text is matched literally and completes on its last
    /// character.
    Other,
}

/// Mathematical state of one matcher: the fixed target character sequence,
/// its kind, the position at which the current partial match began, and how
/// many characters the current partial match has consumed.
#[verifier::ext_equal]
pub struct MatcherModel {
    pub ptext: Seq<char>,
    pub command: bool,
    pub start: Option<int>,
    pub cur: int,
}

impl MatcherModel {
    /// The matcher with the same target but no partial match.
    pub open spec fn fresh(self) -> MatcherModel {
        MatcherModel { start: None, cur: 0, ..self }
    }

    /// A partial match is in progress exactly when a start position is
    /// recorded.
    pub open spec fn wf(self) -> bool {
        &&& (self.start is None ==> self.cur == 0)
        &&& (self.start is Some ==> 0 <= self.start->0 && self.cur >= 1)
    }
}

/// One transition of the matcher automaton on the character `c` standing at
/// position `idx`: the successor state, and the completed match, if any, as
/// a pair of its start position and its length in characters.
pub open spec fn matcher_step(m: MatcherModel, idx: int, c: char) -> (MatcherModel, Option<
    (int, int),
>) {
    let len = m.ptext.len() as int;
    if m.cur >= len && m.command {
        if ws_char(c) && c != '\n' {
            (MatcherModel { cur: m.cur + 1, ..m }, None)
        } else if c == '{' {
            (m.fresh(), Some((m.start->0, m.cur + 1)))
        } else {
            matcher_advance(m.fresh(), idx, c)
        }
    } else {
        matcher_advance(m, idx, c)
    }
}

/// The part of the transition that consumes `c` as a character of the target
/// sequence itself, restarting a match at `idx` when the previous partial
/// match breaks on `c` but `c` opens a new one.
pub open spec fn matcher_advance(m: MatcherModel, idx: int, c: char) -> (MatcherModel, Option<
    (int, int),
>) {
    let len = m.ptext.len() as int;
    let m1 = if m.cur < len && m.ptext[m.cur] != c {
        m.fresh()
    } else {
        m
    };
    if m1.cur < len && m1.ptext[m1.cur] == c {
        let s = if m1.start is None {
            idx
        } else {
            m1.start->0
        };
        if m1.cur + 1 == len && !m1.command {
            (m1.fresh(), Some((s, len)))
        } else {
            (MatcherModel { start: Some(s), cur: m1.cur + 1, ..m1 }, None)
        }
    } else {
        (m1.fresh(), None)
    }
}

/// The matcher state after feeding the first `k` characters of `input` one
/// by one, starting at position `base` of the document.
pub open spec fn matcher_run(m: MatcherModel, input: Seq<char>, base: int, k: int) -> MatcherModel
    decreases k,
{
    if k <= 0 {
        m
    } else {
        matcher_step(matcher_run(m, input, base, k - 1), base + k - 1, input[k - 1]).0
    }
}

proof fn lemma_matcher_consumes(ptext: Seq<char>, ws: Seq<char>, base: int, k: int)
    requires
        ptext.len() >= 1,
        forall|t: int| 0 <= t < ws.len() ==> ws_char(#[trigger] ws[t]) && ws[t] != '\n',
        0 <= k <= ptext.len() + ws.len(),
    ensures
        ({
            let m0 = MatcherModel { ptext, command: true, start: None, cur: 0 };
            matcher_run(m0, ptext + ws, base, k) == if k == 0 {
                m0
            } else {
                MatcherModel { ptext, command: true, start: Some(base), cur: k }
            }
        }),
    decreases k,
{
    let m0 = MatcherModel { ptext, command: true, start: None, cur: 0 };
    let input = ptext + ws;
    if k > 0 {
        lemma_matcher_consumes(ptext, ws, base, k - 1);
        let prev = matcher_run(m0, input, base, k - 1);
        let c = input[k - 1];
        if k - 1 < ptext.len() {
            assert(c == ptext[k - 1]);
        } else {
            assert(c == ws[k - 1 - ptext.len()]);
            assert(ws_char(c) && c != '\n');
        }
        assert(matcher_run(m0, input, base, k) == matcher_step(prev, base + k - 1, c).0);
    }
}

/// Whitespace tolerance: a fresh command matcher fed its own target text,
/// then any run of non-newline white space, completes exactly on a
/// following opening brace, reporting the whole consumed stretch; the
/// length of the white space run plays no part.
pub proof fn lemma_whitespace_tolerance(ptext: Seq<char>, ws: Seq<char>, base: int)
    requires
        ptext.len() >= 1,
        forall|t: int| 0 <= t < ws.len() ==> ws_char(#[trigger] ws[t]) && ws[t] != '\n',
    ensures
        ({
            let m0 = MatcherModel { ptext, command: true, start: None, cur: 0 };
            let input = ptext + ws;
            matcher_step(
                matcher_run(m0, input, base, input.len() as int),
                base + input.len(),
                '{',
            ).1 == Some((base, input.len() as int + 1))
        }),
{
    let input = ptext + ws;
    lemma_matcher_consumes(ptext, ws, base, input.len() as int);
}

/// A newline aborts the match: a command matcher that has consumed its
/// target text and some white space abandons its partial match on a
/// newline, and a following run of white space and an opening brace no
/// longer completes anything.
pub proof fn lemma_newline_blocks(ptext: Seq<char>, ws1: Seq<char>, ws2: Seq<char>, base: int)
    requires
        ptext.len() >= 1,
        ptext[0] == '\\',
        forall|t: int| 0 <= t < ws1.len() ==> ws_char(#[trigger] ws1[t]) && ws1[t] != '\n',
        forall|t: int| 0 <= t < ws2.len() ==> ws_char(#[trigger] ws2[t]) && ws2[t] != '\n',
    ensures
        ({
            let m0 = MatcherModel { ptext, command: true, start: None, cur: 0 };
            let input = ptext + ws1 + seq!['\n'] + ws2;
            &&& matcher_run(m0, input, base, input.len() as int).start is None
            &&& matcher_step(
                matcher_run(m0, input, base, input.len() as int),
                base + input.len(),
                '{',
            ).1 is None
        }),
{
    let m0 = MatcherModel { ptext, command: true, start: None, cur: 0 };
    let input = ptext + ws1 + seq!['\n'] + ws2;
    let pw = ptext + ws1;
    let n1 = pw.len() as int;
    assert forall|k: int| 0 <= k <= n1 implies matcher_run(m0, input, base, k) == matcher_run(
        m0,
        pw,
        base,
        k,
    ) by {
        lemma_run_prefix_agrees(m0, input, pw, base, k);
    }
    lemma_matcher_consumes(ptext, ws1, base, n1);
    let after = matcher_step(matcher_run(m0, input, base, n1), base + n1, input[n1]);
    assert(input[n1] == '\n');
    assert(after.0.start is None && after.0.cur == 0) by {
        assert(!('\n' == '{'));
        assert(ptext[0] != '\n');
    }
    assert forall|k: int| n1 + 1 <= k <= input.len() implies matcher_run(m0, input, base, k)
        == (MatcherModel { ptext, command: true, start: None, cur: 0 }) by {
        lemma_fresh_survives_ws(ptext, ws1, ws2, base, k);
    }
    assert(!ws_char('{')) by {
        assert(('{' as int) == 0x7B);
    }
}

proof fn lemma_run_prefix_agrees(
    m0: MatcherModel,
    input: Seq<char>,
    pw: Seq<char>,
    base: int,
    k: int,
)
    requires
        0 <= k <= pw.len() <= input.len(),
        forall|t: int| 0 <= t < pw.len() ==> input[t] == pw[t],
    ensures
        matcher_run(m0, input, base, k) == matcher_run(m0, pw, base, k),
    decreases k,
{
    if k > 0 {
        lemma_run_prefix_agrees(m0, input, pw, base, k - 1);
    }
}

proof fn lemma_fresh_survives_ws(ptext: Seq<char>, ws1: Seq<char>, ws2: Seq<char>, base: int, k: int)
    requires
        ptext.len() >= 1,
        ptext[0] == '\\',
        forall|t: int| 0 <= t < ws1.len() ==> ws_char(#[trigger] ws1[t]) && ws1[t] != '\n',
        forall|t: int| 0 <= t < ws2.len() ==> ws_char(#[trigger] ws2[t]) && ws2[t] != '\n',
        ptext.len() + ws1.len() + 1 <= k <= ptext.len() + ws1.len() + 1 + ws2.len(),
    ensures
        matcher_run(
            MatcherModel { ptext, command: true, start: None, cur: 0 },
            ptext + ws1 + seq!['\n'] + ws2,
            base,
            k,
        ) == (MatcherModel { ptext, command: true, start: None, cur: 0 }),
    decreases k,
{
    let m0 = MatcherModel { ptext, command: true, start: None, cur: 0 };
    let input = ptext + ws1 + seq!['\n'] + ws2;
    let n1 = (ptext + ws1).len() as int;
    if k == n1 + 1 {
        assert forall|t: int| 0 <= t <= n1 implies matcher_run(m0, input, base, t) == matcher_run(
            m0,
            ptext + ws1,
            base,
            t,
        ) by {
            lemma_run_prefix_agrees(m0, input, ptext + ws1, base, t);
        }
        lemma_matcher_consumes(ptext, ws1, base, n1);
        assert(input[n1] == '\n');
        assert(ptext[0] != '\n');
    } else {
        lemma_fresh_survives_ws(ptext, ws1, ws2, base, k - 1);
        let c = input[k - 1];
        assert(c == ws2[k - 1 - n1 - 1]);
        assert(ws_char(c));
        assert(c != '\\') by {
            assert(!ws_char('\\')) by {
                assert(('\\' as int) == 0x5C);
            }
        }
        assert(ptext[0] != c);
    }
}

/// A completed match reported by the executable matcher, as a mathematical
/// value.
pub open spec fn fire_model(r: Option<(usize, usize)>) -> Option<(int, int)> {
    match r {
        Some((s, l)) => Some((s as int, l as int)),
        None => None,
    }
}

/// Matcher state for one registered pattern: a cursor over a fixed target
/// character sequence plus the position at which the current partial match
/// began, used to detect the pattern in a single forward pass.
pub struct Pattern {
    text: Vec<char>,
    start: Option<usize>,
    current: usize,
    typ: Type,
}

impl View for Pattern {
    type V = MatcherModel;

    closed spec fn view(&self) -> MatcherModel {
        MatcherModel {
            ptext: self.text@,
            command: self.typ is Command,
            start: match self.start {
                Some(s) => Some(s as int),
                None => None,
            },
            cur: self.current as int,
        }
    }
}

impl Pattern {
    pub fn new(text: &str, typ: Type) -> (p: Self)
        ensures
            p@ == (MatcherModel {
                ptext: text@,
                command: typ is Command,
                start: None,
                cur: 0,
            }),
    {
        Pattern { text: str_chars(text), start: None, current: 0, typ }
    }

    /// Length of the target character sequence.
    pub fn len(&self) -> (n: usize)
        ensures
            n == self@.ptext.len(),
    {
        self.text.len()
    }

    /// Whether this matcher recognizes a command invocation rather than a
    /// literal sequence.
    pub fn is_command(&self) -> (b: bool)
        ensures
            b == self@.command,
    {
        self.typ == Type::Command
    }

    /// Abandon the current partial match.
    pub fn reset(&mut self)
        ensures
            final(self)@ == old(self)@.fresh(),
    {
        self.start = None;
        self.current = 0;
    }

    /// Feed the character `c` standing at position `idx` to the matcher.
    /// A completed match is reported as the position where it began and its
    /// length in characters.
    pub fn next(&mut self, idx: usize, c: char) -> (r: Option<(usize, usize)>)
        requires
            old(self)@.wf(),
            old(self)@.ptext.len() >= 1,
            old(self)@.cur < usize::MAX,
        ensures
            final(self)@ == matcher_step(old(self)@, idx as int, c).0,
            fire_model(r) == matcher_step(old(self)@, idx as int, c).1,
            final(self)@.wf(),
            final(self)@.ptext == old(self)@.ptext,
            final(self)@.command == old(self)@.command,
    {
        if self.current >= self.text.len() && self.typ == Type::Command {
            if is_ws_char(c) && c != '\n' {
                self.current = self.current + 1;
                return None;
            } else if c == '{' {
                let s = self.start.unwrap();
                let l = self.current + 1;
                self.reset();
                return Some((s, l));
            } else {
                self.reset();
            }
        }

        if self.current < self.text.len() && self.text[self.current] != c {
            self.reset();
        }

        if self.current < self.text.len() && self.text[self.current] == c {
            if self.start.is_none() {
                self.start = Some(idx);
            }
            self.current = self.current + 1;
            if self.current == self.text.len() && self.typ != Type::Command {
                let s = self.start.unwrap();
                let l = self.text.len();
                self.reset();
                Some((s, l))
            } else {
                None
            }
        } else {
            self.reset();
            None
        }
    }
}

} // verus!
