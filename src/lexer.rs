use vstd::prelude::*;

use crate::ast::Span;
use crate::matchers::{is_white_space, white_space, specific_complaint, AnyChar, CharMatcher, Matcher, SpecificChar};

verus! {

/// A line and column in the source text, both counted from zero.
#[derive(Clone, Copy, Debug, Default, PartialEq, Eq, Structural)]
pub struct CharIndex {
    pub line: usize,
    pub column: usize,
}

/// Where spans lie: from two counts of characters ahead of some cursor, the
/// start and end positions of the span between them.
pub type Placement = spec_fn(nat, nat) -> ((nat, nat), (nat, nat));

/// `at` seen from `d` characters further on.
pub open spec fn shift_at(at: Placement, d: nat) -> Placement {
    |from: nat, to: nat| at(d + from, d + to)
}

/// The position reached from `p` by reading `c`.
pub open spec fn step(p: (nat, nat), c: char) -> (nat, nat) {
    if c == '\n' {
        (p.0 + 1, 0)
    } else {
        (p.0, p.1 + 1)
    }
}

/// The position of offset `i` of `text` (in characters).
pub open spec fn location(text: Seq<char>, i: int) -> (nat, nat)
    decreases i,
{
    if i <= 0 {
        (0, 0)
    } else {
        step(location(text, i - 1), text[i - 1])
    }
}

pub proof fn lemma_location_bound(text: Seq<char>, i: int)
    requires
        0 <= i,
    ensures
        location(text, i).0 + location(text, i).1 <= i,
    decreases i,
{
    if i > 0 {
        lemma_location_bound(text, i - 1);
    }
}

impl CharIndex {
    pub open spec fn at(self) -> (nat, nat) {
        (self.line as nat, self.column as nat)
    }

    /// The position `n` columns further on the same line.
    pub fn advance_num(&self, n: usize) -> (r: Self)
        requires
            self.column + n <= usize::MAX,
        ensures
            r.line == self.line,
            r.column == self.column + n,
    {
        CharIndex { line: self.line, column: self.column + n }
    }

    /// The position after reading `c`: the next line after a newline, the
    /// next column otherwise.
    pub fn advance(&self, c: char) -> (r: Self)
        requires
            c == '\n' ==> self.line < usize::MAX,
            c != '\n' ==> self.column < usize::MAX,
        ensures
            r.at() == step(self.at(), c),
    {
        if c == '\n' {
            CharIndex { line: self.line + 1, column: 0 }
        } else {
            CharIndex { line: self.line, column: self.column + 1 }
        }
    }
}

/// Whether a character source hands out whitespace or skips over it.
#[derive(Clone, Copy, Debug, PartialEq, Eq, Structural)]
pub enum WhitespaceMode {
    Skip,
    Allow,
}

/// Whether a source in `mode` hands out `c` rather than skipping it.
pub open spec fn drawn(mode: WhitespaceMode, c: char) -> bool {
    !(mode == WhitespaceMode::Skip && is_white_space(c))
}

/// The first offset at or after `i` whose character is handed out, or the
/// length of the text where there is none.
pub open spec fn next_drawn(text: Seq<char>, mode: WhitespaceMode, i: nat) -> nat
    decreases text.len() - i,
{
    if i >= text.len() {
        text.len()
    } else if drawn(mode, text[i as int]) {
        i
    } else {
        next_drawn(text, mode, i + 1)
    }
}

/// The characters handed out from offset `i` on.
pub open spec fn drawn_from(text: Seq<char>, mode: WhitespaceMode, i: nat) -> Seq<char>
    decreases text.len() - i,
{
    if i >= text.len() {
        Seq::empty()
    } else if drawn(mode, text[i as int]) {
        seq![text[i as int]].add(drawn_from(text, mode, i + 1))
    } else {
        drawn_from(text, mode, i + 1)
    }
}

pub proof fn lemma_next_drawn(text: Seq<char>, mode: WhitespaceMode, i: nat)
    ensures
        i <= next_drawn(text, mode, i) <= text.len() || (i > text.len() && next_drawn(
            text,
            mode,
            i,
        ) == text.len()),
        next_drawn(text, mode, i) < text.len() ==> drawn(
            mode,
            text[next_drawn(text, mode, i) as int],
        ),
        drawn_from(text, mode, i) == drawn_from(text, mode, next_drawn(text, mode, i)),
    decreases text.len() - i,
{
    if i < text.len() && !drawn(mode, text[i as int]) {
        lemma_next_drawn(text, mode, i + 1);
    }
}

/// A source of characters, each tagged with its position in the text.
#[derive(Clone, Copy)]
pub struct IndexedCharIter<'a> {
    text: &'a str,
    len: usize,
    pos: usize,
    index: CharIndex,
    whitespace: WhitespaceMode,
}

impl<'a> IndexedCharIter<'a> {
    /// The whole text that the source reads.
    pub closed spec fn text(&self) -> Seq<char> {
        self.text@
    }

    /// The offset of the next character to be read.
    pub closed spec fn offset(&self) -> nat {
        self.pos as nat
    }

    pub closed spec fn mode(&self) -> WhitespaceMode {
        self.whitespace
    }

    pub closed spec fn wf(&self) -> bool {
        &&& self.len == self.text@.len()
        &&& self.pos <= self.len
        &&& self.index.at() == location(self.text@, self.pos as int)
    }

    /// The characters that are still to be handed out.
    pub open spec fn remaining(&self) -> Seq<char> {
        drawn_from(self.text(), self.mode(), self.offset())
    }

    pub proof fn lemma_wf(&self)
        requires
            self.wf(),
        ensures
            self.offset() <= self.text().len() <= usize::MAX,
    {
    }

    /// A source over `text` that skips whitespace.
    pub fn new(text: &'a str) -> (r: Self)
        ensures
            r.wf(),
            r.text() == text@,
            r.offset() == 0,
            r.mode() == WhitespaceMode::Skip,
    {
        IndexedCharIter {
            text,
            len: text.unicode_len(),
            pos: 0,
            index: CharIndex { line: 0, column: 0 },
            whitespace: WhitespaceMode::Skip,
        }
    }

    /// A source over `text` that skips whitespace or hands it out, as `mode`
    /// says.
    pub fn with_mode(text: &'a str, mode: WhitespaceMode) -> (r: Self)
        ensures
            r.wf(),
            r.text() == text@,
            r.offset() == 0,
            r.mode() == mode,
    {
        IndexedCharIter {
            text,
            len: text.unicode_len(),
            pos: 0,
            index: CharIndex { line: 0, column: 0 },
            whitespace: mode,
        }
    }

    /// The position of the next character to be read.
    pub fn index(&self) -> (r: CharIndex)
        requires
            self.wf(),
        ensures
            r.at() == location(self.text(), self.offset() as int),
    {
        self.index
    }

    /// Hands out the next character and its position, skipping what the mode
    /// says to skip; positions count skipped characters too.
    pub fn next(&mut self) -> (r: Option<(CharIndex, char)>)
        requires
            old(self).wf(),
        ensures
            final(self).wf(),
            final(self).text() == old(self).text(),
            final(self).mode() == old(self).mode(),
            ({
                let j = next_drawn(old(self).text(), old(self).mode(), old(self).offset());
                match r {
                    Some((idx, c)) => {
                        &&& j < old(self).text().len()
                        &&& c == old(self).text()[j as int]
                        &&& idx.at() == location(old(self).text(), j as int)
                        &&& final(self).offset() == j + 1
                    },
                    None => {
                        &&& j == old(self).text().len()
                        &&& final(self).offset() == j
                    },
                }
            }),
    {
        let ghost j = next_drawn(self.text@, self.whitespace, self.pos as nat);
        loop
            invariant
                self.wf(),
                self.text == old(self).text,
                self.whitespace == old(self).whitespace,
                old(self).pos <= self.pos,
                j == next_drawn(self.text@, self.whitespace, self.pos as nat),
                j == next_drawn(old(self).text@, old(self).whitespace, old(self).pos as nat),
            decreases self.len - self.pos,
        {
            if self.pos >= self.len {
                return None;
            }
            let c = self.text.get_char(self.pos);
            let here = self.index;
            proof {
                lemma_location_bound(self.text@, self.pos as int);
            }
            self.index = self.index.advance(c);
            self.pos = self.pos + 1;
            if self.whitespace == WhitespaceMode::Skip && white_space(c) {
                continue;
            }
            return Some((here, c));
        }
    }
}

/// The number of drawn characters from the cursor `c` up to the end of a span
/// that began at `s`: the offset just after the last drawn character before
/// `c`, or `s` where there is none.
pub open spec fn span_end(text: Seq<char>, mode: WhitespaceMode, s: nat, c: nat) -> nat
    decreases c - s,
{
    if c <= s {
        s
    } else if drawn(mode, text[c - 1]) {
        c
    } else {
        span_end(text, mode, s, (c - 1) as nat)
    }
}

/// The cursor reached from the cursor `c` after consuming `k` drawn characters.
pub open spec fn skip_drawn(text: Seq<char>, mode: WhitespaceMode, c: nat, k: nat) -> nat
    decreases k,
{
    if k == 0 || c >= text.len() {
        c
    } else {
        skip_drawn(text, mode, next_drawn(text, mode, c + 1), (k - 1) as nat)
    }
}

/// The lookahead of a cursor: the next character and its position, or the
/// position of the end of the text.
#[derive(Clone, Copy, Debug, PartialEq, Eq, Structural)]
enum PeekState {
    Present(CharIndex, char),
    Eof(CharIndex),
}

/// Where a cursor's input ends: at the end of the text, or before the first
/// character that a matcher accepts.
#[derive(Clone, Copy, Debug, PartialEq, Eq, Structural)]
pub enum LexerType {
    UntilEof,
    UntilEnd(Matcher),
}

impl LexerType {
    pub open spec fn stops_at(self, c: char) -> bool {
        match self {
            LexerType::UntilEof => false,
            LexerType::UntilEnd(m) => m.spec_accepts(c),
        }
    }
}

/// The length of the longest prefix of `w` whose characters neither `ty` nor
/// `m` stops at.
pub open spec fn stop_index(w: Seq<char>, ty: LexerType, m: Matcher) -> nat
    decreases w.len(),
{
    if w.len() == 0 || ty.stops_at(w[0]) || m.spec_accepts(w[0]) {
        0
    } else {
        1 + stop_index(w.drop_first(), ty, m)
    }
}

/// A cursor over a character source with one character of lookahead, which
/// keeps the span of what it consumed since the span was last reset.
#[derive(Clone, Copy)]
pub struct LexerStream<'a> {
    chars: IndexedCharIter<'a>,
    peek: PeekState,
    ty: LexerType,
    start: CharIndex,
    end: CharIndex,
    from: Ghost<nat>,
}

impl<'a> LexerStream<'a> {
    pub closed spec fn text(&self) -> Seq<char> {
        self.chars.text()
    }

    pub closed spec fn mode(&self) -> WhitespaceMode {
        self.chars.mode()
    }

    pub closed spec fn ty(&self) -> LexerType {
        self.ty
    }

    /// The offset of the lookahead character, or the length of the text.
    pub closed spec fn cursor(&self) -> nat {
        match self.peek {
            PeekState::Present(_, _) => (self.chars.offset() - 1) as nat,
            PeekState::Eof(_) => self.chars.offset(),
        }
    }

    /// The offset where the current span began.
    pub closed spec fn span_from(&self) -> nat {
        self.from@
    }

    pub closed spec fn wf(&self) -> bool {
        &&& self.chars.wf()
        &&& match self.peek {
            PeekState::Present(idx, c) => {
                &&& self.chars.offset() >= 1
                &&& drawn(self.mode(), self.text()[self.cursor() as int])
                &&& c == self.text()[self.cursor() as int]
                &&& idx.at() == location(self.text(), self.cursor() as int)
            },
            PeekState::Eof(idx) => {
                &&& self.chars.offset() == self.text().len()
                &&& idx.at() == location(self.text(), self.cursor() as int)
            },
        }
        &&& self.from@ <= self.cursor()
        &&& self.from@ == next_drawn(self.text(), self.mode(), self.from@)
        &&& self.start.at() == location(self.text(), self.from@ as int)
        &&& self.end.at() == location(
            self.text(),
            span_end(self.text(), self.mode(), self.from@, self.cursor()) as int,
        )
    }

    /// The start and end positions of the current span.
    pub open spec fn span_at(&self) -> ((nat, nat), (nat, nat)) {
        (
            location(self.text(), self.span_from() as int),
            location(
                self.text(),
                span_end(self.text(), self.mode(), self.span_from(), self.cursor()) as int,
            ),
        )
    }

    /// The positions of the span that covers the characters ahead from the
    /// `from`-th to just before the `to`-th (counted from the lookahead).
    pub open spec fn region_of(&self, from: nat, to: nat) -> ((nat, nat), (nat, nat)) {
        let a = skip_drawn(self.text(), self.mode(), self.cursor(), from);
        let b = skip_drawn(self.text(), self.mode(), self.cursor(), to);
        (
            location(self.text(), a as int),
            location(self.text(), span_end(self.text(), self.mode(), a, b) as int),
        )
    }

    /// `region_of` as a function.
    pub open spec fn placement(&self) -> Placement {
        |from: nat, to: nat| self.region_of(from, to)
    }

    /// The characters ahead of the cursor, regardless of where its input ends.
    pub open spec fn ahead(&self) -> Seq<char> {
        drawn_from(self.text(), self.mode(), self.cursor())
    }

    /// Whether the cursor's input is used up.
    pub open spec fn at_end(&self) -> bool {
        self.ahead().len() == 0 || self.ty().stops_at(self.ahead()[0])
    }

    /// The position of the lookahead character, or of the end of the text.
    pub open spec fn here(&self) -> (nat, nat) {
        location(self.text(), self.cursor() as int)
    }

    /// How many characters were consumed between `before` and `self`.
    pub open spec fn taken(&self, before: &Self) -> nat {
        (before.ahead().len() - self.ahead().len()) as nat
    }

    /// `self` is `before` after some characters were consumed.
    pub open spec fn moved_on(&self, before: &Self) -> bool {
        self.consumed(before, self.taken(before))
    }

    /// `self` is `before` after `k` characters were consumed.
    pub open spec fn consumed(&self, before: &Self, k: nat) -> bool {
        &&& self.wf()
        &&& self.text() == before.text()
        &&& self.mode() == before.mode()
        &&& self.ty() == before.ty()
        &&& self.span_from() == before.span_from()
        &&& k <= before.ahead().len()
        &&& self.cursor() == skip_drawn(before.text(), before.mode(), before.cursor(), k)
        &&& self.ahead() == before.ahead().skip(k as int)
    }

    pub proof fn lemma_wf(&self)
        requires
            self.wf(),
        ensures
            self.cursor() <= self.text().len() <= usize::MAX,
            self.cursor() == next_drawn(self.text(), self.mode(), self.cursor()),
            self.ahead().len() > 0 <==> self.cursor() < self.text().len(),
            self.cursor() < self.text().len() ==> self.ahead()[0] == self.text()[self.cursor() as int],
            self.cursor() < self.text().len() ==> self.ahead().drop_first() == drawn_from(
                self.text(),
                self.mode(),
                self.cursor() + 1,
            ),
    {
        self.chars.lemma_wf();
        reveal_with_fuel(next_drawn, 2);
        assert(self.ahead().len() > 0 ==> self.cursor() < self.text().len());
        if self.cursor() < self.text().len() {
            assert(drawn_from(self.text(), self.mode(), self.cursor()) == seq![self.text()[self.cursor() as int]].add(drawn_from(self.text(), self.mode(), self.cursor() + 1)));
            assert(self.ahead().drop_first() =~= drawn_from(self.text(), self.mode(), self.cursor() + 1));
        }
    }
}

pub proof fn lemma_skip_drawn_add(text: Seq<char>, mode: WhitespaceMode, c: nat, k1: nat, k2: nat)
    ensures
        skip_drawn(text, mode, c, k1 + k2) == skip_drawn(
            text,
            mode,
            skip_drawn(text, mode, c, k1),
            k2,
        ),
    decreases k1,
{
    if k1 > 0 && c < text.len() {
        lemma_skip_drawn_add(text, mode, next_drawn(text, mode, c + 1), (k1 - 1) as nat, k2);
    } else if c >= text.len() {
        lemma_skip_drawn_past(text, mode, c, k2);
    }
}

pub proof fn lemma_skip_drawn_past(text: Seq<char>, mode: WhitespaceMode, c: nat, k: nat)
    requires
        c >= text.len(),
    ensures
        skip_drawn(text, mode, c, k) == c,
{
}

/// Past a drawn character at `c`, the span ends just after it until the next
/// drawn character is consumed.
pub proof fn lemma_span_end_after(text: Seq<char>, mode: WhitespaceMode, s: nat, c: nat, j: nat)
    requires
        s <= c < text.len(),
        drawn(mode, text[c as int]),
        c + 1 <= j <= next_drawn(text, mode, c + 1),
    ensures
        span_end(text, mode, s, j) == c + 1,
    decreases j - c,
{
    if j > c + 1 {
        lemma_next_drawn_skips(text, mode, c + 1, (j - 1) as nat);
        lemma_span_end_after(text, mode, s, c, (j - 1) as nat);
    }
}

/// Every offset between `i` and the next drawn one is skipped.
pub proof fn lemma_next_drawn_skips(text: Seq<char>, mode: WhitespaceMode, i: nat, j: nat)
    requires
        i <= j < next_drawn(text, mode, i),
    ensures
        j < text.len(),
        !drawn(mode, text[j as int]),
    decreases j - i,
{
    if i < text.len() && !drawn(mode, text[i as int]) && j > i {
        lemma_next_drawn_skips(text, mode, i + 1, j);
    }
}

/// A span's end does not depend on where it began, once a drawn character
/// after both beginnings has been consumed.
pub proof fn lemma_span_end_from(text: Seq<char>, mode: WhitespaceMode, s1: nat, s2: nat, c: nat)
    requires
        s1 <= s2 < c <= text.len(),
        drawn(mode, text[s2 as int]),
    ensures
        span_end(text, mode, s1, c) == span_end(text, mode, s2, c),
    decreases c,
{
    if !drawn(mode, text[c - 1]) {
        lemma_span_end_from(text, mode, s1, s2, (c - 1) as nat);
    }
}

pub proof fn lemma_stop_index(w: Seq<char>, ty: LexerType, m: Matcher, k: nat)
    requires
        k <= w.len(),
        forall|i: int| 0 <= i < k ==> !ty.stops_at(w[i]) && !m.spec_accepts(w[i]),
        k == w.len() || ty.stops_at(w[k as int]) || m.spec_accepts(w[k as int]),
    ensures
        stop_index(w, ty, m) == k,
    decreases k,
{
    if k > 0 {
        assert forall|i: int| 0 <= i < k - 1 implies !ty.stops_at(w.drop_first()[i])
            && !m.spec_accepts(w.drop_first()[i]) by {
            assert(w.drop_first()[i] == w[i + 1]);
        }
        lemma_stop_index(w.drop_first(), ty, m, (k - 1) as nat);
    }
}

/// Which way reading from a character source failed.
#[derive(Debug)]
pub enum LexerErrorType {
    /// The character found (if any) and a description of what was expected.
    IncorrectChar(Option<char>, String),
    EOF,
}

/// A failure to read from a cursor, with the position where it happened.
#[derive(Debug)]
pub struct LexerError {
    pub err: LexerErrorType,
    pub position: CharIndex,
}

pub type LexerResult<T> = Result<T, LexerError>;

impl LexerError {
    /// Whether this is an end of input at the position `p`.
    pub open spec fn is_eof_at(&self, p: (nat, nat)) -> bool {
        self.err is EOF && self.position.at() == p
    }

    /// Whether this is the character `got` found at `p` where a matcher
    /// expected what `s` describes.
    pub open spec fn is_incorrect_at(&self, got: char, s: Seq<char>, p: (nat, nat)) -> bool {
        &&& self.position.at() == p
        &&& match self.err {
            LexerErrorType::IncorrectChar(g, d) => g == Some(got) && d@ == s,
            LexerErrorType::EOF => false,
        }
    }

    pub fn is_eof(&self) -> (r: bool)
        ensures
            r == self.err is EOF,
    {
        match self.err {
            LexerErrorType::EOF => true,
            _ => false,
        }
    }

    pub fn eof(position: CharIndex) -> (r: Self)
        ensures
            r.err is EOF,
            r.position == position,
    {
        LexerError { err: LexerErrorType::EOF, position }
    }

    pub fn incorrect_char(got: Option<char>, position: CharIndex, expected: String) -> (r: Self)
        ensures
            r.err == LexerErrorType::IncorrectChar(got, expected),
            r.position == position,
    {
        LexerError { err: LexerErrorType::IncorrectChar(got, expected), position }
    }

    pub fn position(&self) -> (r: CharIndex)
        ensures
            r == self.position,
    {
        self.position
    }
}

impl<'a> LexerStream<'a> {
    /// A cursor over the characters that `chars` has still to hand out.
    pub fn new(chars: IndexedCharIter<'a>) -> (r: Self)
        requires
            chars.wf(),
        ensures
            r.wf(),
            r.text() == chars.text(),
            r.mode() == chars.mode(),
            r.ty() == LexerType::UntilEof,
            r.cursor() == next_drawn(chars.text(), chars.mode(), chars.offset()),
            r.span_from() == r.cursor(),
            r.ahead() == chars.remaining(),
    {
        let mut chars = chars;
        let ghost before = chars;
        let peek = match chars.next() {
            Some((idx, c)) => PeekState::Present(idx, c),
            None => PeekState::Eof(chars.index()),
        };
        let here = match peek {
            PeekState::Present(idx, _) => idx,
            PeekState::Eof(idx) => idx,
        };
        let r = LexerStream {
            chars,
            peek,
            ty: LexerType::UntilEof,
            start: here,
            end: here,
            from: Ghost(next_drawn(before.text(), before.mode(), before.offset())),
        };
        proof {
            lemma_next_drawn(before.text(), before.mode(), before.offset());
            let j = next_drawn(before.text(), before.mode(), before.offset());
            if j < before.text().len() {
                lemma_next_drawn(before.text(), before.mode(), j);
            }
        }
        r
    }

    /// The region consumed since the span was last reset.
    pub fn span(&self) -> (r: Span)
        requires
            self.wf(),
        ensures
            r.start.at() == location(self.text(), self.span_from() as int),
            r.end.at() == location(
                self.text(),
                span_end(self.text(), self.mode(), self.span_from(), self.cursor()) as int,
            ),
    {
        Span { start: self.start, end: self.end }
    }

    /// The next character of the input and its position, without consuming it.
    pub fn peek(&self) -> (r: LexerResult<(CharIndex, char)>)
        requires
            self.wf(),
        ensures
            self.ahead().len() > 0 ==> r is Ok && r->Ok_0.0.at() == self.here() && r->Ok_0.1
                == self.ahead()[0],
            self.ahead().len() == 0 ==> r is Err && r->Err_0.is_eof_at(self.here()),
    {
        proof {
            self.lemma_wf();
        }
        match self.peek {
            PeekState::Present(idx, c) => Ok((idx, c)),
            PeekState::Eof(idx) => Err(LexerError::eof(idx)),
        }
    }

    /// Whether the input is used up: no character remains, or the next one
    /// is where a bounded cursor ends.
    pub fn is_finished(&self) -> (r: bool)
        requires
            self.wf(),
        ensures
            r == self.at_end(),
    {
        proof {
            self.lemma_wf();
        }
        match self.peek {
            PeekState::Present(_, c) => match self.ty {
                LexerType::UntilEnd(m) => m.is_match(c).is_ok(),
                LexerType::UntilEof => false,
            },
            PeekState::Eof(_) => true,
        }
    }

    /// The position of the next character of the text, or of its end.
    pub fn position(&self) -> (r: CharIndex)
        requires
            self.wf(),
        ensures
            r.at() == self.here(),
    {
        match self.peek {
            PeekState::Present(idx, _) => idx,
            PeekState::Eof(idx) => idx,
        }
    }

    /// Consumes the next character if `m` accepts it. At the end of the input
    /// this fails with an end of input, and on a character that `m` refuses
    /// with an incorrect character; either way nothing is consumed.
    pub fn advance<C: CharMatcher>(&mut self, m: &C) -> (r: LexerResult<char>)
        requires
            old(self).wf(),
        ensures
            old(self).at_end() ==> *final(self) == *old(self) && r is Err && r->Err_0.is_eof_at(
                old(self).here(),
            ),
            !old(self).at_end() && !m.accepts(old(self).ahead()[0]) ==> *final(self) == *old(self)
                && r is Err && r->Err_0.is_incorrect_at(
                old(self).ahead()[0],
                m.complaint(old(self).ahead()[0]),
                old(self).here(),
            ),
            !old(self).at_end() && m.accepts(old(self).ahead()[0]) ==> r is Ok && r->Ok_0
                == old(self).ahead()[0] && final(self).consumed(old(self), 1),
    {
        proof {
            self.lemma_wf();
        }
        let (idx, c) = match self.peek() {
            Ok(p) => p,
            Err(e) => return Err(e),
        };
        if let LexerType::UntilEnd(b) = self.ty {
            if b.is_match(c).is_ok() {
                return Err(LexerError::eof(idx));
            }
        }
        if let Err(s) = m.is_match(c) {
            return Err(LexerError::incorrect_char(Some(c), idx, s));
        }
        let ghost before = *self;
        proof {
            lemma_location_bound(self.text(), self.cursor() as int);
        }
        let next = self.chars.next();
        self.peek = match next {
            Some((i, ch)) => PeekState::Present(i, ch),
            None => PeekState::Eof(self.chars.index()),
        };
        self.end = idx.advance(c);
        proof {
            let t = before.text();
            let md = before.mode();
            let c0 = before.cursor();
            let j = next_drawn(t, md, c0 + 1);
            lemma_next_drawn(t, md, c0 + 1);
            if j < t.len() {
                lemma_next_drawn(t, md, j);
            }
            assert(self.cursor() == j);
            lemma_span_end_after(t, md, before.span_from(), c0, j);
            reveal_with_fuel(skip_drawn, 2);
            assert(skip_drawn(t, md, c0, 1) == j);
            assert(self.ahead() =~= before.ahead().skip(1));
        }
        Ok(c)
    }

    /// Consumes the next character if it is `c`.
    pub fn eat(&mut self, c: char) -> (r: LexerResult<char>)
        requires
            old(self).wf(),
        ensures
            old(self).at_end() ==> *final(self) == *old(self) && r is Err && r->Err_0.is_eof_at(
                old(self).here(),
            ),
            !old(self).at_end() && old(self).ahead()[0] != c ==> *final(self) == *old(self)
                && r is Err && r->Err_0.is_incorrect_at(
                old(self).ahead()[0],
                specific_complaint(old(self).ahead()[0], c),
                old(self).here(),
            ),
            !old(self).at_end() && old(self).ahead()[0] == c ==> r is Ok && r->Ok_0 == c
                && final(self).consumed(old(self), 1),
    {
        self.advance(&SpecificChar { expected: c })
    }
}

impl<'a> LexerStream<'a> {
    /// Consuming `k1` and then `k2` characters is consuming `k1 + k2`.
    pub proof fn lemma_consumed_trans(a: &Self, b: &Self, c: &Self, k1: nat, k2: nat)
        requires
            b.consumed(a, k1),
            c.consumed(b, k2),
        ensures
            c.consumed(a, k1 + k2),
    {
        lemma_skip_drawn_add(a.text(), a.mode(), a.cursor(), k1, k2);
        assert(c.ahead() =~= a.ahead().skip((k1 + k2) as int));
    }

    pub proof fn lemma_consumed_none(a: &Self)
        requires
            a.wf(),
        ensures
            a.consumed(a, 0),
    {
        assert(a.ahead() =~= a.ahead().skip(0));
    }

    /// The offset of the lookahead character, or the length of the text.
    fn offset(&self) -> (r: usize)
        requires
            self.wf(),
        ensures
            r == self.cursor(),
    {
        match self.peek {
            PeekState::Present(_, _) => self.chars.pos - 1,
            PeekState::Eof(_) => self.chars.pos,
        }
    }

    /// Splits off the input up to the first character that `m` accepts: the
    /// cursor returned starts where `self` stands and ends before that
    /// character, and `self` moves on to it (or to the end of its own input).
    pub fn eat_until<C: CharMatcher>(&mut self, m: &C) -> (r: LexerResult<LexerStream<'a>>)
        requires
            old(self).wf(),
        ensures
            r is Ok,
            ({
                let sub = r->Ok_0;
                &&& sub.wf()
                &&& sub.text() == old(self).text()
                &&& sub.mode() == old(self).mode()
                &&& sub.cursor() == old(self).cursor()
                &&& sub.span_from() == old(self).span_from()
                &&& sub.ty() is UntilEnd
                &&& forall|c: char| (sub.ty()->UntilEnd_0).spec_accepts(c) == m.accepts(c)
                &&& final(self).consumed(
                    old(self),
                    stop_index(old(self).ahead(), old(self).ty(), sub.ty()->UntilEnd_0),
                )
            }),
    {
        let d = m.dynamic();
        let sub = LexerStream {
            chars: self.chars,
            peek: self.peek,
            ty: LexerType::UntilEnd(d),
            start: self.start,
            end: self.end,
            from: self.from,
        };
        let ghost w = self.ahead();
        let ghost k: nat = 0;
        proof {
            Self::lemma_consumed_none(self);
        }
        loop
            invariant
                old(self).wf(),
                self.consumed(old(self), k),
                w == old(self).ahead(),
                forall|i: int| 0 <= i < k ==> !old(self).ty().stops_at(w[i]) && !d.spec_accepts(w[i]),
                forall|c: char| d.spec_accepts(c) == m.accepts(c),
            ensures
                self.consumed(old(self), k),
                stop_index(w, old(self).ty(), d) == k,
            decreases self.ahead().len(),
        {
            assert(self.ahead().len() > 0 ==> self.ahead()[0] == w[k as int]);
            if self.is_finished() {
                proof {
                    lemma_stop_index(w, old(self).ty(), d, k);
                }
                break ;
            }
            if let Ok((_, c)) = self.peek() {
                if d.is_match(c).is_ok() {
                    proof {
                        lemma_stop_index(w, old(self).ty(), d, k);
                    }
                    break ;
                }
            }
            let ghost prev = *self;
            let _ = self.advance(&AnyChar);
            proof {
                Self::lemma_consumed_trans(old(self), &prev, self, k, 1);
                k = k + 1;
            }
        }
        Ok(sub)
    }

    /// Starts a new span at the lookahead character.
    pub(crate) fn begin_span(&mut self)
        requires
            old(self).wf(),
        ensures
            final(self).wf(),
            final(self).text() == old(self).text(),
            final(self).mode() == old(self).mode(),
            final(self).ty() == old(self).ty(),
            final(self).cursor() == old(self).cursor(),
            final(self).span_from() == old(self).cursor(),
    {
        proof {
            self.lemma_wf();
        }
        let here = self.position();
        self.start = here;
        self.end = here;
        self.from = Ghost(self.cursor());
    }

    /// Gives back the span that `outer` had, extended over what was consumed
    /// since `outer` was taken and the span was begun anew.
    pub(crate) fn end_span(&mut self, outer: &Self)
        requires
            old(self).wf(),
            outer.wf(),
            old(self).text() == outer.text(),
            old(self).mode() == outer.mode(),
            old(self).span_from() == outer.cursor(),
        ensures
            final(self).wf(),
            final(self).text() == old(self).text(),
            final(self).mode() == old(self).mode(),
            final(self).ty() == old(self).ty(),
            final(self).cursor() == old(self).cursor(),
            final(self).span_from() == outer.span_from(),
    {
        proof {
            outer.lemma_wf();
            self.lemma_wf();
        }
        if self.offset() != outer.offset() {
            proof {
                lemma_span_end_from(self.text(), self.mode(), outer.span_from(), outer.cursor(), self.cursor());
            }
        } else {
            self.end = outer.end;
        }
        self.start = outer.start;
        self.from = outer.from;
    }
}

proof fn lemma_location_one_line(text: Seq<char>, i: int)
    requires
        0 <= i <= text.len(),
        forall|j: int| 0 <= j < text.len() ==> text[j] != '\n',
    ensures
        location(text, i) == (0nat, i as nat),
    decreases i,
{
    if i > 0 {
        lemma_location_one_line(text, i - 1);
    }
}

proof fn lemma_all_drawn(text: Seq<char>, mode: WhitespaceMode, s: nat, k: nat)
    requires
        forall|j: int| 0 <= j < text.len() ==> drawn(mode, text[j]),
        s + k <= text.len(),
    ensures
        skip_drawn(text, mode, s, k) == s + k,
        drawn_from(text, mode, s) == text.subrange(s as int, text.len() as int),
    decreases text.len() - s,
{
    if s < text.len() {
        lemma_all_drawn(text, mode, s + 1, if k > 0 { (k - 1) as nat } else { 0 });
        assert(drawn_from(text, mode, s) =~= text.subrange(s as int, text.len() as int));
    } else {
        assert(drawn_from(text, mode, s) =~= text.subrange(s as int, text.len() as int));
    }
}

/// On a text of one line with nothing to skip, the span of `k` characters
/// consumed from offset `s` runs from column `s` to column `s + k` of the
/// first line, and the text between those columns is exactly what was
/// consumed.
pub proof fn lemma_span_is_consumed_text(text: Seq<char>, mode: WhitespaceMode, s: nat, k: nat)
    requires
        forall|j: int| 0 <= j < text.len() ==> text[j] != '\n' && drawn(mode, text[j]),
        s + k <= text.len(),
    ensures
        skip_drawn(text, mode, s, k) == s + k,
        location(text, s as int) == (0nat, s),
        location(text, span_end(text, mode, s, s + k) as int) == (0nat, s + k),
        text.subrange(s as int, (s + k) as int) == drawn_from(text, mode, s).take(k as int),
{
    lemma_all_drawn(text, mode, s, k);
    lemma_location_one_line(text, s as int);
    lemma_location_one_line(text, (s + k) as int);
    assert(span_end(text, mode, s, s + k) == s + k);
    assert(text.subrange(s as int, (s + k) as int) =~= drawn_from(text, mode, s).take(k as int));
}

impl<'a> LexerStream<'a> {
    /// After `d` characters are consumed, spans are placed as before, `d`
    /// characters further on.
    pub proof fn lemma_placement_shift(start: &Self, mid: &Self, d: nat)
        requires
            mid.consumed(start, d),
        ensures
            mid.placement() == shift_at(start.placement(), d),
    {
        assert forall|x: nat, y: nat| #[trigger] mid.region_of(x, y) == start.region_of(d + x, d + y) by {
            lemma_skip_drawn_add(start.text(), start.mode(), start.cursor(), d, x);
            lemma_skip_drawn_add(start.text(), start.mode(), start.cursor(), d, y);
        }
        assert(mid.placement() =~= shift_at(start.placement(), d));
    }

    /// A span begun at `start` and carried over `k` characters is the one
    /// that `start` places over them.
    pub proof fn lemma_span_placed(start: &Self, now: &Self, k: nat)
        requires
            now.consumed(start, k),
            start.span_from() == start.cursor(),
        ensures
            now.span_at() == start.region_of(0, k),
            now.here() == start.region_of(k, k).0,
            start.region_of(k, k).1 == start.region_of(k, k).0,
    {
    }
}

} // verus!
