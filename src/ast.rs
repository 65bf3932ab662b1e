use vstd::prelude::*;

use crate::lexer::{Placement, CharIndex, IndexedCharIter, LexerError, LexerStream, LexerType, location, next_drawn, span_end, WhitespaceMode};

verus! {

/// A region of the source text: from the first character consumed to just
/// after the last one.
#[derive(Clone, Copy, Debug, PartialEq, Eq, Structural)]
pub struct Span {
    pub start: CharIndex,
    pub end: CharIndex,
}

impl Span {
    pub fn new(start: CharIndex, end: CharIndex) -> (r: Self)
        ensures
            r.start == start,
            r.end == end,
    {
        Span { start, end }
    }
}

impl Span {
    pub open spec fn at(self) -> ((nat, nat), (nat, nat)) {
        (self.start.at(), self.end.at())
    }
}

/// A node of the syntax tree: a value and the span of text it was made from.
#[derive(Debug)]
pub struct Node<T> {
    pub value: Box<T>,
    pub span: Span,
}

impl<T> Node<T> {
    pub open spec fn val(&self) -> T {
        *self.value
    }

    pub open spec fn region(&self) -> Span {
        self.span
    }

    pub fn new(value: T, span: Span) -> (r: Self)
        ensures
            r.val() == value,
            r.region() == span,
    {
        Node { value: Box::new(value), span }
    }

    pub fn span(&self) -> (r: Span)
        ensures
            r == self.region(),
    {
        self.span
    }

    /// The node with its value transformed by `f` and the same span.
    pub fn wrap<U, F: FnOnce(T) -> U>(self, f: F) -> (r: Node<U>)
        requires
            f.requires((self.val(),)),
        ensures
            f.ensures((self.val(),), r.val()),
            r.region() == self.region(),
    {
        let span = self.span;
        let value = f(*self.value);
        Node::new(value, span)
    }
}

impl<T> core::ops::Deref for Node<T> {
    type Target = T;

    fn deref(&self) -> &T {
        &self.value
    }
}

/// Which way a grammar rule failed.
#[derive(Debug)]
pub enum ParseErrorType {
    LexerError(LexerError),
    EmptyNumberLiteral,
    ExtraDotInNumberLiteral,
}

/// A failed parse, with the span that was being read when it failed.
#[derive(Debug)]
pub struct ParseError {
    pub span: Span,
    pub ty: ParseErrorType,
}

impl From<LexerError> for ParseError {
    fn from(value: LexerError) -> (r: Self) {
        let position = value.position;
        ParseError { span: Span { start: position, end: position }, ty: ParseErrorType::LexerError(value) }
    }
}

impl vstd::std_specs::convert::FromSpecImpl<LexerError> for ParseError {
    open spec fn obeys_from_spec() -> bool {
        true
    }

    open spec fn from_spec(v: LexerError) -> ParseError {
        ParseError {
            span: Span { start: v.position, end: v.position },
            ty: ParseErrorType::LexerError(v),
        }
    }
}

/// The state of a parse: the cursor that the rules read from, which can be
/// swapped for another one while a nested region is parsed.
pub struct Parser<'a> {
    stream: LexerStream<'a>,
}

impl<'a> Parser<'a> {
    /// The cursor that the rules currently read from.
    pub closed spec fn state(&self) -> LexerStream<'a> {
        self.stream
    }

    pub open spec fn wf(&self) -> bool {
        self.state().wf()
    }

    /// A parser over all of `s`, skipping whitespace.
    pub fn new(s: &'a str) -> (r: Self)
        ensures
            r.wf(),
            r.state().text() == s@,
            r.state().mode() == WhitespaceMode::Skip,
            r.state().ty() == LexerType::UntilEof,
            r.state().cursor() == next_drawn(s@, WhitespaceMode::Skip, 0),
            r.state().span_from() == r.state().cursor(),
    {
        Parser { stream: LexerStream::new(IndexedCharIter::new(s)) }
    }

    /// The cursor that the rules currently read from.
    pub fn lexer(&mut self) -> (r: &mut LexerStream<'a>)
        ensures
            *r == old(self).state(),
            final(self).state() == *final(r),
    {
        &mut self.stream
    }

    /// The next character of the current cursor's input, where there is one.
    pub(crate) fn upcoming(&self) -> (r: Option<char>)
        requires
            self.wf(),
        ensures
            self.state().at_end() ==> r is None,
            !self.state().at_end() ==> r == Some(self.state().ahead()[0]),
    {
        if self.stream.is_finished() {
            None
        } else {
            match self.stream.peek() {
                Ok((_, c)) => Some(c),
                Err(_) => None,
            }
        }
    }

    /// An error of kind `e` at the current span.
    pub fn err(&self, e: ParseErrorType) -> (r: ParseError)
        requires
            self.wf(),
        ensures
            r.span.at() == self.state().span_at(),
            r.ty == e,
    {
        ParseError { span: self.stream.span(), ty: e }
    }
}

/// How a rule fails, without where.
pub enum Failure {
    EmptyNumber,
    ExtraDot,
    EndOfInput,
    IncorrectChar,
}

/// The kind of failure that an error reports.
pub open spec fn failure_of(e: ParseErrorType) -> Failure {
    match e {
        ParseErrorType::LexerError(l) => if l.err is EOF {
            Failure::EndOfInput
        } else {
            Failure::IncorrectChar
        },
        ParseErrorType::EmptyNumberLiteral => Failure::EmptyNumber,
        ParseErrorType::ExtraDotInNumberLiteral => Failure::ExtraDot,
    }
}

/// How a rule fails and where: the kind, and the counts of characters ahead
/// of the rule's cursor where the span of the error starts and ends.
pub type Fault = (Failure, nat, nat);

/// A grammar rule: it reads a value from the parser's cursor and returns it
/// in a node with the span it consumed.
pub trait Parseable: Sized {
    /// Whether the rule succeeds on the characters `w` ahead of a cursor
    /// whose input ends where `ty` says.
    spec fn succeeds(w: Seq<char>, ty: LexerType) -> bool;

    /// Whether a success there yields `v` after consuming `k` characters,
    /// with the nodes inside `v` where `at` places their spans.
    spec fn yields(w: Seq<char>, ty: LexerType, v: Self, k: nat, at: Placement) -> bool;

    /// How and where the rule fails there, where it fails.
    spec fn failure(w: Seq<char>, ty: LexerType) -> Fault;

    fn parse<'a>(state: &mut Parser<'a>) -> (r: Result<Node<Self>, ParseError>)
        requires
            old(state).wf(),
            old(state).state().span_from() == old(state).state().cursor(),
        ensures
            final(state).wf(),
            r is Ok <==> Self::succeeds(old(state).state().ahead(), old(state).state().ty()),
            r is Err ==> {
                let f = Self::failure(old(state).state().ahead(), old(state).state().ty());
                &&& failure_of(r->Err_0.ty) == f.0
                &&& r->Err_0.span.at() == old(state).state().region_of(f.1, f.2)
            },
            r is Ok ==> {
                &&& final(state).state().moved_on(&old(state).state())
                &&& Self::yields(
                    old(state).state().ahead(),
                    old(state).state().ty(),
                    r->Ok_0.val(),
                    final(state).state().taken(&old(state).state()),
                    old(state).state().placement(),
                )
                &&& r->Ok_0.region().at() == final(state).state().span_at()
            },
    ;
}

impl<'a> Parser<'a> {
    /// Applies the rule `T`. On success the node's span runs from the first
    /// character the rule consumed to just after the last, and the nodes
    /// inside lie where the rule put them; on failure the cursor is as it was
    /// before, whatever the rule had consumed.
    pub fn parse<T: Parseable>(&mut self) -> (r: Result<Node<T>, ParseError>)
        requires
            old(self).wf(),
        ensures
            final(self).wf(),
            r is Err ==> final(self).state() == old(self).state(),
            r is Ok <==> T::succeeds(old(self).state().ahead(), old(self).state().ty()),
            r is Err ==> {
                let f = T::failure(old(self).state().ahead(), old(self).state().ty());
                &&& failure_of(r->Err_0.ty) == f.0
                &&& r->Err_0.span.at() == old(self).state().region_of(f.1, f.2)
            },
            r is Ok ==> {
                let k = final(self).state().taken(&old(self).state());
                &&& final(self).state().moved_on(&old(self).state())
                &&& T::yields(
                    old(self).state().ahead(),
                    old(self).state().ty(),
                    r->Ok_0.val(),
                    k,
                    old(self).state().placement(),
                )
                &&& r->Ok_0.region().at() == old(self).state().region_of(0, k)
            },
    {
        let saved = self.enter();
        let ghost entered = self.state();
        let r = T::parse(self);
        proof {
            assert(entered.placement() =~= saved.placement());
            if r is Ok {
                LexerStream::lemma_span_placed(&entered, &self.state(), self.state().taken(&entered));
            }
        }
        match r {
            Ok(v) => {
                self.leave(&saved);
                Ok(v)
            },
            Err(e) => {
                self.back_to(saved);
                Err(e)
            },
        }
    }

    /// Applies the rule `T` to `lexer` in place of the current cursor, which
    /// is back in place afterwards whether the rule succeeded or not.
    pub fn parse_with_lexer<T: Parseable>(&mut self, lexer: LexerStream<'a>) -> (r: Result<
        Node<T>,
        ParseError,
    >)
        requires
            old(self).wf(),
            lexer.wf(),
        ensures
            final(self).state() == old(self).state(),
            r is Ok <==> T::succeeds(lexer.ahead(), lexer.ty()),
            r is Err ==> {
                let f = T::failure(lexer.ahead(), lexer.ty());
                &&& failure_of(r->Err_0.ty) == f.0
                &&& r->Err_0.span.at() == lexer.region_of(f.1, f.2)
            },
            r is Ok ==> exists|k: nat|
                #![trigger T::yields(lexer.ahead(), lexer.ty(), r->Ok_0.val(), k, lexer.placement())]
                {
                    &&& k <= lexer.ahead().len()
                    &&& T::yields(lexer.ahead(), lexer.ty(), r->Ok_0.val(), k, lexer.placement())
                    &&& r->Ok_0.region().at() == lexer.region_of(0, k)
                },
    {
        let current = self.stream;
        self.stream = lexer;
        let v = self.parse::<T>();
        self.stream = current;
        v
    }
}

impl<'a> Parser<'a> {
    /// Takes a copy of the cursor to come back to, and begins a new span at
    /// the lookahead character.
    pub(crate) fn enter(&mut self) -> (saved: LexerStream<'a>)
        requires
            old(self).wf(),
        ensures
            saved == old(self).state(),
            final(self).wf(),
            final(self).state().text() == saved.text(),
            final(self).state().mode() == saved.mode(),
            final(self).state().ty() == saved.ty(),
            final(self).state().cursor() == saved.cursor(),
            final(self).state().span_from() == saved.cursor(),
    {
        let saved = self.stream;
        self.stream.begin_span();
        saved
    }

    /// After a rule succeeded: gives back the span of `saved`, extended over
    /// what the rule consumed.
    pub(crate) fn leave(&mut self, saved: &LexerStream<'a>)
        requires
            old(self).wf(),
            saved.wf(),
            old(self).state().text() == saved.text(),
            old(self).state().mode() == saved.mode(),
            old(self).state().span_from() == saved.cursor(),
        ensures
            final(self).wf(),
            final(self).state().text() == old(self).state().text(),
            final(self).state().mode() == old(self).state().mode(),
            final(self).state().ty() == old(self).state().ty(),
            final(self).state().cursor() == old(self).state().cursor(),
            final(self).state().span_from() == saved.span_from(),
    {
        self.stream.end_span(saved);
    }

    /// After a rule failed: puts the cursor back as it was.
    pub(crate) fn back_to(&mut self, saved: LexerStream<'a>)
        ensures
            final(self).state() == saved,
    {
        self.stream = saved;
    }
}

} // verus!
