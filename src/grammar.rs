use vstd::prelude::*;

use crate::ast::{failure_of, Failure, Fault, Node, ParseError, ParseErrorType, Parseable, Parser};
use crate::lexer::{lemma_stop_index, shift_at, stop_index, LexerStream, LexerType, Placement};
use crate::matchers::{is_digit, push_char, CharMatcher, Matcher, NumericChar, SpecificChar};

verus! {

/// Whether the input `w`, which ends where `ty` says, holds a character at
/// `i` and that character is `c`.
pub open spec fn next_is(w: Seq<char>, ty: LexerType, i: nat, c: char) -> bool {
    i < w.len() && !ty.stops_at(w[i as int]) && w[i as int] == c
}

/// Whether the input holds at `i` a digit or a dot.
pub open spec fn next_in_literal(w: Seq<char>, ty: LexerType, i: nat) -> bool {
    i < w.len() && !ty.stops_at(w[i as int]) && (is_digit(w[i as int]) || w[i as int] == '.')
}

/// The length of the run of digits and dots from `i` on.
pub open spec fn run_len(w: Seq<char>, ty: LexerType, i: nat) -> nat
    decreases w.len() - i,
{
    if next_in_literal(w, ty, i) {
        1 + run_len(w, ty, i + 1)
    } else {
        0
    }
}

/// How many times `c` occurs in `s`.
pub open spec fn count_char(s: Seq<char>, c: char) -> nat
    decreases s.len(),
{
    if s.len() == 0 {
        0
    } else {
        count_char(s.drop_last(), c) + if s.last() == c {
            1nat
        } else {
            0nat
        }
    }
}

/// The offset in `run` of its second dot, or its length where it has none.
pub open spec fn second_dot(run: Seq<char>, i: nat, seen: bool) -> nat
    decreases run.len() - i,
{
    if i >= run.len() {
        run.len()
    } else if run[i as int] == '.' {
        if seen {
            i
        } else {
            second_dot(run, i + 1, true)
        }
    } else {
        second_dot(run, i + 1, seen)
    }
}

/// A number literal at the start of the input: an optional `-`, then the run
/// of digits and dots that follows. It is the sign, the run and the number of
/// characters taken. It fails where the run has two dots or more, with the
/// span up to the second dot, or where it has no digit, with the span of
/// the sign and the run.
pub open spec fn number_literal(w: Seq<char>, ty: LexerType) -> Result<(bool, Seq<char>, nat), Fault> {
    let negative = next_is(w, ty, 0, '-');
    let s: nat = if negative {
        1
    } else {
        0
    };
    let run = w.subrange(s as int, (s + run_len(w, ty, s)) as int);
    if count_char(run, '.') >= 2 {
        Err((Failure::ExtraDot, 0, s + second_dot(run, 0, false)))
    } else if run.len() == count_char(run, '.') {
        Err((Failure::EmptyNumber, 0, s + run.len()))
    } else {
        Ok((negative, run, s + run.len()))
    }
}

pub proof fn lemma_run_len(w: Seq<char>, ty: LexerType, s: nat, p: nat)
    requires
        s <= p,
        forall|j: nat| s <= j < p ==> next_in_literal(w, ty, j),
    ensures
        run_len(w, ty, s) == (p - s) + run_len(w, ty, p),
    decreases p - s,
{
    if s < p {
        lemma_run_len(w, ty, s + 1, p);
    }
}

pub proof fn lemma_run_len_bound(w: Seq<char>, ty: LexerType, i: nat)
    ensures
        i + run_len(w, ty, i) <= w.len() || run_len(w, ty, i) == 0,
    decreases w.len() - i,
{
    if next_in_literal(w, ty, i) {
        lemma_run_len_bound(w, ty, i + 1);
    }
}

pub proof fn lemma_count_prefix(s: Seq<char>, c: char, i: nat)
    requires
        i <= s.len(),
    ensures
        count_char(s.take(i as int), c) <= count_char(s, c),
    decreases s.len(),
{
    if i < s.len() {
        assert(s.drop_last().take(i as int) =~= s.take(i as int));
        lemma_count_prefix(s.drop_last(), c, i);
    } else {
        assert(s.take(i as int) =~= s);
    }
}

/// A number literal: its sign and its digits, with at most one dot among them.
#[derive(Debug)]
pub struct Number {
    pub negative: bool,
    pub digits: String,
}

impl Parseable for Number {
    open spec fn succeeds(w: Seq<char>, ty: LexerType) -> bool {
        number_literal(w, ty) is Ok
    }

    open spec fn yields(w: Seq<char>, ty: LexerType, v: Self, k: nat, at: Placement) -> bool {
        number_literal(w, ty) == Ok::<(bool, Seq<char>, nat), Fault>((v.negative, v.digits@, k))
    }

    open spec fn failure(w: Seq<char>, ty: LexerType) -> Fault {
        number_literal(w, ty)->Err_0
    }

    fn parse<'a>(state: &mut Parser<'a>) -> (r: Result<Node<Self>, ParseError>) {
        let ghost start = state.state();
        let ghost w = start.ahead();
        let ghost ty = start.ty();
        let mut negative = false;
        proof {
            LexerStream::lemma_consumed_none(&start);
        }
        if let Some('-') = state.upcoming() {
            let _ = state.lexer().eat('-');
            negative = true;
        }
        let ghost s: nat = if negative { 1 } else { 0 };
        let mut digits = String::new();
        let mut seen_dot = false;
        let mut has_digit = false;
        let ghost run = w.subrange(s as int, (s + run_len(w, ty, s)) as int);
        proof {
            assert(negative == next_is(w, ty, 0, '-'));
            assert(digits@ =~= w.subrange(s as int, s as int));
            lemma_run_len_bound(w, ty, s);
        }
        loop
            invariant
                start == old(state).state(),
                start.wf(),
                start.span_from() == start.cursor(),
                w == start.ahead(),
                ty == start.ty(),
                negative == next_is(w, ty, 0, '-'),
                s == if negative { 1nat } else { 0nat },
                s + digits@.len() <= w.len(),
                state.state().consumed(&start, s + digits@.len()),
                digits@ == w.subrange(s as int, (s + digits@.len()) as int),
                forall|j: nat| s <= j < s + digits@.len() ==> next_in_literal(w, ty, j),
                count_char(digits@, '.') == if seen_dot { 1nat } else { 0nat },
                has_digit == (digits@.len() > count_char(digits@, '.')),
                run == w.subrange(s as int, (s + run_len(w, ty, s)) as int),
                s + run_len(w, ty, s) <= w.len() || run_len(w, ty, s) == 0,
                second_dot(run, 0, false) == second_dot(run, digits@.len(), seen_dot),
            ensures
                state.state().consumed(&start, s + digits@.len()),
                digits@ == w.subrange(s as int, (s + digits@.len()) as int),
                forall|j: nat| s <= j < s + digits@.len() ==> next_in_literal(w, ty, j),
                !next_in_literal(w, ty, s + digits@.len()),
                count_char(digits@, '.') <= 1,
                has_digit == (digits@.len() > count_char(digits@, '.')),
            decreases w.len() - digits@.len(),
        {
            let ghost before = state.state();
            let ghost i = digits@.len();
            let ghost old_digits = digits@;
            match state.upcoming() {
                Some(c) => {
                    assert(c == w[(s + i) as int]);
                    assert(!ty.stops_at(w[(s + i) as int]));
                    if c == '.' {
                        if seen_dot {
                            proof {
                                lemma_run_len(w, ty, s, s + i);
                                assert(next_in_literal(w, ty, s + i));
                                assert(run_len(w, ty, s + i) >= 1);
                                assert(run[i as int] == '.');
                                LexerStream::lemma_span_placed(&start, &state.state(), s + i);
                                assert(run.take((i + 1) as int) =~= digits@.push('.'));
                                assert(digits@.push('.').drop_last() =~= digits@);
                                lemma_count_prefix(run, '.', (i + 1) as nat);
                                assert(count_char(digits@.push('.'), '.') == 2);
                                assert(count_char(run, '.') >= 2);
                                assert(number_literal(w, ty) is Err);
                            }
                            return Err(state.err(ParseErrorType::ExtraDotInNumberLiteral));
                        }
                        let _ = state.lexer().eat('.');
                        push_char(&mut digits, '.');
                        seen_dot = true;
                    } else if '0' <= c && c <= '9' {
                        let _ = state.lexer().advance(&NumericChar);
                        push_char(&mut digits, c);
                        has_digit = true;
                    } else {
                        break ;
                    }
                    proof {
                        lemma_run_len(w, ty, s, s + i);
                        assert(next_in_literal(w, ty, s + i));
                        assert(run_len(w, ty, s + i) >= 1);
                        assert(run[i as int] == c);
                        LexerStream::lemma_consumed_trans(&start, &before, &state.state(), s + i, 1);
                        assert(digits@.drop_last() =~= old_digits);
                        assert(digits@ =~= w.subrange(s as int, (s + digits@.len()) as int));
                    }
                },
                None => {
                    break ;
                },
            }
        }
        proof {
            lemma_run_len(w, ty, s, s + digits@.len());
            lemma_run_len_bound(w, ty, s);
        }
        proof {
            LexerStream::lemma_span_placed(&start, &state.state(), s + digits@.len());
        }
        if !has_digit {
            return Err(state.err(ParseErrorType::EmptyNumberLiteral));
        }
        let span = state.lexer().span();
        Ok(Node::new(Number { negative, digits }, span))
    }
}

/// An arithmetic expression as a tree.
pub enum Expr {
    Num(bool, Seq<char>),
    Paren(Box<Spanned>),
    Mul(Box<Spanned>, Box<Spanned>),
    Div(Box<Spanned>, Box<Spanned>),
    Add(Box<Spanned>, Box<Spanned>),
    Sub(Box<Spanned>, Box<Spanned>),
}

/// A tree with the number of characters it was read from. A left operand
/// starts where its parent does, a right operand one character (the
/// operator) after the left one ends, and a term in parentheses one
/// character (the parenthesis) after its parent starts.
pub struct Spanned {
    pub expr: Expr,
    pub len: nat,
}

/// `f` moved `d` characters further on.
pub open spec fn shift(f: Fault, d: nat) -> Fault {
    (f.0, f.1 + d, f.2 + d)
}

/// A cursor that ends before the first closing parenthesis.
pub open spec fn until_close() -> LexerType {
    LexerType::UntilEnd(Matcher::Specific(')'))
}

/// A primary at the start of the input: a term in parentheses, read from a
/// cursor that ends at the first `)`, or a number literal.
pub open spec fn primary(w: Seq<char>, ty: LexerType) -> Result<Spanned, Fault>
    decreases w.len() as int, 0int,
{
    if next_is(w, ty, 0, '(') {
        let inner = w.drop_first();
        let j = stop_index(inner, ty, Matcher::Specific(')'));
        if !next_is(inner, ty, j, ')') {
            Err((Failure::EndOfInput, 1 + j, 1 + j))
        } else {
            match term(inner, until_close()) {
                Ok(t) => Ok(Spanned { expr: Expr::Paren(Box::new(t)), len: j + 2 }),
                Err(f) => Err(shift(f, 1)),
            }
        }
    } else {
        match number_literal(w, ty) {
            Ok((negative, digits, k)) => Ok(Spanned { expr: Expr::Num(negative, digits), len: k }),
            Err(f) => Err(f),
        }
    }
}

/// A factor: primaries joined by `*` and `/`, grouped from the left.
pub open spec fn factor(w: Seq<char>, ty: LexerType) -> Result<Spanned, Fault>
    decreases w.len() as int, 2int,
{
    match primary(w, ty) {
        Ok(p) => factor_rest(w, ty, p),
        Err(f) => Err(f),
    }
}

/// The rest of a factor, after the primaries that make `acc`.
pub open spec fn factor_rest(w: Seq<char>, ty: LexerType, acc: Spanned) -> Result<Spanned, Fault>
    decreases if acc.len <= w.len() { w.len() - acc.len } else { 0 }, 1int,
{
    let i = acc.len;
    if next_is(w, ty, i, '*') || next_is(w, ty, i, '/') {
        match primary(w.skip((i + 1) as int), ty) {
            Ok(p) => factor_rest(
                w,
                ty,
                Spanned {
                    expr: if w[i as int] == '*' {
                        Expr::Mul(Box::new(acc), Box::new(p))
                    } else {
                        Expr::Div(Box::new(acc), Box::new(p))
                    },
                    len: i + 1 + p.len,
                },
            ),
            Err(f) => Err(shift(f, i + 1)),
        }
    } else {
        Ok(acc)
    }
}

/// A term: factors joined by `+` and `-`, grouped from the left.
pub open spec fn term(w: Seq<char>, ty: LexerType) -> Result<Spanned, Fault>
    decreases w.len() as int, 4int,
{
    match factor(w, ty) {
        Ok(f) => term_rest(w, ty, f),
        Err(f) => Err(f),
    }
}

/// The rest of a term, after the factors that make `acc`.
pub open spec fn term_rest(w: Seq<char>, ty: LexerType, acc: Spanned) -> Result<Spanned, Fault>
    decreases if acc.len <= w.len() { w.len() - acc.len } else { 0 }, 3int,
{
    let i = acc.len;
    if next_is(w, ty, i, '+') || next_is(w, ty, i, '-') {
        match factor(w.skip((i + 1) as int), ty) {
            Ok(f) => term_rest(
                w,
                ty,
                Spanned {
                    expr: if w[i as int] == '+' {
                        Expr::Add(Box::new(acc), Box::new(f))
                    } else {
                        Expr::Sub(Box::new(acc), Box::new(f))
                    },
                    len: i + 1 + f.len,
                },
            ),
            Err(f) => Err(shift(f, i + 1)),
        }
    } else {
        Ok(acc)
    }
}

/// A factor: a number, a term in parentheses, or a product or quotient of
/// two factors.
#[derive(Debug)]
pub enum Factor {
    Val(Number),
    Parenthesis(Node<Term>),
    Mul(Node<Factor>, Node<Factor>),
    Div(Node<Factor>, Node<Factor>),
}

/// A term: a factor, or a sum or difference of two terms.
#[derive(Debug)]
pub enum Term {
    Val(Factor),
    Add(Node<Term>, Node<Term>),
    Sub(Node<Term>, Node<Term>),
}

/// The node `n` holds the tree `s`, with its span and the spans of the nodes
/// inside it where `at` places them.
pub open spec fn factor_placed(n: Node<Factor>, s: Spanned, at: Placement) -> bool
    decreases n,
{
    n.span.at() == at(0, s.len) && (*n.value).shows(s.expr, at)
}

/// The node `n` holds the tree `s`, with its span and the spans of the nodes
/// inside it where `at` places them.
pub open spec fn term_placed(n: Node<Term>, s: Spanned, at: Placement) -> bool
    decreases n,
{
    n.span.at() == at(0, s.len) && (*n.value).shows(s.expr, at)
}

impl Factor {
    /// This value is the tree `e`, with the nodes inside it where `at` places
    /// them.
    pub open spec fn shows(&self, e: Expr, at: Placement) -> bool
        decreases self,
    {
        match self {
            Factor::Val(n) => e == Expr::Num(n.negative, n.digits@),
            Factor::Parenthesis(t) => match e {
                Expr::Paren(s) => term_placed(*t, *s, shift_at(at, 1)),
                _ => false,
            },
            Factor::Mul(a, b) => match e {
                Expr::Mul(x, y) => factor_placed(*a, *x, at) && factor_placed(
                    *b,
                    *y,
                    shift_at(at, x.len + 1),
                ),
                _ => false,
            },
            Factor::Div(a, b) => match e {
                Expr::Div(x, y) => factor_placed(*a, *x, at) && factor_placed(
                    *b,
                    *y,
                    shift_at(at, x.len + 1),
                ),
                _ => false,
            },
        }
    }
}

impl Term {
    /// This value is the tree `e`, with the nodes inside it where `at` places
    /// them.
    pub open spec fn shows(&self, e: Expr, at: Placement) -> bool
        decreases self,
    {
        match self {
            Term::Val(f) => f.shows(e, at),
            Term::Add(a, b) => match e {
                Expr::Add(x, y) => term_placed(*a, *x, at) && term_placed(
                    *b,
                    *y,
                    shift_at(at, x.len + 1),
                ),
                _ => false,
            },
            Term::Sub(a, b) => match e {
                Expr::Sub(x, y) => term_placed(*a, *x, at) && term_placed(
                    *b,
                    *y,
                    shift_at(at, x.len + 1),
                ),
                _ => false,
            },
        }
    }
}

/// `r` is what the outcome `o` of a factor says, with spans where `at`
/// places them.
pub open spec fn delivers_factor(o: Result<Spanned, Fault>, r: Result<Node<Factor>, ParseError>, at: Placement) -> bool {
    match o {
        Ok(s) => r is Ok && factor_placed(r->Ok_0, s, at),
        Err(f) => r is Err && failure_of(r->Err_0.ty) == f.0 && r->Err_0.span.at() == at(f.1, f.2),
    }
}

/// `r` is what the outcome `o` of a term says, with spans where `at` places
/// them.
pub open spec fn delivers_term(o: Result<Spanned, Fault>, r: Result<Node<Term>, ParseError>, at: Placement) -> bool {
    match o {
        Ok(s) => r is Ok && term_placed(r->Ok_0, s, at),
        Err(f) => r is Err && failure_of(r->Err_0.ty) == f.0 && r->Err_0.span.at() == at(f.1, f.2),
    }
}

pub proof fn lemma_stop_index_stops(w: Seq<char>, ty: LexerType, m: Matcher)
    ensures
        stop_index(w, ty, m) <= w.len(),
        stop_index(w, ty, m) == w.len() || ty.stops_at(w[stop_index(w, ty, m) as int])
            || m.spec_accepts(w[stop_index(w, ty, m) as int]),
    decreases w.len(),
{
    if !(w.len() == 0 || ty.stops_at(w[0]) || m.spec_accepts(w[0])) {
        lemma_stop_index_stops(w.drop_first(), ty, m);
    }
}

/// A matcher that accepts exactly the character `e` is `Specific(e)`.
pub proof fn lemma_matcher_exact(m: Matcher, e: char)
    requires
        forall|c: char| m.spec_accepts(c) == (c == e),
    ensures
        m == Matcher::Specific(e),
{
    let other = if e == 'a' {
        'b'
    } else {
        'a'
    };
    assert(m.spec_accepts(e));
    assert(!m.spec_accepts(other));
    if m is Numeric {
        assert(m.spec_accepts('0') && m.spec_accepts('1'));
    }
}

fn factor_of_number(v: Number) -> (f: Factor)
    ensures
        f == Factor::Val(v),
{
    Factor::Val(v)
}

fn term_of_factor(f: Factor) -> (t: Term)
    ensures
        t == Term::Val(f),
{
    Term::Val(f)
}

impl Factor {
    /// A primary, with its own span.
    fn primary<'a>(state: &mut Parser<'a>) -> (r: Result<Node<Factor>, ParseError>)
        requires
            old(state).wf(),
        ensures
            final(state).wf(),
            r is Err ==> final(state).state() == old(state).state(),
            delivers_factor(
                primary(old(state).state().ahead(), old(state).state().ty()),
                r,
                old(state).state().placement(),
            ),
            r is Ok ==> final(state).state().consumed(
                &old(state).state(),
                primary(old(state).state().ahead(), old(state).state().ty())->Ok_0.len,
            ),
        decreases old(state).state().ahead().len(), 0int,
    {
        let ghost start = state.state();
        let ghost w = start.ahead();
        let ghost ty = start.ty();
        let open = match state.upcoming() {
            Some(c) => c == '(',
            None => false,
        };
        proof {
            start.lemma_wf();
            assert(open == next_is(w, ty, 0, '('));
        }
        if !open {
            return match state.parse::<Number>() {
                Ok(n) => Ok(n.wrap(factor_of_number)),
                Err(e) => Err(e),
            };
        }
        let saved = state.enter();
        let ghost entered = state.state();
        proof {
            LexerStream::lemma_consumed_none(&entered);
            assert(entered.placement() =~= start.placement());
        }
        let _ = state.lexer().eat('(');
        let ghost opened = state.state();
        let close = SpecificChar { expected: ')' };
        let sub = match state.lexer().eat_until(&close) {
            Ok(sub) => sub,
            Err(e) => {
                state.back_to(saved);
                return Err(ParseError::from(e));
            },
        };
        let ghost scanned = state.state();
        let ghost inner = w.drop_first();
        proof {
            assert forall|c: char| (sub.ty()->UntilEnd_0).spec_accepts(c) == (c == ')') by {
                assert(close.accepts(c) == (c == ')'));
            }
            lemma_matcher_exact(sub.ty()->UntilEnd_0, ')');
            assert(opened.ahead() =~= inner);
            lemma_stop_index_stops(inner, ty, Matcher::Specific(')'));
            LexerStream::lemma_placement_shift(&entered, &opened, 1);
            assert(sub.placement() =~= opened.placement());
        }
        let ghost j = stop_index(inner, ty, Matcher::Specific(')'));
        proof {
            LexerStream::lemma_consumed_trans(&entered, &opened, &scanned, 1, j);
            LexerStream::lemma_span_placed(&entered, &scanned, 1 + j);
        }
        match state.lexer().eat(')') {
            Ok(_) => {},
            Err(e) => {
                state.back_to(saved);
                return Err(ParseError::from(e));
            },
        }
        proof {
            LexerStream::lemma_consumed_trans(&entered, &scanned, &state.state(), 1 + j, 1);
            LexerStream::lemma_span_placed(&entered, &state.state(), j + 2);
        }
        match Term::parse_in(state, sub) {
            Ok(t) => {
                let span = state.lexer().span();
                state.leave(&saved);
                Ok(Node::new(Factor::Parenthesis(t), span))
            },
            Err(e) => {
                state.back_to(saved);
                Err(e)
            },
        }
    }
}

// Factor and Term contain each other, so their rules call each other through
// the functions below, which do what `Parser::parse` and
// `Parser::parse_with_lexer` do, instead of through those generic functions:
// that way neither impl of `Parseable` depends on the other.
impl Term {
    /// A term read from `sub` in place of the parser's cursor, which is back
    /// in place afterwards.
    fn parse_in<'a>(state: &mut Parser<'a>, sub: LexerStream<'a>) -> (r: Result<Node<Term>, ParseError>)
        requires
            old(state).wf(),
            sub.wf(),
        ensures
            final(state).state() == old(state).state(),
            delivers_term(term(sub.ahead(), sub.ty()), r, sub.placement()),
        decreases sub.ahead().len(), 5int,
    {
        let current = *state.lexer();
        *state.lexer() = sub;
        let r = Term::node(state);
        *state.lexer() = current;
        r
    }

    /// A term, with its own span; on failure the cursor is as it was.
    fn node<'a>(state: &mut Parser<'a>) -> (r: Result<Node<Term>, ParseError>)
        requires
            old(state).wf(),
        ensures
            final(state).wf(),
            r is Err ==> final(state).state() == old(state).state(),
            delivers_term(
                term(old(state).state().ahead(), old(state).state().ty()),
                r,
                old(state).state().placement(),
            ),
            r is Ok ==> final(state).state().consumed(
                &old(state).state(),
                term(old(state).state().ahead(), old(state).state().ty())->Ok_0.len,
            ),
        decreases old(state).state().ahead().len(), 4int,
    {
        let saved = state.enter();
        proof {
            assert(state.state().placement() =~= saved.placement());
        }
        match Term::rule(state) {
            Ok(v) => {
                state.leave(&saved);
                Ok(v)
            },
            Err(e) => {
                state.back_to(saved);
                Err(e)
            },
        }
    }

    /// Factors joined by `+` and `-`, grouped from the left.
    fn rule<'a>(state: &mut Parser<'a>) -> (r: Result<Node<Term>, ParseError>)
        requires
            old(state).wf(),
            old(state).state().span_from() == old(state).state().cursor(),
        ensures
            final(state).wf(),
            delivers_term(
                term(old(state).state().ahead(), old(state).state().ty()),
                r,
                old(state).state().placement(),
            ),
            r is Ok ==> final(state).state().consumed(
                &old(state).state(),
                term(old(state).state().ahead(), old(state).state().ty())->Ok_0.len,
            ),
            r is Ok ==> r->Ok_0.region().at() == final(state).state().span_at(),
        decreases old(state).state().ahead().len(), 3int,
    {
        let ghost start = state.state();
        let ghost w = start.ahead();
        let ghost ty = start.ty();
        let ghost at = start.placement();
        let first = match Factor::node(state) {
            Ok(n) => n,
            Err(e) => return Err(e),
        };
        let mut acc = first.wrap(term_of_factor);
        let ghost mut s_acc: Spanned = factor(w, ty)->Ok_0;
        loop
            invariant
                start == old(state).state(),
                start.wf(),
                start.span_from() == start.cursor(),
                w == start.ahead(),
                ty == start.ty(),
                at == start.placement(),
                state.wf(),
                state.state().consumed(&start, s_acc.len),
                term_rest(w, ty, s_acc) == term(w, ty),
                term_placed(acc, s_acc, at),
                acc.region().at() == state.state().span_at(),
            ensures
                state.wf(),
                state.state().consumed(&start, s_acc.len),
                term(w, ty) == Ok::<Spanned, Fault>(s_acc),
                term_placed(acc, s_acc, at),
                acc.region().at() == state.state().span_at(),
            decreases state.state().ahead().len(),
        {
            let ghost i = s_acc.len;
            let op = match state.upcoming() {
                Some(c) => c,
                None => break ,
            };
            if op != '+' && op != '-' {
                break ;
            }
            assert(state.state().ahead() =~= w.skip(i as int));
            assert(op == w[i as int] && !ty.stops_at(w[i as int]) && i < w.len());
            let ghost before = state.state();
            let _ = state.lexer().eat(op);
            proof {
                LexerStream::lemma_consumed_trans(&start, &before, &state.state(), i, 1);
                assert(state.state().ahead() =~= w.skip((i + 1) as int));
                LexerStream::lemma_placement_shift(&start, &state.state(), i + 1);
            }
            let ghost after_op = state.state();
            let rhs = match Factor::node(state) {
                Ok(n) => n,
                Err(e) => return Err(e),
            };
            let ghost s_rhs = factor(w.skip((i + 1) as int), ty)->Ok_0;
            proof {
                LexerStream::lemma_consumed_trans(&start, &after_op, &state.state(), i + 1, s_rhs.len);
                LexerStream::lemma_span_placed(&start, &state.state(), i + 1 + s_rhs.len);
            }
            let ghost placed_at = shift_at(at, i + 1);
            assert(factor_placed(rhs, s_rhs, placed_at));
            let rhs = rhs.wrap(term_of_factor);
            assert(term_placed(rhs, s_rhs, placed_at));
            let span = state.lexer().span();
            acc = if op == '+' {
                Node::new(Term::Add(acc, rhs), span)
            } else {
                Node::new(Term::Sub(acc, rhs), span)
            };
            proof {
                s_acc = Spanned {
                    expr: if op == '+' {
                        Expr::Add(Box::new(s_acc), Box::new(s_rhs))
                    } else {
                        Expr::Sub(Box::new(s_acc), Box::new(s_rhs))
                    },
                    len: i + 1 + s_rhs.len,
                };
            }
        }
        Ok(acc)
    }
}

impl Factor {
    /// A factor, with its own span; on failure the cursor is as it was.
    fn node<'a>(state: &mut Parser<'a>) -> (r: Result<Node<Factor>, ParseError>)
        requires
            old(state).wf(),
        ensures
            final(state).wf(),
            r is Err ==> final(state).state() == old(state).state(),
            delivers_factor(
                factor(old(state).state().ahead(), old(state).state().ty()),
                r,
                old(state).state().placement(),
            ),
            r is Ok ==> final(state).state().consumed(
                &old(state).state(),
                factor(old(state).state().ahead(), old(state).state().ty())->Ok_0.len,
            ),
        decreases old(state).state().ahead().len(), 2int,
    {
        let saved = state.enter();
        proof {
            assert(state.state().placement() =~= saved.placement());
        }
        match Factor::rule(state) {
            Ok(v) => {
                state.leave(&saved);
                Ok(v)
            },
            Err(e) => {
                state.back_to(saved);
                Err(e)
            },
        }
    }

    /// Primaries joined by `*` and `/`, grouped from the left.
    fn rule<'a>(state: &mut Parser<'a>) -> (r: Result<Node<Factor>, ParseError>)
        requires
            old(state).wf(),
            old(state).state().span_from() == old(state).state().cursor(),
        ensures
            final(state).wf(),
            delivers_factor(
                factor(old(state).state().ahead(), old(state).state().ty()),
                r,
                old(state).state().placement(),
            ),
            r is Ok ==> final(state).state().consumed(
                &old(state).state(),
                factor(old(state).state().ahead(), old(state).state().ty())->Ok_0.len,
            ),
            r is Ok ==> r->Ok_0.region().at() == final(state).state().span_at(),
        decreases old(state).state().ahead().len(), 1int,
    {
        let ghost start = state.state();
        let ghost w = start.ahead();
        let ghost ty = start.ty();
        let ghost at = start.placement();
        let mut acc = match Factor::primary(state) {
            Ok(n) => n,
            Err(e) => return Err(e),
        };
        let ghost mut s_acc: Spanned = primary(w, ty)->Ok_0;
        proof {
            LexerStream::lemma_span_placed(&start, &state.state(), s_acc.len);
        }
        loop
            invariant
                start == old(state).state(),
                start.wf(),
                start.span_from() == start.cursor(),
                w == start.ahead(),
                ty == start.ty(),
                at == start.placement(),
                state.wf(),
                state.state().consumed(&start, s_acc.len),
                factor_rest(w, ty, s_acc) == factor(w, ty),
                factor_placed(acc, s_acc, at),
                acc.region().at() == state.state().span_at(),
            ensures
                state.wf(),
                state.state().consumed(&start, s_acc.len),
                factor(w, ty) == Ok::<Spanned, Fault>(s_acc),
                factor_placed(acc, s_acc, at),
                acc.region().at() == state.state().span_at(),
            decreases state.state().ahead().len(),
        {
            let ghost i = s_acc.len;
            let op = match state.upcoming() {
                Some(c) => c,
                None => break ,
            };
            if op != '*' && op != '/' {
                break ;
            }
            assert(state.state().ahead() =~= w.skip(i as int));
            assert(op == w[i as int] && !ty.stops_at(w[i as int]) && i < w.len());
            let ghost before = state.state();
            let _ = state.lexer().eat(op);
            proof {
                LexerStream::lemma_consumed_trans(&start, &before, &state.state(), i, 1);
                assert(state.state().ahead() =~= w.skip((i + 1) as int));
                LexerStream::lemma_placement_shift(&start, &state.state(), i + 1);
            }
            let ghost after_op = state.state();
            let rhs = match Factor::primary(state) {
                Ok(n) => n,
                Err(e) => return Err(e),
            };
            let ghost s_rhs = primary(w.skip((i + 1) as int), ty)->Ok_0;
            proof {
                LexerStream::lemma_consumed_trans(&start, &after_op, &state.state(), i + 1, s_rhs.len);
                LexerStream::lemma_span_placed(&start, &state.state(), i + 1 + s_rhs.len);
            }
            let span = state.lexer().span();
            acc = if op == '*' {
                Node::new(Factor::Mul(acc, rhs), span)
            } else {
                Node::new(Factor::Div(acc, rhs), span)
            };
            proof {
                s_acc = Spanned {
                    expr: if op == '*' {
                        Expr::Mul(Box::new(s_acc), Box::new(s_rhs))
                    } else {
                        Expr::Div(Box::new(s_acc), Box::new(s_rhs))
                    },
                    len: i + 1 + s_rhs.len,
                };
            }
        }
        Ok(acc)
    }
}

impl Parseable for Factor {
    open spec fn succeeds(w: Seq<char>, ty: LexerType) -> bool {
        factor(w, ty) is Ok
    }

    open spec fn yields(w: Seq<char>, ty: LexerType, v: Self, k: nat, at: Placement) -> bool {
        &&& factor(w, ty) is Ok
        &&& factor(w, ty)->Ok_0.len == k
        &&& v.shows(factor(w, ty)->Ok_0.expr, at)
    }

    open spec fn failure(w: Seq<char>, ty: LexerType) -> Fault {
        factor(w, ty)->Err_0
    }

    fn parse<'a>(state: &mut Parser<'a>) -> (r: Result<Node<Self>, ParseError>) {
        Factor::rule(state)
    }
}

impl Parseable for Term {
    open spec fn succeeds(w: Seq<char>, ty: LexerType) -> bool {
        term(w, ty) is Ok
    }

    open spec fn yields(w: Seq<char>, ty: LexerType, v: Self, k: nat, at: Placement) -> bool {
        &&& term(w, ty) is Ok
        &&& term(w, ty)->Ok_0.len == k
        &&& v.shows(term(w, ty)->Ok_0.expr, at)
    }

    open spec fn failure(w: Seq<char>, ty: LexerType) -> Fault {
        term(w, ty)->Err_0
    }

    fn parse<'a>(state: &mut Parser<'a>) -> (r: Result<Node<Self>, ParseError>) {
        Term::rule(state)
    }
}

proof fn lemma_count_none(s: Seq<char>, c: char)
    requires
        forall|i: int| 0 <= i < s.len() ==> s[i] != c,
    ensures
        count_char(s, c) == 0,
    decreases s.len(),
{
    if s.len() > 0 {
        lemma_count_none(s.drop_last(), c);
    }
}

/// A literal of an optional `-`, then digits and dots, with nothing after it,
/// is read whole as a number, with its sign and everything after the sign;
/// unless it holds two dots or more, or no digit, where it fails from its
/// start, in the second case over all of it.
pub proof fn lemma_number_literal_whole(negative: bool, body: Seq<char>)
    requires
        forall|i: int| 0 <= i < body.len() ==> is_digit(body[i]) || body[i] == '.',
    ensures
        ({
            let w = if negative {
                seq!['-'] + body
            } else {
                body
            };
            let r = number_literal(w, LexerType::UntilEof);
            if count_char(body, '.') >= 2 {
                r is Err && r->Err_0.0 == Failure::ExtraDot && r->Err_0.1 == 0
            } else if body.len() == count_char(body, '.') {
                r == Err::<(bool, Seq<char>, nat), Fault>((Failure::EmptyNumber, 0, w.len()))
            } else {
                r == Ok::<(bool, Seq<char>, nat), Fault>((negative, body, w.len()))
            }
        }),
{
    let w = if negative {
        seq!['-'] + body
    } else {
        body
    };
    let ty = LexerType::UntilEof;
    let s: nat = if negative { 1 } else { 0 };
    assert(next_is(w, ty, 0, '-') == negative);
    assert forall|j: nat| s <= j < w.len() implies next_in_literal(w, ty, j) by {
        assert(w[j as int] == body[j - s]);
    }
    lemma_run_len(w, ty, s, w.len());
    assert(w.subrange(s as int, w.len() as int) =~= body);
}

/// A literal of digits alone, followed by a character that cannot continue
/// it or by the end of the input, is a primary of its own.
pub proof fn lemma_digits_primary(d: Seq<char>, rest: Seq<char>, ty: LexerType)
    requires
        d.len() > 0,
        forall|i: int| 0 <= i < d.len() ==> is_digit(d[i]) && !ty.stops_at(d[i]),
        rest.len() == 0 || ty.stops_at(rest[0]) || !(is_digit(rest[0]) || rest[0] == '.'),
    ensures
        primary(d + rest, ty) == Ok::<Spanned, Fault>(leaf(d)),
{
    let w = d + rest;
    assert(w[0] == d[0]);
    assert forall|j: nat| 0 <= j < d.len() implies next_in_literal(w, ty, j) by {
        assert(w[j as int] == d[j as int]);
    }
    lemma_run_len(w, ty, 0, d.len());
    assert(w[d.len() as int] == rest[0] || rest.len() == 0);
    assert(!next_in_literal(w, ty, d.len()));
    assert(w.subrange(0, d.len() as int) =~= d);
    lemma_count_none(d, '.');
}

/// Whether `d` is a literal of digits alone.
pub open spec fn is_digits(d: Seq<char>) -> bool {
    d.len() > 0 && forall|i: int| 0 <= i < d.len() ==> is_digit(d[i])
}

/// The tree of the literal of digits `d`.
pub open spec fn leaf(d: Seq<char>) -> Spanned {
    Spanned { expr: Expr::Num(false, d), len: d.len() }
}

/// A tree with two operands, joined by one operator character.
pub open spec fn joined(e: Expr, x: Spanned, y: Spanned) -> Spanned {
    Spanned { expr: e, len: x.len + 1 + y.len }
}

/// `*` binds tighter than `+`: `a+b*c` is `a+(b*c)`, each node over its own
/// characters.
pub proof fn lemma_product_binds_tighter(a: Seq<char>, b: Seq<char>, c: Seq<char>)
    requires
        is_digits(a),
        is_digits(b),
        is_digits(c),
    ensures
        ({
            let w = a + seq!['+'] + b + seq!['*'] + c;
            let m = joined(Expr::Mul(Box::new(leaf(b)), Box::new(leaf(c))), leaf(b), leaf(c));
            term(w, LexerType::UntilEof) == Ok::<Spanned, Fault>(
                joined(Expr::Add(Box::new(leaf(a)), Box::new(m)), leaf(a), m),
            )
        }),
{
    let ty = LexerType::UntilEof;
    let w = a + seq!['+'] + b + seq!['*'] + c;
    let v = b + seq!['*'] + c;
    let m = joined(Expr::Mul(Box::new(leaf(b)), Box::new(leaf(c))), leaf(b), leaf(c));
    assert(w =~= a + (seq!['+'] + v));
    lemma_digits_primary(a, seq!['+'] + v, ty);
    assert(w[a.len() as int] == '+');
    assert(factor(w, ty) == Ok::<Spanned, Fault>(leaf(a)));
    assert(w.skip((a.len() + 1) as int) =~= v);
    assert(v =~= b + (seq!['*'] + c));
    lemma_digits_primary(b, seq!['*'] + c, ty);
    assert(v[b.len() as int] == '*');
    assert(v.skip((b.len() + 1) as int) =~= c + Seq::<char>::empty());
    assert(c =~= c + Seq::<char>::empty());
    lemma_digits_primary(c, Seq::empty(), ty);
    assert(factor_rest(v, ty, m) == Ok::<Spanned, Fault>(m));
    assert(factor(v, ty) == Ok::<Spanned, Fault>(m));
    let sum = joined(Expr::Add(Box::new(leaf(a)), Box::new(m)), leaf(a), m);
    assert(term_rest(w, ty, sum) == Ok::<Spanned, Fault>(sum));
}

/// `-` groups from the left: `a-b-c` is `(a-b)-c`, each node over its own
/// characters.
pub proof fn lemma_difference_groups_left(a: Seq<char>, b: Seq<char>, c: Seq<char>)
    requires
        is_digits(a),
        is_digits(b),
        is_digits(c),
    ensures
        ({
            let w = a + seq!['-'] + b + seq!['-'] + c;
            let d = joined(Expr::Sub(Box::new(leaf(a)), Box::new(leaf(b))), leaf(a), leaf(b));
            term(w, LexerType::UntilEof) == Ok::<Spanned, Fault>(
                joined(Expr::Sub(Box::new(d), Box::new(leaf(c))), d, leaf(c)),
            )
        }),
{
    let ty = LexerType::UntilEof;
    let w = a + seq!['-'] + b + seq!['-'] + c;
    let i = a.len() + 1 + b.len();
    assert(w =~= a + (seq!['-'] + b + seq!['-'] + c));
    lemma_digits_primary(a, seq!['-'] + b + seq!['-'] + c, ty);
    assert(w[a.len() as int] == '-');
    assert(factor(w, ty) == Ok::<Spanned, Fault>(leaf(a)));
    let v = w.skip((a.len() + 1) as int);
    assert(v =~= b + (seq!['-'] + c));
    lemma_digits_primary(b, seq!['-'] + c, ty);
    assert(v[b.len() as int] == '-');
    assert(factor(v, ty) == Ok::<Spanned, Fault>(leaf(b)));
    assert(w[i as int] == '-');
    let u = w.skip((i + 1) as int);
    assert(u =~= c + Seq::<char>::empty());
    lemma_digits_primary(c, Seq::empty(), ty);
    assert(factor(u, ty) == Ok::<Spanned, Fault>(leaf(c)));
    let d1 = joined(Expr::Sub(Box::new(leaf(a)), Box::new(leaf(b))), leaf(a), leaf(b));
    let d2 = joined(Expr::Sub(Box::new(d1), Box::new(leaf(c))), d1, leaf(c));
    assert(term_rest(w, ty, d2) == Ok::<Spanned, Fault>(d2));
    assert(term_rest(w, ty, d1) == Ok::<Spanned, Fault>(d2));
    assert(term_rest(w, ty, leaf(a)) == Ok::<Spanned, Fault>(d2));
}

/// `/` and `*` group from the left: `a/b*c` is `(a/b)*c`, each node over its
/// own characters.
pub proof fn lemma_quotient_groups_left(a: Seq<char>, b: Seq<char>, c: Seq<char>)
    requires
        is_digits(a),
        is_digits(b),
        is_digits(c),
    ensures
        ({
            let w = a + seq!['/'] + b + seq!['*'] + c;
            let q = joined(Expr::Div(Box::new(leaf(a)), Box::new(leaf(b))), leaf(a), leaf(b));
            term(w, LexerType::UntilEof) == Ok::<Spanned, Fault>(
                joined(Expr::Mul(Box::new(q), Box::new(leaf(c))), q, leaf(c)),
            )
        }),
{
    let ty = LexerType::UntilEof;
    let w = a + seq!['/'] + b + seq!['*'] + c;
    let i = a.len() + 1 + b.len();
    assert(w =~= a + (seq!['/'] + b + seq!['*'] + c));
    lemma_digits_primary(a, seq!['/'] + b + seq!['*'] + c, ty);
    assert(w[a.len() as int] == '/');
    let v = w.skip((a.len() + 1) as int);
    assert(v =~= b + (seq!['*'] + c));
    lemma_digits_primary(b, seq!['*'] + c, ty);
    assert(w[i as int] == '*');
    let u = w.skip((i + 1) as int);
    assert(u =~= c + Seq::<char>::empty());
    lemma_digits_primary(c, Seq::empty(), ty);
    let q = joined(Expr::Div(Box::new(leaf(a)), Box::new(leaf(b))), leaf(a), leaf(b));
    let p = joined(Expr::Mul(Box::new(q), Box::new(leaf(c))), q, leaf(c));
    assert(factor_rest(w, ty, p) == Ok::<Spanned, Fault>(p));
    assert(factor_rest(w, ty, q) == Ok::<Spanned, Fault>(p));
    assert(factor_rest(w, ty, leaf(a)) == Ok::<Spanned, Fault>(p));
    assert(term_rest(w, ty, p) == Ok::<Spanned, Fault>(p));
}

/// Parentheses override precedence: `(a+b)*c` multiplies the sum by `c`; the
/// sum lies one character into the parenthesized operand, which ends after
/// the `)`.
pub proof fn lemma_parentheses_override(a: Seq<char>, b: Seq<char>, c: Seq<char>)
    requires
        is_digits(a),
        is_digits(b),
        is_digits(c),
    ensures
        ({
            let w = seq!['('] + a + seq!['+'] + b + seq![')'] + seq!['*'] + c;
            let sum = joined(Expr::Add(Box::new(leaf(a)), Box::new(leaf(b))), leaf(a), leaf(b));
            let par = Spanned { expr: Expr::Paren(Box::new(sum)), len: sum.len + 2 };
            term(w, LexerType::UntilEof) == Ok::<Spanned, Fault>(
                joined(Expr::Mul(Box::new(par), Box::new(leaf(c))), par, leaf(c)),
            )
        }),
{
    let ty = LexerType::UntilEof;
    let close = Matcher::Specific(')');
    let w = seq!['('] + a + seq!['+'] + b + seq![')'] + seq!['*'] + c;
    let inner = w.drop_first();
    let j = a.len() + 1 + b.len();
    assert(inner =~= a + seq!['+'] + b + seq![')'] + seq!['*'] + c);
    assert forall|i: int| 0 <= i < j implies !ty.stops_at(inner[i]) && !close.spec_accepts(
        inner[i],
    ) by {
        if i < a.len() {
            assert(inner[i] == a[i]);
        } else if i > a.len() {
            assert(inner[i] == b[i - a.len() - 1]);
        }
    }
    assert(inner[j as int] == ')');
    lemma_stop_index(inner, ty, close, j);
    assert(next_is(inner, ty, j, ')'));
    let b_ty = until_close();
    assert(inner =~= a + (seq!['+'] + b + seq![')'] + seq!['*'] + c));
    lemma_digits_primary(a, seq!['+'] + b + seq![')'] + seq!['*'] + c, b_ty);
    assert(inner[a.len() as int] == '+');
    assert(factor(inner, b_ty) == Ok::<Spanned, Fault>(leaf(a)));
    let v = inner.skip((a.len() + 1) as int);
    assert(v =~= b + (seq![')'] + seq!['*'] + c));
    lemma_digits_primary(b, seq![')'] + seq!['*'] + c, b_ty);
    assert(v[b.len() as int] == ')');
    assert(factor(v, b_ty) == Ok::<Spanned, Fault>(leaf(b)));
    let sum = joined(Expr::Add(Box::new(leaf(a)), Box::new(leaf(b))), leaf(a), leaf(b));
    assert(term_rest(inner, b_ty, sum) == Ok::<Spanned, Fault>(sum));
    assert(term(inner, b_ty) == Ok::<Spanned, Fault>(sum));
    let par = Spanned { expr: Expr::Paren(Box::new(sum)), len: sum.len + 2 };
    assert(primary(w, ty) == Ok::<Spanned, Fault>(par));
    assert(w[(j + 2) as int] == '*');
    let u = w.skip((j + 3) as int);
    assert(u =~= c + Seq::<char>::empty());
    lemma_digits_primary(c, Seq::empty(), ty);
    let p = joined(Expr::Mul(Box::new(par), Box::new(leaf(c))), par, leaf(c));
    assert(factor_rest(w, ty, p) == Ok::<Spanned, Fault>(p));
    assert(factor_rest(w, ty, par) == Ok::<Spanned, Fault>(p));
    assert(term_rest(w, ty, p) == Ok::<Spanned, Fault>(p));
}

/// A primary: a number, or a term in parentheses grouped as `term_shaped`
/// says.
pub open spec fn primary_shaped(e: Expr) -> bool
    decreases e, 0int,
{
    match e {
        Expr::Num(_, _) => true,
        Expr::Paren(t) => term_shaped(t.expr),
        _ => false,
    }
}

/// A factor grouped the usual way: a primary, or a product or quotient whose
/// left operand is such a factor and whose right operand is a primary.
pub open spec fn factor_shaped(e: Expr) -> bool
    decreases e, 1int,
{
    match e {
        Expr::Mul(x, y) => factor_shaped(x.expr) && primary_shaped(y.expr),
        Expr::Div(x, y) => factor_shaped(x.expr) && primary_shaped(y.expr),
        _ => primary_shaped(e),
    }
}

/// A term grouped the usual way: a factor, or a sum or difference whose left
/// operand is such a term and whose right operand is a factor. So no operand
/// of `*` or `/` is a sum or difference outside parentheses, and operators of
/// one precedence group from the left.
pub open spec fn term_shaped(e: Expr) -> bool
    decreases e, 2int,
{
    match e {
        Expr::Add(x, y) => term_shaped(x.expr) && factor_shaped(y.expr),
        Expr::Sub(x, y) => term_shaped(x.expr) && factor_shaped(y.expr),
        _ => factor_shaped(e),
    }
}

/// Whatever a primary reads is shaped as a primary.
pub proof fn lemma_primary_shaped(w: Seq<char>, ty: LexerType)
    ensures
        primary(w, ty) is Ok ==> primary_shaped(primary(w, ty)->Ok_0.expr),
    decreases w.len() as int, 0int,
{
    if next_is(w, ty, 0, '(') {
        lemma_term_shaped(w.drop_first(), until_close());
    }
}

proof fn lemma_factor_rest_shaped(w: Seq<char>, ty: LexerType, acc: Spanned)
    requires
        factor_shaped(acc.expr),
    ensures
        factor_rest(w, ty, acc) is Ok ==> factor_shaped(factor_rest(w, ty, acc)->Ok_0.expr),
    decreases if acc.len <= w.len() { w.len() - acc.len } else { 0 }, 1int,
{
    let i = acc.len;
    if next_is(w, ty, i, '*') || next_is(w, ty, i, '/') {
        lemma_primary_shaped(w.skip((i + 1) as int), ty);
        if let Ok(p) = primary(w.skip((i + 1) as int), ty) {
            let next = Spanned {
                expr: if w[i as int] == '*' {
                    Expr::Mul(Box::new(acc), Box::new(p))
                } else {
                    Expr::Div(Box::new(acc), Box::new(p))
                },
                len: i + 1 + p.len,
            };
            lemma_factor_rest_shaped(w, ty, next);
        }
    }
}

/// Whatever a factor reads is shaped as a factor.
pub proof fn lemma_factor_shaped(w: Seq<char>, ty: LexerType)
    ensures
        factor(w, ty) is Ok ==> factor_shaped(factor(w, ty)->Ok_0.expr),
    decreases w.len() as int, 2int,
{
    lemma_primary_shaped(w, ty);
    if let Ok(p) = primary(w, ty) {
        lemma_factor_rest_shaped(w, ty, p);
    }
}

proof fn lemma_term_rest_shaped(w: Seq<char>, ty: LexerType, acc: Spanned)
    requires
        term_shaped(acc.expr),
    ensures
        term_rest(w, ty, acc) is Ok ==> term_shaped(term_rest(w, ty, acc)->Ok_0.expr),
    decreases if acc.len <= w.len() { w.len() - acc.len } else { 0 }, 3int,
{
    let i = acc.len;
    if next_is(w, ty, i, '+') || next_is(w, ty, i, '-') {
        lemma_factor_shaped(w.skip((i + 1) as int), ty);
        if let Ok(f) = factor(w.skip((i + 1) as int), ty) {
            let next = Spanned {
                expr: if w[i as int] == '+' {
                    Expr::Add(Box::new(acc), Box::new(f))
                } else {
                    Expr::Sub(Box::new(acc), Box::new(f))
                },
                len: i + 1 + f.len,
            };
            lemma_term_rest_shaped(w, ty, next);
        }
    }
}

/// Whatever a term reads, from any input, is grouped the usual way: `*` and
/// `/` bind tighter than `+` and `-`, parentheses make one operand, and
/// operators of one precedence group from the left.
pub proof fn lemma_term_shaped(w: Seq<char>, ty: LexerType)
    ensures
        term(w, ty) is Ok ==> term_shaped(term(w, ty)->Ok_0.expr),
    decreases w.len() as int, 4int,
{
    lemma_factor_shaped(w, ty);
    if let Ok(f) = factor(w, ty) {
        if f.expr is Add || f.expr is Sub {
            assert(!primary_shaped(f.expr));
        }
        assert(term_shaped(f.expr));
        lemma_term_rest_shaped(w, ty, f);
    }
}

} // verus!
