use vstd::prelude::*;

verus! {

/// Whether `c` has the Unicode `White_Space` property.
pub open spec fn is_white_space(c: char) -> bool {
    let u = c as u32;
    u == 0x20 || (0x09 <= u && u <= 0x0d) || u == 0x85 || u == 0xa0 || u == 0x1680 || (0x2000
        <= u && u <= 0x200a) || u == 0x2028 || u == 0x2029 || u == 0x202f || u == 0x205f || u
        == 0x3000
}

/// Whether `c` has the Unicode `White_Space` property, as `char::is_whitespace`
/// tells it.
pub(crate) fn white_space(c: char) -> (r: bool)
    ensures
        r == is_white_space(c),
{
    let u = c as u32;
    u == 0x20 || (0x09 <= u && u <= 0x0d) || u == 0x85 || u == 0xa0 || u == 0x1680 || (0x2000
        <= u && u <= 0x200a) || u == 0x2028 || u == 0x2029 || u == 0x202f || u == 0x205f || u
        == 0x3000
}

/// Whether `c` is one of the decimal digits `0` to `9`.
pub open spec fn is_digit(c: char) -> bool {
    '0' <= c && c <= '9'
}

/// Relies on `String::push`, which appends one character at the end.
#[verifier::external_body]
pub(crate) fn push_char(s: &mut String, c: char)
    ensures
        final(s)@ == old(s)@.push(c),
{
    s.push(c)
}

/// The closed set of character classes, as a value that a cursor can keep.
#[derive(Clone, Copy, Debug, PartialEq, Eq, Structural)]
pub enum Matcher {
    Any,
    Numeric,
    Specific(char),
}

impl Matcher {
    pub open spec fn spec_accepts(self, c: char) -> bool {
        match self {
            Matcher::Any => true,
            Matcher::Numeric => is_digit(c),
            Matcher::Specific(e) => c == e,
        }
    }

    pub open spec fn spec_complaint(self, c: char) -> Seq<char> {
        match self {
            Matcher::Any => Seq::empty(),
            Matcher::Numeric => numeric_complaint(c),
            Matcher::Specific(e) => specific_complaint(c, e),
        }
    }
}

/// The description of a character that is not a digit.
pub open spec fn numeric_complaint(c: char) -> Seq<char> {
    "got non-numeric character "@.push(c)
}

/// The description of a character `c` found where `e` was expected.
pub open spec fn specific_complaint(c: char, e: char) -> Seq<char> {
    ("got "@.push(c) + " but expected "@).push(e)
}

/// A test on a single character, which either accepts it or describes why not.
pub trait CharMatcher {
    spec fn accepts(&self, c: char) -> bool;

    spec fn complaint(&self, c: char) -> Seq<char>;

    fn is_match(&self, c: char) -> (r: Result<(), String>)
        ensures
            r is Ok <==> self.accepts(c),
            r matches Err(s) ==> s@ == self.complaint(c),
    ;

    /// The same test as a `Matcher` value.
    fn dynamic(&self) -> (r: Matcher)
        ensures
            forall|c: char| r.spec_accepts(c) == self.accepts(c),
            forall|c: char| r.spec_complaint(c) == self.complaint(c),
    ;
}

/// Accepts every character.
#[derive(Clone, Copy, Debug)]
pub struct AnyChar;

/// Accepts the decimal digits.
#[derive(Clone, Copy, Debug)]
pub struct NumericChar;

/// Accepts one given character.
#[derive(Clone, Copy, Debug)]
pub struct SpecificChar {
    pub expected: char,
}

impl CharMatcher for AnyChar {
    open spec fn accepts(&self, c: char) -> bool {
        true
    }

    open spec fn complaint(&self, c: char) -> Seq<char> {
        Seq::empty()
    }

    fn is_match(&self, c: char) -> (r: Result<(), String>) {
        Ok(())
    }

    fn dynamic(&self) -> (r: Matcher) {
        Matcher::Any
    }
}

impl CharMatcher for NumericChar {
    open spec fn accepts(&self, c: char) -> bool {
        is_digit(c)
    }

    open spec fn complaint(&self, c: char) -> Seq<char> {
        numeric_complaint(c)
    }

    fn is_match(&self, c: char) -> (r: Result<(), String>) {
        if '0' <= c && c <= '9' {
            Ok(())
        } else {
            let mut s = String::from_str("got non-numeric character ");
            push_char(&mut s, c);
            Err(s)
        }
    }

    fn dynamic(&self) -> (r: Matcher) {
        Matcher::Numeric
    }
}

impl CharMatcher for SpecificChar {
    open spec fn accepts(&self, c: char) -> bool {
        c == self.expected
    }

    open spec fn complaint(&self, c: char) -> Seq<char> {
        specific_complaint(c, self.expected)
    }

    fn is_match(&self, c: char) -> (r: Result<(), String>) {
        specific_match(c, self.expected)
    }

    fn dynamic(&self) -> (r: Matcher) {
        Matcher::Specific(self.expected)
    }
}

impl CharMatcher for Matcher {
    open spec fn accepts(&self, c: char) -> bool {
        self.spec_accepts(c)
    }

    open spec fn complaint(&self, c: char) -> Seq<char> {
        self.spec_complaint(c)
    }

    fn is_match(&self, c: char) -> (r: Result<(), String>) {
        match self {
            Matcher::Any => AnyChar.is_match(c),
            Matcher::Numeric => NumericChar.is_match(c),
            Matcher::Specific(e) => specific_match(c, *e),
        }
    }

    fn dynamic(&self) -> (r: Matcher) {
        *self
    }
}

fn specific_match(c: char, e: char) -> (r: Result<(), String>)
    ensures
        r is Ok <==> c == e,
        r matches Err(s) ==> s@ == specific_complaint(c, e),
{
    if c == e {
        Ok(())
    } else {
        let mut s = String::from_str("got ");
        push_char(&mut s, c);
        s.append(" but expected ");
        push_char(&mut s, e);
        Err(s)
    }
}

} // verus!
