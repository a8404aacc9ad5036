//! The classes a pattern is made of, their mathematical values, and what one
//! class says of one character.
use vstd::prelude::*;

use crate::text::contains_char;

verus! {

/// One element of a parsed pattern.
#[derive(Debug, PartialEq)]
pub enum CharacterClasses {
    /// Digit set of `0-9`
    Digits,
    /// Character set of `a-z`, `A-Z`, `0-9` and `_`
    Characters,
    /// Positive matches tell what should be there. e.g. `[ab]` would match in the position only if it has `a` or `b`
    PositiveMatch(Vec<char>),
    /// Negative matches tell what shouldn't be there in a position. e.g. `[^abc]` doesn't match the position which has either `a`, `b` or `c`
    NegativeMatch(Vec<char>),
    /// Matches literal value without change. Note: This is case sensitive
    Literal(String),
    /// Anchor defines the start of a line. e.g., `^log` will match `log`, `logs`, `log124`, while not match with `slog`, `blog`.
    Anchor(Vec<CharacterClasses>),
    /// Line anchor defines the end of a line. e.g. `dog$` will match `I have a dog`.
    LineAnchor(Vec<CharacterClasses>),
    /// Both anchors at once: `^...$`.
    ImmAnchor(Vec<CharacterClasses>),
    /// One or more of the inner class (`+`).
    PositiveQuantifier(Box<CharacterClasses>),
    /// Whitespace
    WhiteSpace,
}

/// The mathematical value of a [`CharacterClasses`]: the same shape, with
/// sequences in place of vectors and strings.
#[verifier::ext_equal]
pub enum Class {
    Digits,
    Characters,
    PositiveMatch(Seq<char>),
    NegativeMatch(Seq<char>),
    Literal(Seq<char>),
    Anchor(Seq<Class>),
    LineAnchor(Seq<Class>),
    ImmAnchor(Seq<Class>),
    PositiveQuantifier(Box<Class>),
    WhiteSpace,
}

/// The value of one class.
pub open spec fn class_view(c: CharacterClasses) -> Class
    decreases c,
{
    match c {
        CharacterClasses::Digits => Class::Digits,
        CharacterClasses::Characters => Class::Characters,
        CharacterClasses::PositiveMatch(v) => Class::PositiveMatch(v@),
        CharacterClasses::NegativeMatch(v) => Class::NegativeMatch(v@),
        CharacterClasses::Literal(s) => Class::Literal(s@),
        CharacterClasses::Anchor(v) => Class::Anchor(classes_view(v@)),
        CharacterClasses::LineAnchor(v) => Class::LineAnchor(classes_view(v@)),
        CharacterClasses::ImmAnchor(v) => Class::ImmAnchor(classes_view(v@)),
        CharacterClasses::PositiveQuantifier(b) => Class::PositiveQuantifier(Box::new(class_view(*b))),
        CharacterClasses::WhiteSpace => Class::WhiteSpace,
    }
}

/// The values of a sequence of classes.
pub open spec fn classes_view(s: Seq<CharacterClasses>) -> Seq<Class>
    decreases s,
{
    Seq::new(
        s.len(),
        |i: int|
            if 0 <= i < s.len() {
                class_view(s[i])
            } else {
                Class::Digits
            },
    )
}

impl View for CharacterClasses {
    type V = Class;

    open spec fn view(&self) -> Class {
        class_view(*self)
    }
}

pub proof fn lemma_classes_view_push(s: Seq<CharacterClasses>, c: CharacterClasses)
    ensures
        classes_view(s.push(c)) == classes_view(s).push(class_view(c)),
{
    assert(classes_view(s.push(c)) =~= classes_view(s).push(class_view(c)));
}

pub proof fn lemma_classes_view_drop_last(s: Seq<CharacterClasses>)
    requires
        s.len() > 0,
    ensures
        classes_view(s.drop_last()) == classes_view(s).drop_last(),
        classes_view(s).last() == class_view(s.last()),
{
    assert(classes_view(s.drop_last()) =~= classes_view(s).drop_last());
}

/// An ASCII decimal digit, `'0'` to `'9'`.
pub open spec fn is_digit_char(c: char) -> bool {
    '0' <= c <= '9'
}

/// A word character: `a-z`, `A-Z`, `0-9` or `_`.
pub open spec fn is_word_char(c: char) -> bool {
    ||| 'a' <= c <= 'z'
    ||| 'A' <= c <= 'Z'
    ||| '0' <= c <= '9'
    ||| c == '_'
}

/// The classes that stand for exactly one character.
pub open spec fn is_char_class(cls: Class) -> bool {
    match cls {
        Class::Digits | Class::Characters | Class::WhiteSpace | Class::PositiveMatch(_)
        | Class::NegativeMatch(_) => true,
        _ => false,
    }
}

/// Whether a one-character class accepts `c`.
pub open spec fn char_class_accepts(cls: Class, c: char) -> bool {
    match cls {
        Class::Digits => is_digit_char(c),
        Class::Characters => is_word_char(c),
        Class::WhiteSpace => c == ' ',
        Class::PositiveMatch(set) => set.contains(c),
        Class::NegativeMatch(set) => !set.contains(c),
        _ => false,
    }
}

impl Clone for CharacterClasses {
    fn clone(&self) -> (r: Self)
        ensures
            r@ == self@,
    {
        self.deep_clone()
    }
}

/// What one class says of one character of the input.
pub enum MatchResultType {
    Char(bool),
    Literal(String),
    Anchor(Vec<CharacterClasses>),
    LineAnchor(Vec<CharacterClasses>),
    ImmAnchor(Vec<CharacterClasses>),
    Qualifier(QualifierType<CharacterClasses>),
}

/// A repetition of a class.
pub enum QualifierType<T> {
    Positive(Box<T>),
    Lazy(T),
    Greedy(T),
}

/// A copy of a vector of characters.
fn copy_chars(v: &Vec<char>) -> (r: Vec<char>)
    ensures
        r@ == v@,
{
    let mut r: Vec<char> = Vec::new();
    let mut j: usize = 0;
    while j < v.len()
        invariant
            0 <= j <= v@.len(),
            r@ == v@.take(j as int),
        decreases v@.len() - j,
    {
        r.push(v[j]);
        assert(v@.take(j + 1) =~= v@.take(j as int).push(v@[j as int]));
        j = j + 1;
    }
    assert(v@.take(v@.len() as int) =~= v@);
    r
}

/// A copy of a vector of classes.
pub fn copy_classes(v: &Vec<CharacterClasses>) -> (r: Vec<CharacterClasses>)
    ensures
        classes_view(r@) == classes_view(v@),
    decreases v,
{
    let mut r: Vec<CharacterClasses> = Vec::new();
    let mut j: usize = 0;
    while j < v.len()
        invariant
            0 <= j <= v@.len(),
            classes_view(r@) == classes_view(v@.take(j as int)),
        decreases v@.len() - j,
    {
        assert(decreases_to!(v => v@[j as int]));
        let c = v[j].deep_clone();
        proof {
            lemma_classes_view_push(r@, c);
            lemma_classes_view_push(v@.take(j as int), v@[j as int]);
            assert(v@.take(j + 1) =~= v@.take(j as int).push(v@[j as int]));
        }
        r.push(c);
        j = j + 1;
    }
    assert(v@.take(v@.len() as int) =~= v@);
    r
}

impl CharacterClasses {
    /// A copy of this class, all the way down.
    pub fn deep_clone(&self) -> (r: Self)
        ensures
            r@ == self@,
        decreases self,
    {
        match self {
            CharacterClasses::Digits => CharacterClasses::Digits,
            CharacterClasses::Characters => CharacterClasses::Characters,
            CharacterClasses::PositiveMatch(v) => CharacterClasses::PositiveMatch(copy_chars(v)),
            CharacterClasses::NegativeMatch(v) => CharacterClasses::NegativeMatch(copy_chars(v)),
            CharacterClasses::Literal(s) => CharacterClasses::Literal(s.clone()),
            CharacterClasses::Anchor(v) => CharacterClasses::Anchor(copy_classes(v)),
            CharacterClasses::LineAnchor(v) => CharacterClasses::LineAnchor(copy_classes(v)),
            CharacterClasses::ImmAnchor(v) => CharacterClasses::ImmAnchor(copy_classes(v)),
            CharacterClasses::PositiveQuantifier(b) => {
                let inner = b.deep_clone();
                CharacterClasses::PositiveQuantifier(Box::new(inner))
            },
            CharacterClasses::WhiteSpace => CharacterClasses::WhiteSpace,
        }
    }

    /// What this class says of the input character `input`: a verdict for the
    /// one-character classes, and the class's contents for the others.
    pub fn match_char_with_pattern(&self, input: char) -> (r: MatchResultType)
        ensures
            is_char_class(self@) ==> r == MatchResultType::Char(char_class_accepts(self@, input)),
            self@ == Class::Digits ==> r == MatchResultType::Char('0' <= input && input <= '9'),
            self@ == Class::Characters ==> r == MatchResultType::Char(
                ('a' <= input && input <= 'z') || ('A' <= input && input <= 'Z') || ('0' <= input
                    && input <= '9') || input == '_',
            ),
            self@ == Class::WhiteSpace ==> r == MatchResultType::Char(input == ' '),
            self@ matches Class::PositiveMatch(set) ==> r == MatchResultType::Char(
                set.contains(input),
            ),
            self@ matches Class::NegativeMatch(set) ==> r == MatchResultType::Char(
                !set.contains(input),
            ),
            self@ matches Class::Literal(l) ==> (r matches MatchResultType::Literal(t) && t@ == l),
            self@ matches Class::Anchor(v) ==> (r matches MatchResultType::Anchor(w)
                && classes_view(w@) == v),
            self@ matches Class::LineAnchor(v) ==> (r matches MatchResultType::LineAnchor(w)
                && classes_view(w@) == v),
            self@ matches Class::ImmAnchor(v) ==> (r matches MatchResultType::ImmAnchor(w)
                && classes_view(w@) == v),
            self@ matches Class::PositiveQuantifier(b) ==> (r matches MatchResultType::Qualifier(
                QualifierType::Positive(x),
            ) && x@ == *b),
    {
        match self {
            CharacterClasses::Digits => MatchResultType::Char(CharacterClasses::is_digit(input)),
            CharacterClasses::Characters => MatchResultType::Char(
                CharacterClasses::is_character(input),
            ),
            CharacterClasses::WhiteSpace => MatchResultType::Char(
                CharacterClasses::is_whitespace(input),
            ),
            CharacterClasses::PositiveMatch(positive_match_vec) => MatchResultType::Char(
                CharacterClasses::is_positive_matched(input, positive_match_vec.as_slice()),
            ),
            CharacterClasses::NegativeMatch(negative_match_vec) => MatchResultType::Char(
                CharacterClasses::is_negative_matched(input, negative_match_vec.as_slice()),
            ),
            CharacterClasses::Literal(literal_match) => MatchResultType::Literal(
                literal_match.clone(),
            ),
            CharacterClasses::Anchor(start_anchor) => MatchResultType::Anchor(
                copy_classes(start_anchor),
            ),
            CharacterClasses::LineAnchor(line_anchor) => MatchResultType::LineAnchor(
                copy_classes(line_anchor),
            ),
            CharacterClasses::ImmAnchor(imm_anchor) => MatchResultType::ImmAnchor(
                copy_classes(imm_anchor),
            ),
            CharacterClasses::PositiveQuantifier(c) => MatchResultType::Qualifier(
                QualifierType::Positive(Box::new(c.deep_clone())),
            ),
        }
    }

    /// Whether `input` is a space.
    pub fn is_whitespace(input: char) -> (r: bool)
        ensures
            r == (input == ' '),
    {
        input == ' '
    }

    /// Whether `input` is an ASCII decimal digit.
    pub fn is_digit(input: char) -> (r: bool)
        ensures
            r == is_digit_char(input),
            r == ('0' <= input && input <= '9'),
    {
        '0' <= input && input <= '9'
    }

    /// Whether `input` is in `a-z`, `A-Z`, `0-9` or is `_`.
    pub fn is_character(input: char) -> (r: bool)
        ensures
            r == is_word_char(input),
            r == (('a' <= input && input <= 'z') || ('A' <= input && input <= 'Z') || ('0'
                <= input && input <= '9') || input == '_'),
    {
        ('a' <= input && input <= 'z') || ('A' <= input && input <= 'Z') || ('0' <= input
            && input <= '9') || input == '_'
    }

    /// Whether `pattern` holds `input`.
    pub fn is_positive_matched(input: char, pattern: &[char]) -> (r: bool)
        ensures
            r == pattern@.contains(input),
    {
        contains_char(pattern, input)
    }

    /// Whether `pattern` does not hold `input`.
    pub fn is_negative_matched(input: char, pattern: &[char]) -> (r: bool)
        ensures
            r == !pattern@.contains(input),
    {
        !contains_char(pattern, input)
    }
}

} // verus!
