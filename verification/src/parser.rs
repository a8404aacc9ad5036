//! Turning a pattern string into its classes.
use vstd::prelude::*;

use crate::text::{byte_len, chars_of, string_of, utf8_len};
use crate::types::{
    CharacterClasses, Class, classes_view, class_view, lemma_classes_view_push,
    lemma_classes_view_drop_last,
};

verus! {

/// The characters of `s` before the first `stop` (all of `s` where there is none).
pub open spec fn take_until(s: Seq<char>, stop: char) -> Seq<char>
    decreases s.len(),
{
    if s.len() == 0 || s[0] == stop {
        seq![]
    } else {
        seq![s[0]] + take_until(s.drop_first(), stop)
    }
}

/// The characters that end a literal: `\`, `[`, a space and `+`.
pub open spec fn ends_literal(c: char) -> bool {
    c == '\\' || c == '[' || c == ' ' || c == '+'
}

/// The longest prefix of `s` in which no character ends a literal.
pub open spec fn literal_run(s: Seq<char>) -> Seq<char>
    decreases s.len(),
{
    if s.len() == 0 || ends_literal(s[0]) {
        seq![]
    } else {
        seq![s[0]] + literal_run(s.drop_first())
    }
}

pub proof fn lemma_take_until_len(s: Seq<char>, stop: char)
    ensures
        take_until(s, stop).len() <= s.len(),
        s.len() > 0 && s.last() == stop ==> take_until(s, stop).len() < s.len(),
    decreases s.len(),
{
    if s.len() > 0 && s[0] != stop {
        lemma_take_until_len(s.drop_first(), stop);
        if s.len() > 1 {
            assert(s.drop_first().last() == s.last());
        }
    }
}

pub proof fn lemma_literal_run_len(s: Seq<char>)
    ensures
        literal_run(s).len() <= s.len(),
        s.len() > 0 && !ends_literal(s[0]) ==> literal_run(s).len() >= 1,
    decreases s.len(),
{
    if s.len() > 0 && !ends_literal(s[0]) {
        lemma_literal_run_len(s.drop_first());
    }
}

/// The classes of a pattern, or `None` where it cannot be parsed.
///
/// A pattern that starts with `^` and ends with `$` must match the whole
/// input: it is one `ImmAnchor` of what stands between the two marks. One that
/// starts with `^` is an `Anchor` of what follows, up to the first `$`; one
/// that ends with `$` is a `LineAnchor` of what comes before the first `$`.
/// Any other pattern is read token by token ([`parse_tokens`]).
pub open spec fn parse_pattern(p: Seq<char>) -> Option<Seq<Class>>
    decreases p.len(), p.len() + 1,
{
    if p.len() >= 2 && p[0] == '^' && p.last() == '$' {
        match parse_pattern(p.subrange(1, p.len() - 1)) {
            Some(v) => Some(seq![Class::ImmAnchor(v)]),
            None => None,
        }
    } else if p.len() > 0 && p[0] == '^' {
        proof {
            lemma_take_until_len(p.drop_first(), '$');
        }
        match parse_pattern(take_until(p.drop_first(), '$')) {
            Some(v) => Some(seq![Class::Anchor(v)]),
            None => None,
        }
    } else if p.len() > 0 && p.last() == '$' {
        proof {
            lemma_take_until_len(p, '$');
        }
        match parse_pattern(take_until(p, '$')) {
            Some(v) => Some(seq![Class::LineAnchor(v)]),
            None => None,
        }
    } else {
        parse_tokens(p, 0, seq![])
    }
}

/// What a `+` makes of the classes `acc` read before it: the last class `c`
/// becomes one or more of `c`. A literal whose UTF-8 encoding takes more than
/// one byte is cut where its byte length less one, counted in characters,
/// falls: the characters before the cut stay a literal and those after it are
/// repeated. For an ASCII literal of two or more characters that repeats its
/// last character. `None` where nothing comes before the `+`, or where the cut
/// falls past the end of the literal.
pub open spec fn repeat_last(acc: Seq<Class>) -> Option<Seq<Class>> {
    if acc.len() == 0 {
        None
    } else {
        let last = acc.last();
        let rest = acc.drop_last();
        match last {
            Class::Literal(lit) => if byte_len(lit) > 1 {
                let mid = byte_len(lit) - 1;
                if mid <= lit.len() {
                    Some(
                        rest.push(Class::Literal(lit.take(mid))).push(
                            Class::PositiveQuantifier(Box::new(Class::Literal(lit.skip(mid)))),
                        ),
                    )
                } else {
                    None
                }
            } else {
                Some(rest.push(Class::PositiveQuantifier(Box::new(last))))
            },
            _ => Some(rest.push(Class::PositiveQuantifier(Box::new(last)))),
        }
    }
}

/// The classes read from `p[i..]`, appended to `acc`; `None` where reading
/// fails (a `+` that [`repeat_last`] refuses).
///
/// - `\d` and `\w` are `Digits` and `Characters`; `\` before any other
///   character drops both.
/// - `+` repeats the last class, as [`repeat_last`] says.
/// - `[...]` and `[^...]` hold the characters up to the first `]`.
/// - a space is `WhiteSpace`.
/// - `^` makes the rest of the pattern an `Anchor`.
/// - anything else starts a literal that runs up to the next `\`, `[`, space or `+`.
pub open spec fn parse_tokens(p: Seq<char>, i: int, acc: Seq<Class>) -> Option<Seq<Class>>
    decreases p.len(), p.len() - i,
{
    if i < 0 || i >= p.len() {
        Some(acc)
    } else {
        let c = p[i];
        if c == '\\' {
            if i + 1 < p.len() {
                let e = p[i + 1];
                let next = if e == 'd' {
                    acc.push(Class::Digits)
                } else if e == 'w' {
                    acc.push(Class::Characters)
                } else {
                    acc
                };
                parse_tokens(p, i + 2, next)
            } else {
                Some(acc)
            }
        } else if c == '+' {
            match repeat_last(acc) {
                Some(next) => parse_tokens(p, i + 1, next),
                None => None,
            }
        } else if c == '[' {
            let negated = i + 1 < p.len() && p[i + 1] == '^';
            let start = if negated { i + 2 } else { i + 1 };
            let members = take_until(p.subrange(start, p.len() as int), ']');
            let close = start + members.len();
            let item = if negated {
                Class::NegativeMatch(members)
            } else {
                Class::PositiveMatch(members)
            };
            parse_tokens(
                p,
                if close < p.len() {
                    close + 1
                } else {
                    p.len() as int
                },
                acc.push(item),
            )
        } else if c == ' ' {
            parse_tokens(p, i + 1, acc.push(Class::WhiteSpace))
        } else if c == '^' {
            match parse_pattern(p.subrange(i + 1, p.len() as int)) {
                Some(v) => Some(acc.push(Class::Anchor(v))),
                None => None,
            }
        } else {
            let lit = literal_run(p.subrange(i, p.len() as int));
            proof {
                lemma_literal_run_len(p.subrange(i, p.len() as int));
            }
            parse_tokens(p, i + lit.len(), acc.push(Class::Literal(lit)))
        }
    }
}

/// A parsed pattern: its classes, in order.
#[derive(Debug)]
pub struct PatternParser(pub Vec<CharacterClasses>);

impl View for PatternParser {
    type V = Seq<Class>;

    open spec fn view(&self) -> Seq<Class> {
        classes_view(self.0@)
    }
}

/// `take_until(p[from..], stop)`.
fn take_until_from(p: &Vec<char>, from: usize, stop: char) -> (r: Vec<char>)
    requires
        from <= p@.len(),
    ensures
        r@ == take_until(p@.subrange(from as int, p@.len() as int), stop),
{
    let n = p.len();
    let mut r: Vec<char> = Vec::new();
    let mut j = from;
    while j < n && p[j] != stop
        invariant
            from <= j <= n == p@.len(),
            take_until(p@.subrange(from as int, n as int), stop) == r@ + take_until(
                p@.subrange(j as int, n as int),
                stop,
            ),
        decreases n - j,
    {
        let ghost rest = p@.subrange(j as int, n as int);
        assert(rest.drop_first() =~= p@.subrange(j + 1, n as int));
        r.push(p[j]);
        assert(r@ + take_until(p@.subrange(j + 1, n as int), stop) =~= r@.drop_last() + take_until(
            rest,
            stop,
        ));
        j = j + 1;
    }
    assert(r@ + take_until(p@.subrange(j as int, n as int), stop) =~= r@);
    r
}

/// `literal_run(p[from..])`.
fn literal_run_from(p: &Vec<char>, from: usize) -> (r: Vec<char>)
    requires
        from <= p@.len(),
    ensures
        r@ == literal_run(p@.subrange(from as int, p@.len() as int)),
{
    let n = p.len();
    let mut r: Vec<char> = Vec::new();
    let mut j = from;
    while j < n && !(p[j] == '\\' || p[j] == '[' || p[j] == ' ' || p[j] == '+')
        invariant
            from <= j <= n == p@.len(),
            literal_run(p@.subrange(from as int, n as int)) == r@ + literal_run(
                p@.subrange(j as int, n as int),
            ),
        decreases n - j,
    {
        let ghost rest = p@.subrange(j as int, n as int);
        assert(rest.drop_first() =~= p@.subrange(j + 1, n as int));
        r.push(p[j]);
        assert(r@ + literal_run(p@.subrange(j + 1, n as int)) =~= r@.drop_last() + literal_run(
            rest,
        ));
        j = j + 1;
    }
    assert(r@ + literal_run(p@.subrange(j as int, n as int)) =~= r@);
    r
}

/// `p[from..to]`.
fn slice_chars(p: &Vec<char>, from: usize, to: usize) -> (r: Vec<char>)
    requires
        from <= to <= p@.len(),
    ensures
        r@ == p@.subrange(from as int, to as int),
{
    let mut r: Vec<char> = Vec::new();
    let mut j = from;
    while j < to
        invariant
            from <= j <= to <= p@.len(),
            r@ == p@.subrange(from as int, j as int),
        decreases to - j,
    {
        r.push(p[j]);
        assert(r@ =~= p@.subrange(from as int, j + 1));
        j = j + 1;
    }
    r
}

/// Whether the classes `r` stand for the spec result `s`.
pub open spec fn parsed_as(r: Option<Vec<CharacterClasses>>, s: Option<Seq<Class>>) -> bool {
    match s {
        Some(v) => r matches Some(w) && classes_view(w@) == v,
        None => r is None,
    }
}

/// The classes of the pattern `p`, or `None` where it cannot be parsed.
fn parse_chars(p: &Vec<char>) -> (r: Option<Vec<CharacterClasses>>)
    ensures
        parsed_as(r, parse_pattern(p@)),
    decreases p@.len(), 1nat,
{
    let n = p.len();
    if n >= 2 && p[0] == '^' && p[n - 1] == '$' {
        let inner = slice_chars(p, 1, n - 1);
        match parse_chars(&inner) {
            Some(v) => {
                let item = CharacterClasses::ImmAnchor(v);
                let r = vec![item];
                assert(classes_view(r@) =~= seq![class_view(item)]);
                Some(r)
            },
            None => None,
        }
    } else if n > 0 && p[0] == '^' {
        proof {
            lemma_take_until_len(p@.drop_first(), '$');
            assert(p@.subrange(1, n as int) =~= p@.drop_first());
        }
        let inner = take_until_from(p, 1, '$');
        match parse_chars(&inner) {
            Some(v) => {
                let item = CharacterClasses::Anchor(v);
                let r = vec![item];
                assert(classes_view(r@) =~= seq![class_view(item)]);
                Some(r)
            },
            None => None,
        }
    } else if n > 0 && p[n - 1] == '$' {
        proof {
            lemma_take_until_len(p@, '$');
            assert(p@.subrange(0, n as int) =~= p@);
        }
        let inner = take_until_from(p, 0, '$');
        match parse_chars(&inner) {
            Some(v) => {
                let item = CharacterClasses::LineAnchor(v);
                let r = vec![item];
                assert(classes_view(r@) =~= seq![class_view(item)]);
                Some(r)
            },
            None => None,
        }
    } else {
        parse_token_list(p)
    }
}

/// Applies [`repeat_last`] to `acc` in place; `false`, with `acc` left
/// as it may be, where it gives `None`.
fn repeat_last_in(acc: &mut Vec<CharacterClasses>) -> (ok: bool)
    ensures
        ok == repeat_last(classes_view(old(acc)@)) is Some,
        ok ==> classes_view(final(acc)@) == repeat_last(classes_view(old(acc)@))->0,
{
    let ghost old_acc = acc@;
    let popped = acc.pop();
    match popped {
        None => false,
        Some(last) => {
            proof {
                lemma_classes_view_drop_last(old_acc);
            }
            match last {
                CharacterClasses::Literal(lit) => {
                    let chars = chars_of(lit.as_str());
                    let bytes = utf8_len(&chars);
                    if bytes > 1 {
                        let mid = bytes - 1;
                        if mid > chars.len() as u128 {
                            return false;
                        }
                        let m = mid as usize;
                        let head = slice_chars(&chars, 0, m);
                        let tail = slice_chars(&chars, m, chars.len());
                        assert(head@ =~= lit@.take(m as int));
                        assert(tail@ =~= lit@.skip(m as int));
                        let first = CharacterClasses::Literal(string_of(&head));
                        let tail_lit = CharacterClasses::Literal(string_of(&tail));
                        assert(class_view(tail_lit) == Class::Literal(tail@));
                        let second = CharacterClasses::PositiveQuantifier(Box::new(tail_lit));
                        proof {
                            lemma_classes_view_push(acc@, first);
                            lemma_classes_view_push(acc@.push(first), second);
                        }
                        acc.push(first);
                        acc.push(second);
                    } else {
                        let item = CharacterClasses::PositiveQuantifier(
                            Box::new(CharacterClasses::Literal(lit)),
                        );
                        proof {
                            lemma_classes_view_push(acc@, item);
                        }
                        acc.push(item);
                    }
                },
                other => {
                    let item = CharacterClasses::PositiveQuantifier(Box::new(other));
                    proof {
                        lemma_classes_view_push(acc@, item);
                    }
                    acc.push(item);
                },
            }
            true
        },
    }
}

/// The classes read token by token from the whole of `p`.
fn parse_token_list(p: &Vec<char>) -> (r: Option<Vec<CharacterClasses>>)
    ensures
        parsed_as(r, parse_tokens(p@, 0, seq![])),
    decreases p@.len(), 0nat,
{
    let n = p.len();
    let mut acc: Vec<CharacterClasses> = Vec::new();
    let mut i: usize = 0;
    assert(classes_view(acc@) =~= Seq::<Class>::empty());
    while i < n
        invariant
            0 <= i <= n == p@.len(),
            parse_tokens(p@, 0, seq![]) == parse_tokens(p@, i as int, classes_view(acc@)),
        decreases n - i,
    {
        let c = p[i];
        if c == '\\' {
            if i + 1 < n {
                let e = p[i + 1];
                if e == 'd' {
                    proof { lemma_classes_view_push(acc@, CharacterClasses::Digits); }
                    acc.push(CharacterClasses::Digits);
                } else if e == 'w' {
                    proof { lemma_classes_view_push(acc@, CharacterClasses::Characters); }
                    acc.push(CharacterClasses::Characters);
                }
                i = i + 2;
            } else {
                i = n;
            }
        } else if c == '+' {
            if !repeat_last_in(&mut acc) {
                return None;
            }
            i = i + 1;
        } else if c == '[' {
            let negated = i + 1 < n && p[i + 1] == '^';
            let start = if negated { i + 2 } else { i + 1 };
            let members = take_until_from(p, start, ']');
            proof {
                lemma_take_until_len(p@.subrange(start as int, n as int), ']');
            }
            let close = start + members.len();
            let item = if negated {
                CharacterClasses::NegativeMatch(members)
            } else {
                CharacterClasses::PositiveMatch(members)
            };
            proof { lemma_classes_view_push(acc@, item); }
            acc.push(item);
            i = if close < n { close + 1 } else { n };
        } else if c == ' ' {
            proof { lemma_classes_view_push(acc@, CharacterClasses::WhiteSpace); }
            acc.push(CharacterClasses::WhiteSpace);
            i = i + 1;
        } else if c == '^' {
            let rest = slice_chars(p, i + 1, n);
            match parse_chars(&rest) {
                Some(v) => {
                    let item = CharacterClasses::Anchor(v);
                    proof { lemma_classes_view_push(acc@, item); }
                    acc.push(item);
                    return Some(acc);
                },
                None => {
                    return None;
                },
            }
        } else {
            let lit = literal_run_from(p, i);
            proof {
                lemma_literal_run_len(p@.subrange(i as int, n as int));
            }
            let len = lit.len();
            let item = CharacterClasses::Literal(string_of(&lit));
            proof { lemma_classes_view_push(acc@, item); }
            acc.push(item);
            i = i + len;
        }
    }
    Some(acc)
}

impl PatternParser {
    /// Parses `pattern`; `None` on the patterns that cannot be parsed: a `+`
    /// with nothing before it, or one after a literal whose cut (see
    /// [`repeat_last`]) falls past its end.
    pub fn try_new(pattern: &str) -> (r: Option<PatternParser>)
        ensures
            match parse_pattern(pattern@) {
                Some(v) => r matches Some(pp) && pp@ == v,
                None => r is None,
            },
    {
        let p = chars_of(pattern);
        match parse_chars(&p) {
            Some(v) => Some(PatternParser(v)),
            None => None,
        }
    }

    /// Parses `pattern` into its classes.
    pub fn from(pattern: &str) -> (r: PatternParser)
        requires
            parse_pattern(pattern@) is Some,
        ensures
            r@ == parse_pattern(pattern@).unwrap(),
    {
        PatternParser::try_new(pattern).unwrap()
    }

    /// Parses `pattern` into its classes.
    pub fn new(pattern: &str) -> (r: PatternParser)
        requires
            parse_pattern(pattern@) is Some,
        ensures
            r@ == parse_pattern(pattern@).unwrap(),
    {
        PatternParser::from(pattern)
    }
}

} // verus!
