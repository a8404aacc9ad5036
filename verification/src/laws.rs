//! What holds of every pattern and every input.
use vstd::prelude::*;
use vstd::utf8::is_ascii_chars;

use crate::matcher::{
    elem_matches, lemma_repeat_split_iff, lemma_seq_split_iff, pattern_matches, repeat_matches,
    repeat_split, seq_matches, seq_split,
};
use crate::parser::{
    ends_literal, lemma_literal_run_len, literal_run, parse_pattern, parse_tokens, repeat_last,
    take_until,
};
use crate::text::lemma_ascii_byte_len;
use crate::cli::grep_outcome;
use crate::errors::GrepError;
use crate::types::{Class, char_class_accepts, is_char_class};

verus! {

/// A non-empty literal none of whose characters means anything in a pattern:
/// no `\`, `[`, space, `+`, `^` or `$`.
pub open spec fn is_plain_literal(lit: Seq<char>) -> bool {
    &&& lit.len() > 0
    &&& forall|j: int|
        0 <= j < lit.len() ==> {
            let c = #[trigger] lit[j];
            !ends_literal(c) && c != '^' && c != '$'
        }
}

proof fn lemma_literal_run_whole(s: Seq<char>)
    requires
        forall|j: int| 0 <= j < s.len() ==> !ends_literal(#[trigger] s[j]),
    ensures
        literal_run(s) == s,
    decreases s.len(),
{
    if s.len() > 0 {
        assert forall|j: int| 0 <= j < s.drop_first().len() implies !ends_literal(
            #[trigger] s.drop_first()[j],
        ) by {
            assert(s.drop_first()[j] == s[j + 1]);
        }
        lemma_literal_run_whole(s.drop_first());
        assert(seq![s[0]] + s.drop_first() =~= s);
    }
}

proof fn lemma_take_until_whole(s: Seq<char>, stop: char)
    requires
        forall|j: int| 0 <= j < s.len() ==> #[trigger] s[j] != stop,
    ensures
        take_until(s, stop) == s,
    decreases s.len(),
{
    if s.len() > 0 {
        assert forall|j: int| 0 <= j < s.drop_first().len() implies #[trigger] s.drop_first()[j]
            != stop by {
            assert(s.drop_first()[j] == s[j + 1]);
        }
        lemma_take_until_whole(s.drop_first(), stop);
        assert(seq![s[0]] + s.drop_first() =~= s);
    }
}

proof fn lemma_take_until_before(s: Seq<char>, stop: char)
    requires
        forall|j: int| 0 <= j < s.len() ==> #[trigger] s[j] != stop,
    ensures
        take_until(s.push(stop), stop) == s,
    decreases s.len(),
{
    if s.len() == 0 {
        assert(s.push(stop)[0] == stop);
    } else {
        assert forall|j: int| 0 <= j < s.drop_first().len() implies #[trigger] s.drop_first()[j]
            != stop by {
            assert(s.drop_first()[j] == s[j + 1]);
        }
        lemma_take_until_before(s.drop_first(), stop);
        assert(s.push(stop).drop_first() =~= s.drop_first().push(stop));
        assert(seq![s[0]] + s.drop_first() =~= s);
    }
}

/// A plain literal is parsed as one literal.
proof fn lemma_parse_plain_literal(lit: Seq<char>)
    requires
        is_plain_literal(lit),
    ensures
        parse_pattern(lit) == Some(seq![Class::Literal(lit)]),
{
    assert(!ends_literal(lit[0]) && lit[0] != '^');
    assert(lit.last() == lit[lit.len() - 1]);
    assert(lit.subrange(0, lit.len() as int) =~= lit);
    lemma_literal_run_whole(lit);
    let acc = Seq::<Class>::empty().push(Class::Literal(lit));
    assert(parse_tokens(lit, lit.len() as int, acc) == Some(acc));
    assert(parse_tokens(lit, 0, seq![]) == parse_tokens(lit, lit.len() as int, acc));
    assert(acc =~= seq![Class::Literal(lit)]);
}

/// One class alone matches a stretch exactly when the class does.
pub proof fn lemma_single_class(x: Class, s: Seq<char>, i: int, j: int)
    ensures
        seq_matches(seq![x], 0, s, i, j) == (i <= j && elem_matches(x, s, i, j)),
{
    let items = seq![x];
    if i <= j {
        lemma_seq_split_iff(items, 0, s, i, j, i);
        if elem_matches(x, s, i, j) {
            assert(seq_matches(items, 1, s, j, j));
        }
    }
}

/// No input that is empty matches any pattern.
pub proof fn law_empty_input_never_matches(pats: Seq<Class>)
    ensures
        !pattern_matches(pats, seq![]),
{
}

/// A pattern with no classes matches every input that is not empty.
pub proof fn law_empty_pattern_matches_nonempty_input(s: Seq<char>)
    requires
        s.len() > 0,
    ensures
        pattern_matches(seq![], s),
{
    assert(seq_matches(seq![], 0, s, 0, 0));
}

/// A pattern of one one-character class (`\d`, `\w`, a space, `[...]`,
/// `[^...]`) matches exactly the inputs with a character that the class accepts.
pub proof fn law_char_class_finds_any_accepted(cls: Class, s: Seq<char>)
    requires
        is_char_class(cls),
    ensures
        pattern_matches(seq![cls], s) == exists|i: int|
            0 <= i < s.len() && char_class_accepts(cls, #[trigger] s[i]),
{
    if pattern_matches(seq![cls], s) {
        let (i, j) = choose|i: int, j: int|
            0 <= i <= j <= s.len() && #[trigger] seq_matches(seq![cls], 0, s, i, j);
        lemma_single_class(cls, s, i, j);
        assert(char_class_accepts(cls, s[i]));
    }
    if exists|i: int| 0 <= i < s.len() && char_class_accepts(cls, #[trigger] s[i]) {
        let i = choose|i: int| 0 <= i < s.len() && char_class_accepts(cls, #[trigger] s[i]);
        lemma_single_class(cls, s, i, i + 1);
        assert(seq_matches(seq![cls], 0, s, i, i + 1));
    }
}

/// A repetition covering `s[i..j]` starts with a stretch that `x` matches.
proof fn lemma_repeat_first_piece(x: Class, s: Seq<char>, i: int, j: int)
    requires
        repeat_matches(x, s, i, j),
    ensures
        exists|m: int| i <= m <= j && #[trigger] elem_matches(x, s, i, m),
{
    if !elem_matches(x, s, i, j) {
        lemma_repeat_split_iff(x, s, i, j, i + 1);
        let m = choose|m: int|
            #![trigger elem_matches(x, s, i, m), repeat_matches(x, s, m, j)]
            i + 1 <= m < j && elem_matches(x, s, i, m) && repeat_matches(x, s, m, j);
        assert(elem_matches(x, s, i, m));
    } else {
        assert(elem_matches(x, s, i, j));
    }
}

/// One or more of a one-character class matches exactly the inputs that the
/// class alone matches.
pub proof fn law_repeated_char_class_matches_as_class(cls: Class, s: Seq<char>)
    requires
        is_char_class(cls),
    ensures
        pattern_matches(seq![Class::PositiveQuantifier(Box::new(cls))], s) == pattern_matches(
            seq![cls],
            s,
        ),
{
    let rep = Class::PositiveQuantifier(Box::new(cls));
    if pattern_matches(seq![rep], s) {
        let (i, j) = choose|i: int, j: int|
            0 <= i <= j <= s.len() && #[trigger] seq_matches(seq![rep], 0, s, i, j);
        lemma_single_class(rep, s, i, j);
        lemma_repeat_first_piece(cls, s, i, j);
        let m = choose|m: int| i <= m <= j && #[trigger] elem_matches(cls, s, i, m);
        lemma_single_class(cls, s, i, m);
        assert(seq_matches(seq![cls], 0, s, i, m));
    }
    if pattern_matches(seq![cls], s) {
        let (i, j) = choose|i: int, j: int|
            0 <= i <= j <= s.len() && #[trigger] seq_matches(seq![cls], 0, s, i, j);
        lemma_single_class(cls, s, i, j);
        assert(repeat_matches(cls, s, i, j));
        lemma_single_class(rep, s, i, j);
        assert(seq_matches(seq![rep], 0, s, i, j));
    }
}

/// A plain literal as a whole pattern is that one literal, and it matches
/// exactly the inputs in which it occurs.
pub proof fn law_literal_finds_occurrence(lit: Seq<char>, s: Seq<char>)
    requires
        is_plain_literal(lit),
    ensures
        parse_pattern(lit) == Some(seq![Class::Literal(lit)]),
        pattern_matches(seq![Class::Literal(lit)], s) == exists|i: int|
            0 <= i && i + lit.len() <= s.len() && #[trigger] s.subrange(i, i + lit.len()) == lit,
{
    lemma_parse_plain_literal(lit);
    let x = Class::Literal(lit);
    if pattern_matches(seq![x], s) {
        let (i, j) = choose|i: int, j: int|
            0 <= i <= j <= s.len() && #[trigger] seq_matches(seq![x], 0, s, i, j);
        lemma_single_class(x, s, i, j);
        assert(s.subrange(i, i + lit.len()) == lit);
    }
    if exists|i: int|
        0 <= i && i + lit.len() <= s.len() && #[trigger] s.subrange(i, i + lit.len()) == lit {
        let i = choose|i: int|
            0 <= i && i + lit.len() <= s.len() && #[trigger] s.subrange(i, i + lit.len()) == lit;
        lemma_single_class(x, s, i, i + lit.len());
        assert(seq_matches(seq![x], 0, s, i, i + lit.len()));
    }
}

/// A start anchor matches exactly the inputs that begin with a stretch its
/// classes match.
pub proof fn law_start_anchor_matches_prefix(v: Seq<Class>, s: Seq<char>)
    ensures
        pattern_matches(seq![Class::Anchor(v)], s) == (s.len() > 0 && exists|j: int|
            0 <= j <= s.len() && #[trigger] seq_matches(v, 0, s, 0, j)),
{
    let x = Class::Anchor(v);
    if pattern_matches(seq![x], s) {
        let (i, j) = choose|i: int, j: int|
            0 <= i <= j <= s.len() && #[trigger] seq_matches(seq![x], 0, s, i, j);
        lemma_single_class(x, s, i, j);
        assert(seq_matches(v, 0, s, 0, j));
    }
    if s.len() > 0 && exists|j: int| 0 <= j <= s.len() && #[trigger] seq_matches(v, 0, s, 0, j) {
        let j = choose|j: int| 0 <= j <= s.len() && #[trigger] seq_matches(v, 0, s, 0, j);
        lemma_single_class(x, s, 0, j);
        assert(seq_matches(seq![x], 0, s, 0, j));
    }
}

/// An end anchor matches exactly the inputs that end with a stretch its
/// classes match.
pub proof fn law_end_anchor_matches_suffix(v: Seq<Class>, s: Seq<char>)
    ensures
        pattern_matches(seq![Class::LineAnchor(v)], s) == (s.len() > 0 && exists|i: int|
            0 <= i <= s.len() && #[trigger] seq_matches(v, 0, s, i, s.len() as int)),
{
    let x = Class::LineAnchor(v);
    let n = s.len() as int;
    if pattern_matches(seq![x], s) {
        let (i, j) = choose|i: int, j: int|
            0 <= i <= j <= s.len() && #[trigger] seq_matches(seq![x], 0, s, i, j);
        lemma_single_class(x, s, i, j);
        assert(seq_matches(v, 0, s, i, n));
    }
    if s.len() > 0 && exists|i: int| 0 <= i <= s.len() && #[trigger] seq_matches(v, 0, s, i, n) {
        let i = choose|i: int| 0 <= i <= s.len() && #[trigger] seq_matches(v, 0, s, i, n);
        lemma_single_class(x, s, i, n);
        assert(seq_matches(seq![x], 0, s, i, n));
    }
}

/// Both anchors at once match exactly the inputs that their classes match
/// as a whole.
pub proof fn law_exact_anchor_matches_whole_input(v: Seq<Class>, s: Seq<char>)
    ensures
        pattern_matches(seq![Class::ImmAnchor(v)], s) == (s.len() > 0 && seq_matches(
            v,
            0,
            s,
            0,
            s.len() as int,
        )),
{
    let x = Class::ImmAnchor(v);
    let n = s.len() as int;
    if pattern_matches(seq![x], s) {
        let (i, j) = choose|i: int, j: int|
            0 <= i <= j <= s.len() && #[trigger] seq_matches(seq![x], 0, s, i, j);
        lemma_single_class(x, s, i, j);
    }
    if s.len() > 0 && seq_matches(v, 0, s, 0, n) {
        lemma_single_class(x, s, 0, n);
        assert(seq_matches(seq![x], 0, s, 0, n));
    }
}

/// A class with no anchor in it, at any depth.
pub open spec fn anchor_free(x: Class) -> bool
    decreases x,
{
    match x {
        Class::Anchor(_) | Class::LineAnchor(_) | Class::ImmAnchor(_) => false,
        Class::PositiveQuantifier(b) => anchor_free(*b),
        _ => true,
    }
}

/// What a class without anchors matches it still matches with text before or
/// after it.
proof fn lemma_elem_shift(x: Class, s: Seq<char>, t: Seq<char>, i: int, j: int)
    requires
        anchor_free(x),
        elem_matches(x, s, i, j),
    ensures
        elem_matches(x, t + s, i + t.len(), j + t.len()),
        elem_matches(x, s + t, i, j),
    decreases x, 0int,
{
    match x {
        Class::Literal(l) => {
            assert((t + s).subrange(i + t.len(), j + t.len()) =~= s.subrange(i, j));
            assert((s + t).subrange(i, j) =~= s.subrange(i, j));
        },
        Class::PositiveQuantifier(b) => {
            lemma_repeat_shift(*b, s, t, i, j);
        },
        _ => {
            assert((t + s)[i + t.len()] == s[i]);
            assert((s + t)[i] == s[i]);
        },
    }
}

proof fn lemma_repeat_shift(x: Class, s: Seq<char>, t: Seq<char>, i: int, j: int)
    requires
        anchor_free(x),
        repeat_matches(x, s, i, j),
    ensures
        repeat_matches(x, t + s, i + t.len(), j + t.len()),
        repeat_matches(x, s + t, i, j),
    decreases x, j - i + 1,
{
    let d = t.len() as int;
    if elem_matches(x, s, i, j) {
        lemma_elem_shift(x, s, t, i, j);
    } else {
        lemma_repeat_split_iff(x, s, i, j, i + 1);
        let m = choose|m: int|
            #![trigger elem_matches(x, s, i, m), repeat_matches(x, s, m, j)]
            i + 1 <= m < j && elem_matches(x, s, i, m) && repeat_matches(x, s, m, j);
        lemma_elem_shift(x, s, t, i, m);
        lemma_repeat_shift(x, s, t, m, j);
        lemma_repeat_split_iff(x, t + s, i + d, j + d, i + d + 1);
        assert(repeat_split(x, t + s, i + d, j + d, i + d + 1)) by {
            assert(elem_matches(x, t + s, i + d, m + d) && repeat_matches(x, t + s, m + d, j + d));
        }
        lemma_repeat_split_iff(x, s + t, i, j, i + 1);
        assert(repeat_split(x, s + t, i, j, i + 1)) by {
            assert(elem_matches(x, s + t, i, m) && repeat_matches(x, s + t, m, j));
        }
    }
}

proof fn lemma_seq_shift(items: Seq<Class>, k: int, s: Seq<char>, t: Seq<char>, i: int, j: int)
    requires
        0 <= k,
        forall|q: int| 0 <= q < items.len() ==> anchor_free(#[trigger] items[q]),
        seq_matches(items, k, s, i, j),
    ensures
        seq_matches(items, k, t + s, i + t.len(), j + t.len()),
        seq_matches(items, k, s + t, i, j),
    decreases items.len() - k,
{
    let d = t.len() as int;
    if k < items.len() {
        lemma_seq_split_iff(items, k, s, i, j, i);
        let m = choose|m: int|
            #![trigger elem_matches(items[k], s, i, m), seq_matches(items, k + 1, s, m, j)]
            i <= m <= j && elem_matches(items[k], s, i, m) && seq_matches(items, k + 1, s, m, j);
        lemma_elem_shift(items[k], s, t, i, m);
        lemma_seq_shift(items, k + 1, s, t, m, j);
        lemma_seq_split_iff(items, k, t + s, i + d, j + d, i + d);
        assert(seq_split(items, k, t + s, i + d, j + d, i + d)) by {
            assert(elem_matches(items[k], t + s, i + d, m + d) && seq_matches(
                items,
                k + 1,
                t + s,
                m + d,
                j + d,
            ));
        }
        lemma_seq_split_iff(items, k, s + t, i, j, i);
        assert(seq_split(items, k, s + t, i, j, i)) by {
            assert(elem_matches(items[k], s + t, i, m) && seq_matches(items, k + 1, s + t, m, j));
        }
    }
}

/// Text put before or after an input never takes away a match of a pattern
/// without anchors.
pub proof fn law_text_around_a_match_keeps_it(pats: Seq<Class>, s: Seq<char>, t: Seq<char>)
    requires
        forall|q: int| 0 <= q < pats.len() ==> anchor_free(#[trigger] pats[q]),
        pattern_matches(pats, s),
    ensures
        pattern_matches(pats, t + s),
        pattern_matches(pats, s + t),
{
    let (i, j) = choose|i: int, j: int|
        0 <= i <= j <= s.len() && #[trigger] seq_matches(pats, 0, s, i, j);
    lemma_seq_shift(pats, 0, s, t, i, j);
    let d = t.len() as int;
    assert(seq_matches(pats, 0, t + s, i + d, j + d));
    assert(seq_matches(pats, 0, s + t, i, j));
}

/// `^` before a pattern without `$` anchors that pattern at the start.
pub proof fn law_parse_start_anchor(p: Seq<char>)
    requires
        forall|j: int| 0 <= j < p.len() ==> #[trigger] p[j] != '$',
    ensures
        parse_pattern(seq!['^'] + p) == match parse_pattern(p) {
            Some(v) => Some(seq![Class::Anchor(v)]),
            None => None,
        },
{
    let q = seq!['^'] + p;
    assert(q[0] == '^');
    assert(q.drop_first() =~= p);
    if p.len() > 0 {
        assert(q.last() == p[p.len() - 1]);
    }
    lemma_take_until_whole(p, '$');
}

/// A pattern that neither starts with `^` nor holds `$`, followed by `$`,
/// is anchored at the end.
pub proof fn law_parse_end_anchor(p: Seq<char>)
    requires
        forall|j: int| 0 <= j < p.len() ==> #[trigger] p[j] != '$',
        p.len() == 0 || p[0] != '^',
    ensures
        parse_pattern(p.push('$')) == match parse_pattern(p) {
            Some(v) => Some(seq![Class::LineAnchor(v)]),
            None => None,
        },
{
    let q = p.push('$');
    assert(q[0] == if p.len() == 0 { '$' } else { p[0] });
    assert(q.last() == '$');
    lemma_take_until_before(p, '$');
}

/// `^` and `$` around any pattern anchor it at both ends, with nothing of the
/// pattern itself taken away.
pub proof fn law_parse_exact_anchor(p: Seq<char>)
    ensures
        parse_pattern(seq!['^'] + p.push('$')) == match parse_pattern(p) {
            Some(v) => Some(seq![Class::ImmAnchor(v)]),
            None => None,
        },
{
    let q = seq!['^'] + p.push('$');
    assert(q[0] == '^');
    assert(q.last() == '$');
    assert(q.subrange(1, q.len() - 1) =~= p);
}

/// `take_until` stops at the first `stop`.
proof fn lemma_take_until_stop(a: Seq<char>, stop: char, b: Seq<char>)
    requires
        forall|j: int| 0 <= j < a.len() ==> #[trigger] a[j] != stop,
    ensures
        take_until(a + seq![stop] + b, stop) == a,
    decreases a.len(),
{
    let w = a + seq![stop] + b;
    if a.len() == 0 {
        assert(w[0] == stop);
    } else {
        assert forall|j: int| 0 <= j < a.drop_first().len() implies #[trigger] a.drop_first()[j]
            != stop by {
            assert(a.drop_first()[j] == a[j + 1]);
        }
        lemma_take_until_stop(a.drop_first(), stop, b);
        assert(w.drop_first() =~= a.drop_first() + seq![stop] + b);
        assert(w[0] == a[0]);
        assert(seq![a[0]] + a.drop_first() =~= a);
    }
}

/// The tokens that stand for exactly one one-character class: `\d`, `\w`,
/// a space, and a bracket `[...]` or `[^...]` with no `]` inside.
pub open spec fn is_class_token(t: Seq<char>) -> bool {
    ||| t == seq!['\\', 'd']
    ||| t == seq!['\\', 'w']
    ||| t == seq![' ']
    ||| {
        &&& t.len() >= 2
        &&& t[0] == '['
        &&& t.last() == ']'
        &&& forall|j: int| 1 <= j < t.len() - 1 ==> #[trigger] t[j] != ']'
    }
}

/// The class that a class token stands for.
pub open spec fn token_class(t: Seq<char>) -> Class {
    if t == seq!['\\', 'd'] {
        Class::Digits
    } else if t == seq!['\\', 'w'] {
        Class::Characters
    } else if t == seq![' '] {
        Class::WhiteSpace
    } else if t[1] == '^' {
        Class::NegativeMatch(t.subrange(2, t.len() - 1))
    } else {
        Class::PositiveMatch(t.subrange(1, t.len() - 1))
    }
}

/// A class token, read at the start of `t + rest`, is its class, and it takes
/// `t.len()` characters.
proof fn lemma_class_token_step(t: Seq<char>, rest: Seq<char>, acc: Seq<Class>)
    requires
        is_class_token(t),
    ensures
        is_char_class(token_class(t)),
        parse_tokens(t + rest, 0, acc) == parse_tokens(
            t + rest,
            t.len() as int,
            acc.push(token_class(t)),
        ),
{
    let p = t + rest;
    let n = t.len() as int;
    if t == seq!['\\', 'd'] {
        assert(p[0] == '\\' && p[1] == 'd');
    } else if t == seq!['\\', 'w'] {
        assert(p[0] == '\\' && p[1] == 'w');
    } else if t == seq![' '] {
        assert(p[0] == ' ');
    } else {
        assert(p[0] == '[');
        let negated = 1 < p.len() && p[1] == '^';
        let start = if negated { 2int } else { 1int };
        let members = t.subrange(start, n - 1);
        if negated {
            assert(t[1] == '^');
        }
        assert forall|j: int| 0 <= j < members.len() implies #[trigger] members[j] != ']' by {
            assert(members[j] == t[start + j]);
        }
        assert(p.subrange(start, p.len() as int) =~= members + seq![']'] + rest) by {
            assert(t.last() == t[n - 1]);
        }
        lemma_take_until_stop(members, ']', rest);
        if !negated {
            assert(t[1] == p[1]);
        }
    }
}

/// A `+` after a class token repeats that class.
pub proof fn law_plus_after_class_token(t: Seq<char>)
    requires
        is_class_token(t),
    ensures
        is_char_class(token_class(t)),
        parse_pattern(t) == Some(seq![token_class(t)]),
        parse_pattern(t.push('+')) == Some(
            seq![Class::PositiveQuantifier(Box::new(token_class(t)))],
        ),
{
    let empty = Seq::<char>::empty();
    assert(t + empty =~= t);
    let c = token_class(t);
    lemma_class_token_step(t, empty, seq![]);
    assert(t[0] != '^');
    assert(t.last() != '$') by {
        if t.len() == 2 && t[0] == '\\' {
            assert(t.last() == t[1]);
        }
    }
    assert(parse_tokens(t, t.len() as int, seq![].push(c)) == Some(seq![].push(c)));
    assert(seq![].push(c) =~= seq![c]);
    let p = t.push('+');
    assert(t + seq!['+'] =~= p);
    lemma_class_token_step(t, seq!['+'], seq![]);
    let n = t.len() as int;
    assert(p[n] == '+');
    assert(p[0] == t[0]);
    assert(p.last() == '+');
    let rep = seq![Class::PositiveQuantifier(Box::new(c))];
    assert(seq![c].drop_last().push(Class::PositiveQuantifier(Box::new(c))) =~= rep);
    assert(parse_tokens(p, n + 1, rep) == Some(rep));
    assert(parse_tokens(p, n, seq![c]) == parse_tokens(p, n + 1, rep));
}

/// A `+` after a plain ASCII literal repeats its last character: a literal of
/// one character is repeated whole, a longer one keeps the characters before
/// it.
pub proof fn law_plus_after_plain_literal(w: Seq<char>)
    requires
        is_plain_literal(w),
        is_ascii_chars(w),
    ensures
        parse_pattern(w.push('+')) == if w.len() >= 2 {
            Some(
                seq![
                    Class::Literal(w.drop_last()),
                    Class::PositiveQuantifier(Box::new(Class::Literal(seq![w.last()]))),
                ],
            )
        } else {
            Some(seq![Class::PositiveQuantifier(Box::new(Class::Literal(w)))])
        },
{
    let p = w.push('+');
    let n = w.len() as int;
    assert(p[0] == w[0]);
    assert(p.last() == '+');
    assert(p[n] == '+');
    assert forall|j: int| 0 <= j < n implies !ends_literal(#[trigger] p[j]) by {
        assert(p[j] == w[j]);
    }
    assert(p.subrange(0, n) =~= w);
    assert(p.subrange(0, p.len() as int) =~= p);
    lemma_literal_run_stops(p, n);
    let acc = seq![Class::Literal(w)];
    assert(Seq::<Class>::empty().push(Class::Literal(w)) =~= acc);
    assert(acc.drop_last() =~= Seq::<Class>::empty());
    assert(parse_tokens(p, 0, seq![]) == parse_tokens(p, n, acc));
    lemma_ascii_byte_len(w);
    if n >= 2 {
        assert(w.take(n - 1) =~= w.drop_last());
        assert(w.skip(n - 1) =~= seq![w.last()]);
        let result = Seq::<Class>::empty().push(Class::Literal(w.take(n - 1))).push(
            Class::PositiveQuantifier(Box::new(Class::Literal(w.skip(n - 1)))),
        );
        assert(parse_tokens(p, n + 1, result) == Some(result));
        assert(parse_tokens(p, n, acc) == parse_tokens(p, n + 1, result));
        assert(result =~= seq![
            Class::Literal(w.drop_last()),
            Class::PositiveQuantifier(Box::new(Class::Literal(seq![w.last()]))),
        ]);
    } else {
        let result = Seq::<Class>::empty().push(
            Class::PositiveQuantifier(Box::new(Class::Literal(w))),
        );
        assert(parse_tokens(p, n + 1, result) == Some(result));
        assert(parse_tokens(p, n, acc) == parse_tokens(p, n + 1, result));
        assert(result =~= seq![Class::PositiveQuantifier(Box::new(Class::Literal(w)))]);
    }
}

/// The literal run of `p` is `p[..n]` when `p[..n]` holds no character that
/// ends a literal and `p[n]` does.
proof fn lemma_literal_run_stops(p: Seq<char>, n: int)
    requires
        0 <= n < p.len(),
        forall|j: int| 0 <= j < n ==> !ends_literal(#[trigger] p[j]),
        ends_literal(p[n]),
    ensures
        literal_run(p) == p.subrange(0, n),
    decreases n,
{
    if n > 0 {
        assert forall|j: int| 0 <= j < n - 1 implies !ends_literal(#[trigger] p.drop_first()[j]) by {
            assert(p.drop_first()[j] == p[j + 1]);
        }
        assert(p.drop_first()[n - 1] == p[n]);
        lemma_literal_run_stops(p.drop_first(), n - 1);
        assert(!ends_literal(p[0]));
        assert(seq![p[0]] + p.drop_first().subrange(0, n - 1) =~= p.subrange(0, n));
    }
}

/// A class that the parser may put under a `+`: a one-character class, a
/// literal of one character, or again a repetition of such a class.
pub open spec fn repeat_shaped(x: Class) -> bool
    decreases x,
{
    match x {
        Class::Literal(l) => l.len() == 1,
        Class::PositiveQuantifier(b) => repeat_shaped(*b),
        Class::Anchor(_) | Class::LineAnchor(_) | Class::ImmAnchor(_) => false,
        _ => true,
    }
}

/// A class as the parser makes it from one token: no anchor, a literal that
/// is not empty, a repetition of a class that [`repeat_shaped`] allows.
pub open spec fn token_shaped(x: Class) -> bool {
    match x {
        Class::Literal(l) => l.len() >= 1,
        Class::PositiveQuantifier(b) => repeat_shaped(*b),
        Class::Anchor(_) | Class::LineAnchor(_) | Class::ImmAnchor(_) => false,
        _ => true,
    }
}

/// Every class of `v` is [`token_shaped`].
pub open spec fn tokens_shaped(v: Seq<Class>) -> bool {
    forall|q: int| 0 <= q < v.len() ==> #[trigger] token_shaped(v[q])
}

/// A parse in which anchors stand only alone, at the top: either classes made
/// from tokens, or one anchor of such classes.
pub open spec fn parse_shaped(v: Seq<Class>) -> bool {
    ||| tokens_shaped(v)
    ||| v.len() == 1 && match v[0] {
        Class::Anchor(w) => tokens_shaped(w),
        Class::LineAnchor(w) => tokens_shaped(w),
        Class::ImmAnchor(w) => tokens_shaped(w),
        _ => false,
    }
}

/// A pattern whose `$` can only be its last character, whose `^` can only be
/// its first character or follow a `[`, and in which no `^` follows `\[`.
pub open spec fn anchors_only_at_ends(p: Seq<char>) -> bool {
    &&& forall|j: int| 0 <= j < p.len() && #[trigger] p[j] == '$' ==> j == p.len() - 1
    &&& forall|j: int| 0 < j < p.len() && #[trigger] p[j] == '^' ==> p[j - 1] == '['
    &&& forall|j: int|
        0 <= j < p.len() - 2 && #[trigger] p[j] == '\\' && p[j + 1] == '[' ==> p[j + 2] != '^'
}

/// An ASCII pattern that is read token by token, with no `$`, no `^` but
/// after a `[`, and no `^` after `\[`.
spec fn token_safe(q: Seq<char>) -> bool {
    &&& is_ascii_chars(q)
    &&& forall|j: int| 0 <= j < q.len() ==> #[trigger] q[j] != '$'
    &&& forall|j: int| 0 <= j < q.len() && #[trigger] q[j] == '^' ==> j > 0 && q[j - 1] == '['
    &&& forall|j: int|
        0 <= j < q.len() - 2 && #[trigger] q[j] == '\\' && q[j + 1] == '[' ==> q[j + 2] != '^'
}

proof fn lemma_token_safe_subrange(p: Seq<char>, a: int, b: int)
    requires
        is_ascii_chars(p),
        anchors_only_at_ends(p),
        0 <= a <= b <= p.len(),
        b == p.len() ==> (p.len() == 0 || p.last() != '$'),
        a < b ==> p[a] != '^',
    ensures
        token_safe(p.subrange(a, b)),
{
    let q = p.subrange(a, b);
    assert forall|j: int| 0 <= j < q.len() implies '\0' <= #[trigger] q[j] <= '\u{7f}' by {
        assert(q[j] == p[a + j]);
    }
    assert forall|j: int| 0 <= j < q.len() implies #[trigger] q[j] != '$' by {
        assert(q[j] == p[a + j]);
        if p[a + j] == '$' {
            assert(a + j == p.len() - 1);
        }
    }
    assert forall|j: int| 0 <= j < q.len() && #[trigger] q[j] == '^' implies j > 0 && q[j - 1]
        == '[' by {
        assert(q[j] == p[a + j]);
        if j > 0 {
            assert(q[j - 1] == p[a + j - 1]);
        }
    }
    assert forall|j: int|
        0 <= j < q.len() - 2 && #[trigger] q[j] == '\\' && q[j + 1] == '[' implies q[j + 2]
        != '^' by {
        assert(q[j] == p[a + j]);
        assert(q[j + 1] == p[a + j + 1]);
        assert(q[j + 2] == p[a + j + 2]);
    }
}

/// The characters of a literal run are the first ones of `s`, and none of them
/// ends a literal.
proof fn lemma_literal_run_chars(s: Seq<char>)
    ensures
        literal_run(s).len() <= s.len(),
        forall|k: int|
            0 <= k < literal_run(s).len() ==> #[trigger] literal_run(s)[k] == s[k] && !ends_literal(
                s[k],
            ),
    decreases s.len(),
{
    if s.len() > 0 && !ends_literal(s[0]) {
        lemma_literal_run_chars(s.drop_first());
        assert forall|k: int| 0 <= k < literal_run(s).len() implies #[trigger] literal_run(s)[k]
            == s[k] && !ends_literal(s[k]) by {
            if k > 0 {
                assert(literal_run(s)[k] == literal_run(s.drop_first())[k - 1]);
            }
        }
    }
}

/// Where `take_until` stops before the end, the stop is there.
proof fn lemma_take_until_stops_at(s: Seq<char>, stop: char)
    ensures
        take_until(s, stop).len() < s.len() ==> s[take_until(s, stop).len() as int] == stop,
        take_until(s, stop).len() <= s.len(),
    decreases s.len(),
{
    if s.len() > 0 && s[0] != stop {
        lemma_take_until_stops_at(s.drop_first(), stop);
    }
}

/// A literal class holds ASCII characters only.
spec fn ascii_class(x: Class) -> bool {
    match x {
        Class::Literal(l) => is_ascii_chars(l),
        _ => true,
    }
}

/// Every literal class of `v` holds ASCII characters only.
spec fn ascii_classes(v: Seq<Class>) -> bool {
    forall|q: int| 0 <= q < v.len() ==> #[trigger] ascii_class(v[q])
}

/// Pushing a class keeps both properties of every class of `acc`.
proof fn lemma_push_shaped(acc: Seq<Class>, x: Class)
    requires
        tokens_shaped(acc),
        ascii_classes(acc),
        token_shaped(x),
        ascii_class(x),
    ensures
        tokens_shaped(acc.push(x)),
        ascii_classes(acc.push(x)),
{
    assert forall|q: int| 0 <= q < acc.push(x).len() implies #[trigger] token_shaped(
        acc.push(x)[q],
    ) && ascii_class(acc.push(x)[q]) by {
        if q < acc.len() {
            assert(acc.push(x)[q] == acc[q]);
        }
    }
}

/// A `+` after classes made from ASCII tokens gives classes made from tokens.
proof fn lemma_repeat_last_shaped(acc: Seq<Class>)
    requires
        tokens_shaped(acc),
        ascii_classes(acc),
    ensures
        repeat_last(acc) matches Some(next) ==> tokens_shaped(next) && ascii_classes(next),
{
    if acc.len() > 0 {
        let last = acc.last();
        let rest = acc.drop_last();
        assert(token_shaped(acc[acc.len() - 1]) && ascii_class(acc[acc.len() - 1]));
        assert forall|q: int| 0 <= q < rest.len() implies #[trigger] token_shaped(rest[q])
            && ascii_class(rest[q]) by {
            assert(rest[q] == acc[q]);
        }
        match last {
            Class::Literal(lit) => {
                lemma_ascii_byte_len(lit);
                if lit.len() > 1 {
                    let head = lit.take(lit.len() - 1);
                    assert forall|k: int| 0 <= k < head.len() implies '\0' <= #[trigger] head[k]
                        <= '\u{7f}' by {
                        assert(head[k] == lit[k]);
                    }
                    lemma_push_shaped(rest, Class::Literal(head));
                    lemma_push_shaped(
                        rest.push(Class::Literal(head)),
                        Class::PositiveQuantifier(
                            Box::new(Class::Literal(lit.skip(lit.len() - 1))),
                        ),
                    );
                } else {
                    lemma_push_shaped(rest, Class::PositiveQuantifier(Box::new(last)));
                }
            },
            _ => {
                lemma_push_shaped(rest, Class::PositiveQuantifier(Box::new(last)));
            },
        }
    }
}

proof fn lemma_tokens_shaped(p: Seq<char>, i: int, acc: Seq<Class>)
    requires
        token_safe(p),
        0 <= i <= p.len(),
        i < p.len() ==> p[i] != '^',
        tokens_shaped(acc),
        ascii_classes(acc),
    ensures
        parse_tokens(p, i, acc) matches Some(r) ==> tokens_shaped(r),
    decreases p.len() - i,
{
    let n = p.len() as int;
    if i < n {
        let c = p[i];
        if i + 1 < n && p[i + 1] == '^' {
            assert(p[i] == '[');
        }
        if c == '\\' {
            if i + 1 < n {
                let e = p[i + 1];
                let next = if e == 'd' {
                    acc.push(Class::Digits)
                } else if e == 'w' {
                    acc.push(Class::Characters)
                } else {
                    acc
                };
                if e == 'd' {
                    lemma_push_shaped(acc, Class::Digits);
                } else if e == 'w' {
                    lemma_push_shaped(acc, Class::Characters);
                }
                if i + 2 < n && p[i + 2] == '^' {
                    assert(p[i + 1] == '[');
                    assert(false);
                }
                lemma_tokens_shaped(p, i + 2, next);
            }
        } else if c == '+' {
            lemma_repeat_last_shaped(acc);
            if let Some(next) = repeat_last(acc) {
                lemma_tokens_shaped(p, i + 1, next);
            }
        } else if c == '[' {
            let negated = i + 1 < n && p[i + 1] == '^';
            let start = if negated { i + 2 } else { i + 1 };
            let sub = p.subrange(start, n);
            let members = take_until(sub, ']');
            lemma_take_until_stops_at(sub, ']');
            let close = start + members.len();
            let item = if negated {
                Class::NegativeMatch(members)
            } else {
                Class::PositiveMatch(members)
            };
            let next_i = if close < n { close + 1 } else { n };
            if close < n {
                assert(p[close] == sub[members.len() as int]);
                if close + 1 < n && p[close + 1] == '^' {
                    assert(p[close] == '[');
                }
            }
            lemma_push_shaped(acc, item);
            lemma_tokens_shaped(p, next_i, acc.push(item));
        } else if c == ' ' {
            lemma_push_shaped(acc, Class::WhiteSpace);
            lemma_tokens_shaped(p, i + 1, acc.push(Class::WhiteSpace));
        } else if c == '^' {
            assert(false);
        } else {
            let sub = p.subrange(i, n);
            let lit = literal_run(sub);
            lemma_literal_run_len(sub);
            lemma_literal_run_chars(sub);
            let item = Class::Literal(lit);
            assert(p[i + lit.len() - 1] == sub[lit.len() - 1]);
            assert(lit[lit.len() - 1] == sub[lit.len() - 1]);
            assert forall|k: int| 0 <= k < lit.len() implies '\0' <= #[trigger] lit[k] <= '\u{7f}' by {
                assert(sub[k] == p[i + k]);
            }
            if i + lit.len() < n && p[i + lit.len()] == '^' {
                assert(p[i + lit.len() - 1] == '[');
            }
            lemma_push_shaped(acc, item);
            lemma_tokens_shaped(p, i + lit.len(), acc.push(item));
        }
    }
}

/// A pattern read token by token gives classes made from tokens.
proof fn lemma_token_safe_parse(q: Seq<char>)
    requires
        token_safe(q),
    ensures
        parse_pattern(q) == parse_tokens(q, 0, seq![]),
        parse_pattern(q) matches Some(r) ==> tokens_shaped(r),
{
    if q.len() > 0 {
        assert(q[0] != '$' && q[q.len() - 1] != '$');
        assert(q[0] != '^') by {
            if q[0] == '^' {
                assert(0 > 0);
            }
        }
    }
    lemma_tokens_shaped(q, 0, seq![]);
}

/// In an ASCII pattern whose anchors stand only at its ends, every literal is
/// non-empty, every repeated literal has one character, and anchors stand
/// only alone at the top.
pub proof fn law_parse_shape(p: Seq<char>)
    requires
        is_ascii_chars(p),
        anchors_only_at_ends(p),
    ensures
        parse_pattern(p) matches Some(v) ==> parse_shaped(v),
{
    let n = p.len() as int;
    if n >= 2 && p[0] == '^' && p.last() == '$' {
        assert(p[1] != '^') by {
            if p[1] == '^' {
                assert(p[0] == '[');
            }
        }
        lemma_token_safe_subrange(p, 1, n - 1);
        lemma_token_safe_parse(p.subrange(1, n - 1));
    } else if n > 0 && p[0] == '^' {
        assert forall|j: int| 0 <= j < p.drop_first().len() implies #[trigger] p.drop_first()[j]
            != '$' by {
            assert(p.drop_first()[j] == p[j + 1]);
            if p[j + 1] == '$' {
                assert(j + 1 == n - 1);
            }
        }
        lemma_take_until_whole(p.drop_first(), '$');
        if n >= 2 {
            assert(p[1] != '^') by {
                if p[1] == '^' {
                    assert(p[0] == '[');
                }
            }
        }
        assert(p.subrange(1, n) =~= p.drop_first());
        lemma_token_safe_subrange(p, 1, n);
        lemma_token_safe_parse(p.drop_first());
    } else if n > 0 && p.last() == '$' {
        assert(p.drop_last().push('$') =~= p);
        assert forall|j: int| 0 <= j < p.drop_last().len() implies #[trigger] p.drop_last()[j]
            != '$' by {
            assert(p.drop_last()[j] == p[j]);
        }
        lemma_take_until_before(p.drop_last(), '$');
        assert(p.subrange(0, n - 1) =~= p.drop_last());
        lemma_token_safe_subrange(p, 0, n - 1);
        lemma_token_safe_parse(p.drop_last());
    } else {
        assert(p.subrange(0, n) =~= p);
        lemma_token_safe_subrange(p, 0, n);
        lemma_token_safe_parse(p);
    }
}

/// `take_until` of a sequence that already holds the stop depends on that
/// sequence alone.
proof fn lemma_take_until_append(a: Seq<char>, b: Seq<char>, stop: char)
    requires
        exists|k: int| 0 <= k < a.len() && #[trigger] a[k] == stop,
    ensures
        take_until(a + b, stop) == take_until(a, stop),
    decreases a.len(),
{
    let k = choose|k: int| 0 <= k < a.len() && #[trigger] a[k] == stop;
    assert((a + b)[0] == a[0]);
    if a[0] != stop {
        assert(a.drop_first()[k - 1] == stop);
        lemma_take_until_append(a.drop_first(), b, stop);
        assert((a + b).drop_first() =~= a.drop_first() + b);
    }
}

/// `take_until` stops at or before any occurrence of the stop.
proof fn lemma_take_until_bounded(s: Seq<char>, stop: char, k: int)
    requires
        0 <= k < s.len(),
        s[k] == stop,
    ensures
        take_until(s, stop).len() <= k,
    decreases k,
{
    if s[0] != stop {
        assert(s.drop_first()[k - 1] == stop);
        lemma_take_until_bounded(s.drop_first(), stop, k - 1);
    }
}

/// A literal run stops before a character that ends a literal.
proof fn lemma_literal_run_append(a: Seq<char>, b: Seq<char>)
    requires
        b.len() > 0,
        ends_literal(b[0]),
    ensures
        literal_run(a + b) == literal_run(a),
    decreases a.len(),
{
    if a.len() == 0 {
        assert(a + b =~= b);
    } else {
        assert((a + b)[0] == a[0]);
        lemma_literal_run_append(a.drop_first(), b);
        assert((a + b).drop_first() =~= a.drop_first() + b);
    }
}

/// Reading `p + q` from the position of `q`'s `j`-th character is reading `q`
/// from `j`.
proof fn lemma_tokens_shift(p: Seq<char>, q: Seq<char>, j: int, acc: Seq<Class>)
    requires
        0 <= j,
    ensures
        parse_tokens(p + q, p.len() + j, acc) == parse_tokens(q, j, acc),
    decreases q.len() - j,
{
    let w = p + q;
    let d = p.len() as int;
    let i = d + j;
    if j < q.len() {
        assert(w[i] == q[j]);
        if j + 1 < q.len() {
            assert(w[i + 1] == q[j + 1]);
        }
        let c = q[j];
        if c == '\\' {
            if j + 1 < q.len() {
                let e = q[j + 1];
                let next = if e == 'd' {
                    acc.push(Class::Digits)
                } else if e == 'w' {
                    acc.push(Class::Characters)
                } else {
                    acc
                };
                lemma_tokens_shift(p, q, j + 2, next);
            }
        } else if c == '+' {
            if let Some(next) = repeat_last(acc) {
                lemma_tokens_shift(p, q, j + 1, next);
            }
        } else if c == '[' {
            let negated = j + 1 < q.len() && q[j + 1] == '^';
            let start = if negated { j + 2 } else { j + 1 };
            assert(w.subrange(d + start, w.len() as int) =~= q.subrange(start, q.len() as int));
            let members = take_until(q.subrange(start, q.len() as int), ']');
            let close = start + members.len();
            let item = if negated {
                Class::NegativeMatch(members)
            } else {
                Class::PositiveMatch(members)
            };
            lemma_tokens_shift(
                p,
                q,
                if close < q.len() {
                    close + 1
                } else {
                    q.len() as int
                },
                acc.push(item),
            );
        } else if c == ' ' {
            lemma_tokens_shift(p, q, j + 1, acc.push(Class::WhiteSpace));
        } else if c == '^' {
            assert(w.subrange(i + 1, w.len() as int) =~= q.subrange(j + 1, q.len() as int));
        } else {
            assert(w.subrange(i, w.len() as int) =~= q.subrange(j, q.len() as int));
            let lit = literal_run(q.subrange(j, q.len() as int));
            lemma_literal_run_len(q.subrange(j, q.len() as int));
            lemma_tokens_shift(p, q, j + lit.len(), acc.push(Class::Literal(lit)));
        }
    }
}

/// A `+` that applies to `acc` applies to `acc` after any other classes, and
/// keeps those in front.
proof fn lemma_repeat_last_prefix(pre: Seq<Class>, acc: Seq<Class>)
    requires
        repeat_last(acc) is Some,
    ensures
        repeat_last(pre + acc) == Some(pre + repeat_last(acc)->0),
{
    let all = pre + acc;
    let last = acc.last();
    let rest = acc.drop_last();
    assert(all.last() == last);
    assert(all.drop_last() =~= pre + rest);
    assert forall|x: Class| (pre + rest).push(x) =~= pre + rest.push(x) by {}
    assert forall|x: Class, y: Class| (pre + rest).push(x).push(y) =~= pre + rest.push(x).push(
        y,
    ) by {}
}

/// Classes already read before `q` are kept in front, as long as reading `q`
/// on its own does not fail.
proof fn lemma_tokens_prefix_acc(q: Seq<char>, j: int, pre: Seq<Class>, acc: Seq<Class>)
    requires
        0 <= j,
        parse_tokens(q, j, acc) is Some,
    ensures
        parse_tokens(q, j, pre + acc) == Some(pre + parse_tokens(q, j, acc)->0),
    decreases q.len() - j,
{
    if j >= q.len() {
    } else {
        let c = q[j];
        if c == '\\' {
            if j + 1 < q.len() {
                let e = q[j + 1];
                if e == 'd' {
                    assert((pre + acc).push(Class::Digits) =~= pre + acc.push(Class::Digits));
                    lemma_tokens_prefix_acc(q, j + 2, pre, acc.push(Class::Digits));
                } else if e == 'w' {
                    assert((pre + acc).push(Class::Characters) =~= pre + acc.push(
                        Class::Characters,
                    ));
                    lemma_tokens_prefix_acc(q, j + 2, pre, acc.push(Class::Characters));
                } else {
                    lemma_tokens_prefix_acc(q, j + 2, pre, acc);
                }
            }
        } else if c == '+' {
            lemma_repeat_last_prefix(pre, acc);
            lemma_tokens_prefix_acc(q, j + 1, pre, repeat_last(acc)->0);
        } else if c == '[' {
            let negated = j + 1 < q.len() && q[j + 1] == '^';
            let start = if negated { j + 2 } else { j + 1 };
            let members = take_until(q.subrange(start, q.len() as int), ']');
            let close = start + members.len();
            let item = if negated {
                Class::NegativeMatch(members)
            } else {
                Class::PositiveMatch(members)
            };
            assert((pre + acc).push(item) =~= pre + acc.push(item));
            lemma_tokens_prefix_acc(
                q,
                if close < q.len() {
                    close + 1
                } else {
                    q.len() as int
                },
                pre,
                acc.push(item),
            );
        } else if c == ' ' {
            assert((pre + acc).push(Class::WhiteSpace) =~= pre + acc.push(Class::WhiteSpace));
            lemma_tokens_prefix_acc(q, j + 1, pre, acc.push(Class::WhiteSpace));
        } else if c == '^' {
            if let Some(v) = parse_pattern(q.subrange(j + 1, q.len() as int)) {
                assert((pre + acc).push(Class::Anchor(v)) =~= pre + acc.push(Class::Anchor(v)));
            }
        } else {
            let lit = literal_run(q.subrange(j, q.len() as int));
            lemma_literal_run_len(q.subrange(j, q.len() as int));
            assert((pre + acc).push(Class::Literal(lit)) =~= pre + acc.push(Class::Literal(lit)));
            lemma_tokens_prefix_acc(q, j + lit.len(), pre, acc.push(Class::Literal(lit)));
        }
    }
}

/// The conditions under which the tokens of `p` end where `p` ends, whatever
/// follows: every `\` is followed, within `p`, by `d` or `w`; every `[` is
/// closed by a `]` of `p`; a `^` only follows a `[`.
pub open spec fn tokens_close_within(p: Seq<char>) -> bool {
    &&& forall|j: int|
        0 <= j < p.len() && #[trigger] p[j] == '\\' ==> j + 1 < p.len() && (p[j + 1] == 'd'
            || p[j + 1] == 'w')
    &&& forall|j: int|
        0 <= j < p.len() && #[trigger] p[j] == '[' ==> exists|k: int|
            j < k < p.len() && #[trigger] p[k] == ']'
    &&& forall|j: int| 0 <= j < p.len() && #[trigger] p[j] == '^' ==> j > 0 && p[j - 1] == '['
}

/// Reading `p + q` up to the end of `p` reads the tokens of `p`.
proof fn lemma_tokens_prefix(p: Seq<char>, q: Seq<char>, i: int, acc: Seq<Class>)
    requires
        tokens_close_within(p),
        q.len() > 0,
        ends_literal(q[0]),
        0 <= i <= p.len(),
        0 < i < p.len() ==> p[i - 1] != '[',
        parse_tokens(p, i, acc) is Some,
    ensures
        parse_tokens(p + q, i, acc) == parse_tokens(p + q, p.len() as int, parse_tokens(
            p,
            i,
            acc,
        )->0),
    decreases p.len() - i,
{
    let w = p + q;
    let n = p.len() as int;
    if i < n {
        let c = p[i];
        assert(w[i] == c);
        if c == '\\' {
            assert(w[i + 1] == p[i + 1]);
            let e = p[i + 1];
            let next = if e == 'd' {
                acc.push(Class::Digits)
            } else if e == 'w' {
                acc.push(Class::Characters)
            } else {
                acc
            };
            lemma_tokens_prefix(p, q, i + 2, next);
        } else if c == '+' {
            lemma_tokens_prefix(p, q, i + 1, repeat_last(acc)->0);
        } else if c == '[' {
            let k = choose|k: int| i < k < p.len() && #[trigger] p[k] == ']';
            assert(w[i + 1] == p[i + 1]);
            let negated = i + 1 < n && p[i + 1] == '^';
            let start = if negated { i + 2 } else { i + 1 };
            let sub = p.subrange(start, n);
            assert(sub[k - start] == ']');
            assert(w.subrange(start, w.len() as int) =~= sub + q);
            lemma_take_until_append(sub, q, ']');
            let members = take_until(sub, ']');
            lemma_take_until_stops_at(sub, ']');
            assert(k >= start);
            lemma_take_until_bounded(sub, ']', k - start);
            let close = start + members.len();
            assert(close < n);
            assert(p[close] == sub[members.len() as int]);
            let item = if negated {
                Class::NegativeMatch(members)
            } else {
                Class::PositiveMatch(members)
            };
            lemma_tokens_prefix(p, q, close + 1, acc.push(item));
        } else if c == ' ' {
            lemma_tokens_prefix(p, q, i + 1, acc.push(Class::WhiteSpace));
        } else if c == '^' {
            assert(false);
        } else {
            let sub = p.subrange(i, n);
            assert(w.subrange(i, w.len() as int) =~= sub + q);
            lemma_literal_run_append(sub, q);
            let lit = literal_run(sub);
            lemma_literal_run_len(sub);
            lemma_literal_run_chars(sub);
            assert(p[i + lit.len() - 1] == sub[lit.len() - 1]);
            assert(lit[lit.len() - 1] == sub[lit.len() - 1]);
            lemma_tokens_prefix(p, q, i + lit.len(), acc.push(Class::Literal(lit)));
        }
    }
}

/// Two patterns whose tokens do not run across the place where they meet
/// parse, together, into the classes of the first and then those of the
/// second.
pub proof fn law_parse_concatenates_at_a_seam(p: Seq<char>, q: Seq<char>)
    requires
        forall|j: int| 0 <= j < p.len() ==> #[trigger] p[j] != '$',
        forall|j: int| 0 <= j < q.len() ==> #[trigger] q[j] != '$',
        tokens_close_within(p),
        q.len() > 0,
        q[0] == '\\' || q[0] == '[' || q[0] == ' ',
        parse_pattern(p) is Some,
        parse_pattern(q) is Some,
    ensures
        parse_pattern(p + q) == Some(parse_pattern(p)->0 + parse_pattern(q)->0),
{
    let w = p + q;
    assert(w.last() == q.last());
    if p.len() > 0 {
        assert(w[0] == p[0]);
        assert(p[0] != '^');
        assert(p.last() == p[p.len() - 1]);
    } else {
        assert(w =~= q);
    }
    assert(q.last() == q[q.len() - 1]);
    let a = parse_pattern(p)->0;
    let b = parse_pattern(q)->0;
    lemma_tokens_prefix(p, q, 0, seq![]);
    lemma_tokens_shift(p, q, 0, a);
    lemma_tokens_prefix_acc(q, 0, a, seq![]);
    assert(a + Seq::<Class>::empty() =~= a);
}

/// What each one-character class accepts: `\d` the ASCII digits, `\w` the
/// ASCII letters, the ASCII digits and `_`, a space a space, `[S]` the members
/// of `S`, and `[^S]` every character that is not in `S`, a space included.
pub proof fn law_char_classes_accept(c: char, set: Seq<char>)
    ensures
        char_class_accepts(Class::Digits, c) == ('0' <= c && c <= '9'),
        char_class_accepts(Class::Characters, c) == (('a' <= c && c <= 'z') || ('A' <= c && c
            <= 'Z') || ('0' <= c && c <= '9') || c == '_'),
        char_class_accepts(Class::WhiteSpace, c) == (c == ' '),
        char_class_accepts(Class::PositiveMatch(set), c) == set.contains(c),
        char_class_accepts(Class::NegativeMatch(set), c) == !set.contains(c),
{
}

/// A one-character class matches a stretch of the input exactly when the
/// stretch is one character long and the class accepts that character.
pub proof fn law_char_class_takes_one_char(x: Class, s: Seq<char>, i: int, j: int)
    requires
        is_char_class(x),
    ensures
        elem_matches(x, s, i, j) == (0 <= i && j == i + 1 && j <= s.len() && char_class_accepts(
            x,
            s[i],
        )),
{
}

/// A space in a pattern stands for exactly one space of the input.
pub proof fn law_space_takes_one_space(s: Seq<char>, i: int, j: int)
    ensures
        elem_matches(Class::WhiteSpace, s, i, j) == (0 <= i && j == i + 1 && j <= s.len() && s[i]
            == ' '),
{
}

/// A class that matches only one character at a time, from wherever it starts.
proof fn lemma_unit_step(v: Seq<Class>, k: int, s: Seq<char>, i: int, j: int)
    requires
        0 <= k < v.len(),
        forall|m: int| #[trigger] elem_matches(v[k], s, i, m) ==> m == i + 1,
    ensures
        seq_matches(v, k, s, i, j) == (i + 1 <= j && elem_matches(v[k], s, i, i + 1)
            && seq_matches(v, k + 1, s, i + 1, j)),
{
    if i <= j {
        lemma_seq_split_iff(v, k, s, i, j, i);
    }
}

/// `\w` matches exactly the inputs that hold an ASCII letter, an ASCII digit
/// or `_`.
pub proof fn law_word_pattern(s: Seq<char>)
    ensures
        parse_pattern(seq!['\\', 'w']) == Some(seq![Class::Characters]),
        pattern_matches(seq![Class::Characters], s) == exists|i: int|
            0 <= i < s.len() && {
                let c = #[trigger] s[i];
                ('a' <= c && c <= 'z') || ('A' <= c && c <= 'Z') || ('0' <= c && c <= '9') || c
                    == '_'
            },
{
    let t = seq!['\\', 'w'];
    law_plus_after_class_token(t);
    law_char_class_finds_any_accepted(Class::Characters, s);
}

/// `\d` matches exactly the inputs that hold an ASCII digit.
pub proof fn law_digit_pattern(s: Seq<char>)
    ensures
        parse_pattern(seq!['\\', 'd']) == Some(seq![Class::Digits]),
        pattern_matches(seq![Class::Digits], s) == exists|i: int|
            0 <= i < s.len() && '0' <= #[trigger] s[i] && s[i] <= '9',
{
    let t = seq!['\\', 'd'];
    law_plus_after_class_token(t);
    law_char_class_finds_any_accepted(Class::Digits, s);
}

/// `[^S]`, for a set `S` without `]`, matches exactly the inputs that hold a
/// character outside `S`; `[S]`, where `S` does not start with `^`, exactly
/// the inputs that hold a member of `S`.
pub proof fn law_group_patterns(set: Seq<char>, s: Seq<char>)
    requires
        forall|j: int| 0 <= j < set.len() ==> #[trigger] set[j] != ']',
    ensures
        parse_pattern(seq!['[', '^'] + set + seq![']']) == Some(seq![Class::NegativeMatch(set)]),
        pattern_matches(seq![Class::NegativeMatch(set)], s) == exists|i: int|
            0 <= i < s.len() && !set.contains(#[trigger] s[i]),
        set.len() == 0 || set[0] != '^' ==> parse_pattern(seq!['['] + set + seq![']']) == Some(
            seq![Class::PositiveMatch(set)],
        ),
        pattern_matches(seq![Class::PositiveMatch(set)], s) == exists|i: int|
            0 <= i < s.len() && set.contains(#[trigger] s[i]),
{
    let neg = seq!['[', '^'] + set + seq![']'];
    assert forall|j: int| 1 <= j < neg.len() - 1 implies #[trigger] neg[j] != ']' by {
        if j >= 2 {
            assert(neg[j] == set[j - 2]);
        }
    }
    assert(neg.subrange(2, neg.len() - 1) =~= set);
    law_plus_after_class_token(neg);
    if set.len() == 0 || set[0] != '^' {
        let pos = seq!['['] + set + seq![']'];
        assert forall|j: int| 1 <= j < pos.len() - 1 implies #[trigger] pos[j] != ']' by {
            assert(pos[j] == set[j - 1]);
        }
        assert(pos.subrange(1, pos.len() - 1) =~= set);
        if set.len() > 0 {
            assert(pos[1] == set[0]);
        }
        law_plus_after_class_token(pos);
    }
    law_char_class_finds_any_accepted(Class::NegativeMatch(set), s);
    law_char_class_finds_any_accepted(Class::PositiveMatch(set), s);
}

/// A character that stands for itself in a pattern.
pub open spec fn is_plain_char(c: char) -> bool {
    !ends_literal(c) && c != '^' && c != '$'
}

/// A one-character literal matches one character, the same one.
proof fn lemma_single_char_literal(a: char, s: Seq<char>, i: int, m: int)
    ensures
        elem_matches(Class::Literal(seq![a]), s, i, m) == (0 <= i && m == i + 1 && m <= s.len()
            && s[i] == a),
{
    if 0 <= i && m == i + 1 && m <= s.len() {
        if s[i] == a {
            assert(s.subrange(i, m) =~= seq![a]);
        } else {
            assert(s.subrange(i, m)[0] == s[i]);
        }
    }
}

/// A pattern of a character, a space and a character, none of which means
/// anything else in a pattern, is those three classes, and it matches
/// exactly the inputs that hold the three characters in a row: the space
/// stands for exactly one space.
pub proof fn law_char_space_char_pattern(a: char, b: char, s: Seq<char>)
    requires
        is_plain_char(a),
        is_plain_char(b),
    ensures
        parse_pattern(seq![a, ' ', b]) == Some(
            seq![Class::Literal(seq![a]), Class::WhiteSpace, Class::Literal(seq![b])],
        ),
        pattern_matches(
            seq![Class::Literal(seq![a]), Class::WhiteSpace, Class::Literal(seq![b])],
            s,
        ) == exists|i: int|
            0 <= i && i + 3 <= s.len() && #[trigger] s[i] == a && s[i + 1] == ' ' && s[i + 2]
                == b,
{
    let p = seq![a, ' ', b];
    let la = Class::Literal(seq![a]);
    let lb = Class::Literal(seq![b]);
    let v = seq![la, Class::WhiteSpace, lb];
    // the parse
    assert(p[1] == ' ');
    assert(ends_literal(p[1]));
    lemma_literal_run_stops(p, 1);
    assert(p.subrange(0, 1) =~= seq![a]);
    assert(p.subrange(0, p.len() as int) =~= p);
    let acc1 = Seq::<Class>::empty().push(la);
    let acc2 = acc1.push(Class::WhiteSpace);
    assert(parse_tokens(p, 0, seq![]) == parse_tokens(p, 1, acc1));
    assert(parse_tokens(p, 1, acc1) == parse_tokens(p, 2, acc2));
    assert(p.subrange(2, 3) =~= seq![b]);
    lemma_literal_run_whole(seq![b]);
    assert(parse_tokens(p, 2, acc2) == parse_tokens(p, 3, acc2.push(lb)));
    assert(acc2.push(lb) =~= v);
    assert(p.last() == b);
    // the match
    assert forall|i: int, j: int| #![trigger seq_matches(v, 0, s, i, j)]
        seq_matches(v, 0, s, i, j) == (j == i + 3 && 0 <= i && i + 3 <= s.len() && s[i] == a
            && s[i + 1] == ' ' && s[i + 2] == b) by {
        assert forall|m: int| #[trigger] elem_matches(v[0], s, i, m) implies m == i + 1 by {
            lemma_single_char_literal(a, s, i, m);
        }
        assert forall|m: int| #[trigger] elem_matches(v[1], s, i + 1, m) implies m == i + 2 by {}
        assert forall|m: int| #[trigger] elem_matches(v[2], s, i + 2, m) implies m == i + 3 by {
            lemma_single_char_literal(b, s, i + 2, m);
        }
        lemma_unit_step(v, 0, s, i, j);
        lemma_unit_step(v, 1, s, i + 1, j);
        lemma_unit_step(v, 2, s, i + 2, j);
        lemma_single_char_literal(a, s, i, i + 1);
        lemma_single_char_literal(b, s, i + 2, i + 3);
    }
    if pattern_matches(v, s) {
        let (i, j) = choose|i: int, j: int|
            0 <= i <= j <= s.len() && #[trigger] seq_matches(v, 0, s, i, j);
        assert(s[i] == a);
    }
    if exists|i: int|
        0 <= i && i + 3 <= s.len() && #[trigger] s[i] == a && s[i + 1] == ' ' && s[i + 2] == b {
        let i = choose|i: int|
            0 <= i && i + 3 <= s.len() && #[trigger] s[i] == a && s[i + 1] == ' ' && s[i + 2]
                == b;
        assert(seq_matches(v, 0, s, i, i + 3));
    }
}

/// A pattern that cannot be parsed is answered with `InvalidOptionProvided`,
/// whatever the line.
pub proof fn law_outcome_of_unparsable_pattern(p: Seq<char>, line: Seq<char>)
    requires
        parse_pattern(p) is None,
    ensures
        grep_outcome(p, line) == Err::<bool, GrepError>(GrepError::InvalidOptionProvided),
{
}

/// A plain literal is found anywhere in the whole line given.
pub proof fn law_outcome_of_literal(w: Seq<char>, line: Seq<char>)
    requires
        is_plain_literal(w),
    ensures
        grep_outcome(w, line) == Ok::<bool, GrepError>(
            exists|i: int|
                0 <= i && i + w.len() <= line.len() && #[trigger] line.subrange(i, i + w.len())
                    == w,
        ),
{
    law_literal_finds_occurrence(w, line);
}

/// `^` before a plain literal holds exactly for the lines that begin with the
/// literal, counted from the line's first character.
pub proof fn law_outcome_of_anchored_literal(w: Seq<char>, line: Seq<char>)
    requires
        is_plain_literal(w),
    ensures
        grep_outcome(seq!['^'] + w, line) == Ok::<bool, GrepError>(
            w.len() <= line.len() && line.take(w.len() as int) == w,
        ),
{
    assert forall|j: int| 0 <= j < w.len() implies #[trigger] w[j] != '$' by {}
    law_parse_start_anchor(w);
    lemma_parse_plain_literal(w);
    let v = seq![Class::Literal(w)];
    law_start_anchor_matches_prefix(v, line);
    let n = w.len() as int;
    if w.len() <= line.len() && line.take(n) == w {
        assert(line.subrange(0, n) =~= line.take(n));
        lemma_single_class(Class::Literal(w), line, 0, n);
        assert(seq_matches(v, 0, line, 0, n));
    }
    if pattern_matches(seq![Class::Anchor(v)], line) {
        let j = choose|j: int| 0 <= j <= line.len() && #[trigger] seq_matches(v, 0, line, 0, j);
        lemma_single_class(Class::Literal(w), line, 0, j);
        assert(line.subrange(0, n) =~= line.take(n));
    }
}

/// `\d` holds exactly for the lines with an ASCII digit somewhere in them.
pub proof fn law_outcome_of_digit_class(line: Seq<char>)
    ensures
        grep_outcome(seq!['\\', 'd'], line) == Ok::<bool, GrepError>(
            exists|i: int| 0 <= i < line.len() && '0' <= #[trigger] line[i] && line[i] <= '9',
        ),
{
    law_digit_pattern(line);
}

} // verus!
