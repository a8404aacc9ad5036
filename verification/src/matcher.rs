//! Matching an input line against a parsed pattern.
//!
//! A pattern is a sequence of classes, each of which matches a stretch of the
//! input: a one-character class one character it accepts, a literal exactly
//! its characters, a `+` one or more stretches of its class, one after the
//! other. The anchors tie their classes to the start (`^`), the end (`$`) or
//! both ends of the input. The pattern matches an input when some stretch of
//! the input is matched by its classes in order.
use vstd::prelude::*;

use crate::parser::PatternParser;
use crate::text::{chars_of, equals_at};
use crate::types::{
    CharacterClasses, Class, MatchResultType, char_class_accepts, classes_view, is_char_class,
};

verus! {

/// Whether the class `x` matches exactly the characters `s[i..j]`.
pub open spec fn elem_matches(x: Class, s: Seq<char>, i: int, j: int) -> bool
    decreases x, 0int, 0int,
{
    match x {
        Class::Literal(l) => 0 <= i && j == i + l.len() && j <= s.len() && s.subrange(i, j) == l,
        Class::Anchor(v) => i == 0 && seq_matches(v, 0, s, i, j),
        Class::LineAnchor(v) => j == s.len() && seq_matches(v, 0, s, i, j),
        Class::ImmAnchor(v) => i == 0 && j == s.len() && seq_matches(v, 0, s, i, j),
        Class::PositiveQuantifier(b) => repeat_matches(*b, s, i, j),
        _ => 0 <= i && j == i + 1 && j <= s.len() && char_class_accepts(x, s[i]),
    }
}

/// Whether `s[i..j]` is one or more stretches, one after the other, each
/// matched by `x`: either `x` matches all of it, or `x` matches `s[i..m]` and
/// the rest `s[m..j]` is again such a repetition, for some `i < m < j`.
pub open spec fn repeat_matches(x: Class, s: Seq<char>, i: int, j: int) -> bool
    decreases x, j - i + 1, j - i + 1,
{
    if j < i {
        false
    } else if elem_matches(x, s, i, j) {
        true
    } else if i < j {
        repeat_split(x, s, i, j, i + 1)
    } else {
        false
    }
}

/// Whether `x` matches `s[i..m]` and `s[m..j]` is a repetition of `x`, for
/// some `m` with `from <= m < j`.
pub open spec fn repeat_split(x: Class, s: Seq<char>, i: int, j: int, from: int) -> bool
    decreases x, j - i + 1, j - from,
{
    if from <= i || from >= j {
        false
    } else {
        (elem_matches(x, s, i, from) && repeat_matches(x, s, from, j)) || repeat_split(
            x,
            s,
            i,
            j,
            from + 1,
        )
    }
}

/// Whether the classes `items[k..]`, one after the other, match exactly
/// `s[i..j]`.
pub open spec fn seq_matches(items: Seq<Class>, k: int, s: Seq<char>, i: int, j: int) -> bool
    decreases items, items.len() - k, j - i + 2,
{
    if k < 0 || k >= items.len() {
        i == j
    } else if i > j {
        false
    } else {
        seq_split(items, k, s, i, j, i)
    }
}

/// Whether `items[k]` matches `s[i..m]` and `items[k + 1..]` match `s[m..j]`,
/// for some `m` with `from <= m <= j`.
pub open spec fn seq_split(items: Seq<Class>, k: int, s: Seq<char>, i: int, j: int, from: int) -> bool
    decreases items, items.len() - k, j - from + 1,
{
    if k < 0 || k >= items.len() || from > j {
        false
    } else {
        (elem_matches(items[k], s, i, from) && seq_matches(items, k + 1, s, from, j)) || seq_split(
            items,
            k,
            s,
            i,
            j,
            from + 1,
        )
    }
}

/// Whether the classes `pats` match the input `s`: `s` is not empty and some
/// stretch `s[i..j]` of it is matched by `pats`.
pub open spec fn pattern_matches(pats: Seq<Class>, s: Seq<char>) -> bool {
    &&& s.len() > 0
    &&& exists|i: int, j: int| 0 <= i <= j <= s.len() && #[trigger] seq_matches(pats, 0, s, i, j)
}

/// `repeat_split` holds exactly when some split point at `from` or later works.
pub proof fn lemma_repeat_split_iff(x: Class, s: Seq<char>, i: int, j: int, from: int)
    requires
        i < from,
    ensures
        repeat_split(x, s, i, j, from) == exists|m: int|
            #![trigger elem_matches(x, s, i, m), repeat_matches(x, s, m, j)]
            from <= m < j && elem_matches(x, s, i, m) && repeat_matches(x, s, m, j),
    decreases j - from,
{
    if from < j {
        lemma_repeat_split_iff(x, s, i, j, from + 1);
        if elem_matches(x, s, i, from) && repeat_matches(x, s, from, j) {
            assert(from <= from < j);
        }
        if exists|m: int|
            #![trigger elem_matches(x, s, i, m), repeat_matches(x, s, m, j)]
            from <= m < j && elem_matches(x, s, i, m) && repeat_matches(x, s, m, j) {
            let m = choose|m: int|
                #![trigger elem_matches(x, s, i, m), repeat_matches(x, s, m, j)]
                from <= m < j && elem_matches(x, s, i, m) && repeat_matches(x, s, m, j);
            if m > from {
                assert(from + 1 <= m < j);
            }
        }
    }
}

/// `seq_split` holds exactly when some split point at `from` or later works.
pub proof fn lemma_seq_split_iff(items: Seq<Class>, k: int, s: Seq<char>, i: int, j: int, from: int)
    requires
        0 <= k < items.len(),
    ensures
        seq_split(items, k, s, i, j, from) == exists|m: int|
            #![trigger elem_matches(items[k], s, i, m), seq_matches(items, k + 1, s, m, j)]
            from <= m <= j && elem_matches(items[k], s, i, m) && seq_matches(items, k + 1, s, m, j),
    decreases j - from + 1,
{
    if from <= j {
        lemma_seq_split_iff(items, k, s, i, j, from + 1);
        if elem_matches(items[k], s, i, from) && seq_matches(items, k + 1, s, from, j) {
            assert(from <= from <= j);
        }
        if exists|m: int|
            #![trigger elem_matches(items[k], s, i, m), seq_matches(items, k + 1, s, m, j)]
            from <= m <= j && elem_matches(items[k], s, i, m) && seq_matches(items, k + 1, s, m, j) {
            let m = choose|m: int|
                #![trigger elem_matches(items[k], s, i, m), seq_matches(items, k + 1, s, m, j)]
                from <= m <= j && elem_matches(items[k], s, i, m) && seq_matches(items, k + 1, s, m, j);
            if m > from {
                assert(from + 1 <= m <= j);
            }
        }
    }
}

/// Whether the classes `items[k..]`, one after the other, match `s[i..j]` for
/// some end `j`.
pub open spec fn seq_matches_from(items: Seq<Class>, k: int, s: Seq<char>, i: int) -> bool {
    exists|j: int| i <= j <= s.len() && #[trigger] seq_matches(items, k, s, i, j)
}

/// `elem_matches(x, s, i, j)`.
fn elem_at(x: &CharacterClasses, s: &Vec<char>, i: usize, j: usize) -> (r: bool)
    requires
        i <= j <= s@.len(),
    ensures
        r == elem_matches(x@, s@, i as int, j as int),
        is_char_class(x@) ==> r == (j == i + 1 && char_class_accepts(x@, s@[i as int])),
        x@ == Class::WhiteSpace ==> r == (j == i + 1 && s@[i as int] == ' '),
    decreases x, 0nat, 0nat,
{
    match x {
        CharacterClasses::Literal(l) => {
            let chars = chars_of(l.as_str());
            j - i == chars.len() && equals_at(&chars, s, i)
        },
        CharacterClasses::Anchor(v) => i == 0 && seq_at(v, 0, s, i, j),
        CharacterClasses::LineAnchor(v) => j == s.len() && seq_at(v, 0, s, i, j),
        CharacterClasses::ImmAnchor(v) => i == 0 && j == s.len() && seq_at(v, 0, s, i, j),
        CharacterClasses::PositiveQuantifier(b) => repeat_at(b, s, i, j),
        _ => {
            if j - i != 1 {
                false
            } else {
                match x.match_char_with_pattern(s[i]) {
                    MatchResultType::Char(accepted) => accepted,
                    _ => false,
                }
            }
        },
    }
}

/// `repeat_matches(x, s, i, j)`.
fn repeat_at(x: &CharacterClasses, s: &Vec<char>, i: usize, j: usize) -> (r: bool)
    requires
        i <= j <= s@.len(),
    ensures
        r == repeat_matches(x@, s@, i as int, j as int),
    decreases x, j - i + 1, j - i + 1,
{
    if elem_at(x, s, i, j) {
        return true;
    }
    if i == j {
        return false;
    }
    if let Some(d) = class_width(x) {
        proof {
            lemma_repeat_split_iff(x@, s@, i as int, j as int, i + 1);
        }
        if d == 0 || d >= j - i {
            assert forall|m: int| i + 1 <= m < j implies !#[trigger] elem_matches(
                x@,
                s@,
                i as int,
                m,
            ) by {}
            return false;
        }
        let m = i + d;
        let r = elem_at(x, s, i, m) && repeat_at(x, s, m, j);
        proof {
            if !r {
                assert forall|m2: int| i + 1 <= m2 < j implies !(#[trigger] elem_matches(
                    x@,
                    s@,
                    i as int,
                    m2,
                ) && #[trigger] repeat_matches(x@, s@, m2, j as int)) by {}
            }
        }
        return r;
    }
    let mut m = i + 1;
    while m < j
        invariant
            i < m <= j <= s@.len(),
            repeat_matches(x@, s@, i as int, j as int) == repeat_split(
                x@,
                s@,
                i as int,
                j as int,
                m as int,
            ),
        decreases j - m,
    {
        if elem_at(x, s, i, m) && repeat_at(x, s, m, j) {
            return true;
        }
        m = m + 1;
    }
    false
}

/// `seq_matches(items, k, s, i, j)`.
fn seq_at(items: &Vec<CharacterClasses>, k: usize, s: &Vec<char>, i: usize, j: usize) -> (r:
    bool)
    requires
        k <= items@.len(),
        i <= j <= s@.len(),
    ensures
        r == seq_matches(classes_view(items@), k as int, s@, i as int, j as int),
    decreases items, items@.len() - k, j - i + 2,
{
    let ghost v = classes_view(items@);
    if k >= items.len() {
        return i == j;
    }
    let next = k + 1;
    assert(v[k as int] == items@[k as int]@);
    let mut m = i;
    while m <= j
        invariant
            i <= m <= j + 1,
            j <= s@.len(),
            next == k + 1 <= items@.len(),
            v == classes_view(items@),
            v[k as int] == items@[k as int]@,
            seq_matches(v, k as int, s@, i as int, j as int) == seq_split(
                v,
                k as int,
                s@,
                i as int,
                j as int,
                m as int,
            ),
        decreases j + 1 - m,
    {
        if elem_at(&items[k], s, i, m) && seq_at(items, next, s, m, j) {
            return true;
        }
        if m == j {
            assert(!seq_split(v, k as int, s@, i as int, j as int, j + 1));
            return false;
        }
        m = m + 1;
    }
    false
}

/// The number of characters that `x` matches wherever it matches, for the
/// classes that always match the same number: a literal and a one-character
/// class.
fn class_width(x: &CharacterClasses) -> (w: Option<usize>)
    ensures
        w matches Some(d) ==> forall|s: Seq<char>, i: int, m: int|
            #[trigger] elem_matches(x@, s, i, m) ==> m == i + d,
{
    match x {
        CharacterClasses::Literal(l) => Some(chars_of(l.as_str()).len()),
        CharacterClasses::Anchor(_) => None,
        CharacterClasses::LineAnchor(_) => None,
        CharacterClasses::ImmAnchor(_) => None,
        CharacterClasses::PositiveQuantifier(_) => None,
        _ => Some(1),
    }
}

/// `seq_matches_from(items, k, s, i)`: tries each end of the stretch that
/// `items[k]` matches from `i`, and goes on from there.
fn seq_from(items: &Vec<CharacterClasses>, k: usize, s: &Vec<char>, i: usize) -> (r: bool)
    requires
        k <= items@.len(),
        i <= s@.len(),
    ensures
        r == seq_matches_from(classes_view(items@), k as int, s@, i as int),
    decreases items@.len() - k,
{
    let ghost v = classes_view(items@);
    let n = s.len();
    if k >= items.len() {
        assert(seq_matches(v, k as int, s@, i as int, i as int));
        return true;
    }
    assert(v[k as int] == items@[k as int]@);
    let next = k + 1;
    if let Some(d) = class_width(&items[k]) {
        if d > n - i {
            assert forall|j: int| i <= j <= n implies !#[trigger] seq_matches(
                v,
                k as int,
                s@,
                i as int,
                j,
            ) by {
                lemma_seq_split_iff(v, k as int, s@, i as int, j, i as int);
            }
            return false;
        }
        let m = i + d;
        let r = elem_at(&items[k], s, i, m) && seq_from(items, next, s, m);
        proof {
            if r {
                let j = choose|j: int| m <= j <= n && #[trigger] seq_matches(v, k + 1, s@, m as int, j);
                lemma_seq_split_iff(v, k as int, s@, i as int, j, i as int);
                assert(seq_matches(v, k as int, s@, i as int, j));
            } else {
                assert forall|j: int| i <= j <= n implies !#[trigger] seq_matches(
                    v,
                    k as int,
                    s@,
                    i as int,
                    j,
                ) by {
                    lemma_seq_split_iff(v, k as int, s@, i as int, j, i as int);
                    if seq_matches(v, k as int, s@, i as int, j) {
                        let m2 = choose|m2: int|
                            #![trigger elem_matches(v[k as int], s@, i as int, m2), seq_matches(v, k + 1, s@, m2, j)]
                            i <= m2 <= j && elem_matches(v[k as int], s@, i as int, m2)
                                && seq_matches(v, k + 1, s@, m2, j);
                        assert(m2 == m);
                        assert(seq_matches_from(v, k + 1, s@, m as int));
                    }
                }
            }
        }
        return r;
    }
    let mut m = i;
    loop
        invariant
            i <= m <= n == s@.len(),
            next == k + 1 <= items@.len(),
            v == classes_view(items@),
            v[k as int] == items@[k as int]@,
            forall|m2: int, j: int|
                #![trigger elem_matches(v[k as int], s@, i as int, m2), seq_matches(v, k + 1, s@, m2, j)]
                i <= m2 < m && m2 <= j <= n ==> !(elem_matches(v[k as int], s@, i as int, m2)
                    && seq_matches(v, k + 1, s@, m2, j)),
        decreases n - m,
    {
        if elem_at(&items[k], s, i, m) && seq_from(items, next, s, m) {
            proof {
                let j = choose|j: int| m <= j <= n && #[trigger] seq_matches(v, k + 1, s@, m as int, j);
                lemma_seq_split_iff(v, k as int, s@, i as int, j, i as int);
                assert(seq_matches(v, k as int, s@, i as int, j));
            }
            return true;
        }
        if m == n {
            assert forall|j: int| i <= j <= n implies !#[trigger] seq_matches(
                v,
                k as int,
                s@,
                i as int,
                j,
            ) by {
                lemma_seq_split_iff(v, k as int, s@, i as int, j, i as int);
            }
            return false;
        }
        m = m + 1;
    }
}

impl PatternParser {
    /// Takes a input string and matches it with the parsed pattern. Return
    /// `true` if pattern matches, `false` otherwise.
    pub fn match_input_with_pattern(&self, input: &str) -> (r: bool)
        ensures
            r == pattern_matches(self@, input@),
    {
        let s = chars_of(input);
        let n = s.len();
        if n == 0 {
            return false;
        }
        let mut i: usize = 0;
        loop
            invariant
                0 < n == s@.len(),
                s@ == input@,
                i <= n,
                forall|i2: int| 0 <= i2 < i ==> !#[trigger] seq_matches_from(self@, 0, s@, i2),
            decreases n - i,
        {
            if seq_from(&self.0, 0, &s, i) {
                proof {
                    let j = choose|j: int| i <= j <= n && #[trigger] seq_matches(self@, 0, s@, i as int, j);
                    assert(seq_matches(self@, 0, s@, i as int, j));
                }
                return true;
            }
            if i == n {
                assert forall|i2: int, j2: int| 0 <= i2 <= j2 <= n implies !#[trigger] seq_matches(
                    self@,
                    0,
                    s@,
                    i2,
                    j2,
                ) by {
                    assert(!seq_matches_from(self@, 0, s@, i2));
                }
                return false;
            }
            i = i + 1;
        }
    }
}

} // verus!
