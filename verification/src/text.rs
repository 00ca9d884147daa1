//! Character-level helpers shared by the parsers of this crate.

use vstd::prelude::*;
use vstd::std_specs::iter::IteratorSpec;

verus! {

/// The position of the first occurrence of `c` in `s`, or the length of `s`
/// where `c` does not occur.
pub open spec fn first_index_of(s: Seq<char>, c: char) -> int
    decreases s.len(),
{
    if s.len() == 0 || s[0] == c {
        0
    } else {
        1 + first_index_of(s.drop_first(), c)
    }
}

/// `first_index_of` is the one position before which `c` does not occur and
/// at which it does, or the sequence ends.
pub proof fn lemma_first_index_of(s: Seq<char>, c: char, i: int)
    requires
        0 <= i <= s.len(),
        forall|j: int| 0 <= j < i ==> s[j] != c,
        i == s.len() || s[i] == c,
    ensures
        first_index_of(s, c) == i,
    decreases s.len(),
{
    if i > 0 {
        let rest = s.drop_first();
        assert forall|j: int| 0 <= j < i - 1 implies rest[j] != c by {
            assert(rest[j] == s[j + 1]);
        }
        lemma_first_index_of(rest, c, i - 1);
    }
}

/// The characters of a string slice, in order.
pub fn to_chars(text: &str) -> (chars: Vec<char>)
    ensures
        chars@ == text@,
{
    broadcast use vstd::string::axiom_spec_iter, vstd::string::next_postcondition;

    let mut chars: Vec<char> = Vec::new();
    let mut rest = text.chars();
    loop
        invariant
            chars@ + rest.remaining() == text@,
            rest.decrease() is Some,
        ensures
            chars@ == text@,
        decreases rest.decrease()->0,
    {
        let ghost before = rest.remaining();
        match rest.next() {
            Some(c) => {
                chars.push(c);
                assert(before == seq![c] + rest.remaining());
            },
            None => {
                assert(rest.remaining().len() == 0);
                break ;
            },
        }
    }
    chars
}

/// The position of the first `c` in `chars`, or their number where there is
/// none.
pub fn find_char(chars: &[char], c: char) -> (index: usize)
    ensures
        index == first_index_of(chars@, c),
        index <= chars@.len(),
{
    let mut index: usize = 0;
    while index < chars.len() && chars[index] != c
        invariant
            index <= chars.len(),
            forall|j: int| 0 <= j < index ==> chars@[j] != c,
        decreases chars.len() - index,
    {
        index += 1;
    }
    proof {
        lemma_first_index_of(chars@, c, index as int);
    }
    index
}

/// Whether two string slices hold the same characters.
pub fn same_text(left: &str, right: &str) -> (same: bool)
    ensures
        same == (left@ == right@),
{
    broadcast use vstd::string::axiom_spec_iter, vstd::string::next_postcondition;

    let mut left_rest = left.chars();
    let mut right_rest = right.chars();
    let ghost mut seen: Seq<char> = Seq::empty();
    loop
        invariant
            seen + left_rest.remaining() == left@,
            seen + right_rest.remaining() == right@,
            left_rest.decrease() is Some,
        decreases left_rest.decrease()->0,
    {
        let ghost left_before = left_rest.remaining();
        let ghost right_before = right_rest.remaining();
        match (left_rest.next(), right_rest.next()) {
            (Some(a), Some(b)) => {
                if a != b {
                    assert(left@[seen.len() as int] == a);
                    assert(right@[seen.len() as int] == b);
                    return false;
                }
                proof {
                    assert(left_before == seq![a] + left_rest.remaining());
                    assert(right_before == seq![b] + right_rest.remaining());
                    assert((seen + seq![a]) + left_rest.remaining() == seen + left_before);
                    assert((seen + seq![a]) + right_rest.remaining() == seen + right_before);
                    seen = seen + seq![a];
                }
            },
            (None, None) => {
                assert(seen + left_rest.remaining() == seen);
                assert(seen + right_rest.remaining() == seen);
                return true;
            },
            _ => {
                assert(left@.len() != right@.len());
                return false;
            },
        }
    }
}

/// Whether `c` is white space, as Unicode defines it.
pub open spec fn is_white_space(c: char) -> bool {
    ||| '\u{9}' <= c <= '\u{d}'
    ||| c == ' '
    ||| c == '\u{85}'
    ||| c == '\u{a0}'
    ||| c == '\u{1680}'
    ||| '\u{2000}' <= c <= '\u{200a}'
    ||| c == '\u{2028}'
    ||| c == '\u{2029}'
    ||| c == '\u{202f}'
    ||| c == '\u{205f}'
    ||| c == '\u{3000}'
}

/// The number of white-space characters that `s` starts with.
pub open spec fn leading_space(s: Seq<char>) -> int
    decreases s.len(),
{
    if s.len() == 0 || !is_white_space(s[0]) {
        0
    } else {
        1 + leading_space(s.drop_first())
    }
}

/// The length of `s` without the white space that it ends with.
pub open spec fn solid_end(s: Seq<char>) -> int
    decreases s.len(),
{
    if s.len() == 0 || !is_white_space(s.last()) {
        s.len() as int
    } else {
        solid_end(s.drop_last())
    }
}

/// `s` without the white space at its start and at its end.
pub open spec fn trimmed(s: Seq<char>) -> Seq<char> {
    if leading_space(s) < solid_end(s) {
        s.subrange(leading_space(s), solid_end(s))
    } else {
        Seq::empty()
    }
}

/// `leading_space` is the one position before which all is white space and
/// at which something else stands, or the sequence ends.
pub proof fn lemma_leading_space(s: Seq<char>, i: int)
    requires
        0 <= i <= s.len(),
        forall|j: int| 0 <= j < i ==> is_white_space(#[trigger] s[j]),
        i == s.len() || !is_white_space(s[i]),
    ensures
        leading_space(s) == i,
    decreases s.len(),
{
    if i > 0 {
        let rest = s.drop_first();
        assert(is_white_space(s[0]));
        assert forall|j: int| 0 <= j < i - 1 implies is_white_space(#[trigger] rest[j]) by {
            assert(rest[j] == s[j + 1]);
        }
        lemma_leading_space(rest, i - 1);
    }
}

/// `solid_end` is the one position from which all is white space and before
/// which something else stands, or the sequence starts.
pub proof fn lemma_solid_end(s: Seq<char>, i: int)
    requires
        0 <= i <= s.len(),
        forall|j: int| i <= j < s.len() ==> is_white_space(#[trigger] s[j]),
        i == 0 || !is_white_space(s[i - 1]),
    ensures
        solid_end(s) == i,
    decreases s.len(),
{
    if i < s.len() {
        let front = s.drop_last();
        assert(is_white_space(s[s.len() - 1]));
        assert forall|j: int| i <= j < front.len() implies is_white_space(#[trigger] front[j]) by {
            assert(front[j] == s[j]);
        }
        lemma_solid_end(front, i);
    }
}

/// Whether `c` is white space, as Unicode defines it.
pub fn white_space(c: char) -> (yes: bool)
    ensures
        yes == is_white_space(c),
{
    ('\u{9}' <= c && c <= '\u{d}') || c == ' ' || c == '\u{85}' || c == '\u{a0}' || c
        == '\u{1680}' || ('\u{2000}' <= c && c <= '\u{200a}') || c == '\u{2028}' || c
        == '\u{2029}' || c == '\u{202f}' || c == '\u{205f}' || c == '\u{3000}'
}

/// The part of `text` that is left when the white space at its start and at
/// its end is taken away.
pub fn trim(text: &str) -> (inner: &str)
    ensures
        inner@ == trimmed(text@),
{
    let chars = to_chars(text);
    let mut start: usize = 0;
    while start < chars.len() && white_space(chars[start])
        invariant
            start <= chars.len(),
            forall|j: int| 0 <= j < start ==> is_white_space(#[trigger] chars@[j]),
        decreases chars.len() - start,
    {
        start += 1;
    }
    let mut end: usize = chars.len();
    while end > 0 && white_space(chars[end - 1])
        invariant
            end <= chars.len(),
            forall|j: int| end <= j < chars.len() ==> is_white_space(#[trigger] chars@[j]),
        decreases end,
    {
        end -= 1;
    }
    proof {
        lemma_leading_space(chars@, start as int);
        lemma_solid_end(chars@, end as int);
    }
    if start < end {
        text.substring_char(start, end)
    } else {
        let inner = text.substring_char(0, 0);
        assert(inner@ =~= Seq::<char>::empty());
        inner
    }
}

} // verus!
