//! Character-level scanning utilities for the markup parser: exact
//! substring search, whitespace handling and digit-run parsing, all over
//! character vectors so that every offset is a codepoint count.
use vstd::prelude::*;

verus! {

/// The pattern occurs in `s` at position `i`.
pub open spec fn is_at(s: Seq<char>, i: int, pat: Seq<char>) -> bool {
    0 <= i && i + pat.len() <= s.len() && s.subrange(i, i + pat.len()) == pat
}

/// The first position at or after `from` where the pattern occurs, or -1
/// when it does not occur there.
pub open spec fn spec_find(s: Seq<char>, pat: Seq<char>, from: int) -> int
    decreases s.len() + 1 - from,
{
    if from < 0 {
        -1
    } else if from + pat.len() > s.len() {
        -1
    } else if is_at(s, from, pat) {
        from
    } else {
        spec_find(s, pat, from + 1)
    }
}

/// What `spec_find` returns: an occurrence no earlier than `from`, before
/// which there is none; or -1 exactly when no occurrence starts at or
/// after `from`.
pub proof fn lemma_spec_find(s: Seq<char>, pat: Seq<char>, from: int)
    requires
        0 <= from,
    ensures
        spec_find(s, pat, from) == -1 || spec_find(s, pat, from) >= from,
        spec_find(s, pat, from) == -1 ==> forall|i: int| from <= i ==> !is_at(s, i, pat),
        spec_find(s, pat, from) >= 0 ==> from <= spec_find(s, pat, from) && is_at(
            s,
            spec_find(s, pat, from),
            pat,
        ) && forall|i: int| from <= i < spec_find(s, pat, from) ==> !is_at(s, i, pat),
    decreases s.len() + 1 - from,
{
    if from + pat.len() > s.len() {
        assert forall|i: int| from <= i implies !is_at(s, i, pat) by {}
    } else if is_at(s, from, pat) {
    } else {
        lemma_spec_find(s, pat, from + 1);
    }
}

/// Whether the pattern occurs at position `at`.
pub fn match_at(s: &Vec<char>, pat: &Vec<char>, at: usize) -> (r: bool)
    ensures
        r == is_at(s@, at as int, pat@),
{
    let slen = s.len();
    if at > slen {
        proof {
            assert(!is_at(s@, at as int, pat@));
        }
        return false;
    }
    if pat.len() > slen - at {
        proof {
            assert(!is_at(s@, at as int, pat@));
        }
        return false;
    }
    let mut j: usize = 0;
    while j < pat.len()
        invariant
            slen == s@.len(),
            at + pat@.len() <= slen,
            j <= pat@.len(),
            forall|k: int| 0 <= k < j ==> s@[at + k] == pat@[k],
        decreases pat@.len() - j,
    {
        if s[at + j] != pat[j] {
            proof {
                if is_at(s@, at as int, pat@) {
                    assert(s@.subrange(at as int, at + pat@.len())[j as int] == s@[at + j]);
                }
            }
            return false;
        }
        j = j + 1;
    }
    proof {
        assert(s@.subrange(at as int, at + pat@.len()) =~= pat@);
    }
    true
}

/// The first occurrence of the pattern at or after `from`.
pub fn find_from(s: &Vec<char>, pat: &Vec<char>, from: usize) -> (r: Option<usize>)
    ensures
        match r {
            Some(i) => from <= i && i as int == spec_find(s@, pat@, from as int) && is_at(
                s@,
                i as int,
                pat@,
            ),
            None => spec_find(s@, pat@, from as int) == -1,
        },
{
    let mut i: usize = from;
    loop
        invariant
            from <= i,
            spec_find(s@, pat@, from as int) == spec_find(s@, pat@, i as int),
        decreases s@.len() + 1 - i,
    {
        if i > s.len() {
            proof {
                assert(spec_find(s@, pat@, i as int) == -1);
            }
            return None;
        }
        if pat.len() > s.len() - i {
            proof {
                assert(spec_find(s@, pat@, i as int) == -1);
            }
            return None;
        }
        if match_at(s, pat, i) {
            proof {
                assert(spec_find(s@, pat@, i as int) == i);
            }
            return Some(i);
        }
        proof {
            if pat@.len() == 0 {
                assert(s@.subrange(i as int, i as int) =~= pat@);
            }
            assert(i < s@.len());
            assert(spec_find(s@, pat@, i as int) == spec_find(s@, pat@, i + 1));
        }
        i = i + 1;
    }
}

/// The whitespace characters the classifier recognizes: the Unicode
/// White_Space set, as the standard trim and whitespace classes use it.
pub open spec fn is_space_char(c: char) -> bool {
    ||| c == '\t'
    ||| c == '\n'
    ||| c == '\u{0b}'
    ||| c == '\u{0c}'
    ||| c == '\r'
    ||| c == ' '
    ||| c == '\u{85}'
    ||| c == '\u{a0}'
    ||| c == '\u{1680}'
    ||| ('\u{2000}' <= c && c <= '\u{200a}')
    ||| c == '\u{2028}'
    ||| c == '\u{2029}'
    ||| c == '\u{202f}'
    ||| c == '\u{205f}'
    ||| c == '\u{3000}'
}

/// Executable whitespace test.
pub fn is_space(c: char) -> (r: bool)
    ensures
        r == is_space_char(c),
{
    c == '\t' || c == '\n' || c == '\u{0b}' || c == '\u{0c}' || c == '\r' || c == ' ' || c
        == '\u{85}' || c == '\u{a0}' || c == '\u{1680}' || ('\u{2000}' <= c && c
        <= '\u{200a}') || c == '\u{2028}' || c == '\u{2029}' || c == '\u{202f}' || c
        == '\u{205f}' || c == '\u{3000}'
}

/// The first position at or after `from` holding a non-space character,
/// or the length when all the rest is whitespace.
pub open spec fn first_non_space(s: Seq<char>, from: int) -> int
    decreases s.len() + 1 - from,
{
    if from < 0 || from >= s.len() {
        s.len() as int
    } else if !is_space_char(s[from]) {
        from
    } else {
        first_non_space(s, from + 1)
    }
}

/// Bounds and meaning of `first_non_space`.
pub proof fn lemma_first_non_space(s: Seq<char>, from: int)
    requires
        0 <= from <= s.len(),
    ensures
        from <= first_non_space(s, from) <= s.len(),
        forall|i: int| from <= i < first_non_space(s, from) ==> is_space_char(s[i]),
        first_non_space(s, from) < s.len() ==> !is_space_char(s[first_non_space(s, from)]),
    decreases s.len() + 1 - from,
{
    if from < s.len() && is_space_char(s[from]) {
        lemma_first_non_space(s, from + 1);
    }
}

/// Executable scan for the first non-space position.
pub fn skip_spaces(s: &Vec<char>, from: usize) -> (r: usize)
    requires
        from <= s@.len(),
    ensures
        r as int == first_non_space(s@, from as int),
        from <= r <= s@.len(),
{
    let mut i: usize = from;
    while i < s.len() && is_space(s[i])
        invariant
            from <= i <= s@.len(),
            first_non_space(s@, from as int) == first_non_space(s@, i as int),
        decreases s@.len() - i,
    {
        proof {
            assert(first_non_space(s@, i as int) == first_non_space(s@, i + 1));
        }
        i = i + 1;
    }
    i
}

/// One past the last non-space character, or 0 when the text is all
/// whitespace.
pub open spec fn last_non_space_end(s: Seq<char>) -> int
    decreases s.len(),
{
    if s.len() == 0 {
        0
    } else if !is_space_char(s.last()) {
        s.len() as int
    } else {
        last_non_space_end(s.drop_last())
    }
}

/// Bounds and meaning of `last_non_space_end`.
pub proof fn lemma_last_non_space_end(s: Seq<char>)
    ensures
        0 <= last_non_space_end(s) <= s.len(),
        forall|i: int| last_non_space_end(s) <= i < s.len() ==> is_space_char(s[i]),
        last_non_space_end(s) > 0 ==> !is_space_char(s[last_non_space_end(s) - 1]),
    decreases s.len(),
{
    if s.len() > 0 && is_space_char(s.last()) {
        lemma_last_non_space_end(s.drop_last());
        assert forall|i: int| last_non_space_end(s) <= i < s.len() implies is_space_char(s[i]) by {
            if i < s.len() - 1 {
                assert(s.drop_last()[i] == s[i]);
            }
        }
    }
}

/// The text with leading and trailing whitespace removed.
pub open spec fn spec_trim(s: Seq<char>) -> Seq<char> {
    let b = first_non_space(s, 0);
    if b == s.len() {
        Seq::empty()
    } else {
        s.subrange(b, last_non_space_end(s))
    }
}

/// A non-space character below `last_non_space_end` keeps it high.
proof fn lemma_last_non_space_end_at_least(s: Seq<char>, i: int)
    requires
        0 <= i < s.len(),
        !is_space_char(s[i]),
    ensures
        last_non_space_end(s) >= i + 1,
    decreases s.len(),
{
    if s.len() > 0 && is_space_char(s.last()) {
        assert(s.drop_last()[i] == s[i]);
        lemma_last_non_space_end_at_least(s.drop_last(), i);
    }
}

/// Trim both ends of a character vector.
pub fn trim_chars(s: &Vec<char>) -> (r: Vec<char>)
    ensures
        r@ == spec_trim(s@),
{
    proof {
        lemma_first_non_space(s@, 0);
        lemma_last_non_space_end(s@);
    }
    let b = skip_spaces(s, 0);
    if b == s.len() {
        let r: Vec<char> = Vec::new();
        proof {
            assert(r@ =~= spec_trim(s@));
        }
        return r;
    }
    proof {
        lemma_last_non_space_end_at_least(s@, b as int);
    }
    let mut e: usize = s.len();
    proof {
        assert(s@.subrange(0, s@.len() as int) =~= s@);
    }
    while e > 0 && is_space(s[e - 1])
        invariant
            0 <= e <= s@.len(),
            last_non_space_end(s@) == last_non_space_end(s@.subrange(0, e as int)),
            last_non_space_end(s@) <= e,
        decreases e,
    {
        proof {
            let pre = s@.subrange(0, e as int);
            assert(pre.drop_last() =~= s@.subrange(0, e - 1));
            assert(pre.last() == s@[e - 1]);
            lemma_last_non_space_end(s@.subrange(0, e - 1));
        }
        e = e - 1;
    }
    proof {
        let pre = s@.subrange(0, e as int);
        if e > 0 {
            assert(pre.last() == s@[e - 1]);
        }
        assert(last_non_space_end(s@) == e);
    }
    let mut r: Vec<char> = Vec::new();
    let mut i: usize = b;
    while i < e
        invariant
            b <= i <= e <= s@.len(),
            r@ =~= s@.subrange(b as int, i as int),
        decreases e - i,
    {
        r.push(s[i]);
        proof {
            assert(r@ =~= s@.subrange(b as int, i + 1));
        }
        i = i + 1;
    }
    proof {
        assert(r@ =~= spec_trim(s@));
    }
    r
}

/// A decimal digit.
pub open spec fn is_digit_char(c: char) -> bool {
    '0' <= c && c <= '9'
}

/// The numeric value of a digit run, most significant digit first.
pub open spec fn digits_to_nat(s: Seq<char>) -> nat
    decreases s.len(),
{
    if s.len() == 0 {
        0
    } else {
        digits_to_nat(s.drop_last()) * 10 + (if s.last() as nat >= 48 {
            (s.last() as nat - 48) as nat
        } else {
            0
        })
    }
}

/// The end of the digit run starting at `from`.
pub open spec fn digit_run_end(s: Seq<char>, from: int) -> int
    decreases s.len() + 1 - from,
{
    if from < 0 || from >= s.len() {
        if from < 0 {
            0
        } else {
            s.len() as int
        }
    } else if !is_digit_char(s[from]) {
        from
    } else {
        digit_run_end(s, from + 1)
    }
}

/// Bounds and meaning of `digit_run_end`.
pub proof fn lemma_digit_run_end(s: Seq<char>, from: int)
    requires
        0 <= from <= s.len(),
    ensures
        from <= digit_run_end(s, from) <= s.len(),
        forall|i: int| from <= i < digit_run_end(s, from) ==> is_digit_char(s[i]),
        digit_run_end(s, from) < s.len() ==> !is_digit_char(s[digit_run_end(s, from)]),
    decreases s.len() + 1 - from,
{
    if from < s.len() && is_digit_char(s[from]) {
        lemma_digit_run_end(s, from + 1);
    }
}

} // verus!
