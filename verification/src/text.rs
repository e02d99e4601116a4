//! Shared text helpers: whitespace trimming, digit tests and character
//! search over the view of a string.

use vstd::prelude::*;

verus! {

/// The whitespace characters that surrounding-whitespace removal strips.
pub open spec fn is_white(c: char) -> bool {
    ||| c as int == 0x09
    ||| c as int == 0x0A
    ||| c as int == 0x0B
    ||| c as int == 0x0C
    ||| c as int == 0x0D
    ||| c as int == 0x20
    ||| c as int == 0x85
    ||| c as int == 0xA0
    ||| c as int == 0x1680
    ||| 0x2000 <= c as int <= 0x200A
    ||| c as int == 0x2028
    ||| c as int == 0x2029
    ||| c as int == 0x202F
    ||| c as int == 0x205F
    ||| c as int == 0x3000
}

pub open spec fn is_digit(c: char) -> bool {
    '0' as int <= c as int <= '9' as int
}

pub open spec fn digit_val(c: char) -> int {
    c as int - '0' as int
}

/// The first position at or after `i` holding a non-whitespace character.
pub open spec fn first_non_ws(s: Seq<char>, i: int) -> int
    decreases s.len() - i,
{
    if i < 0 || i >= s.len() {
        s.len() as int
    } else if is_white(s[i]) {
        first_non_ws(s, i + 1)
    } else {
        i
    }
}

/// The position right after the last non-whitespace character before `j`.
pub open spec fn end_non_ws(s: Seq<char>, j: int) -> int
    decreases j,
{
    if j <= 0 || j > s.len() {
        0
    } else if is_white(s[j - 1]) {
        end_non_ws(s, j - 1)
    } else {
        j
    }
}

/// The text with surrounding whitespace removed.
pub open spec fn trim_spec(s: Seq<char>) -> Seq<char> {
    if first_non_ws(s, 0) == s.len() {
        Seq::empty()
    } else {
        s.subrange(first_non_ws(s, 0), end_non_ws(s, s.len() as int))
    }
}

/// The first position at or after `i` holding the character `c`.
pub open spec fn find_char(s: Seq<char>, c: char, i: int) -> int
    decreases s.len() - i,
{
    if i < 0 || i >= s.len() {
        s.len() as int
    } else if s[i] == c {
        i
    } else {
        find_char(s, c, i + 1)
    }
}

pub proof fn lemma_first_non_ws_props(s: Seq<char>, i: int)
    requires
        0 <= i <= s.len(),
    ensures
        i <= first_non_ws(s, i) <= s.len(),
        forall|k: int| i <= k < first_non_ws(s, i) ==> is_white(#[trigger] s[k]),
        first_non_ws(s, i) < s.len() ==> !is_white(s[first_non_ws(s, i)]),
    decreases s.len() - i,
{
    if i < s.len() && is_white(s[i]) {
        lemma_first_non_ws_props(s, i + 1);
    }
}

pub proof fn lemma_end_non_ws_ge(s: Seq<char>, j: int, a: int)
    requires
        0 <= a < s.len(),
        !is_white(s[a]),
        a + 1 <= j <= s.len(),
    ensures
        a + 1 <= end_non_ws(s, j) <= j,
    decreases j,
{
    if j > a + 1 && is_white(s[j - 1]) {
        lemma_end_non_ws_ge(s, j - 1, a);
    }
}

pub fn is_white_exec(c: char) -> (b: bool)
    ensures
        b == is_white(c),
{
    let u = c as u32;
    (9 <= u && u <= 13) || u == 0x20 || u == 0x85 || u == 0xA0 || u == 0x1680 || (0x2000 <= u && u
        <= 0x200A) || u == 0x2028 || u == 0x2029 || u == 0x202F || u == 0x205F || u == 0x3000
}

pub fn is_digit_exec(c: char) -> (b: bool)
    ensures
        b == is_digit(c),
{
    let u = c as u32;
    48 <= u && u <= 57
}

/// The index pair delimiting the text with surrounding whitespace removed.
#[verifier::loop_isolation(false)]
pub fn trim_bounds(input: &str) -> (r: (usize, usize))
    ensures
        r.0 <= r.1 <= input@.len(),
        input@.subrange(r.0 as int, r.1 as int) == trim_spec(input@),
        r.0 as int == first_non_ws(input@, 0),
{
    let ghost s = input@;
    let len = input.unicode_len();
    let mut a: usize = 0;
    while a < len && is_white_exec(input.get_char(a))
        invariant
            a <= len,
            first_non_ws(s, 0) == first_non_ws(s, a as int),
        decreases len - a,
    {
        a = a + 1;
    }
    proof {
        assert(first_non_ws(s, 0) == a as int);
    }
    if a >= len {
        proof {
            assert(s.subrange(len as int, len as int) =~= trim_spec(s));
        }
        return (len, len);
    }
    let mut b: usize = len;
    while b > a && is_white_exec(input.get_char(b - 1))
        invariant
            a < b <= len,
            !is_white(s[a as int]),
            end_non_ws(s, len as int) == end_non_ws(s, b as int),
        decreases b,
    {
        b = b - 1;
    }
    proof {
        lemma_end_non_ws_ge(s, b as int, a as int);
        assert(end_non_ws(s, len as int) == b as int);
    }
    (a, b)
}

/// The first position of `c` at or after `start`, or the length of
/// `input` if `c` is absent there.
#[verifier::loop_isolation(false)]
pub fn find_char_from(input: &str, c: char, start: usize) -> (r: usize)
    requires
        start <= input@.len(),
    ensures
        r as int == find_char(input@, c, start as int),
        start <= r <= input@.len(),
{
    let ghost s = input@;
    let len = input.unicode_len();
    let mut i: usize = start;
    while i < len && input.get_char(i) != c
        invariant
            start <= i <= len,
            find_char(s, c, start as int) == find_char(s, c, i as int),
        decreases len - i,
    {
        i = i + 1;
    }
    proof {
        assert(find_char(s, c, start as int) == i as int);
    }
    i
}

/// The first position of `c` in `input`, or its length if `c` is absent.
#[verifier::loop_isolation(false)]
pub fn find_char_exec(input: &str, c: char) -> (r: usize)
    ensures
        r as int == find_char(input@, c, 0),
        r <= input@.len(),
{
    let ghost s = input@;
    let len = input.unicode_len();
    let mut i: usize = 0;
    while i < len && input.get_char(i) != c
        invariant
            i <= len,
            find_char(s, c, 0) == find_char(s, c, i as int),
        decreases len - i,
    {
        i = i + 1;
    }
    proof {
        assert(find_char(s, c, 0) == i as int);
    }
    i
}

} // verus!
