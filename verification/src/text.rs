//! Character-level scanning helpers shared by the payload and exchange-info readers.
//!
//! Every scanner works on the `char` view of a `&str` and is specified by a small
//! recursive spec function that names the index it stops at.

use vstd::prelude::*;

verus! {

/// The Unicode `White_Space` property, as `char::is_whitespace` tests it.
pub open spec fn is_unicode_whitespace(c: char) -> bool {
    let u = c as u32;
    ||| u == 0x20
    ||| (0x09 <= u && u <= 0x0d)
    ||| u == 0x85
    ||| u == 0xa0
    ||| u == 0x1680
    ||| (0x2000 <= u && u <= 0x200a)
    ||| u == 0x2028
    ||| u == 0x2029
    ||| u == 0x202f
    ||| u == 0x205f
    ||| u == 0x3000
}

pub fn is_whitespace_char(c: char) -> (r: bool)
    ensures
        r == is_unicode_whitespace(c),
{
    let u = c as u32;
    u == 0x20 || (0x09 <= u && u <= 0x0d) || u == 0x85 || u == 0xa0 || u == 0x1680 || (0x2000
        <= u && u <= 0x200a) || u == 0x2028 || u == 0x2029 || u == 0x202f || u == 0x205f || u
        == 0x3000
}

/// The characters of `s`, in order.
pub fn str_chars(s: &str) -> (v: Vec<char>)
    ensures
        v@ == s@,
{
    let mut v: Vec<char> = Vec::new();
    for c in it: s.chars()
        invariant
            v@ == it.seq().take(it.index() as int),
    {
        v.push(c);
    }
    proof {
        broadcast use vstd::string::group_string_axioms;

    }
    v
}

/// `pat` occurs in `h` starting at index `i`.
pub open spec fn matches_at(h: Seq<char>, pat: Seq<char>, i: int) -> bool {
    &&& 0 <= i
    &&& i + pat.len() <= h.len()
    &&& h.subrange(i, i + pat.len()) == pat
}

/// The first index `j >= i` at which `pat` occurs in `h`.
pub open spec fn find_from(h: Seq<char>, pat: Seq<char>, i: int) -> Option<int>
    decreases h.len() + 1 - i,
{
    if i < 0 || i + pat.len() > h.len() {
        None
    } else if matches_at(h, pat, i) {
        Some(i)
    } else {
        find_from(h, pat, i + 1)
    }
}

/// The first index `j >= i` holding `c`.
pub open spec fn first_char_from(h: Seq<char>, i: int, c: char) -> Option<int>
    decreases h.len() - i,
{
    if i < 0 || i >= h.len() {
        None
    } else if h[i] == c {
        Some(i)
    } else {
        first_char_from(h, i + 1, c)
    }
}

/// The first index `j >= i` holding `c1` or `c2` (or `h.len()`).
pub open spec fn first_of_two_from(h: Seq<char>, i: int, c1: char, c2: char) -> int
    decreases h.len() - i,
{
    if i >= h.len() {
        h.len() as int
    } else if 0 <= i && (h[i] == c1 || h[i] == c2) {
        i
    } else {
        first_of_two_from(h, i + 1, c1, c2)
    }
}

/// The first index `j >= i` that is not whitespace (or `h.len()`).
pub open spec fn skip_ws_from(h: Seq<char>, i: int) -> int
    decreases h.len() - i,
{
    if 0 <= i < h.len() && is_unicode_whitespace(h[i]) {
        skip_ws_from(h, i + 1)
    } else {
        i
    }
}

/// The end of `h[a..e]` once trailing whitespace is cut off.
pub open spec fn trim_back(h: Seq<char>, a: int, e: int) -> int
    decreases e - a,
{
    if e > a && is_unicode_whitespace(h[e - 1]) {
        trim_back(h, a, e - 1)
    } else {
        e
    }
}

/// Index of the first occurrence of `pat` in `h` at or after `from`.
pub fn find_pattern(h: &Vec<char>, pat: &Vec<char>, from: usize) -> (r: Option<usize>)
    ensures
        match r {
            Some(i) => find_from(h@, pat@, from as int) == Some(i as int),
            None => find_from(h@, pat@, from as int) is None,
        },
{
    let mut i = from;
    while i <= h.len() && pat.len() <= h.len() - i
        invariant
            from <= i,
            find_from(h@, pat@, from as int) == find_from(h@, pat@, i as int),
        decreases h.len() + 1 - i,
    {
        let mut k: usize = 0;
        let mut same = true;
        while k < pat.len()
            invariant
                i + pat.len() <= h.len(),
                k <= pat.len(),
                same == (forall|m: int| 0 <= m < k ==> h@[i + m] == pat@[m]),
            decreases pat.len() - k,
        {
            if h[i + k] != pat[k] {
                same = false;
            }
            k = k + 1;
        }
        if same {
            assert(h@.subrange(i as int, i + pat.len()) =~= pat@);
            return Some(i);
        }
        assert(!matches_at(h@, pat@, i as int)) by {
            if matches_at(h@, pat@, i as int) {
                let m = choose|m: int| 0 <= m < pat.len() && h@[i + m] != pat@[m];
                assert(h@.subrange(i as int, i + pat.len())[m] == h@[i + m]);
            }
        }
        i = i + 1;
    }
    None
}

/// Index of the first `c` in `h` at or after `from`.
pub fn find_char(h: &Vec<char>, from: usize, c: char) -> (r: Option<usize>)
    ensures
        match r {
            Some(i) => first_char_from(h@, from as int, c) == Some(i as int) && from <= i < h.len(),
            None => first_char_from(h@, from as int, c) is None,
        },
{
    let mut i = from;
    while i < h.len()
        invariant
            from <= i,
            first_char_from(h@, from as int, c) == first_char_from(h@, i as int, c),
        decreases h.len() - i,
    {
        if h[i] == c {
            return Some(i);
        }
        i = i + 1;
    }
    None
}

/// First index at or after `from` holding `c1` or `c2`, or `h.len()`.
pub fn find_either(h: &Vec<char>, from: usize, c1: char, c2: char) -> (r: usize)
    requires
        from <= h.len(),
    ensures
        r as int == first_of_two_from(h@, from as int, c1, c2),
        from <= r <= h.len(),
{
    let mut i = from;
    while i < h.len() && h[i] != c1 && h[i] != c2
        invariant
            from <= i <= h.len(),
            first_of_two_from(h@, from as int, c1, c2) == first_of_two_from(h@, i as int, c1, c2),
        decreases h.len() - i,
    {
        i = i + 1;
    }
    i
}

/// A match found by `find_from` lies at or after the start and fits in `h`.
pub proof fn lemma_find_from_match(h: Seq<char>, pat: Seq<char>, i: int)
    requires
        find_from(h, pat, i) is Some,
    ensures
        matches_at(h, pat, find_from(h, pat, i)->0),
        i <= find_from(h, pat, i)->0,
    decreases h.len() + 1 - i,
{
    if !(i < 0 || i + pat.len() > h.len()) && !matches_at(h, pat, i) {
        lemma_find_from_match(h, pat, i + 1);
    }
}

/// First index at or after `from` that is not whitespace.
pub fn skip_whitespace(h: &Vec<char>, from: usize) -> (r: usize)
    requires
        from <= h.len(),
    ensures
        r as int == skip_ws_from(h@, from as int),
        from <= r <= h.len(),
{
    let mut i = from;
    while i < h.len() && is_whitespace_char(h[i])
        invariant
            from <= i <= h.len(),
            skip_ws_from(h@, from as int) == skip_ws_from(h@, i as int),
        decreases h.len() - i,
    {
        i = i + 1;
    }
    i
}

/// End of `h[a..e]` with trailing whitespace removed.
pub fn trim_end_index(h: &Vec<char>, a: usize, e: usize) -> (r: usize)
    requires
        a <= e <= h.len(),
    ensures
        r as int == trim_back(h@, a as int, e as int),
        a <= r <= e,
{
    let mut j = e;
    while j > a && is_whitespace_char(h[j - 1])
        invariant
            a <= j <= e,
            e <= h.len(),
            trim_back(h@, a as int, e as int) == trim_back(h@, a as int, j as int),
        decreases j - a,
    {
        j = j - 1;
    }
    j
}

} // verus!
