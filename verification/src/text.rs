//! Character-level helpers shared by the identifier extractor, the content
//! truncation and the JSON codec: listing a string's characters, rebuilding a
//! string from characters, substring search, prefix tests and trimming.

use vstd::prelude::*;

verus! {

/// Unicode white-space classification, exactly as `char::is_whitespace`
/// decides it.
pub uninterp spec fn is_space_char(c: char) -> bool;

/// Unicode alphanumeric classification, exactly as `char::is_alphanumeric`
/// decides it.
pub uninterp spec fn is_alnum_char(c: char) -> bool;

/// Relies on `char::is_whitespace`: whether a character has the Unicode
/// White_Space property depends on the character alone.
pub assume_specification[ char::is_whitespace ](c: char) -> (r: bool)
    ensures
        r == is_space_char(c),
;

/// Relies on `char::is_alphanumeric`: whether a character is Unicode
/// alphanumeric depends on the character alone.
pub assume_specification[ char::is_alphanumeric ](c: char) -> (r: bool)
    ensures
        r == is_alnum_char(c),
;

/// Relies on `str::chars` and `Iterator::collect`: the iterator yields exactly
/// the string's characters, in order.
#[verifier::external_body]
pub(crate) fn chars_of(s: &str) -> (v: Vec<char>)
    ensures
        v@ == s@,
{
    s.chars().collect()
}

/// Relies on `FromIterator<char> for String`: the built string holds exactly
/// the given characters, in order.
#[verifier::external_body]
pub(crate) fn string_of(v: &Vec<char>) -> (s: String)
    ensures
        s@ == v@,
{
    v.iter().collect()
}

/// Character-for-character string equality.
pub fn str_eq(a: &str, b: &str) -> (r: bool)
    ensures
        r == (a@ == b@),
{
    let va = chars_of(a);
    let vb = chars_of(b);
    if va.len() != vb.len() {
        assert(a@ != b@) by {
            if a@ == b@ {
                assert(a@.len() == b@.len());
            }
        }
        return false;
    }
    let mut i: usize = 0;
    while i < va.len()
        invariant
            va@ == a@,
            vb@ == b@,
            va@.len() == vb@.len(),
            i <= va@.len(),
            forall|j: int| 0 <= j < i ==> a@[j] == b@[j],
        decreases va@.len() - i,
    {
        if va[i] != vb[i] {
            return false;
        }
        i = i + 1;
    }
    assert(a@ =~= b@);
    true
}

/// Copy of the characters `v[a..b]`.
pub fn subvec(v: &Vec<char>, a: usize, b: usize) -> (r: Vec<char>)
    requires
        a <= b <= v@.len(),
    ensures
        r@ == v@.subrange(a as int, b as int),
{
    let mut r: Vec<char> = Vec::new();
    let mut i: usize = a;
    while i < b
        invariant
            a <= i <= b <= v@.len(),
            r@ == v@.subrange(a as int, i as int),
        decreases b - i,
    {
        r.push(v[i]);
        assert(r@ =~= v@.subrange(a as int, i + 1));
        i = i + 1;
    }
    r
}

/// The pattern `p` occurs in `s` starting at position `i`.
pub open spec fn match_at(s: Seq<char>, p: Seq<char>, i: int) -> bool {
    0 <= i && i + p.len() <= s.len() && s.subrange(i, i + p.len() as int) == p
}

/// `p` is a prefix of `s`.
pub open spec fn seq_has_prefix(s: Seq<char>, p: Seq<char>) -> bool {
    match_at(s, p, 0)
}

/// Whether `p` occurs in `s` at position `i`.
fn check_match(s: &Vec<char>, p: &Vec<char>, i: usize) -> (r: bool)
    requires
        i + p@.len() <= s@.len(),
    ensures
        r == match_at(s@, p@, i as int),
{
    let n = s.len();
    let mut j: usize = 0;
    while j < p.len()
        invariant
            n == s@.len(),
            i + p@.len() <= s@.len(),
            j <= p@.len(),
            forall|k: int| 0 <= k < j ==> s@[i + k] == p@[k],
        decreases p@.len() - j,
    {
        if s[i + j] != p[j] {
            assert(s@.subrange(i as int, i + p@.len() as int)[j as int] != p@[j as int]);
            return false;
        }
        j = j + 1;
    }
    assert(s@.subrange(i as int, i + p@.len() as int) =~= p@);
    true
}

/// Position of the first occurrence of `p` in `s` at or after `i`, spec-level.
pub open spec fn find_pos(s: Seq<char>, p: Seq<char>, i: int) -> Option<int>
    decreases s.len() - i + 1,
{
    if i < 0 || i + p.len() > s.len() {
        None
    } else if match_at(s, p, i) {
        Some(i)
    } else {
        find_pos(s, p, i + 1)
    }
}

/// First index `j >= i` with `s[j] == stop`, or the length of `s`.
pub open spec fn scan_to(s: Seq<char>, i: int, stop: char) -> int
    decreases s.len() - i,
{
    if i < 0 || i >= s.len() {
        s.len() as int
    } else if s[i] == stop {
        i
    } else {
        scan_to(s, i + 1, stop)
    }
}

/// First index `j >= i` with `s@[j] == stop`, or the length of `s`.
#[verifier::loop_isolation(false)]
pub fn scan_char(s: &Vec<char>, i: usize, stop: char) -> (r: usize)
    requires
        i <= s@.len(),
    ensures
        r == scan_to(s@, i as int, stop),
        i <= r <= s@.len(),
{
    let mut j: usize = i;
    while j < s.len()
        invariant
            i <= j <= s@.len(),
            scan_to(s@, i as int, stop) == scan_to(s@, j as int, stop),
        decreases s@.len() - j,
    {
        if s[j] == stop {
            return j;
        }
        j = j + 1;
    }
    j
}

/// Position of the first occurrence of `p` in `s`, if any.
#[verifier::loop_isolation(false)]
pub fn find_sub(s: &Vec<char>, p: &Vec<char>) -> (r: Option<usize>)
    ensures
        match r {
            Some(i) => find_pos(s@, p@, 0) == Some(i as int) && match_at(s@, p@, i as int)
                && forall|j: int| 0 <= j < i ==> !match_at(s@, p@, j),
            None => find_pos(s@, p@, 0) is None && forall|j: int| !match_at(s@, p@, j),
        },
{
    if p.len() > s.len() {
        return None;
    }
    if p.len() == 0 {
        assert(s@.subrange(0, 0) =~= p@);
        return Some(0);
    }
    let last: usize = s.len() - p.len();
    let mut i: usize = 0;
    while i <= last
        invariant
            1 <= p@.len() <= s@.len(),
            s@.len() <= usize::MAX,
            last == s@.len() - p@.len(),
            i <= last + 1,
            find_pos(s@, p@, 0) == find_pos(s@, p@, i as int),
            forall|j: int| 0 <= j < i ==> !match_at(s@, p@, j),
        decreases last + 1 - i,
    {
        if check_match(s, p, i) {
            return Some(i);
        }
        i = i + 1;
    }
    None
}

/// `p` is a prefix of the characters `s`.
pub fn has_prefix(s: &Vec<char>, p: &Vec<char>) -> (r: bool)
    ensures
        r == seq_has_prefix(s@, p@),
{
    if p.len() > s.len() {
        return false;
    }
    check_match(s, p, 0)
}

/// Number of white-space characters at the front of `s`.
pub open spec fn leading_ws(s: Seq<char>) -> int
    decreases s.len(),
{
    if s.len() == 0 {
        0
    } else if is_space_char(s[0]) {
        1 + leading_ws(s.drop_first())
    } else {
        0
    }
}

/// Number of white-space characters at the back of `s`.
pub open spec fn trailing_ws(s: Seq<char>) -> int
    decreases s.len(),
{
    if s.len() == 0 {
        0
    } else if is_space_char(s.last()) {
        1 + trailing_ws(s.drop_last())
    } else {
        0
    }
}

/// `s` with white space removed from both ends, as `str::trim` leaves it.
pub open spec fn trim_spec(s: Seq<char>) -> Seq<char> {
    if leading_ws(s) == s.len() {
        Seq::empty()
    } else {
        s.subrange(leading_ws(s), s.len() - trailing_ws(s))
    }
}

proof fn lemma_leading_ws(s: Seq<char>, i: int)
    requires
        0 <= i <= s.len(),
        forall|j: int| 0 <= j < i ==> is_space_char(s[j]),
        i < s.len() ==> !is_space_char(s[i]),
    ensures
        leading_ws(s) == i,
    decreases s.len(),
{
    if s.len() == 0 {
    } else if is_space_char(s[0]) {
        assert(i >= 1) by {
            if i == 0 {
                assert(!is_space_char(s[0]));
            }
        }
        let t = s.drop_first();
        assert(forall|j: int| 0 <= j < i - 1 ==> is_space_char(#[trigger] t[j]));
        lemma_leading_ws(t, i - 1);
    } else {
        assert(i == 0) by {
            if i > 0 {
                assert(is_space_char(s[0]));
            }
        }
    }
}

proof fn lemma_trailing_ws(s: Seq<char>, i: int)
    requires
        0 <= i <= s.len(),
        forall|j: int| i <= j < s.len() ==> is_space_char(s[j]),
        i > 0 ==> !is_space_char(s[i - 1]),
    ensures
        trailing_ws(s) == s.len() - i,
    decreases s.len(),
{
    if s.len() == 0 {
    } else if is_space_char(s.last()) {
        assert(i < s.len()) by {
            if i == s.len() {
                assert(!is_space_char(s[i - 1]));
            }
        }
        let t = s.drop_last();
        lemma_trailing_ws(t, i);
    } else {
        assert(i == s.len()) by {
            if i < s.len() {
                assert(is_space_char(s[s.len() - 1]));
            }
        }
    }
}

/// `s` with leading and trailing white space removed.
pub fn trim_chars(v: &Vec<char>) -> (r: Vec<char>)
    ensures
        r@ == trim_spec(v@),
{
    let n = v.len();
    let mut a: usize = 0;
    while a < n && v[a].is_whitespace()
        invariant
            n == v@.len(),
            a <= n,
            forall|j: int| 0 <= j < a ==> is_space_char(v@[j]),
        decreases n - a,
    {
        a = a + 1;
    }
    proof {
        lemma_leading_ws(v@, a as int);
    }
    if a == n {
        let r: Vec<char> = Vec::new();
        assert(r@ =~= trim_spec(v@));
        return r;
    }
    let mut b: usize = n;
    while b > a && v[b - 1].is_whitespace()
        invariant
            n == v@.len(),
            a < n,
            a <= b <= n,
            !is_space_char(v@[a as int]),
            forall|j: int| b <= j < n ==> is_space_char(v@[j]),
        decreases b,
    {
        b = b - 1;
    }
    assert(b > a);
    proof {
        lemma_trailing_ws(v@, b as int);
    }
    subvec(v, a, b)
}

} // verus!
