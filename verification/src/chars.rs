//! Character classes of the regex dialect, whitespace trimming, and the
//! conversions between `str`/`String` and the `Vec<char>` form the engine
//! works on.

use vstd::prelude::*;
use vstd::string::StrSliceExecFns;

verus! {

/// The ASCII whitespace characters that trimming strips: space, tab,
/// line feed, form feed, carriage return.
pub open spec fn spec_is_space(c: char) -> bool {
    c == ' ' || c == '\t' || c == '\n' || c == '\x0C' || c == '\r'
}

/// An ASCII decimal digit, the class `\d` accepts.
pub open spec fn spec_is_digit(c: char) -> bool {
    48 <= c as u32 && c as u32 <= 57
}

/// An ASCII letter or digit: what a bracket class may contain and match.
pub open spec fn spec_is_alnum(c: char) -> bool {
    (48 <= c as u32 && c as u32 <= 57) || (65 <= c as u32 && c as u32 <= 90) || (97 <= c as u32
        && c as u32 <= 122)
}

/// An ASCII letter, digit or underscore, the class `\w` accepts.
pub open spec fn spec_is_word_char(c: char) -> bool {
    spec_is_alnum(c) || c == '_'
}

/// The engine's own metacharacters, which the wildcard `.` refuses.
pub open spec fn spec_is_metachar(c: char) -> bool {
    c == '\\' || c == '[' || c == ']' || c == '(' || c == '|' || c == ')'
}

pub fn is_space_char(c: char) -> (r: bool)
    ensures
        r == spec_is_space(c),
{
    c == ' ' || c == '\t' || c == '\n' || c == '\x0C' || c == '\r'
}

pub fn is_digit_char(c: char) -> (r: bool)
    ensures
        r == spec_is_digit(c),
{
    let u = c as u32;
    48 <= u && u <= 57
}

pub fn is_alnum_char(c: char) -> (r: bool)
    ensures
        r == spec_is_alnum(c),
{
    let u = c as u32;
    (48 <= u && u <= 57) || (65 <= u && u <= 90) || (97 <= u && u <= 122)
}

/// The predicate behind `\w`.
pub fn is_alnum_or_underscore(c: char) -> (r: bool)
    ensures
        r == spec_is_word_char(c),
{
    is_alnum_char(c) || c == '_'
}

/// The predicate behind `.`: any character that is not a metacharacter.
pub fn is_unrestricted_char(c: char) -> (r: bool)
    ensures
        r == !spec_is_metachar(c),
{
    !(c == '\\' || c == '[' || c == ']' || c == '(' || c == '|' || c == ')')
}

/// The predicate behind a bracket class: ASCII alphanumeric, and a member
/// of the class exactly when the class is not negated.
pub fn is_char_in_group(c: char, negated: bool, members: &Vec<char>) -> (r: bool)
    ensures
        r == (spec_is_alnum(c) && (members@.contains(c) != negated)),
{
    if !is_alnum_char(c) {
        return false;
    }
    let mut i: usize = 0;
    let mut found = false;
    while i < members.len()
        invariant
            i <= members.len(),
            found == exists|k: int| 0 <= k < i && members@[k] == c,
        decreases members.len() - i,
    {
        if members[i] == c {
            found = true;
        }
        i = i + 1;
    }
    proof {
        assert(found == members@.contains(c));
    }
    found != negated
}

/// Relies on `String::push`: appends exactly the given character.
pub assume_specification[ String::push ](s: &mut String, c: char)
    ensures
        final(s)@ == old(s)@.push(c),
;

/// Collects the characters of `s` into a vector.
pub fn str_to_chars(s: &str) -> (v: Vec<char>)
    ensures
        v@ == s@,
{
    let n = s.unicode_len();
    let mut v: Vec<char> = Vec::new();
    let mut i: usize = 0;
    while i < n
        invariant
            n == s@.len(),
            i <= n,
            v@ == s@.subrange(0, i as int),
        decreases n - i,
    {
        v.push(s.get_char(i));
        i = i + 1;
        proof {
            assert(v@ =~= s@.subrange(0, i as int));
        }
    }
    proof {
        assert(v@ =~= s@);
    }
    v
}

/// Builds the `String` holding exactly the characters of `v`.
pub fn chars_to_string(v: &Vec<char>) -> (s: String)
    ensures
        s@ == v@,
{
    let mut s = String::new();
    let mut i: usize = 0;
    while i < v.len()
        invariant
            i <= v.len(),
            s@ == v@.subrange(0, i as int),
        decreases v.len() - i,
    {
        s.push(v[i]);
        i = i + 1;
        proof {
            assert(s@ =~= v@.subrange(0, i as int));
        }
    }
    proof {
        assert(s@ =~= v@);
    }
    s
}

/// Index of the first non-whitespace character at or after `i`.
pub open spec fn spec_ltrim(s: Seq<char>, i: nat) -> nat
    decreases s.len() - i,
{
    if i >= s.len() {
        i
    } else if spec_is_space(s[i as int]) {
        spec_ltrim(s, i + 1)
    } else {
        i
    }
}

/// One past the last non-whitespace character strictly before `j`.
pub open spec fn spec_rtrim(s: Seq<char>, j: nat) -> nat
    decreases j,
{
    if j == 0 {
        0
    } else if spec_is_space(s[j - 1]) {
        spec_rtrim(s, (j - 1) as nat)
    } else {
        j
    }
}

/// `s` with leading and trailing whitespace removed.
pub open spec fn spec_trim(s: Seq<char>) -> Seq<char> {
    let a = spec_ltrim(s, 0);
    if a == s.len() {
        Seq::empty()
    } else {
        s.subrange(a as int, spec_rtrim(s, s.len()) as int)
    }
}

proof fn lemma_rtrim_bound(s: Seq<char>, j: nat)
    ensures
        spec_rtrim(s, j) <= j,
    decreases j,
{
    if j > 0 && spec_is_space(s[j - 1]) {
        lemma_rtrim_bound(s, (j - 1) as nat);
    }
}

proof fn lemma_rtrim_above(s: Seq<char>, j: nat, a: nat)
    requires
        a < j <= s.len(),
        !spec_is_space(s[a as int]),
    ensures
        a < spec_rtrim(s, j) <= j,
    decreases j,
{
    if spec_is_space(s[j - 1]) {
        lemma_rtrim_above(s, (j - 1) as nat, a);
    }
}

/// The trimmed text is a contiguous slice of the original.
pub proof fn lemma_trim_is_slice(s: Seq<char>)
    ensures
        exists|a: int, b: int|
            0 <= a <= b <= s.len() && spec_trim(s) == s.subrange(a, b),
{
    let a = spec_ltrim(s, 0);
    lemma_ltrim_bound(s, 0);
    if a == s.len() {
        assert(spec_trim(s) =~= s.subrange(a as int, a as int));
        assert(0 <= a as int <= a as int <= s.len() && spec_trim(s) == s.subrange(
            a as int,
            a as int,
        ));
    } else {
        lemma_ltrim_stops(s, 0);
        lemma_rtrim_above(s, s.len(), a);
        let b = spec_rtrim(s, s.len());
        assert(0 <= a as int <= b as int <= s.len() && spec_trim(s) == s.subrange(
            a as int,
            b as int,
        ));
    }
}

proof fn lemma_ltrim_bound(s: Seq<char>, i: nat)
    requires
        i <= s.len(),
    ensures
        i <= spec_ltrim(s, i) <= s.len(),
    decreases s.len() - i,
{
    if i < s.len() && spec_is_space(s[i as int]) {
        lemma_ltrim_bound(s, i + 1);
    }
}

proof fn lemma_ltrim_stops(s: Seq<char>, i: nat)
    requires
        i <= s.len(),
        spec_ltrim(s, i) < s.len(),
    ensures
        !spec_is_space(s[spec_ltrim(s, i) as int]),
    decreases s.len() - i,
{
    if i < s.len() && spec_is_space(s[i as int]) {
        lemma_ltrim_stops(s, i + 1);
    }
}

/// Copies `v[a..b]` into a fresh vector.
pub fn copy_range(v: &Vec<char>, a: usize, b: usize) -> (out: Vec<char>)
    requires
        a <= b <= v.len(),
    ensures
        out@ == v@.subrange(a as int, b as int),
{
    let mut out: Vec<char> = Vec::new();
    let mut i: usize = a;
    while i < b
        invariant
            a <= i <= b <= v.len(),
            out@ == v@.subrange(a as int, i as int),
        decreases b - i,
    {
        out.push(v[i]);
        i = i + 1;
        proof {
            assert(out@ =~= v@.subrange(a as int, i as int));
        }
    }
    out
}

/// Removes leading and trailing whitespace.
pub fn trim_chars(v: &Vec<char>) -> (t: Vec<char>)
    ensures
        t@ == spec_trim(v@),
{
    let mut lo: usize = 0;
    while lo < v.len() && is_space_char(v[lo])
        invariant
            lo <= v.len(),
            spec_ltrim(v@, 0) == spec_ltrim(v@, lo as nat),
        decreases v.len() - lo,
    {
        lo = lo + 1;
    }
    if lo == v.len() {
        let empty: Vec<char> = Vec::new();
        proof {
            assert(empty@ =~= spec_trim(v@));
        }
        return empty;
    }
    let mut hi: usize = v.len();
    while lo < hi && is_space_char(v[hi - 1])
        invariant
            lo <= hi <= v.len(),
            spec_rtrim(v@, v@.len()) == spec_rtrim(v@, hi as nat),
        decreases hi,
    {
        hi = hi - 1;
    }
    proof {
        lemma_ltrim_stops(v@, 0);
        lemma_rtrim_above(v@, v@.len(), lo as nat);
        lemma_rtrim_bound(v@, hi as nat);
        assert(spec_rtrim(v@, hi as nat) == hi);
    }
    copy_range(v, lo, hi)
}

} // verus!
