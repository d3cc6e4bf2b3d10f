//! Character-sequence utilities: trimming, searching and comparison,
//! each specified over `Seq<char>` and implemented over `&str`.
use vstd::prelude::*;
use vstd::string::StrSliceExecFns;

verus! {

/// True of the characters that `str::trim` removes (the Unicode
/// white-space characters).
pub open spec fn is_space_char(c: char) -> bool {
    c == ' ' || c == '\t' || c == '\n' || c == '\r' || c == '\u{000B}' || c == '\u{000C}'
        || c == '\u{0085}' || c == '\u{00A0}' || c == '\u{1680}'
        || ('\u{2000}' <= c && c <= '\u{200A}') || c == '\u{2028}' || c == '\u{2029}'
        || c == '\u{202F}' || c == '\u{205F}' || c == '\u{3000}'
}

pub fn is_space_char_x(c: char) -> (r: bool)
    ensures
        r == is_space_char(c),
{
    c == ' ' || c == '\t' || c == '\n' || c == '\r' || c == '\u{000B}' || c == '\u{000C}'
        || c == '\u{0085}' || c == '\u{00A0}' || c == '\u{1680}'
        || ('\u{2000}' <= c && c <= '\u{200A}') || c == '\u{2028}' || c == '\u{2029}'
        || c == '\u{202F}' || c == '\u{205F}' || c == '\u{3000}'
}

/// The character's code point, with ASCII lower-case letters folded to
/// upper case; the measure for case-insensitive matching.
pub open spec fn up_code(c: char) -> int {
    if 'a' <= c && c <= 'z' {
        (c as u32) - 32
    } else {
        c as u32 as int
    }
}

pub fn up_code_x(c: char) -> (r: u32)
    ensures
        r == up_code(c),
{
    let x: u32 = c as u32;
    if 97 <= x && x <= 122 {
        x - 32
    } else {
        x
    }
}

/// `pat` occurs in `s` at position `i`, ignoring ASCII case.
pub open spec fn matches_ci_at(s: Seq<char>, pat: Seq<char>, i: int) -> bool {
    &&& 0 <= i
    &&& i + pat.len() <= s.len()
    &&& forall|k: int| 0 <= k < pat.len() ==> up_code(s[i + k]) == up_code(pat[k])
}

/// `pat` occurs in `s` at position `i`, exactly.
pub open spec fn matches_cs_at(s: Seq<char>, pat: Seq<char>, i: int) -> bool {
    &&& 0 <= i
    &&& i + pat.len() <= s.len()
    &&& forall|k: int| 0 <= k < pat.len() ==> s[i + k] == pat[k]
}

/// Position of the first case-insensitive occurrence of `pat` in `s` at
/// or after `i`, or -1 if there is none.
pub open spec fn find_ci_from(s: Seq<char>, pat: Seq<char>, i: int) -> int
    decreases s.len() - i,
{
    if i < 0 || i + pat.len() > s.len() {
        -1
    } else if matches_ci_at(s, pat, i) {
        i
    } else {
        find_ci_from(s, pat, i + 1)
    }
}

/// Position of the first exact occurrence of `pat` in `s` at or after
/// `i`, or -1 if there is none.
pub open spec fn find_cs_from(s: Seq<char>, pat: Seq<char>, i: int) -> int
    decreases s.len() - i,
{
    if i < 0 || i + pat.len() > s.len() {
        -1
    } else if matches_cs_at(s, pat, i) {
        i
    } else {
        find_cs_from(s, pat, i + 1)
    }
}

pub open spec fn contains_ci(s: Seq<char>, pat: Seq<char>) -> bool {
    find_ci_from(s, pat, 0) >= 0
}

pub open spec fn contains_cs(s: Seq<char>, pat: Seq<char>) -> bool {
    find_cs_from(s, pat, 0) >= 0
}

pub open spec fn starts_with_ci(s: Seq<char>, pat: Seq<char>) -> bool {
    matches_ci_at(s, pat, 0)
}

pub open spec fn ends_with_cs(s: Seq<char>, pat: Seq<char>) -> bool {
    pat.len() <= s.len() && matches_cs_at(s, pat, s.len() - pat.len())
}

/// Position of the first occurrence of the character `c` at or after
/// `i`, or -1.
pub open spec fn find_char_from(s: Seq<char>, c: char, i: int) -> int
    decreases s.len() - i,
{
    if i < 0 || i >= s.len() {
        -1
    } else if s[i] == c {
        i
    } else {
        find_char_from(s, c, i + 1)
    }
}

/// Position of the last occurrence of the character `c`, or -1.
pub open spec fn rfind_char(s: Seq<char>, c: char) -> int
    decreases s.len(),
{
    if s.len() == 0 {
        -1
    } else if s[s.len() - 1] == c {
        s.len() - 1
    } else {
        rfind_char(s.drop_last(), c)
    }
}

/// A found position lies between the start of the search and the end
/// of the sequence.
pub proof fn lemma_find_char_from_in_range(s: Seq<char>, c: char, j: int)
    requires
        0 <= j,
        find_char_from(s, c, j) >= 0,
    ensures
        j <= find_char_from(s, c, j) < s.len(),
        s[find_char_from(s, c, j)] == c,
    decreases s.len() - j,
{
    if j < s.len() && s[j] != c {
        lemma_find_char_from_in_range(s, c, j + 1);
    }
}

pub proof fn lemma_find_ci_from_in_range(s: Seq<char>, pat: Seq<char>, j: int)
    requires
        0 <= j,
        find_ci_from(s, pat, j) >= 0,
    ensures
        j <= find_ci_from(s, pat, j),
        matches_ci_at(s, pat, find_ci_from(s, pat, j)),
    decreases s.len() - j,
{
    if j + pat.len() <= s.len() && !matches_ci_at(s, pat, j) {
        lemma_find_ci_from_in_range(s, pat, j + 1);
    }
}

pub proof fn lemma_find_cs_from_in_range(s: Seq<char>, pat: Seq<char>, j: int)
    requires
        0 <= j,
        find_cs_from(s, pat, j) >= 0,
    ensures
        j <= find_cs_from(s, pat, j),
        matches_cs_at(s, pat, find_cs_from(s, pat, j)),
    decreases s.len() - j,
{
    if j + pat.len() <= s.len() && !matches_cs_at(s, pat, j) {
        lemma_find_cs_from_in_range(s, pat, j + 1);
    }
}

pub proof fn lemma_rfind_char_in_range(s: Seq<char>, c: char)
    requires
        rfind_char(s, c) >= 0,
    ensures
        rfind_char(s, c) < s.len(),
        s[rfind_char(s, c)] == c,
    decreases s.len(),
{
    if s.len() > 0 && s[s.len() - 1] != c {
        lemma_rfind_char_in_range(s.drop_last(), c);
    }
}

/// Equality of two strings as character sequences.
pub fn str_eq_x(a: &str, b: &str) -> (r: bool)
    ensures
        r == (a@ == b@),
{
    let n = a.unicode_len();
    let m = b.unicode_len();
    if n != m {
        return false;
    }
    let r = matches_cs_x(a, b, 0);
    proof {
        if r {
            assert(a@ =~= b@);
        }
    }
    r
}

/// Index of the first non-space character at or after `i` (`s.len()` if
/// all of the rest is space).
pub open spec fn skip_spaces(s: Seq<char>, i: int) -> int
    decreases s.len() - i,
{
    if i < 0 || i >= s.len() {
        s.len() as int
    } else if is_space_char(s[i]) {
        skip_spaces(s, i + 1)
    } else {
        i
    }
}

/// One past the last non-space character strictly before `i` (0 if all
/// of the prefix is space).
pub open spec fn rskip_spaces(s: Seq<char>, i: int) -> int
    decreases i,
{
    if i <= 0 || i > s.len() {
        0
    } else if is_space_char(s[i - 1]) {
        rskip_spaces(s, i - 1)
    } else {
        i
    }
}

/// `s` with leading and trailing white space removed, as `str::trim`
/// leaves it.
pub open spec fn spec_trim(s: Seq<char>) -> Seq<char> {
    let a = skip_spaces(s, 0);
    if a == s.len() {
        Seq::empty()
    } else {
        s.subrange(a, rskip_spaces(s, s.len() as int))
    }
}

pub fn matches_ci_x(s: &str, pat: &str, i: usize) -> (r: bool)
    requires
        i + pat@.len() <= s@.len() <= usize::MAX,
    ensures
        r == matches_ci_at(s@, pat@, i as int),
{
    let m = pat.unicode_len();
    let mut k: usize = 0;
    while k < m
        invariant
            i + m <= s@.len() <= usize::MAX,
            m == pat@.len(),
            k <= m,
            forall|j: int| 0 <= j < k ==> up_code(s@[i + j]) == up_code(pat@[j]),
        decreases m - k,
    {
        let a = up_code_x(s.get_char(i + k));
        let b = up_code_x(pat.get_char(k));
        if a != b {
            assert(up_code(s@[i + k]) != up_code(pat@[k as int]));
            return false;
        }
        k += 1;
    }
    true
}

pub fn matches_cs_x(s: &str, pat: &str, i: usize) -> (r: bool)
    requires
        i + pat@.len() <= s@.len() <= usize::MAX,
    ensures
        r == matches_cs_at(s@, pat@, i as int),
{
    let m = pat.unicode_len();
    let mut k: usize = 0;
    while k < m
        invariant
            i + m <= s@.len() <= usize::MAX,
            m == pat@.len(),
            k <= m,
            forall|j: int| 0 <= j < k ==> s@[i + j] == pat@[j],
        decreases m - k,
    {
        let a = s.get_char(i + k);
        let b = pat.get_char(k);
        if a != b {
            assert(s@[i + k] != pat@[k as int]);
            return false;
        }
        k += 1;
    }
    true
}

/// First case-insensitive occurrence of `pat` in `s`, if any.
pub fn find_ci(s: &str, pat: &str) -> (r: Option<usize>)
    ensures
        match r {
            Some(j) => find_ci_from(s@, pat@, 0) == j,
            None => find_ci_from(s@, pat@, 0) == -1,
        },
{
    let n = s.unicode_len();
    let m = pat.unicode_len();
    if m > n {
        return None;
    }
    let mut i: usize = 0;
    while i <= n - m
        invariant
            m <= n,
            n == s@.len(),
            m == pat@.len(),
            i <= n - m + 1,
            find_ci_from(s@, pat@, 0) == find_ci_from(s@, pat@, i as int),
        decreases n - i,
    {
        if matches_ci_x(s, pat, i) {
            return Some(i);
        }
        i += 1;
    }
    None
}

/// First exact occurrence of `pat` in `s`, if any.
pub fn find_cs(s: &str, pat: &str) -> (r: Option<usize>)
    ensures
        match r {
            Some(j) => find_cs_from(s@, pat@, 0) == j,
            None => find_cs_from(s@, pat@, 0) == -1,
        },
{
    let n = s.unicode_len();
    let m = pat.unicode_len();
    if m > n {
        return None;
    }
    let mut i: usize = 0;
    while i <= n - m
        invariant
            m <= n,
            n == s@.len(),
            m == pat@.len(),
            i <= n - m + 1,
            find_cs_from(s@, pat@, 0) == find_cs_from(s@, pat@, i as int),
        decreases n - i,
    {
        if matches_cs_x(s, pat, i) {
            return Some(i);
        }
        i += 1;
    }
    None
}

pub fn contains_ci_x(s: &str, pat: &str) -> (r: bool)
    ensures
        r == contains_ci(s@, pat@),
{
    let f = find_ci(s, pat);
    f.is_some()
}

pub fn contains_cs_x(s: &str, pat: &str) -> (r: bool)
    ensures
        r == contains_cs(s@, pat@),
{
    let f = find_cs(s, pat);
    f.is_some()
}

pub fn starts_with_ci_x(s: &str, pat: &str) -> (r: bool)
    ensures
        r == starts_with_ci(s@, pat@),
{
    let n = s.unicode_len();
    let m = pat.unicode_len();
    if m > n {
        return false;
    }
    matches_ci_x(s, pat, 0)
}

pub fn ends_with_cs_x(s: &str, pat: &str) -> (r: bool)
    ensures
        r == ends_with_cs(s@, pat@),
{
    let n = s.unicode_len();
    let m = pat.unicode_len();
    if m > n {
        return false;
    }
    matches_cs_x(s, pat, n - m)
}

/// First occurrence of the character `c` in `s`, if any.
pub fn find_char(s: &str, c: char) -> (r: Option<usize>)
    ensures
        match r {
            Some(j) => find_char_from(s@, c, 0) == j,
            None => find_char_from(s@, c, 0) == -1,
        },
{
    let n = s.unicode_len();
    let mut i: usize = 0;
    while i < n
        invariant
            n == s@.len(),
            i <= n,
            find_char_from(s@, c, 0) == find_char_from(s@, c, i as int),
        decreases n - i,
    {
        if s.get_char(i) == c {
            return Some(i);
        }
        i += 1;
    }
    None
}

/// Last occurrence of the character `c` in `s`, if any.
pub fn rfind_char_x(s: &str, c: char) -> (r: Option<usize>)
    ensures
        match r {
            Some(j) => rfind_char(s@, c) == j,
            None => rfind_char(s@, c) == -1,
        },
{
    let n = s.unicode_len();
    proof {
        assert(s@.subrange(0, n as int) =~= s@);
    }
    let mut b: usize = n;
    while b > 0
        invariant
            n == s@.len(),
            b <= n,
            rfind_char(s@, c) == rfind_char(s@.subrange(0, b as int), c),
        decreases b,
    {
        if s.get_char(b - 1) == c {
            assert(s@.subrange(0, b as int)[b - 1] == c);
            return Some(b - 1);
        }
        proof {
            assert(s@.subrange(0, b as int).drop_last() =~= s@.subrange(0, b - 1));
        }
        b -= 1;
    }
    proof {
        assert(s@.subrange(0, 0) =~= Seq::<char>::empty());
    }
    None
}

proof fn lemma_rskip_spaces_above(s: Seq<char>, a: int, i: int)
    requires
        0 <= a < i <= s.len(),
        !is_space_char(s[a]),
    ensures
        rskip_spaces(s, i) >= a + 1,
    decreases i,
{
    if is_space_char(s[i - 1]) {
        lemma_rskip_spaces_above(s, a, i - 1);
    }
}

/// `str::trim`, verified against `spec_trim`.
pub fn trim_str<'a>(s: &'a str) -> (t: &'a str)
    ensures
        t@ == spec_trim(s@),
{
    let n = s.unicode_len();
    let mut a: usize = 0;
    while a < n && is_space_char_x(s.get_char(a))
        invariant
            n == s@.len(),
            a <= n,
            skip_spaces(s@, 0) == skip_spaces(s@, a as int),
        decreases n - a,
    {
        a += 1;
    }
    assert(skip_spaces(s@, 0) == a);
    if a == n {
        let t = s.substring_char(n, n);
        proof {
            assert(t@ =~= spec_trim(s@));
        }
        return t;
    }
    let mut b: usize = n;
    while b > 0 && is_space_char_x(s.get_char(b - 1))
        invariant
            n == s@.len(),
            b <= n,
            rskip_spaces(s@, n as int) == rskip_spaces(s@, b as int),
        decreases b,
    {
        b -= 1;
    }
    assert(rskip_spaces(s@, n as int) == b);
    proof {
        lemma_rskip_spaces_above(s@, a as int, n as int);
    }
    s.substring_char(a, b)
}

/// Strict lexicographic order on character sequences by code point, the
/// order in which `str::cmp` puts them.
pub open spec fn str_lt(a: Seq<char>, b: Seq<char>) -> bool
    decreases a.len(),
{
    if b.len() == 0 {
        false
    } else if a.len() == 0 {
        true
    } else if (a[0] as u32) < (b[0] as u32) {
        true
    } else if (a[0] as u32) > (b[0] as u32) {
        false
    } else {
        str_lt(a.skip(1), b.skip(1))
    }
}

/// `str_lt`, decided character by character.
pub fn str_lt_x(a: &str, b: &str) -> (r: bool)
    ensures
        r == str_lt(a@, b@),
{
    let n = a.unicode_len();
    let m = b.unicode_len();
    proof {
        assert(a@.skip(0) =~= a@);
        assert(b@.skip(0) =~= b@);
    }
    let mut i: usize = 0;
    loop
        invariant
            n == a@.len(),
            m == b@.len(),
            i <= n,
            i <= m,
            str_lt(a@, b@) == str_lt(a@.skip(i as int), b@.skip(i as int)),
        decreases n - i,
    {
        if i == m {
            return false;
        }
        if i == n {
            return true;
        }
        let ca = a.get_char(i) as u32;
        let cb = b.get_char(i) as u32;
        assert(a@.skip(i as int)[0] == a@[i as int]);
        assert(b@.skip(i as int)[0] == b@[i as int]);
        if ca < cb {
            return true;
        }
        if ca > cb {
            return false;
        }
        proof {
            assert(a@.skip(i as int).skip(1) =~= a@.skip(i + 1));
            assert(b@.skip(i as int).skip(1) =~= b@.skip(i + 1));
        }
        i += 1;
    }
}

/// The order is asymmetric.
pub proof fn lemma_str_lt_asym(a: Seq<char>, b: Seq<char>)
    requires
        str_lt(a, b),
    ensures
        !str_lt(b, a),
    decreases a.len(),
{
    if a.len() > 0 && b.len() > 0 && (a[0] as u32) == (b[0] as u32) {
        lemma_str_lt_asym(a.skip(1), b.skip(1));
    }
}

/// Sequences that neither order relates are equal.
pub proof fn lemma_str_lt_connex(a: Seq<char>, b: Seq<char>)
    requires
        !str_lt(a, b),
        !str_lt(b, a),
    ensures
        a =~= b,
    decreases a.len(),
{
    if a.len() > 0 && b.len() > 0 {
        assert((a[0] as u32) == (b[0] as u32));
        vstd::utf8::char_u32_cast(a[0], a[0] as u32);
        vstd::utf8::char_u32_cast(b[0], b[0] as u32);
        assert(a[0] == b[0]);
        lemma_str_lt_connex(a.skip(1), b.skip(1));
        assert(a =~= seq![a[0]] + a.skip(1));
        assert(b =~= seq![b[0]] + b.skip(1));
    }
}

/// `a <= b` and `b <= c` give `a <= c`, writing `x <= y` for
/// `!str_lt(y, x)`.
pub proof fn lemma_str_le_trans(a: Seq<char>, b: Seq<char>, c: Seq<char>)
    requires
        !str_lt(b, a),
        !str_lt(c, b),
    ensures
        !str_lt(c, a),
{
    if str_lt(c, a) {
        if str_lt(a, b) {
            lemma_str_lt_trans(c, a, b);
        } else {
            lemma_str_lt_connex(a, b);
        }
    }
}

/// No occurrence at all when the search comes back empty.
pub proof fn lemma_rfind_char_none(s: Seq<char>, c: char)
    requires
        rfind_char(s, c) < 0,
    ensures
        forall|i: int| 0 <= i < s.len() ==> s[i] != c,
    decreases s.len(),
{
    if s.len() > 0 {
        lemma_rfind_char_none(s.drop_last(), c);
        assert forall|i: int| 0 <= i < s.len() implies s[i] != c by {
            if i < s.len() - 1 {
                assert(s.drop_last()[i] == s[i]);
            }
        }
    }
}

/// Nothing after the last occurrence is another occurrence.
pub proof fn lemma_rfind_char_last(s: Seq<char>, c: char)
    requires
        rfind_char(s, c) >= 0,
    ensures
        forall|i: int| rfind_char(s, c) < i < s.len() ==> s[i] != c,
    decreases s.len(),
{
    if s.len() > 0 && s[s.len() - 1] != c {
        lemma_rfind_char_last(s.drop_last(), c);
        lemma_rfind_char_in_range(s.drop_last(), c);
        assert forall|i: int| rfind_char(s, c) < i < s.len() implies s[i] != c by {
            if i < s.len() - 1 {
                assert(s.drop_last()[i] == s[i]);
            }
        }
    }
}

/// The order is transitive.
pub proof fn lemma_str_lt_trans(a: Seq<char>, b: Seq<char>, c: Seq<char>)
    requires
        str_lt(a, b),
        str_lt(b, c),
    ensures
        str_lt(a, c),
    decreases a.len(),
{
    if a.len() > 0 && b.len() > 0 && c.len() > 0 {
        if (a[0] as u32) == (b[0] as u32) && (b[0] as u32) == (c[0] as u32) {
            lemma_str_lt_trans(a.skip(1), b.skip(1), c.skip(1));
        }
    }
}

} // verus!
