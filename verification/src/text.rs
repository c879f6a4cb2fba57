//! Character-level helpers on strings: equality, searching, splitting at the
//! first dot, substring search and decimal rendering of counters.
use vstd::prelude::*;

verus! {

/// Index of the first occurrence of `c` in `s` at or after position `k`,
/// or -1 when there is none.
pub open spec fn char_index_from(s: Seq<char>, c: char, k: int) -> int
    decreases s.len() - k,
{
    if k < 0 || k >= s.len() {
        -1
    } else if s[k] == c {
        k
    } else {
        char_index_from(s, c, k + 1)
    }
}

/// Index of the first `.` in `s`, or -1.
pub open spec fn first_dot(s: Seq<char>) -> int {
    char_index_from(s, '.', 0)
}

/// The part of `s` before its first `.`; all of `s` when it has none.
pub open spec fn head_segment(s: Seq<char>) -> Seq<char> {
    if first_dot(s) < 0 {
        s
    } else {
        s.take(first_dot(s))
    }
}

/// `s` split around its first `.`, when it has one.
pub open spec fn split_at_dot(s: Seq<char>) -> Option<(Seq<char>, Seq<char>)> {
    let d = first_dot(s);
    if d < 0 {
        None
    } else {
        Some((s.take(d), s.skip(d + 1)))
    }
}

/// `p` occurs in `s` starting at position `i`.
pub open spec fn occurs_at(s: Seq<char>, p: Seq<char>, i: int) -> bool {
    &&& 0 <= i
    &&& i + p.len() <= s.len()
    &&& s.subrange(i, i + p.len()) == p
}

/// `p` is a substring of `s`.
pub open spec fn has_substring(s: Seq<char>, p: Seq<char>) -> bool {
    exists|i: int| occurs_at(s, p, i)
}

/// The decimal digit character of `d` (for `d < 10`).
pub open spec fn digit_char(d: nat) -> char {
    if d == 0 {
        '0'
    } else if d == 1 {
        '1'
    } else if d == 2 {
        '2'
    } else if d == 3 {
        '3'
    } else if d == 4 {
        '4'
    } else if d == 5 {
        '5'
    } else if d == 6 {
        '6'
    } else if d == 7 {
        '7'
    } else if d == 8 {
        '8'
    } else {
        '9'
    }
}

/// The decimal rendering of `n`, without leading zeros.
pub open spec fn decimal(n: nat) -> Seq<char>
    decreases n,
{
    if n < 10 {
        seq![digit_char(n)]
    } else {
        decimal(n / 10).push(digit_char(n % 10))
    }
}

/// The head segment of a reference holds no `.`.
pub proof fn lemma_head_no_dot(s: Seq<char>)
    ensures
        first_dot(head_segment(s)) < 0,
{
    lemma_char_index_from_range(s, '.', 0);
    let h = head_segment(s);
    lemma_char_index_from_range(h, '.', 0);
    if first_dot(h) >= 0 {
        assert(h[first_dot(h)] == s[first_dot(h)]);
    }
}

/// The head segment of `x.y` is `x` when `x` holds no `.`.
pub proof fn lemma_head_of_dotted(x: Seq<char>, y: Seq<char>)
    requires
        first_dot(x) < 0,
    ensures
        head_segment(x + "."@ + y) == x,
{
    reveal_strlit(".");
    let s = x + "."@ + y;
    lemma_char_index_from_range(x, '.', 0);
    lemma_char_index_from_range(s, '.', 0);
    assert(s[x.len() as int] == '.');
    let d = first_dot(s);
    if d < x.len() {
        assert(s[d] == x[d]);
    }
    assert(s.take(x.len() as int) =~= x);
}

pub proof fn lemma_char_index_from_range(s: Seq<char>, c: char, k: int)
    requires
        0 <= k,
    ensures
        char_index_from(s, c, k) == -1 || (k <= char_index_from(s, c, k) < s.len() && s[char_index_from(s, c, k)] == c),
        char_index_from(s, c, k) != -1 ==> forall|j: int| k <= j < char_index_from(s, c, k) ==> s[j] != c,
        char_index_from(s, c, k) == -1 ==> forall|j: int| k <= j < s.len() ==> s[j] != c,
    decreases s.len() - k,
{
    if k < s.len() && s[k] != c {
        lemma_char_index_from_range(s, c, k + 1);
    }
}

/// Character-wise equality of two string slices.
pub fn str_eq(a: &str, b: &str) -> (r: bool)
    ensures
        r == (a@ == b@),
{
    let n = a.unicode_len();
    let m = b.unicode_len();
    if n != m {
        return false;
    }
    let mut i: usize = 0;
    while i < n
        invariant
            n == a@.len(),
            m == b@.len(),
            n == m,
            i <= n,
            forall|j: int| 0 <= j < i ==> a@[j] == b@[j],
        decreases n - i,
    {
        if a.get_char(i) != b.get_char(i) {
            return false;
        }
        i = i + 1;
    }
    assert(a@ =~= b@);
    true
}

/// Equality of an optional string with a string slice.
pub fn opt_str_eq(a: &Option<String>, b: &str) -> (r: bool)
    ensures
        r == (a matches Some(s) && s@ == b@),
{
    match a {
        Some(s) => str_eq(s.as_str(), b),
        None => false,
    }
}

/// Position of the first occurrence of `c` in `s`.
pub fn find_char(s: &str, c: char) -> (r: Option<usize>)
    ensures
        match r {
            Some(i) => i as int == char_index_from(s@, c, 0) && i < s@.len(),
            None => char_index_from(s@, c, 0) == -1,
        },
{
    let n = s.unicode_len();
    let mut i: usize = 0;
    while i < n
        invariant
            n == s@.len(),
            i <= n,
            char_index_from(s@, c, 0) == char_index_from(s@, c, i as int),
        decreases n - i,
    {
        if s.get_char(i) == c {
            return Some(i);
        }
        i = i + 1;
    }
    None
}

/// The part of `s` before its first `.` (all of `s` when there is none).
pub fn head_segment_of(s: &str) -> (r: &str)
    ensures
        r@ == head_segment(s@),
{
    proof {
        lemma_char_index_from_range(s@, '.', 0);
    }
    match find_char(s, '.') {
        Some(d) => s.substring_char(0, d),
        None => s,
    }
}

/// `s` split around its first `.`.
pub fn split_once_dot(s: &str) -> (r: Option<(&str, &str)>)
    ensures
        match r {
            Some((x, y)) => split_at_dot(s@) == Some((x@, y@)),
            None => split_at_dot(s@) is None,
        },
{
    proof {
        lemma_char_index_from_range(s@, '.', 0);
    }
    match find_char(s, '.') {
        Some(d) => {
            let n = s.unicode_len();
            let x = s.substring_char(0, d);
            let y = s.substring_char(d + 1, n);
            assert(y@ =~= s@.skip(d + 1));
            Some((x, y))
        },
        None => None,
    }
}

/// Whether `p` occurs in `s` at position `i` (checked character by character).
fn occurs_at_exec(s: &str, p: &str, i: usize, n: usize, m: usize) -> (r: bool)
    requires
        n == s@.len(),
        m == p@.len(),
        i + m <= n,
    ensures
        r == occurs_at(s@, p@, i as int),
{
    let mut j: usize = 0;
    while j < m
        invariant
            n == s@.len(),
            m == p@.len(),
            i + m <= n,
            j <= m,
            forall|k: int| 0 <= k < j ==> s@[i + k] == p@[k],
        decreases m - j,
    {
        if s.get_char(i + j) != p.get_char(j) {
            assert(s@.subrange(i as int, i + m)[j as int] != p@[j as int]);
            return false;
        }
        j = j + 1;
    }
    assert(s@.subrange(i as int, i + m) =~= p@);
    true
}

/// Whether `p` is a substring of `s`.
pub fn contains_str(s: &str, p: &str) -> (r: bool)
    ensures
        r == has_substring(s@, p@),
{
    let n = s.unicode_len();
    let m = p.unicode_len();
    if m > n {
        return false;
    }
    if m == 0 {
        assert(s@.subrange(0, 0) =~= p@);
        assert(occurs_at(s@, p@, 0));
        return true;
    }
    let mut i: usize = 0;
    while i <= n - m
        invariant
            n == s@.len(),
            m == p@.len(),
            0 < m <= n,
            i <= n - m + 1,
            forall|k: int| 0 <= k < i ==> !occurs_at(s@, p@, k),
        decreases n - m + 1 - i,
    {
        if occurs_at_exec(s, p, i, n, m) {
            return true;
        }
        i = i + 1;
    }
    false
}

/// The single-digit string of `d`.
fn digit_str(d: usize) -> (r: &'static str)
    requires
        d < 10,
    ensures
        r@ == seq![digit_char(d as nat)],
{
    if d == 0 {
        proof { reveal_strlit("0"); }
        "0"
    } else if d == 1 {
        proof { reveal_strlit("1"); }
        "1"
    } else if d == 2 {
        proof { reveal_strlit("2"); }
        "2"
    } else if d == 3 {
        proof { reveal_strlit("3"); }
        "3"
    } else if d == 4 {
        proof { reveal_strlit("4"); }
        "4"
    } else if d == 5 {
        proof { reveal_strlit("5"); }
        "5"
    } else if d == 6 {
        proof { reveal_strlit("6"); }
        "6"
    } else if d == 7 {
        proof { reveal_strlit("7"); }
        "7"
    } else if d == 8 {
        proof { reveal_strlit("8"); }
        "8"
    } else {
        proof { reveal_strlit("9"); }
        "9"
    }
}

/// The decimal rendering of `n`.
pub fn usize_decimal(n: usize) -> (r: String)
    ensures
        r@ == decimal(n as nat),
    decreases n,
{
    if n < 10 {
        String::from_str(digit_str(n))
    } else {
        let mut s = usize_decimal(n / 10);
        s.append(digit_str(n % 10));
        s
    }
}

} // verus!
