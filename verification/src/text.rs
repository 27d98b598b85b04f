//! Character-level text utilities: whitespace trimming, identifier
//! classification, line splitting and conversions between `&str`, `Vec<char>`
//! and `String`.
//!
//! All specifications are stated over `Seq<char>`, the view of both `str` and
//! `String`.

use vstd::prelude::*;
use vstd::string::*;

verus! {

// ---------------------------------------------------------------------------
// Character classes
// ---------------------------------------------------------------------------
/// The Unicode `White_Space` characters, the set recognized by trimming.
pub open spec fn is_space(c: char) -> bool {
    let u = c as u32;
    u == 0x20 || (0x09 <= u && u <= 0x0D) || u == 0x85 || u == 0xA0 || u == 0x1680 || (0x2000
        <= u && u <= 0x200A) || u == 0x2028 || u == 0x2029 || u == 0x202F || u == 0x205F || u
        == 0x3000
}

/// A character that may open an identifier: a letter or an underscore.
pub open spec fn is_ident_start(c: char) -> bool {
    let u = c as u32;
    (0x41 <= u && u <= 0x5A) || (0x61 <= u && u <= 0x7A) || u == 0x5F
}

/// A character that may continue an identifier: a letter, digit or underscore.
pub open spec fn is_ident_char(c: char) -> bool {
    is_ident_start(c) || { let u = c as u32; 0x30 <= u && u <= 0x39 }
}

/// A well-formed knot or stitch identifier.
pub open spec fn is_identifier(s: Seq<char>) -> bool {
    s.len() > 0 && is_ident_start(s[0]) && forall|i: int| 0 <= i < s.len() ==> is_ident_char(s[i])
}

pub fn char_is_space(c: char) -> (b: bool)
    ensures
        b == is_space(c),
{
    let u = c as u32;
    u == 0x20 || (0x09 <= u && u <= 0x0D) || u == 0x85 || u == 0xA0 || u == 0x1680 || (0x2000
        <= u && u <= 0x200A) || u == 0x2028 || u == 0x2029 || u == 0x202F || u == 0x205F || u
        == 0x3000
}

pub fn char_is_ident_start(c: char) -> (b: bool)
    ensures
        b == is_ident_start(c),
{
    let u = c as u32;
    (0x41 <= u && u <= 0x5A) || (0x61 <= u && u <= 0x7A) || u == 0x5F
}

pub fn char_is_ident_char(c: char) -> (b: bool)
    ensures
        b == is_ident_char(c),
{
    let u = c as u32;
    char_is_ident_start(c) || (0x30 <= u && u <= 0x39)
}

// ---------------------------------------------------------------------------
// Trimming, specified over Seq<char>
// ---------------------------------------------------------------------------
/// Index of the first character that is not whitespace; `s.len()` when all are.
pub open spec fn trim_start_idx(s: Seq<char>) -> nat
    decreases s.len(),
{
    if s.len() == 0 {
        0
    } else if !is_space(s[0]) {
        0
    } else {
        1 + trim_start_idx(s.drop_first())
    }
}

/// Length that remains after dropping trailing whitespace.
pub open spec fn trim_end_idx(s: Seq<char>) -> nat
    decreases s.len(),
{
    if s.len() == 0 {
        0
    } else if !is_space(s[s.len() - 1]) {
        s.len()
    } else {
        trim_end_idx(s.drop_last())
    }
}

/// Length of the run of `'='` characters opening `s`.
pub open spec fn eq_run_idx(s: Seq<char>) -> nat
    decreases s.len(),
{
    if s.len() == 0 {
        0
    } else if s[0] != '=' {
        0
    } else {
        1 + eq_run_idx(s.drop_first())
    }
}

/// Length that remains after dropping trailing `'='` characters.
pub open spec fn eq_back_idx(s: Seq<char>) -> nat
    decreases s.len(),
{
    if s.len() == 0 {
        0
    } else if s[s.len() - 1] != '=' {
        s.len()
    } else {
        eq_back_idx(s.drop_last())
    }
}

/// Index of the first occurrence of `c` in `s`; `s.len()` when absent.
pub open spec fn find_char_idx(s: Seq<char>, c: char) -> nat
    decreases s.len(),
{
    if s.len() == 0 {
        0
    } else if s[0] == c {
        0
    } else {
        1 + find_char_idx(s.drop_first(), c)
    }
}

/// Index of the first character that may not continue an identifier;
/// `s.len()` when all may.
pub open spec fn first_non_ident_idx(s: Seq<char>) -> nat
    decreases s.len(),
{
    if s.len() == 0 {
        0
    } else if !is_ident_char(s[0]) {
        0
    } else {
        1 + first_non_ident_idx(s.drop_first())
    }
}

pub open spec fn trim_start_spec(s: Seq<char>) -> Seq<char> {
    s.subrange(trim_start_idx(s) as int, s.len() as int)
}

pub open spec fn trim_end_spec(s: Seq<char>) -> Seq<char> {
    s.subrange(0, trim_end_idx(s) as int)
}

/// Whitespace removed from both ends, as `str::trim` does.
pub open spec fn trim_spec(s: Seq<char>) -> Seq<char> {
    trim_end_spec(trim_start_spec(s))
}

/// `s` begins with the sequence `p`.
pub open spec fn starts_with(s: Seq<char>, p: Seq<char>) -> bool {
    p.len() <= s.len() && forall|k: int| 0 <= k < p.len() ==> s[k] == p[k]
}

/// A line that consists of whitespace only.
pub open spec fn is_blank(s: Seq<char>) -> bool {
    forall|i: int| 0 <= i < s.len() ==> is_space(s[i])
}

// ---------------------------------------------------------------------------
// Characterization lemmas: the recursive indices are the unique positions
// with the expected first/last properties.
// ---------------------------------------------------------------------------
pub proof fn lemma_trim_start_idx(s: Seq<char>, n: int)
    requires
        0 <= n <= s.len(),
        forall|j: int| 0 <= j < n ==> is_space(s[j]),
        n < s.len() ==> !is_space(s[n]),
    ensures
        trim_start_idx(s) == n,
    decreases s.len(),
{
    if s.len() == 0 {
    } else if !is_space(s[0]) {
        assert(n == 0);
    } else {
        assert(n >= 1);
        let t = s.drop_first();
        assert forall|j: int| 0 <= j < n - 1 implies is_space(t[j]) by {
            assert(t[j] == s[j + 1]);
        }
        if n - 1 < t.len() {
            assert(t[n - 1] == s[n]);
        }
        lemma_trim_start_idx(t, n - 1);
    }
}

pub proof fn lemma_trim_end_idx(s: Seq<char>, n: int)
    requires
        0 <= n <= s.len(),
        forall|j: int| n <= j < s.len() ==> is_space(s[j]),
        n > 0 ==> !is_space(s[n - 1]),
    ensures
        trim_end_idx(s) == n,
    decreases s.len(),
{
    if s.len() == 0 {
    } else if !is_space(s[s.len() - 1]) {
        assert(n == s.len());
    } else {
        assert(n < s.len());
        let t = s.drop_last();
        assert forall|j: int| n <= j < t.len() implies is_space(t[j]) by {
            assert(t[j] == s[j]);
        }
        lemma_trim_end_idx(t, n);
    }
}

pub proof fn lemma_eq_run_idx(s: Seq<char>, n: int)
    requires
        0 <= n <= s.len(),
        forall|j: int| 0 <= j < n ==> s[j] == '=',
        n < s.len() ==> s[n] != '=',
    ensures
        eq_run_idx(s) == n,
    decreases s.len(),
{
    if s.len() == 0 {
    } else if s[0] != '=' {
        assert(n == 0);
    } else {
        assert(n >= 1);
        let t = s.drop_first();
        assert forall|j: int| 0 <= j < n - 1 implies t[j] == '=' by {
            assert(t[j] == s[j + 1]);
        }
        if n - 1 < t.len() {
            assert(t[n - 1] == s[n]);
        }
        lemma_eq_run_idx(t, n - 1);
    }
}

pub proof fn lemma_eq_back_idx(s: Seq<char>, n: int)
    requires
        0 <= n <= s.len(),
        forall|j: int| n <= j < s.len() ==> s[j] == '=',
        n > 0 ==> s[n - 1] != '=',
    ensures
        eq_back_idx(s) == n,
    decreases s.len(),
{
    if s.len() == 0 {
    } else if s[s.len() - 1] != '=' {
        assert(n == s.len());
    } else {
        assert(n < s.len());
        let t = s.drop_last();
        assert forall|j: int| n <= j < t.len() implies t[j] == '=' by {
            assert(t[j] == s[j]);
        }
        lemma_eq_back_idx(t, n);
    }
}

pub proof fn lemma_first_non_ident_idx(s: Seq<char>, n: int)
    requires
        0 <= n <= s.len(),
        forall|j: int| 0 <= j < n ==> is_ident_char(s[j]),
        n < s.len() ==> !is_ident_char(s[n]),
    ensures
        first_non_ident_idx(s) == n,
    decreases s.len(),
{
    if s.len() == 0 {
    } else if !is_ident_char(s[0]) {
        assert(n == 0);
    } else {
        assert(n >= 1);
        let t = s.drop_first();
        assert forall|j: int| 0 <= j < n - 1 implies is_ident_char(t[j]) by {
            assert(t[j] == s[j + 1]);
        }
        if n - 1 < t.len() {
            assert(t[n - 1] == s[n]);
        }
        lemma_first_non_ident_idx(t, n - 1);
    }
}

pub proof fn lemma_find_char_idx(s: Seq<char>, c: char, n: int)
    requires
        0 <= n <= s.len(),
        forall|j: int| 0 <= j < n ==> s[j] != c,
        n < s.len() ==> s[n] == c,
    ensures
        find_char_idx(s, c) == n,
    decreases s.len(),
{
    if s.len() == 0 {
    } else if s[0] == c {
        assert(n == 0);
    } else {
        assert(n >= 1);
        let t = s.drop_first();
        assert forall|j: int| 0 <= j < n - 1 implies t[j] != c by {
            assert(t[j] == s[j + 1]);
        }
        if n - 1 < t.len() {
            assert(t[n - 1] == s[n]);
        }
        lemma_find_char_idx(t, c, n - 1);
    }
}

/// Trimming a blank sequence leaves nothing; trimming a non-blank sequence
/// leaves a non-empty sequence that neither starts nor ends with whitespace.
pub proof fn lemma_trim_props(s: Seq<char>)
    ensures
        is_blank(s) <==> trim_spec(s).len() == 0,
        trim_spec(s).len() > 0 ==> !is_space(trim_spec(s)[0]),
        trim_spec(s).len() > 0 ==> !is_space(trim_spec(s)[trim_spec(s).len() - 1]),
{
    lemma_trim_start_idx_props(s);
    let a = trim_start_idx(s);
    let t = s.subrange(a as int, s.len() as int);
    lemma_trim_end_idx_props(t);
    let b = trim_end_idx(t);
    if is_blank(s) {
        assert forall|j: int| 0 <= j < t.len() implies is_space(t[j]) by {
            assert(t[j] == s[a + j]);
        }
        lemma_trim_end_idx(t, 0);
    }
    if trim_spec(s).len() == 0 {
        // b == 0, so every character of t is whitespace, as is every one
        // before a; hence s is blank.
        assert forall|i: int| 0 <= i < s.len() implies is_space(s[i]) by {
            if i >= a {
                assert(t[i - a] == s[i]);
                assert(is_space(t[i - a]));
            }
        }
    }
    if trim_spec(s).len() > 0 {
        assert(trim_spec(s)[0] == t[0]);
        assert(trim_spec(s)[trim_spec(s).len() - 1] == t[b - 1]);
    }
}

/// Bounds and defining properties of `trim_start_idx`.
pub proof fn lemma_trim_start_idx_props(s: Seq<char>)
    ensures
        trim_start_idx(s) <= s.len(),
        forall|j: int| 0 <= j < trim_start_idx(s) ==> is_space(s[j]),
        trim_start_idx(s) < s.len() ==> !is_space(s[trim_start_idx(s) as int]),
    decreases s.len(),
{
    if s.len() == 0 {
    } else if !is_space(s[0]) {
    } else {
        let t = s.drop_first();
        lemma_trim_start_idx_props(t);
        assert forall|j: int| 0 <= j < trim_start_idx(s) implies is_space(s[j]) by {
            if j >= 1 {
                assert(t[j - 1] == s[j]);
            }
        }
        if trim_start_idx(s) < s.len() {
            assert(t[trim_start_idx(t) as int] == s[1 + trim_start_idx(t) as int]);
        }
    }
}

/// Bounds and defining properties of `trim_end_idx`.
pub proof fn lemma_trim_end_idx_props(s: Seq<char>)
    ensures
        trim_end_idx(s) <= s.len(),
        forall|j: int| trim_end_idx(s) <= j < s.len() ==> is_space(s[j]),
        trim_end_idx(s) > 0 ==> !is_space(s[trim_end_idx(s) as int - 1]),
    decreases s.len(),
{
    if s.len() == 0 {
    } else if !is_space(s[s.len() - 1]) {
    } else {
        let t = s.drop_last();
        lemma_trim_end_idx_props(t);
        assert forall|j: int| trim_end_idx(s) <= j < s.len() implies is_space(s[j]) by {
            if j < s.len() - 1 {
                assert(t[j] == s[j]);
            }
        }
    }
}

// ---------------------------------------------------------------------------
// Splitting source text into lines
// ---------------------------------------------------------------------------
/// Remove one carriage return at the end of a line, as `str::lines` does.
pub open spec fn strip_cr(s: Seq<char>) -> Seq<char> {
    if s.len() > 0 && s[s.len() - 1] == '\r' {
        s.drop_last()
    } else {
        s
    }
}

/// The lines of `s`: maximal runs separated by `'\n'`, each with one trailing
/// `'\r'` removed, and no empty line after a final `'\n'`.
pub open spec fn split_lines_spec(s: Seq<char>) -> Seq<Seq<char>>
    decreases s.len(),
{
    if s.len() == 0 {
        Seq::empty()
    } else {
        let i = find_char_idx(s, '\n');
        if i >= s.len() {
            seq![strip_cr(s)]
        } else {
            seq![strip_cr(s.subrange(0, i as int))] + split_lines_spec(
                s.subrange(i as int + 1, s.len() as int),
            )
        }
    }
}

// ---------------------------------------------------------------------------
// Executable conversions
// ---------------------------------------------------------------------------
/// Relies on `String::push`: appends exactly the given character.
#[verifier::external_body]
pub(crate) fn string_push_char(s: &mut String, c: char)
    ensures
        final(s)@ == old(s)@.push(c),
{
    s.push(c);
}

/// The characters of `s`, in order.
pub fn str_chars(s: &str) -> (v: Vec<char>)
    ensures
        v@ == s@,
{
    let n: usize = s.unicode_len();
    let mut v: Vec<char> = Vec::new();
    let mut i: usize = 0;
    while i < n
        invariant
            n == s@.len(),
            i <= n,
            v@ == s@.subrange(0, i as int),
        decreases n - i,
    {
        let c = s.get_char(i);
        v.push(c);
        i = i + 1;
        proof {
            assert(v@ =~= s@.subrange(0, i as int));
        }
    }
    proof {
        assert(v@ =~= s@);
    }
    v
}

/// A `String` holding the characters `v[lo..hi]`.
pub fn chars_to_string(v: &Vec<char>, lo: usize, hi: usize) -> (r: String)
    requires
        lo <= hi <= v@.len(),
    ensures
        r@ == v@.subrange(lo as int, hi as int),
{
    let mut r = String::new();
    proof {
        assert(r@ =~= v@.subrange(lo as int, lo as int));
    }
    let mut i: usize = lo;
    while i < hi
        invariant
            lo <= i <= hi <= v@.len(),
            r@ == v@.subrange(lo as int, i as int),
        decreases hi - i,
    {
        string_push_char(&mut r, v[i]);
        i = i + 1;
        proof {
            assert(r@ =~= v@.subrange(lo as int, i as int));
        }
    }
    r
}

/// Whitespace removed from both ends of `s`, as a fresh `String`.
pub fn trim_str(s: &str) -> (r: String)
    ensures
        r@ == trim_spec(s@),
{
    let v = str_chars(s);
    let n = v.len();
    let a = skip_spaces_in(&v, 0, n);
    proof {
        lemma_trim_start_idx(v@, a as int);
    }
    let ghost t1 = trim_start_spec(s@);
    proof {
        assert(t1 =~= v@.subrange(a as int, n as int));
    }
    let b = back_spaces_in(&v, a, n);
    proof {
        assert forall|j: int| b - a <= j < t1.len() implies is_space(t1[j]) by {
            assert(t1[j] == v@[a + j]);
        }
        if b > a {
            assert(t1[b - a - 1] == v@[b as int - 1]);
        }
        lemma_trim_end_idx(t1, b - a);
        assert(trim_spec(s@) =~= v@.subrange(a as int, b as int));
    }
    chars_to_string(&v, a, b)
}

/// Whether `s` ends with the character `c`.
pub fn str_ends_with_char(s: &str, c: char) -> (r: bool)
    ensures
        r == (s@.len() > 0 && s@[s@.len() - 1] == c),
{
    let n: usize = s.unicode_len();
    n > 0 && s.get_char(n - 1) == c
}

/// Whether `s` starts with the character `c`.
pub fn str_starts_with_char(s: &str, c: char) -> (r: bool)
    ensures
        r == (s@.len() > 0 && s@[0] == c),
{
    let n: usize = s.unicode_len();
    n > 0 && s.get_char(0) == c
}

/// Whether two string slices hold the same characters.
pub fn str_eq(a: &str, b: &str) -> (r: bool)
    ensures
        r == (a@ == b@),
{
    let na: usize = a.unicode_len();
    let nb: usize = b.unicode_len();
    if na != nb {
        proof {
            assert(a@ != b@);
        }
        return false;
    }
    let mut i: usize = 0;
    while i < na
        invariant
            na == a@.len(),
            na == b@.len(),
            i <= na,
            forall|j: int| 0 <= j < i ==> a@[j] == b@[j],
        decreases na - i,
    {
        if a.get_char(i) != b.get_char(i) {
            proof {
                assert(a@[i as int] != b@[i as int]);
            }
            return false;
        }
        i = i + 1;
    }
    proof {
        assert(a@ =~= b@);
    }
    true
}

/// Whether the string is entirely whitespace.
pub fn str_is_blank(s: &str) -> (r: bool)
    ensures
        r == is_blank(s@),
{
    let n: usize = s.unicode_len();
    let mut i: usize = 0;
    while i < n
        invariant
            n == s@.len(),
            i <= n,
            forall|j: int| 0 <= j < i ==> is_space(s@[j]),
        decreases n - i,
    {
        if !char_is_space(s.get_char(i)) {
            return false;
        }
        i = i + 1;
    }
    true
}

// ---------------------------------------------------------------------------
// Window scans over a character vector
// ---------------------------------------------------------------------------
/// First index in `[lo, hi)` holding a non-whitespace character, else `hi`.
pub fn skip_spaces_in(v: &Vec<char>, lo: usize, hi: usize) -> (r: usize)
    requires
        lo <= hi <= v@.len(),
    ensures
        lo <= r <= hi,
        forall|j: int| lo <= j < r ==> is_space(v@[j]),
        r < hi ==> !is_space(v@[r as int]),
{
    let mut i: usize = lo;
    while i < hi
        invariant
            lo <= i <= hi <= v@.len(),
            forall|j: int| lo <= j < i ==> is_space(v@[j]),
        decreases hi - i,
    {
        if !char_is_space(v[i]) {
            return i;
        }
        i = i + 1;
    }
    i
}

/// Least index `r` in `[lo, hi]` with only whitespace in `[r, hi)`.
pub fn back_spaces_in(v: &Vec<char>, lo: usize, hi: usize) -> (r: usize)
    requires
        lo <= hi <= v@.len(),
    ensures
        lo <= r <= hi,
        forall|j: int| r <= j < hi ==> is_space(v@[j]),
        r > lo ==> !is_space(v@[r as int - 1]),
{
    let mut i: usize = hi;
    while i > lo
        invariant
            lo <= i <= hi <= v@.len(),
            forall|j: int| i <= j < hi ==> is_space(v@[j]),
        decreases i,
    {
        if !char_is_space(v[i - 1]) {
            return i;
        }
        i = i - 1;
    }
    i
}

/// First index in `[lo, hi)` holding a character other than `'='`, else `hi`.
pub fn skip_eq_in(v: &Vec<char>, lo: usize, hi: usize) -> (r: usize)
    requires
        lo <= hi <= v@.len(),
    ensures
        lo <= r <= hi,
        forall|j: int| lo <= j < r ==> v@[j] == '=',
        r < hi ==> v@[r as int] != '=',
{
    let mut i: usize = lo;
    while i < hi
        invariant
            lo <= i <= hi <= v@.len(),
            forall|j: int| lo <= j < i ==> v@[j] == '=',
        decreases hi - i,
    {
        if v[i] != '=' {
            return i;
        }
        i = i + 1;
    }
    i
}

/// Least index `r` in `[lo, hi]` with only `'='` characters in `[r, hi)`.
pub fn back_eq_in(v: &Vec<char>, lo: usize, hi: usize) -> (r: usize)
    requires
        lo <= hi <= v@.len(),
    ensures
        lo <= r <= hi,
        forall|j: int| r <= j < hi ==> v@[j] == '=',
        r > lo ==> v@[r as int - 1] != '=',
{
    let mut i: usize = hi;
    while i > lo
        invariant
            lo <= i <= hi <= v@.len(),
            forall|j: int| i <= j < hi ==> v@[j] == '=',
        decreases i,
    {
        if v[i - 1] != '=' {
            return i;
        }
        i = i - 1;
    }
    i
}

// ---------------------------------------------------------------------------
// Splitting a source string into its lines
// ---------------------------------------------------------------------------
/// The lines of `content`, as `str::lines` yields them.
pub fn split_content_lines(content: &str) -> (r: Vec<&str>)
    ensures
        r.deep_view() == split_lines_spec(content@),
{
    let n: usize = content.unicode_len();
    let mut r: Vec<&str> = Vec::new();
    let mut p: usize = 0;
    proof {
        assert(r.deep_view() + split_lines_spec(content@.subrange(0, n as int)) =~= split_lines_spec(
            content@.subrange(0, n as int),
        ));
        assert(content@.subrange(0, n as int) =~= content@);
    }
    while p < n
        invariant
            n == content@.len(),
            p <= n,
            split_lines_spec(content@) == r.deep_view() + split_lines_spec(
                content@.subrange(p as int, n as int),
            ),
        decreases n - p,
    {
        let ghost suffix = content@.subrange(p as int, n as int);
        // find the next newline at or after p
        let mut q: usize = p;
        while q < n && content.get_char(q) != '\n'
            invariant
                n == content@.len(),
                p <= q <= n,
                forall|j: int| p <= j < q ==> content@[j] != '\n',
            decreases n - q,
        {
            q = q + 1;
        }
        proof {
            assert forall|j: int| 0 <= j < q - p implies suffix[j] != '\n' by {
                assert(suffix[j] == content@[p + j]);
            }
            if q < n {
                assert(suffix[q - p] == content@[q as int]);
            }
            lemma_find_char_idx(suffix, '\n', q - p);
        }
        // the line is [p, q), with one trailing '\r' removed
        let line_end: usize = if q > p && content.get_char(q - 1) == '\r' {
            q - 1
        } else {
            q
        };
        let line: &str = content.substring_char(p, line_end);
        proof {
            let raw = suffix.subrange(0, q - p);
            assert(raw =~= content@.subrange(p as int, q as int));
            if q > p && content@[q as int - 1] == '\r' {
                assert(raw.len() > 0 && raw[raw.len() - 1] == '\r');
                assert(strip_cr(raw) =~= content@.subrange(p as int, line_end as int));
            } else {
                if q > p {
                    assert(raw[raw.len() - 1] == content@[q as int - 1]);
                }
                assert(strip_cr(raw) =~= content@.subrange(p as int, line_end as int));
            }
            assert(line@ == strip_cr(raw));
        }
        r.push(line);
        let ghost old_p = p as int;
        if q < n {
            p = q + 1;
        } else {
            p = n;
        }
        proof {
            // One unfolding of split_lines_spec on the old suffix.
            let rest = content@.subrange(p as int, n as int);
            if q < n {
                assert(suffix.subrange(q - old_p + 1, suffix.len() as int) =~= rest);
                assert(split_lines_spec(suffix) == seq![line@] + split_lines_spec(rest));
            } else {
                assert(suffix =~= suffix.subrange(0, q - old_p));
                assert(rest.len() == 0);
                assert(split_lines_spec(rest) =~= Seq::<Seq<char>>::empty());
                assert(split_lines_spec(suffix) =~= seq![line@] + split_lines_spec(rest));
            }
            assert(r.deep_view() =~= r.deep_view().subrange(0, r.deep_view().len() - 1) + seq![
                line@,
            ]);
            assert(r.deep_view() + split_lines_spec(rest) =~= split_lines_spec(content@));
        }
    }
    proof {
        assert(content@.subrange(p as int, n as int).len() == 0);
        assert(split_lines_spec(content@.subrange(p as int, n as int)) =~= Seq::<Seq<char>>::empty());
        assert(r.deep_view() =~= r.deep_view() + split_lines_spec(
            content@.subrange(p as int, n as int),
        ));
    }
    r
}

} // verus!
