//! Character and string helpers shared by the scanning engine.
//!
//! Library names are matched ASCII-case-insensitively and game lists are
//! ordered by an ASCII-case-insensitive ordinal comparison, so the same
//! few character-level definitions are used throughout the crate.

use vstd::prelude::*;
use vstd::string::StrSliceExecFns;
use vstd::string::StringExecFns;

verus! {

/// The Unicode scalar value of `c`, with ASCII uppercase letters mapped to
/// their lowercase counterparts.  Non-ASCII characters are left unchanged,
/// matching what `char::to_ascii_lowercase` does.
pub open spec fn lower_code(c: char) -> int {
    if 65 <= c as int && c as int <= 90 {
        c as int + 32
    } else {
        c as int
    }
}

/// ASCII-case-insensitive equality of two characters.
pub open spec fn chars_eq_ci(a: char, b: char) -> bool {
    lower_code(a) == lower_code(b)
}

/// `needle` occurs in `hay` at position `i`, comparing characters
/// ASCII-case-insensitively.
pub open spec fn matches_at_ci(hay: Seq<char>, needle: Seq<char>, i: int) -> bool {
    &&& 0 <= i
    &&& i + needle.len() <= hay.len()
    &&& forall|j: int| 0 <= j < needle.len() ==> chars_eq_ci(hay[i + j], needle[j])
}

/// `needle` occurs somewhere in `hay`, ASCII-case-insensitively.
pub open spec fn contains_ci(hay: Seq<char>, needle: Seq<char>) -> bool {
    exists|i: int| matches_at_ci(hay, needle, i)
}

/// `needle` occurs in `hay` at position `i`, comparing characters exactly.
pub open spec fn matches_at(hay: Seq<char>, needle: Seq<char>, i: int) -> bool {
    &&& 0 <= i
    &&& i + needle.len() <= hay.len()
    &&& forall|j: int| 0 <= j < needle.len() ==> hay[i + j] == needle[j]
}

/// `needle` occurs somewhere in `hay`, compared exactly.
pub open spec fn contains_seq(hay: Seq<char>, needle: Seq<char>) -> bool {
    exists|i: int| matches_at(hay, needle, i)
}

/// The scalar value of `c` lowered as in [`lower_code`].
pub fn lower_u32(c: char) -> (r: u32)
    ensures
        r as int == lower_code(c),
{
    let x = c as u32;
    if 65 <= x && x <= 90 {
        x + 32
    } else {
        x
    }
}

/// Whether `needle` occurs in `hay` starting exactly at `i`,
/// ASCII-case-insensitively.
fn matches_at_ci_str(hay: &str, needle: &str, i: usize) -> (r: bool)
    requires
        i + needle@.len() <= hay@.len(),
        i + needle@.len() <= usize::MAX,
    ensures
        r == matches_at_ci(hay@, needle@, i as int),
{
    let m = needle.unicode_len();
    let mut j: usize = 0;
    while j < m
        invariant
            0 <= j <= m,
            m == needle@.len(),
            i + m <= hay@.len(),
            i + m <= usize::MAX,
            forall|k: int| 0 <= k < j ==> chars_eq_ci(hay@[i + k], needle@[k]),
        decreases m - j,
    {
        let a = hay.get_char(i + j);
        let b = needle.get_char(j);
        if lower_u32(a) != lower_u32(b) {
            return false;
        }
        j = j + 1;
    }
    true
}

/// Whether `needle` occurs anywhere in `hay`, ASCII-case-insensitively.
pub fn str_contains_ci(hay: &str, needle: &str) -> (r: bool)
    ensures
        r == contains_ci(hay@, needle@),
{
    let n = hay.unicode_len();
    let m = needle.unicode_len();
    if m > n {
        assert(forall|i: int| !matches_at_ci(hay@, needle@, i));
        return false;
    }
    let mut i: usize = 0;
    while i <= n - m
        invariant
            0 <= i <= n - m + 1,
            m <= n,
            n == hay@.len(),
            m == needle@.len(),
            forall|k: int| 0 <= k < i ==> !matches_at_ci(hay@, needle@, k),
        decreases n - m - i + 1,
    {
        if matches_at_ci_str(hay, needle, i) {
            return true;
        }
        i = i + 1;
    }
    assert(forall|k: int| matches_at_ci(hay@, needle@, k) ==> 0 <= k <= n - m);
    false
}

/// ASCII-case-insensitive lexicographic order on character sequences.
/// This is the order in which game lists are presented: it compares the
/// sequences position by position through [`lower_code`], shorter prefixes
/// first, exactly as byte-wise comparison of ASCII-lowercased names does.
pub open spec fn lex_le_ci(a: Seq<char>, b: Seq<char>) -> bool
    decreases a.len(),
{
    if a.len() == 0 {
        true
    } else if b.len() == 0 {
        false
    } else if lower_code(a[0]) < lower_code(b[0]) {
        true
    } else if lower_code(a[0]) > lower_code(b[0]) {
        false
    } else {
        lex_le_ci(a.drop_first(), b.drop_first())
    }
}

/// [`lex_le_ci`] is total: any two sequences are comparable.
pub proof fn lemma_lex_le_ci_total(a: Seq<char>, b: Seq<char>)
    ensures
        lex_le_ci(a, b) || lex_le_ci(b, a),
    decreases a.len(),
{
    if a.len() != 0 && b.len() != 0 && lower_code(a[0]) == lower_code(b[0]) {
        lemma_lex_le_ci_total(a.drop_first(), b.drop_first());
    }
}

/// [`lex_le_ci`] is transitive.
pub proof fn lemma_lex_le_ci_trans(a: Seq<char>, b: Seq<char>, c: Seq<char>)
    requires
        lex_le_ci(a, b),
        lex_le_ci(b, c),
    ensures
        lex_le_ci(a, c),
    decreases a.len(),
{
    if a.len() != 0 && b.len() != 0 && c.len() != 0 && lower_code(a[0]) == lower_code(b[0])
        && lower_code(b[0]) == lower_code(c[0]) {
        lemma_lex_le_ci_trans(a.drop_first(), b.drop_first(), c.drop_first());
    }
}

/// Dropping an ASCII-case-insensitively equal prefix from both sequences
/// does not change how they compare.
proof fn lemma_lex_le_ci_skip(a: Seq<char>, b: Seq<char>, i: int)
    requires
        0 <= i <= a.len(),
        i <= b.len(),
        forall|j: int| 0 <= j < i ==> chars_eq_ci(a[j], b[j]),
    ensures
        lex_le_ci(a, b) == lex_le_ci(a.skip(i), b.skip(i)),
    decreases i,
{
    if i > 0 {
        assert(chars_eq_ci(a[0], b[0]));
        lemma_lex_le_ci_skip(a.drop_first(), b.drop_first(), i - 1);
        assert(a.drop_first().skip(i - 1) =~= a.skip(i));
        assert(b.drop_first().skip(i - 1) =~= b.skip(i));
    } else {
        assert(a.skip(0) =~= a);
        assert(b.skip(0) =~= b);
    }
}

/// Whether `a` comes before `b` (or ties with it) in the
/// ASCII-case-insensitive ordinal order.
pub fn str_le_ci(a: &str, b: &str) -> (r: bool)
    ensures
        r == lex_le_ci(a@, b@),
{
    let n = a.unicode_len();
    let m = b.unicode_len();
    let limit = if n < m {
        n
    } else {
        m
    };
    let mut i: usize = 0;
    while i < limit
        invariant
            0 <= i <= limit,
            n == a@.len(),
            m == b@.len(),
            limit == if n < m { n as int } else { m as int },
            forall|j: int| 0 <= j < i ==> chars_eq_ci(a@[j], b@[j]),
        decreases limit - i,
    {
        let ca = lower_u32(a.get_char(i));
        let cb = lower_u32(b.get_char(i));
        if ca < cb {
            proof {
                lemma_lex_le_ci_skip(a@, b@, i as int);
            }
            return true;
        }
        if ca > cb {
            proof {
                lemma_lex_le_ci_skip(a@, b@, i as int);
            }
            return false;
        }
        i = i + 1;
    }
    proof {
        lemma_lex_le_ci_skip(a@, b@, limit as int);
    }
    n <= m
}

/// The decimal digit character for `d`.
pub open spec fn dec_digit(d: int) -> char {
    if d == 0 {
        '0'
    } else if d == 1 {
        '1'
    } else if d == 2 {
        '2'
    } else if d == 3 {
        '3'
    } else if d == 4 {
        '4'
    } else if d == 5 {
        '5'
    } else if d == 6 {
        '6'
    } else if d == 7 {
        '7'
    } else if d == 8 {
        '8'
    } else {
        '9'
    }
}

/// The usual decimal rendering of `n`, most significant digit first and
/// without leading zeros (`0` itself is rendered as "0").
pub open spec fn dec_rep(n: nat) -> Seq<char>
    decreases n,
{
    if n < 10 {
        seq![dec_digit(n as int)]
    } else {
        dec_rep(n / 10) + seq![dec_digit(n as int % 10)]
    }
}

/// Whether `c` is a decimal digit character.
pub open spec fn is_dec_digit(c: char) -> bool {
    48 <= c as int <= 57
}

/// The numeric value of a decimal digit character.
pub open spec fn digit_val(c: char) -> int {
    c as int - 48
}

/// Every character of a decimal rendering is a digit whose value is the
/// corresponding digit of `n`.
pub proof fn lemma_dec_digit_val(d: int)
    requires
        0 <= d < 10,
    ensures
        is_dec_digit(dec_digit(d)),
        digit_val(dec_digit(d)) == d,
{
}

/// The single-character string for decimal digit `d`.
fn digit_str(d: usize) -> (r: &'static str)
    requires
        d < 10,
    ensures
        r@ =~= seq![dec_digit(d as int)],
{
    proof {
        reveal_strlit("0");
        reveal_strlit("1");
        reveal_strlit("2");
        reveal_strlit("3");
        reveal_strlit("4");
        reveal_strlit("5");
        reveal_strlit("6");
        reveal_strlit("7");
        reveal_strlit("8");
        reveal_strlit("9");
    }
    match d {
        0 => "0",
        1 => "1",
        2 => "2",
        3 => "3",
        4 => "4",
        5 => "5",
        6 => "6",
        7 => "7",
        8 => "8",
        _ => "9",
    }
}

/// The decimal rendering of `n` as an owned string.
pub fn usize_to_string(n: usize) -> (r: String)
    ensures
        r@ == dec_rep(n as nat),
    decreases n,
{
    if n < 10 {
        String::from_str(digit_str(n))
    } else {
        let mut s = usize_to_string(n / 10);
        s.append(digit_str(n % 10));
        assert(s@ =~= dec_rep(n as nat));
        s
    }
}

/// Whether `needle` occurs in `hay` starting exactly at `i`, compared exactly.
fn matches_at_str(hay: &str, needle: &str, i: usize) -> (r: bool)
    requires
        i + needle@.len() <= hay@.len(),
        i + needle@.len() <= usize::MAX,
    ensures
        r == matches_at(hay@, needle@, i as int),
{
    let m = needle.unicode_len();
    let mut j: usize = 0;
    while j < m
        invariant
            0 <= j <= m,
            m == needle@.len(),
            i + m <= hay@.len(),
            i + m <= usize::MAX,
            forall|k: int| 0 <= k < j ==> hay@[i + k] == needle@[k],
        decreases m - j,
    {
        let a = hay.get_char(i + j);
        let b = needle.get_char(j);
        if a != b {
            return false;
        }
        j = j + 1;
    }
    true
}

/// Whether `needle` occurs anywhere in `hay`, compared exactly.
pub fn str_contains(hay: &str, needle: &str) -> (r: bool)
    ensures
        r == contains_seq(hay@, needle@),
{
    let n = hay.unicode_len();
    let m = needle.unicode_len();
    if m > n {
        assert(forall|i: int| !matches_at(hay@, needle@, i));
        return false;
    }
    let mut i: usize = 0;
    while i <= n - m
        invariant
            0 <= i <= n - m + 1,
            m <= n,
            n == hay@.len(),
            m == needle@.len(),
            forall|k: int| 0 <= k < i ==> !matches_at(hay@, needle@, k),
        decreases n - m - i + 1,
    {
        if matches_at_str(hay, needle, i) {
            return true;
        }
        i = i + 1;
    }
    assert(forall|k: int| matches_at(hay@, needle@, k) ==> 0 <= k <= n - m);
    false
}

} // verus!
