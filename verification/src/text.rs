use vstd::prelude::*;

verus! {

broadcast use vstd::string::group_string_axioms;

/// The character of a single decimal digit.
pub open spec fn digit_char(d: nat) -> char {
    if d == 0 { '0' }
    else if d == 1 { '1' }
    else if d == 2 { '2' }
    else if d == 3 { '3' }
    else if d == 4 { '4' }
    else if d == 5 { '5' }
    else if d == 6 { '6' }
    else if d == 7 { '7' }
    else if d == 8 { '8' }
    else { '9' }
}

/// Decimal rendering of a natural number, most significant digit first.
pub open spec fn decimal(n: nat) -> Seq<char>
    decreases n,
{
    if n < 10 {
        seq![digit_char(n)]
    } else {
        decimal(n / 10).push(digit_char(n % 10))
    }
}

fn digit_str(d: u64) -> (s: &'static str)
    requires
        d < 10,
    ensures
        s@ == seq![digit_char(d as nat)],
{
    if d == 0 {
        proof { reveal_strlit("0"); }
        "0"
    } else if d == 1 {
        proof { reveal_strlit("1"); }
        "1"
    } else if d == 2 {
        proof { reveal_strlit("2"); }
        "2"
    } else if d == 3 {
        proof { reveal_strlit("3"); }
        "3"
    } else if d == 4 {
        proof { reveal_strlit("4"); }
        "4"
    } else if d == 5 {
        proof { reveal_strlit("5"); }
        "5"
    } else if d == 6 {
        proof { reveal_strlit("6"); }
        "6"
    } else if d == 7 {
        proof { reveal_strlit("7"); }
        "7"
    } else if d == 8 {
        proof { reveal_strlit("8"); }
        "8"
    } else {
        proof { reveal_strlit("9"); }
        "9"
    }
}

/// Renders `n` in decimal.
pub fn decimal_string(n: u64) -> (s: String)
    ensures
        s@ == decimal(n as nat),
    decreases n,
{
    if n < 10 {
        digit_str(n).to_string()
    } else {
        let mut s = decimal_string(n / 10);
        s.append(digit_str(n % 10));
        s
    }
}

/// An owned copy of `s`.
pub fn owned(s: &str) -> (r: String)
    ensures
        r@ == s@,
{
    s.to_string()
}

/// `a` followed by `b`.
pub fn concat(a: &str, b: &str) -> (r: String)
    ensures
        r@ == a@ + b@,
{
    let mut r = a.to_string();
    r.append(b);
    r
}

/// `a`, `b` and `c` in a row.
pub fn concat3(a: &str, b: &str, c: &str) -> (r: String)
    ensures
        r@ == a@ + b@ + c@,
{
    let mut r = a.to_string();
    r.append(b);
    r.append(c);
    r
}

/// An owned copy of a string, with its view kept.
pub fn copy_string(s: &String) -> (r: String)
    ensures
        r@ == s@,
{
    s.clone()
}

/// Equality of two strings by their characters.
pub fn same_text(a: &str, b: &str) -> (r: bool)
    ensures
        r == (a@ == b@),
{
    let n = a.unicode_len();
    let m = b.unicode_len();
    if n != m {
        return false;
    }
    let mut i: usize = 0;
    while i < n
        invariant
            n == a@.len(),
            m == b@.len(),
            n == m,
            i <= n,
            forall|j: int| 0 <= j < i ==> a@[j] == b@[j],
        decreases n - i,
    {
        if a.get_char(i) != b.get_char(i) {
            return false;
        }
        i = i + 1;
    }
    assert(a@ =~= b@);
    true
}

/// Whether `p` occurs in `s` at character index `i`.
pub open spec fn text_at(s: Seq<char>, p: Seq<char>, i: int) -> bool {
    0 <= i && i + p.len() <= s.len() && s.subrange(i, i + p.len()) == p
}

/// Whether `p` occurs anywhere in `s`.
pub open spec fn contains_text(s: Seq<char>, p: Seq<char>) -> bool {
    exists|i: int| text_at(s, p, i)
}

/// Whether `p` occurs in `s` at character index `i`.
pub fn text_occurs_at(s: &str, p: &str, i: usize) -> (r: bool)
    ensures
        r == text_at(s@, p@, i as int),
{
    let n = s.unicode_len();
    let m = p.unicode_len();
    if i > n || m > n - i {
        return false;
    }
    let mut k: usize = 0;
    while k < m
        invariant
            n == s@.len(),
            m == p@.len(),
            i + m <= n,
            k <= m,
            forall|j: int| 0 <= j < k ==> s@[i + j] == p@[j],
        decreases m - k,
    {
        if s.get_char(i + k) != p.get_char(k) {
            assert(s@.subrange(i as int, i + m)[k as int] != p@[k as int]);
            return false;
        }
        k = k + 1;
    }
    assert(s@.subrange(i as int, i + m) =~= p@);
    true
}

/// Whether `s` begins with `p`.
pub fn starts_with_text(s: &str, p: &str) -> (r: bool)
    ensures
        r == p@.is_prefix_of(s@),
{
    let r = text_occurs_at(s, p, 0);
    proof {
        if p@.is_prefix_of(s@) {
            assert(s@.subrange(0, p@.len() as int) =~= p@);
        }
    }
    r
}

/// Whether `s` ends with `p`.
pub fn ends_with_text(s: &str, p: &str) -> (r: bool)
    ensures
        r == p@.is_suffix_of(s@),
{
    let n = s.unicode_len();
    let m = p.unicode_len();
    if m > n {
        return false;
    }
    let r = text_occurs_at(s, p, n - m);
    proof {
        if p@.is_suffix_of(s@) {
            assert(s@.subrange(n - m, n - m + m) =~= p@);
        }
    }
    r
}

/// Whether `p` occurs anywhere in `s`.
pub fn has_text(s: &str, p: &str) -> (r: bool)
    ensures
        r == contains_text(s@, p@),
{
    let n = s.unicode_len();
    let mut i: usize = 0;
    loop
        invariant
            n == s@.len(),
            i <= n,
            forall|j: int| 0 <= j < i ==> !text_at(s@, p@, j),
        decreases n - i,
    {
        if text_occurs_at(s, p, i) {
            return true;
        }
        if i == n {
            assert forall|j: int| !text_at(s@, p@, j) by {
                if j > n {
                    assert(j + p@.len() > s@.len());
                }
            }
            return false;
        }
        i = i + 1;
    }
}

/// A character with ASCII letters folded to lowercase.
pub open spec fn lower_char(c: char) -> char {
    if 'A' <= c && c <= 'Z' {
        ((c as u32) + 32) as char
    } else {
        c
    }
}

/// `s` with ASCII letters folded to lowercase, as `to_ascii_lowercase` does.
pub open spec fn ascii_lower(s: Seq<char>) -> Seq<char> {
    s.map_values(|c: char| lower_char(c))
}

/// Whether `c`, folded to lowercase, is `t`.
pub fn lower_char_is(c: char, t: char) -> (r: bool)
    ensures
        r == (lower_char(c) == t),
{
    if 'A' <= c && c <= 'Z' {
        let u: u32 = (c as u32) + 32;
        u == (t as u32)
    } else {
        c == t
    }
}

/// Whether `p` occurs at index `i` of `s` folded to lowercase.
pub fn lower_text_at(s: &str, p: &str, i: usize) -> (r: bool)
    ensures
        r == text_at(ascii_lower(s@), p@, i as int),
{
    let n = s.unicode_len();
    let m = p.unicode_len();
    if i > n || m > n - i {
        return false;
    }
    let ghost l = ascii_lower(s@);
    let mut k: usize = 0;
    while k < m
        invariant
            n == s@.len(),
            m == p@.len(),
            l == ascii_lower(s@),
            i + m <= n,
            k <= m,
            forall|j: int| 0 <= j < k ==> l[i + j] == p@[j],
        decreases m - k,
    {
        if !lower_char_is(s.get_char(i + k), p.get_char(k)) {
            assert(l.subrange(i as int, i + m)[k as int] != p@[k as int]);
            return false;
        }
        k = k + 1;
    }
    assert(l.subrange(i as int, i + m) =~= p@);
    true
}

/// Whether `s`, folded to lowercase, is `p`.
pub fn lower_equals(s: &str, p: &str) -> (r: bool)
    ensures
        r == (ascii_lower(s@) == p@),
{
    let n = s.unicode_len();
    let m = p.unicode_len();
    if n != m {
        assert(ascii_lower(s@).len() != p@.len());
        return false;
    }
    let r = lower_text_at(s, p, 0);
    proof {
        assert(ascii_lower(s@).subrange(0, m as int) =~= ascii_lower(s@));
    }
    r
}

/// Whether `s`, folded to lowercase, begins with `p`.
pub fn lower_starts_with(s: &str, p: &str) -> (r: bool)
    ensures
        r == p@.is_prefix_of(ascii_lower(s@)),
{
    let r = lower_text_at(s, p, 0);
    proof {
        if p@.is_prefix_of(ascii_lower(s@)) {
            assert(ascii_lower(s@).subrange(0, p@.len() as int) =~= p@);
        }
    }
    r
}

/// Whether `s`, folded to lowercase, ends with `p`.
pub fn lower_ends_with(s: &str, p: &str) -> (r: bool)
    ensures
        r == p@.is_suffix_of(ascii_lower(s@)),
{
    let n = s.unicode_len();
    let m = p.unicode_len();
    if m > n {
        return false;
    }
    let r = lower_text_at(s, p, n - m);
    proof {
        if p@.is_suffix_of(ascii_lower(s@)) {
            assert(ascii_lower(s@).subrange(n - m, n - m + m) =~= p@);
        }
    }
    r
}

/// Calls `String::from_utf8`. The contract claims, as its documentation
/// says, that it succeeds exactly on valid UTF-8 and that the string holds
/// those bytes.
#[verifier::external_body]
pub(crate) fn utf8_text(bytes: Vec<u8>) -> (r: Option<String>)
    ensures
        r is Some <==> vstd::utf8::valid_utf8(bytes@),
        r matches Some(s) ==> vstd::utf8::encode_utf8(s@) == bytes@,
{
    String::from_utf8(bytes).ok()
}

} // verus!
