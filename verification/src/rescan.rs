//! How the source scanners behave on a text that was changed away from
//! where they look: a scan that stops before an edited region gives the same
//! answer on the edited text, and a scan that starts after it gives the same
//! answer moved by the length of the edit.
use vstd::prelude::*;

use crate::bytes::{find, find_from, join, lemma_find_from_bounds, lemma_newline_from, newline_from, occurs_at};
use crate::contract::{body_brace_spec, body_search, lemma_body_search_bounds};
use crate::scan::{
    byte_at, closing_of, comment_starts, delimiter_end, generics_end, is_ascii_ws, is_quote,
    lemma_comment_advances, lemma_delimiter_end_bounds, lemma_generics_end_bounds,
    lemma_match_delimiter_bounds, lemma_quoted_end_bounds, lemma_scan_to_bounds,
    lemma_skip_quoted_bounds, lemma_trivia_end_bounds, match_delimiter_spec, match_generics_spec,
    quoted_end, scan_to_spec, skip_quoted_end, trivia_end, char_literal_at, SourceLanguage,
};

verus! {

/// Whether `s1` and `s2` hold the same first `n` bytes.
pub open spec fn agree(s1: Seq<u8>, s2: Seq<u8>, n: int) -> bool {
    &&& 0 <= n <= s1.len()
    &&& n <= s2.len()
    &&& forall|j: int| 0 <= j < n ==> #[trigger] s1[j] == s2[j]
}

/// Whether `s2` is `s1` with `d` bytes more before index `k`: from `k` on,
/// the bytes of `s1` stand `d` places further in `s2`.
pub open spec fn shifted(s1: Seq<u8>, s2: Seq<u8>, k: int, d: int) -> bool {
    &&& 0 <= k <= s1.len()
    &&& 0 <= d
    &&& s2.len() == s1.len() + d
    &&& forall|j: int| k <= j < s1.len() ==> #[trigger] s1[j] == s2[j + d]
}

pub(crate) proof fn lemma_trivia_prefix(s1: Seq<u8>, s2: Seq<u8>, n: int, i: int, m: nat)
    requires
        agree(s1, s2, n),
        0 <= i <= s1.len(),
        trivia_end(s1, i, m) < n,
        trivia_end(s1, i, m) + 1 < n || s1[trivia_end(s1, i, m)] != 0x2f,
    ensures
        trivia_end(s2, i, m) == trivia_end(s1, i, m),
    decreases s1.len() + 2 - i, m,
{
    lemma_trivia_end_bounds(s1, i, m);
    if m == 0 {
        if 0 <= i < s1.len() && is_ascii_ws(s1[i]) {
            lemma_trivia_prefix(s1, s2, n, i + 1, 0);
        } else if 0 <= i && i + 1 < s1.len() && s1[i] == 0x2f && s1[i + 1] == 0x2f {
            lemma_trivia_end_bounds(s1, i + 2, 1);
            assert(s2[i] == s1[i] && s2[i + 1] == s1[i + 1]);
            lemma_trivia_prefix(s1, s2, n, i + 2, 1);
        } else if 0 <= i && i + 1 < s1.len() && s1[i] == 0x2f && s1[i + 1] == 0x2a {
            lemma_trivia_end_bounds(s1, i + 2, 2);
            assert(s2[i] == s1[i] && s2[i + 1] == s1[i + 1]);
            lemma_trivia_prefix(s1, s2, n, i + 2, 2);
        } else {
            assert(s2[i] == s1[i]);
            if s1[i] == 0x2f {
                assert(s2[i + 1] == s1[i + 1]);
            }
        }
    } else if m == 1 {
        if 0 <= i < s1.len() && s1[i] != 0x0a {
            lemma_trivia_end_bounds(s1, i + 1, 1);
            assert(s2[i] == s1[i]);
            lemma_trivia_prefix(s1, s2, n, i + 1, 1);
        } else {
            lemma_trivia_end_bounds(s1, i, 0);
            assert(s2[i] == s1[i]);
            lemma_trivia_prefix(s1, s2, n, i, 0);
        }
    } else {
        if 0 <= i < s1.len() && !(s1[i] == 0x2a && i + 1 < s1.len() && s1[i + 1] == 0x2f) {
            lemma_trivia_end_bounds(s1, i + 1, 2);
            assert(s2[i] == s1[i]);
            if s1[i] == 0x2a {
                assert(s2[i + 1] == s1[i + 1]);
            }
            lemma_trivia_prefix(s1, s2, n, i + 1, 2);
        } else if i + 2 <= s1.len() {
            lemma_trivia_end_bounds(s1, i + 2, 0);
            assert(s2[i] == s1[i] && s2[i + 1] == s1[i + 1]);
            lemma_trivia_prefix(s1, s2, n, i + 2, 0);
        } else {
            lemma_trivia_end_bounds(s1, s1.len() as int, 0);
        }
    }
}

proof fn lemma_quoted_prefix(s1: Seq<u8>, s2: Seq<u8>, n: int, q: u8, c: int)
    requires
        agree(s1, s2, n),
        0 <= c,
        quoted_end(s1, q, c) < n,
    ensures
        quoted_end(s2, q, c) == quoted_end(s1, q, c),
    decreases s1.len() + 1 - c,
{
    if c < s1.len() {
        lemma_quoted_end_bounds(s1, q, c);
        assert(s2[c] == s1[c]);
        if s1[c] == 0x5c {
            lemma_quoted_end_bounds(s1, q, c + 2);
            lemma_quoted_prefix(s1, s2, n, q, c + 2);
        } else if s1[c] != q {
            lemma_quoted_end_bounds(s1, q, c + 1);
            lemma_quoted_prefix(s1, s2, n, q, c + 1);
        }
    }
}

proof fn lemma_skip_quoted_prefix(s1: Seq<u8>, s2: Seq<u8>, n: int, i: int)
    requires
        agree(s1, s2, n),
        0 <= i < n,
        skip_quoted_end(s1, i, SourceLanguage::TypeScript) < n,
    ensures
        skip_quoted_end(s2, i, SourceLanguage::TypeScript) == skip_quoted_end(
            s1,
            i,
            SourceLanguage::TypeScript,
        ),
{
    assert(s2[i] == s1[i]);
    lemma_quoted_prefix(s1, s2, n, s1[i], i + 1);
}

pub(crate) proof fn lemma_delimiter_prefix(
    s1: Seq<u8>,
    s2: Seq<u8>,
    n: int,
    i: int,
    opening: u8,
    closing: u8,
    depth: int,
)
    requires
        agree(s1, s2, n),
        0 <= i,
        opening != 0x2f,
        closing != 0x2f,
        delimiter_end(s1, i, SourceLanguage::TypeScript, opening, closing, depth) matches Some(e)
            && e < n,
    ensures
        delimiter_end(s2, i, SourceLanguage::TypeScript, opening, closing, depth) == delimiter_end(
            s1,
            i,
            SourceLanguage::TypeScript,
            opening,
            closing,
            depth,
        ),
    decreases s1.len() + 2 - i,
{
    let ts = SourceLanguage::TypeScript;
    let e = delimiter_end(s1, i, ts, opening, closing, depth)->Some_0;
    lemma_delimiter_end_bounds(s1, i, ts, opening, closing, depth);
    assert(s2[i] == s1[i]);
    if is_quote(s1[i]) {
        let next = skip_quoted_end(s1, i, ts);
        lemma_delimiter_end_bounds(s1, next, ts, opening, closing, depth);
        lemma_skip_quoted_prefix(s1, s2, n, i);
        lemma_delimiter_prefix(s1, s2, n, next, opening, closing, depth);
    } else if comment_starts(s1, i) {
        let next = trivia_end(s1, i, 0);
        lemma_comment_advances(s1, i);
        lemma_delimiter_end_bounds(s1, next, ts, opening, closing, depth);
        assert(s2[i + 1] == s1[i + 1]);
        lemma_trivia_prefix(s1, s2, n, i, 0);
        lemma_delimiter_prefix(s1, s2, n, next, opening, closing, depth);
    } else if s1[i] == opening {
        lemma_delimiter_end_bounds(s1, i + 1, ts, opening, closing, depth + 1);
        lemma_delimiter_prefix(s1, s2, n, i + 1, opening, closing, depth + 1);
    } else if s1[i] == closing {
        if depth - 1 != 0 {
            lemma_delimiter_end_bounds(s1, i + 1, ts, opening, closing, depth - 1);
            lemma_delimiter_prefix(s1, s2, n, i + 1, opening, closing, depth - 1);
        }
    } else {
        lemma_delimiter_end_bounds(s1, i + 1, ts, opening, closing, depth);
        if s1[i] == 0x2f {
            assert(s2[i + 1] == s1[i + 1]);
        }
        lemma_delimiter_prefix(s1, s2, n, i + 1, opening, closing, depth);
    }
}

proof fn lemma_match_delimiter_prefix(s1: Seq<u8>, s2: Seq<u8>, n: int, open: int)
    requires
        agree(s1, s2, n),
        0 <= open,
        match_delimiter_spec(s1, open, SourceLanguage::TypeScript) matches Some(e) && e < n,
    ensures
        match_delimiter_spec(s2, open, SourceLanguage::TypeScript) == match_delimiter_spec(
            s1,
            open,
            SourceLanguage::TypeScript,
        ),
{
    lemma_match_delimiter_bounds(s1, open, SourceLanguage::TypeScript);
    assert(s2[open] == s1[open]);
    let opening = s1[open];
    let closing = closing_of(opening)->Some_0;
    lemma_delimiter_prefix(s1, s2, n, open, opening, closing, 0);
}

proof fn lemma_generics_prefix(s1: Seq<u8>, s2: Seq<u8>, n: int, i: int, depth: int)
    requires
        agree(s1, s2, n),
        0 <= i,
        generics_end(s1, i, SourceLanguage::TypeScript, depth) matches Some(e) && e < n,
    ensures
        generics_end(s2, i, SourceLanguage::TypeScript, depth) == generics_end(
            s1,
            i,
            SourceLanguage::TypeScript,
            depth,
        ),
    decreases s1.len() + 2 - i,
{
    let ts = SourceLanguage::TypeScript;
    lemma_generics_end_bounds(s1, i, ts, depth);
    assert(s2[i] == s1[i]);
    if is_quote(s1[i]) {
        let next = skip_quoted_end(s1, i, ts);
        lemma_generics_end_bounds(s1, next, ts, depth);
        lemma_skip_quoted_prefix(s1, s2, n, i);
        lemma_generics_prefix(s1, s2, n, next, depth);
    } else if (s1[i] == 0x3d || s1[i] == 0x2d) && i + 1 < s1.len() && s1[i + 1] == 0x3e {
        lemma_generics_end_bounds(s1, i + 2, ts, depth);
        assert(s2[i + 1] == s1[i + 1]);
        lemma_generics_prefix(s1, s2, n, i + 2, depth);
    } else if s1[i] == 0x28 {
        let next = match_delimiter_spec(s1, i, ts)->Some_0;
        lemma_generics_end_bounds(s1, next, ts, depth);
        lemma_match_delimiter_prefix(s1, s2, n, i);
        lemma_generics_prefix(s1, s2, n, next, depth);
    } else if s1[i] == 0x3c {
        lemma_generics_end_bounds(s1, i + 1, ts, depth + 1);
        lemma_generics_prefix(s1, s2, n, i + 1, depth + 1);
    } else if s1[i] == 0x3e {
        if depth - 1 != 0 {
            lemma_generics_end_bounds(s1, i + 1, ts, depth - 1);
            lemma_generics_prefix(s1, s2, n, i + 1, depth - 1);
        }
    } else {
        lemma_generics_end_bounds(s1, i + 1, ts, depth);
        if s1[i] == 0x3d || s1[i] == 0x2d {
            assert(s2[i + 1] == s1[i + 1]);
        }
        lemma_generics_prefix(s1, s2, n, i + 1, depth);
    }
}

proof fn lemma_scan_to_hit(s: Seq<u8>, i: int, target: u8)
    ensures
        scan_to_spec(s, i, SourceLanguage::TypeScript, target) matches Some(p) ==> 0 <= p < s.len()
            && s[p] == target,
    decreases s.len() + 2 - i,
{
    let ts = SourceLanguage::TypeScript;
    if 0 <= i < s.len() && s[i] != target {
        if is_quote(s[i]) {
            lemma_skip_quoted_bounds(s, i, ts);
            lemma_scan_to_hit(s, skip_quoted_end(s, i, ts), target);
        } else if comment_starts(s, i) {
            lemma_comment_advances(s, i);
            lemma_scan_to_hit(s, trivia_end(s, i, 0), target);
        } else {
            lemma_scan_to_hit(s, i + 1, target);
        }
    }
}

proof fn lemma_scan_to_prefix(s1: Seq<u8>, s2: Seq<u8>, n: int, i: int, target: u8)
    requires
        agree(s1, s2, n),
        0 <= i,
        target != 0x2f,
        scan_to_spec(s1, i, SourceLanguage::TypeScript, target) matches Some(p) && p < n,
    ensures
        scan_to_spec(s2, i, SourceLanguage::TypeScript, target) == scan_to_spec(
            s1,
            i,
            SourceLanguage::TypeScript,
            target,
        ),
    decreases s1.len() + 2 - i,
{
    let ts = SourceLanguage::TypeScript;
    lemma_scan_to_bounds(s1, i, ts, target);
    assert(s2[i] == s1[i]);
    if s1[i] == target {
    } else if is_quote(s1[i]) {
        let next = skip_quoted_end(s1, i, ts);
        lemma_scan_to_bounds(s1, next, ts, target);
        lemma_skip_quoted_prefix(s1, s2, n, i);
        lemma_scan_to_prefix(s1, s2, n, next, target);
    } else if comment_starts(s1, i) {
        let next = trivia_end(s1, i, 0);
        lemma_comment_advances(s1, i);
        lemma_scan_to_bounds(s1, next, ts, target);
        lemma_scan_to_hit(s1, next, target);
        assert(s2[i + 1] == s1[i + 1]);
        lemma_trivia_prefix(s1, s2, n, i, 0);
        lemma_scan_to_prefix(s1, s2, n, next, target);
    } else {
        lemma_scan_to_bounds(s1, i + 1, ts, target);
        if s1[i] == 0x2f {
            assert(s2[i + 1] == s1[i + 1]);
        }
        lemma_scan_to_prefix(s1, s2, n, i + 1, target);
    }
}

proof fn lemma_find_prefix(s1: Seq<u8>, s2: Seq<u8>, n: int, pat: Seq<u8>, i: int)
    requires
        agree(s1, s2, n),
        0 <= i,
        find_from(s1, pat, i) matches Some(k) && k + pat.len() <= n,
    ensures
        find_from(s2, pat, i) == find_from(s1, pat, i),
    decreases s1.len() + 1 - i,
{
    lemma_find_from_bounds(s1, pat, i);
    let k = find_from(s1, pat, i)->Some_0;
    assert(i + pat.len() <= n);
    assert(s1.subrange(i, i + pat.len()) =~= s2.subrange(i, i + pat.len()));
    if !occurs_at(s1, pat, i) {
        lemma_find_prefix(s1, s2, n, pat, i + 1);
    }
}

pub(crate) proof fn lemma_body_search_after(s: Seq<u8>, i: int, language: SourceLanguage)
    requires
        0 <= i,
    ensures
        body_search(s, i, language) matches Ok(k) ==> i <= k,
    decreases s.len() + 2 - i,
{
    if 0 <= i <= s.len() + 1 {
        let j = trivia_end(s, i, 0);
        if i <= j && j < s.len() && s[j] != 0x3b {
            if s[j] == 0x7b {
                match match_delimiter_spec(s, j, language) {
                    None => {},
                    Some(close) => {
                        let k = trivia_end(s, close, 0);
                        if language == SourceLanguage::TypeScript && 0 <= k < s.len() && s[k]
                            == 0x7b && j < k {
                            lemma_body_search_after(s, k, language);
                        }
                    },
                }
            } else if is_quote(s[j]) {
                let next = skip_quoted_end(s, j, language);
                if j < next <= s.len() + 1 {
                    lemma_body_search_after(s, next, language);
                }
            } else {
                lemma_body_search_after(s, j + 1, language);
            }
        }
    }
}

/// A body search that ends at the brace `b` finds it again in a text that
/// agrees up to and including that brace, provided the search started at
/// the brace itself does.
proof fn lemma_body_search_prefix(s1: Seq<u8>, s2: Seq<u8>, b: int, i: int)
    requires
        agree(s1, s2, b + 1),
        0 <= i,
        body_search(s1, i, SourceLanguage::TypeScript) == Ok::<int, crate::contract::BraceFailure>(b),
        body_search(s1, b, SourceLanguage::TypeScript) == Ok::<int, crate::contract::BraceFailure>(b)
            ==> body_search(s2, b, SourceLanguage::TypeScript) == Ok::<int, crate::contract::BraceFailure>(b),
    ensures
        body_search(s2, i, SourceLanguage::TypeScript) == Ok::<int, crate::contract::BraceFailure>(b),
    decreases s1.len() + 2 - i,
{
    let ts = SourceLanguage::TypeScript;
    let n = b + 1;
    lemma_body_search_after(s1, i, ts);
    lemma_body_search_bounds(s1, i, ts);
    lemma_trivia_end_bounds(s1, i, 0);
    let j = trivia_end(s1, i, 0);
    assert(i <= j && j < s1.len() && s1[j] != 0x3b);
    if j == b {
        lemma_trivia_prefix(s1, s2, n, i, 0);
        assert(trivia_end(s1, b, 0) == b);
        assert(trivia_end(s2, b, 0) == b) by {
            assert(s2[b] == s1[b]);
        }
    } else if s1[j] == 0x7b {
        let close = match_delimiter_spec(s1, j, ts)->Some_0;
        let k = trivia_end(s1, close, 0);
        lemma_match_delimiter_bounds(s1, j, ts);
        lemma_trivia_end_bounds(s1, close, 0);
        lemma_body_search_after(s1, k, ts);
        lemma_body_search_bounds(s1, k, ts);
        lemma_trivia_prefix(s1, s2, n, i, 0);
        assert(s2[j] == s1[j]);
        lemma_match_delimiter_prefix(s1, s2, n, j);
        lemma_trivia_prefix(s1, s2, n, close, 0);
        assert(s2[k] == s1[k]);
        lemma_body_search_prefix(s1, s2, b, k);
    } else if is_quote(s1[j]) {
        let next = skip_quoted_end(s1, j, ts);
        lemma_body_search_after(s1, next, ts);
        lemma_trivia_prefix(s1, s2, n, i, 0);
        assert(s2[j] == s1[j]);
        lemma_skip_quoted_prefix(s1, s2, n, j);
        lemma_body_search_prefix(s1, s2, b, next);
    } else {
        lemma_body_search_after(s1, j + 1, ts);
        lemma_trivia_prefix(s1, s2, n, i, 0);
        assert(s2[j] == s1[j]);
        lemma_body_search_prefix(s1, s2, b, j + 1);
    }
}

/// Where the body of `name` opens is found again in a text that agrees up
/// to and including that brace, provided the name occurs and the search
/// started at the brace itself finds it there too.
pub(crate) proof fn lemma_body_brace_prefix(t1: Seq<u8>, t2: Seq<u8>, name: Seq<u8>, b: int)
    requires
        agree(t1, t2, b + 1),
        find(t1, name) is Some,
        body_brace_spec(t1, SourceLanguage::TypeScript, name) == Ok::<int, crate::contract::BraceFailure>(b),
        body_search(t1, b, SourceLanguage::TypeScript) == Ok::<int, crate::contract::BraceFailure>(b)
            ==> body_search(t2, b, SourceLanguage::TypeScript) == Ok::<int, crate::contract::BraceFailure>(b),
    ensures
        body_brace_spec(t2, SourceLanguage::TypeScript, name) == Ok::<int, crate::contract::BraceFailure>(b),
{
    let ts = SourceLanguage::TypeScript;
    let n = b + 1;
    let p = find(t1, name)->Some_0;
    lemma_find_from_bounds(t1, name, 0);
    let start = p + name.len();
    let i0 = trivia_end(t1, start, 0);
    lemma_trivia_end_bounds(t1, start, 0);
    let i1 = if 0 <= i0 < t1.len() && t1[i0] == 0x3c {
        match_generics_spec(t1, i0, ts)->Some_0
    } else {
        i0
    };
    if 0 <= i0 < t1.len() && t1[i0] == 0x3c {
        lemma_generics_end_bounds(t1, i0, ts, 0);
    }
    let open = scan_to_spec(t1, i1, ts, 0x28)->Some_0;
    lemma_scan_to_bounds(t1, i1, ts, 0x28);
    let k = match_delimiter_spec(t1, open, ts)->Some_0;
    lemma_match_delimiter_bounds(t1, open, ts);
    lemma_body_search_after(t1, k, ts);
    lemma_body_search_bounds(t1, k, ts);
    lemma_find_prefix(t1, t2, n, name, 0);
    lemma_trivia_prefix(t1, t2, n, start, 0);
    if 0 <= i0 < t1.len() && t1[i0] == 0x3c {
        assert(t2[i0] == t1[i0]);
        lemma_generics_prefix(t1, t2, n, i0, 0);
    } else if 0 <= i0 < t1.len() {
        assert(t2[i0] == t1[i0]);
    }
    lemma_scan_to_prefix(t1, t2, n, i1, 0x28);
    lemma_match_delimiter_prefix(t1, t2, n, open);
    lemma_body_search_prefix(t1, t2, b, k);
}

proof fn lemma_trivia_shift(s1: Seq<u8>, s2: Seq<u8>, k: int, d: int, i: int, m: nat)
    requires
        shifted(s1, s2, k, d),
        k <= i <= s1.len(),
    ensures
        trivia_end(s2, i + d, m) == trivia_end(s1, i, m) + d,
    decreases s1.len() + 2 - i, m,
{
    if i < s1.len() {
        assert(s2[i + d] == s1[i]);
    }
    if i + 1 < s1.len() {
        assert(s2[i + 1 + d] == s1[i + 1]);
    }
    if m == 0 {
        if i < s1.len() && is_ascii_ws(s1[i]) {
            lemma_trivia_shift(s1, s2, k, d, i + 1, 0);
        } else if i + 1 < s1.len() && s1[i] == 0x2f && s1[i + 1] == 0x2f {
            lemma_trivia_shift(s1, s2, k, d, i + 2, 1);
        } else if i + 1 < s1.len() && s1[i] == 0x2f && s1[i + 1] == 0x2a {
            lemma_trivia_shift(s1, s2, k, d, i + 2, 2);
        }
    } else if m == 1 {
        if i < s1.len() && s1[i] != 0x0a {
            lemma_trivia_shift(s1, s2, k, d, i + 1, 1);
        } else {
            lemma_trivia_shift(s1, s2, k, d, i, 0);
        }
    } else {
        if i < s1.len() && !(s1[i] == 0x2a && i + 1 < s1.len() && s1[i + 1] == 0x2f) {
            lemma_trivia_shift(s1, s2, k, d, i + 1, 2);
        } else if i + 2 <= s1.len() {
            lemma_trivia_shift(s1, s2, k, d, i + 2, 0);
        } else {
            lemma_trivia_shift(s1, s2, k, d, s1.len() as int, 0);
        }
    }
}

proof fn lemma_quoted_shift(s1: Seq<u8>, s2: Seq<u8>, k: int, d: int, q: u8, c: int)
    requires
        shifted(s1, s2, k, d),
        k <= c,
    ensures
        quoted_end(s2, q, c + d) == quoted_end(s1, q, c) + d,
    decreases s1.len() + 1 - c,
{
    if c < s1.len() {
        assert(s2[c + d] == s1[c]);
        if s1[c] == 0x5c {
            lemma_quoted_shift(s1, s2, k, d, q, c + 2);
        } else if s1[c] != q {
            lemma_quoted_shift(s1, s2, k, d, q, c + 1);
        }
    }
}

proof fn lemma_delimiter_shift(
    s1: Seq<u8>,
    s2: Seq<u8>,
    k: int,
    d: int,
    i: int,
    opening: u8,
    closing: u8,
    depth: int,
)
    requires
        shifted(s1, s2, k, d),
        k <= i,
    ensures
        delimiter_end(s2, i + d, SourceLanguage::TypeScript, opening, closing, depth) == match delimiter_end(
            s1,
            i,
            SourceLanguage::TypeScript,
            opening,
            closing,
            depth,
        ) {
            Some(e) => Some(e + d),
            None => None::<int>,
        },
    decreases s1.len() + 2 - i,
{
    let ts = SourceLanguage::TypeScript;
    if i < s1.len() {
        assert(s2[i + d] == s1[i]);
        if i + 1 < s1.len() {
            assert(s2[i + 1 + d] == s1[i + 1]);
        }
        if is_quote(s1[i]) {
            let next = skip_quoted_end(s1, i, ts);
            lemma_quoted_shift(s1, s2, k, d, s1[i], i + 1);
            lemma_skip_quoted_bounds(s1, i, ts);
            lemma_delimiter_shift(s1, s2, k, d, next, opening, closing, depth);
        } else if comment_starts(s1, i) {
            let next = trivia_end(s1, i, 0);
            lemma_trivia_shift(s1, s2, k, d, i, 0);
            lemma_comment_advances(s1, i);
            lemma_delimiter_shift(s1, s2, k, d, next, opening, closing, depth);
        } else if s1[i] == opening {
            lemma_delimiter_shift(s1, s2, k, d, i + 1, opening, closing, depth + 1);
        } else if s1[i] == closing {
            if depth - 1 != 0 {
                lemma_delimiter_shift(s1, s2, k, d, i + 1, opening, closing, depth - 1);
            }
        } else {
            lemma_delimiter_shift(s1, s2, k, d, i + 1, opening, closing, depth);
        }
    }
}

/// Scanning for a closing bracket passes over whitespace and comments
/// exactly as trivia scanning does.
proof fn lemma_delimiter_skips_trivia(
    s: Seq<u8>,
    i: int,
    opening: u8,
    closing: u8,
    depth: int,
)
    requires
        0 <= i <= s.len(),
        !is_ascii_ws(opening),
        !is_ascii_ws(closing),
    ensures
        delimiter_end(s, i, SourceLanguage::TypeScript, opening, closing, depth) == delimiter_end(
            s,
            trivia_end(s, i, 0),
            SourceLanguage::TypeScript,
            opening,
            closing,
            depth,
        ),
    decreases s.len() - i,
{
    if i < s.len() && is_ascii_ws(s[i]) {
        lemma_delimiter_skips_trivia(s, i + 1, opening, closing, depth);
    } else if comment_starts(s, i) {
        lemma_comment_advances(s, i);
    }
}

/// Whether everything from `i` up to the end of its line is whitespace.
pub open spec fn blank_to_eol(s: Seq<u8>, i: int) -> bool {
    match newline_from(s, i) {
        Some(q) => forall|j: int| i <= j < q ==> is_ascii_ws(#[trigger] s[j]),
        None => forall|j: int| i <= j < s.len() ==> is_ascii_ws(#[trigger] s[j]),
    }
}

/// Whether `l` is a line comment: `w` spaces or tabs, then `//`, and no
/// line feed anywhere.
pub open spec fn comment_line(l: Seq<u8>, w: int) -> bool {
    &&& 0 <= w
    &&& w + 2 <= l.len()
    &&& forall|k: int| 0 <= k < w ==> #[trigger] l[k] == 0x20 || l[k] == 0x09
    &&& l[w] == 0x2f
    &&& l[w + 1] == 0x2f
    &&& forall|k: int| 0 <= k < l.len() ==> #[trigger] l[k] != 0x0a
}

/// Whether `eol` is a line feed, or a carriage return and a line feed.
pub open spec fn line_end(eol: Seq<u8>) -> bool {
    eol == seq![0x0au8] || eol == seq![0x0du8, 0x0au8]
}

proof fn lemma_trivia_ws_run(s: Seq<u8>, i: int, j: int)
    requires
        0 <= i <= j <= s.len(),
        forall|k: int| i <= k < j ==> is_ascii_ws(#[trigger] s[k]),
    ensures
        trivia_end(s, i, 0) == trivia_end(s, j, 0),
    decreases j - i,
{
    if i < j {
        assert(is_ascii_ws(s[i]));
        lemma_trivia_ws_run(s, i + 1, j);
    }
}

proof fn lemma_trivia_line_run(s: Seq<u8>, i: int, j: int)
    requires
        0 <= i <= j <= s.len(),
        forall|k: int| i <= k < j ==> #[trigger] s[k] != 0x0a,
    ensures
        trivia_end(s, i, 1) == trivia_end(s, j, 1),
    decreases j - i,
{
    if i < j {
        assert(s[i] != 0x0a);
        lemma_trivia_line_run(s, i + 1, j);
    }
}

proof fn lemma_trivia_eol(s: Seq<u8>, p: int, eol: Seq<u8>)
    requires
        line_end(eol),
        0 <= p,
        p + eol.len() <= s.len(),
        s.subrange(p, p + eol.len()) == eol,
    ensures
        trivia_end(s, p, 1) == trivia_end(s, p, 0),
{
    assert(s[p] == s.subrange(p, p + eol.len())[0]);
    if eol.len() == 2 {
        assert(s[p + 1] == s.subrange(p, p + eol.len())[1]);
        assert(trivia_end(s, p + 1, 1) == trivia_end(s, p + 1, 0));
    }
}

proof fn lemma_trivia_comment_unit(s: Seq<u8>, p: int, eol: Seq<u8>, l: Seq<u8>, w: int)
    requires
        line_end(eol),
        comment_line(l, w),
        0 <= p,
        p + eol.len() + l.len() <= s.len(),
        s.subrange(p, p + eol.len() + l.len()) == eol + l,
    ensures
        trivia_end(s, p, 0) == trivia_end(s, p + eol.len() + l.len(), 1),
{
    let u = eol + l;
    let q = p + eol.len() + w;
    assert forall|k: int| p <= k < q implies is_ascii_ws(#[trigger] s[k]) by {
        assert(s[k] == s.subrange(p, p + eol.len() + l.len())[k - p]);
        if k - p >= eol.len() {
            assert(u[k - p] == l[k - p - eol.len()]);
        }
    }
    lemma_trivia_ws_run(s, p, q);
    assert(s[q] == u[q - p] && u[q - p] == l[w]);
    assert(s[q + 1] == u[q + 1 - p] && u[q + 1 - p] == l[w + 1]);
    assert(trivia_end(s, q, 0) == trivia_end(s, q + 2, 1));
    assert forall|k: int| q + 2 <= k < p + eol.len() + l.len() implies #[trigger] s[k] != 0x0a by {
        assert(s[k] == u[k - p]);
        assert(u[k - p] == l[k - p - eol.len()]);
    }
    lemma_trivia_line_run(s, q + 2, p + eol.len() + l.len());
}

proof fn lemma_trivia_comment_block(s: Seq<u8>, p: int, eol: Seq<u8>, ann: Seq<Seq<u8>>, w: int)
    requires
        line_end(eol),
        ann.len() >= 1,
        forall|m: int| 0 <= m < ann.len() ==> comment_line(#[trigger] ann[m], w),
        0 <= p,
        p + eol.len() + join(ann, eol).len() <= s.len(),
        s.subrange(p, p + eol.len() + join(ann, eol).len()) == eol + join(ann, eol),
    ensures
        trivia_end(s, p, 0) == trivia_end(s, p + eol.len() + join(ann, eol).len(), 1),
    decreases ann.len(),
{
    let x = eol + join(ann, eol);
    if ann.len() == 1 {
        assert(comment_line(ann[0], w));
        lemma_trivia_comment_unit(s, p, eol, ann[0], w);
    } else {
        let d = ann.drop_last();
        let xd = eol + join(d, eol);
        let u = eol + ann.last();
        assert(x =~= xd + u);
        assert forall|m: int| 0 <= m < d.len() implies comment_line(#[trigger] d[m], w) by {
            assert(d[m] == ann[m]);
        }
        assert(s.subrange(p, p + xd.len()) =~= xd) by {
            assert forall|k: int| 0 <= k < xd.len() implies s.subrange(p, p + xd.len())[k] == xd[k] by {
                assert(s.subrange(p, p + x.len())[k] == x[k]);
            }
        }
        lemma_trivia_comment_block(s, p, eol, d, w);
        let r = p + xd.len();
        assert(s.subrange(r, r + u.len()) =~= u) by {
            assert forall|k: int| 0 <= k < u.len() implies s.subrange(r, r + u.len())[k] == u[k] by {
                assert(s.subrange(p, p + x.len())[xd.len() + k] == x[xd.len() + k]);
            }
        }
        assert(s.subrange(r, r + eol.len()) =~= eol) by {
            assert forall|k: int| 0 <= k < eol.len() implies s.subrange(r, r + eol.len())[k] == eol[k] by {
                assert(s.subrange(r, r + u.len())[k] == u[k]);
            }
        }
        lemma_trivia_eol(s, r, eol);
        assert(comment_line(ann[ann.len() - 1], w));
        lemma_trivia_comment_unit(s, r, eol, ann.last(), w);
    }
}

/// Inserting a block of comment lines right after the byte at `b`, on a line
/// that holds nothing but whitespace after that byte, leaves trivia scanning
/// from after `b` ending at the same place, moved by the block's length.
pub(crate) proof fn lemma_trivia_over_comments(
    t: Seq<u8>,
    b: int,
    eol: Seq<u8>,
    ann: Seq<Seq<u8>>,
    w: int,
)
    requires
        0 <= b < t.len(),
        line_end(eol),
        ann.len() >= 1,
        forall|m: int| 0 <= m < ann.len() ==> comment_line(#[trigger] ann[m], w),
        blank_to_eol(t, b + 1),
    ensures
        ({
            let x = eol + join(ann, eol);
            let t2 = t.take(b + 1) + x + t.skip(b + 1);
            &&& shifted(t, t2, b + 1, x.len() as int)
            &&& agree(t, t2, b + 1)
            &&& trivia_end(t2, b + 1, 0) == trivia_end(t, b + 1, 0) + x.len()
        }),
{
    let x = eol + join(ann, eol);
    let d = x.len() as int;
    let t2 = t.take(b + 1) + x + t.skip(b + 1);
    assert forall|j: int| b + 1 <= j < t.len() implies #[trigger] t[j] == t2[j + d] by {
        assert(t2[j + d] == t.skip(b + 1)[j - b - 1]);
    }
    assert forall|j: int| 0 <= j < b + 1 implies #[trigger] t[j] == t2[j] by {
        assert(t2[j] == t.take(b + 1)[j]);
    }
    assert(t2.subrange(b + 1, b + 1 + d) =~= x);
    lemma_trivia_comment_block(t2, b + 1, eol, ann, w);
    let e = b + 1 + d;
    lemma_newline_from(t, b + 1);
    let q = match newline_from(t, b + 1) {
        Some(q) => q,
        None => t.len() as int,
    };
    lemma_trivia_ws_run(t, b + 1, q);
    assert forall|k: int| e <= k < q + d implies #[trigger] t2[k] != 0x0a by {
        assert(t[k - d] == t2[k - d + d]);
    }
    lemma_trivia_line_run(t2, e, q + d);
    if q < t.len() {
        assert(t2[q + d] == t[q]);
    }
    assert(trivia_end(t2, q + d, 1) == trivia_end(t2, q + d, 0));
    lemma_trivia_shift(t, t2, b + 1, d, q, 0);
}

/// When the brace at `b` opens the body in `t`, it still does once a block
/// of comment lines stands right after it, on a line that holds nothing but
/// whitespace after the brace.
pub(crate) proof fn lemma_brace_kept_over_comments(
    t: Seq<u8>,
    b: int,
    eol: Seq<u8>,
    ann: Seq<Seq<u8>>,
    w: int,
)
    requires
        0 <= b < t.len(),
        t[b] == 0x7b,
        line_end(eol),
        ann.len() >= 1,
        forall|m: int| 0 <= m < ann.len() ==> comment_line(#[trigger] ann[m], w),
        blank_to_eol(t, b + 1),
        body_search(t, b, SourceLanguage::TypeScript) == Ok::<int, crate::contract::BraceFailure>(b),
    ensures
        body_search(
            t.take(b + 1) + (eol + join(ann, eol)) + t.skip(b + 1),
            b,
            SourceLanguage::TypeScript,
        ) == Ok::<int, crate::contract::BraceFailure>(b),
{
    let ts = SourceLanguage::TypeScript;
    let x = eol + join(ann, eol);
    let d = x.len() as int;
    let t2 = t.take(b + 1) + x + t.skip(b + 1);
    lemma_trivia_over_comments(t, b, eol, ann, w);
    assert(t2[b] == t[b]);
    assert(trivia_end(t, b, 0) == b);
    assert(trivia_end(t2, b, 0) == b);
    lemma_trivia_end_bounds(t, b + 1, 0);
    // The body's closing brace moves by the block's length.
    assert(delimiter_end(t, b, ts, 0x7b, 0x7d, 0) == delimiter_end(t, b + 1, ts, 0x7b, 0x7d, 1));
    assert(delimiter_end(t2, b, ts, 0x7b, 0x7d, 0) == delimiter_end(t2, b + 1, ts, 0x7b, 0x7d, 1));
    lemma_delimiter_skips_trivia(t, b + 1, 0x7b, 0x7d, 1);
    lemma_delimiter_skips_trivia(t2, b + 1, 0x7b, 0x7d, 1);
    let te = trivia_end(t, b + 1, 0);
    lemma_delimiter_shift(t, t2, b + 1, d, te, 0x7b, 0x7d, 1);
    assert(match_delimiter_spec(t, b, ts) == delimiter_end(t, b, ts, 0x7b, 0x7d, 0));
    assert(match_delimiter_spec(t2, b, ts) == delimiter_end(t2, b, ts, 0x7b, 0x7d, 0));
    match match_delimiter_spec(t, b, ts) {
        None => {},
        Some(close) => {
            lemma_match_delimiter_bounds(t, b, ts);
            lemma_trivia_shift(t, t2, b + 1, d, close, 0);
            let k = trivia_end(t, close, 0);
            lemma_trivia_end_bounds(t, close, 0);
            if 0 <= k < t.len() {
                assert(t2[k + d] == t[k]);
            }
            if 0 <= k && k < t.len() && t[k] == 0x7b && b < k {
                lemma_body_search_after(t, k, ts);
            }
        },
    }
}

/// A body search that ends at a brace ends there also when started at it.
proof fn lemma_body_search_lands(s: Seq<u8>, i: int, b: int)
    requires
        0 <= i,
        body_search(s, i, SourceLanguage::TypeScript) == Ok::<int, crate::contract::BraceFailure>(b),
    ensures
        0 <= b < s.len(),
        s[b] == 0x7b,
        body_search(s, b, SourceLanguage::TypeScript) == Ok::<int, crate::contract::BraceFailure>(b),
    decreases s.len() + 2 - i,
{
    let ts = SourceLanguage::TypeScript;
    lemma_body_search_bounds(s, i, ts);
    lemma_trivia_end_bounds(s, i, 0);
    let j = trivia_end(s, i, 0);
    if s[j] == 0x7b {
        match match_delimiter_spec(s, j, ts) {
            None => {
                assert(trivia_end(s, j, 0) == j);
            },
            Some(close) => {
                let k = trivia_end(s, close, 0);
                if 0 <= k < s.len() && s[k] == 0x7b && j < k {
                    lemma_body_search_lands(s, k, b);
                } else {
                    assert(trivia_end(s, j, 0) == j);
                }
            },
        }
    } else if is_quote(s[j]) {
        lemma_body_search_lands(s, skip_quoted_end(s, j, ts), b);
    } else {
        lemma_body_search_lands(s, j + 1, b);
    }
}

/// The brace a body search finds in a function's text opens the body, and
/// a search started at it finds it again.
pub(crate) proof fn lemma_body_brace_lands(t: Seq<u8>, name: Seq<u8>, b: int)
    requires
        body_brace_spec(t, SourceLanguage::TypeScript, name) == Ok::<int, crate::contract::BraceFailure>(b),
    ensures
        0 <= b < t.len(),
        t[b] == 0x7b,
        body_search(t, b, SourceLanguage::TypeScript) == Ok::<int, crate::contract::BraceFailure>(b),
{
    let ts = SourceLanguage::TypeScript;
    let start = match find(t, name) {
        Some(p) => p + name.len(),
        None => 0,
    };
    lemma_find_from_bounds(t, name, 0);
    let i0 = trivia_end(t, start, 0);
    lemma_trivia_end_bounds(t, start, 0);
    let i1 = if 0 <= i0 < t.len() && t[i0] == 0x3c {
        match_generics_spec(t, i0, ts)->Some_0
    } else {
        i0
    };
    if 0 <= i0 < t.len() && t[i0] == 0x3c {
        lemma_generics_end_bounds(t, i0, ts, 0);
    }
    let open = scan_to_spec(t, i1, ts, 0x28)->Some_0;
    lemma_scan_to_bounds(t, i1, ts, 0x28);
    let k = match_delimiter_spec(t, open, ts)->Some_0;
    lemma_match_delimiter_bounds(t, open, ts);
    lemma_body_search_lands(t, k, b);
}

/// Whether `s2` agrees with `s1` before index `n`, where `s1` holds the `{`
/// that opens a body and `s2` a line ending that was inserted before it.
pub open spec fn brace_boundary(s1: Seq<u8>, s2: Seq<u8>, n: int) -> bool {
    &&& agree(s1, s2, n)
    &&& n < s1.len()
    &&& n < s2.len()
    &&& s1[n] == 0x7b
    &&& (s2[n] == 0x0a || s2[n] == 0x0d)
    &&& (n + 1 < s2.len() ==> s2[n + 1] != 0x27)
}

/// Trivia scanning that stops before index `n` stops at the same place in
/// the other text; scanning that stops at `n` continues there from `n`.
proof fn lemma_trivia_upto(s1: Seq<u8>, s2: Seq<u8>, n: int, i: int, m: nat)
    requires
        brace_boundary(s1, s2, n),
        0 <= i <= n,
        trivia_end(s1, i, m) <= n,
    ensures
        trivia_end(s1, i, m) < n ==> trivia_end(s2, i, m) == trivia_end(s1, i, m),
        trivia_end(s1, i, m) == n ==> trivia_end(s2, i, m) == trivia_end(s2, n, 0),
    decreases s1.len() + 2 - i, m,
{
    lemma_trivia_end_bounds(s1, i, m);
    if i < n {
        assert(s2[i] == s1[i]);
    }
    if i + 1 < n {
        assert(s2[i + 1] == s1[i + 1]);
    }
    if m == 0 {
        if i < s1.len() && is_ascii_ws(s1[i]) {
            lemma_trivia_upto(s1, s2, n, i + 1, 0);
        } else if i + 1 < s1.len() && s1[i] == 0x2f && s1[i + 1] == 0x2f {
            lemma_trivia_end_bounds(s1, i + 2, 1);
            lemma_trivia_upto(s1, s2, n, i + 2, 1);
        } else if i + 1 < s1.len() && s1[i] == 0x2f && s1[i + 1] == 0x2a {
            lemma_trivia_end_bounds(s1, i + 2, 2);
            lemma_trivia_upto(s1, s2, n, i + 2, 2);
        }
    } else if m == 1 {
        if i < s1.len() && s1[i] != 0x0a {
            lemma_trivia_end_bounds(s1, i + 1, 1);
            lemma_trivia_upto(s1, s2, n, i + 1, 1);
        } else {
            lemma_trivia_end_bounds(s1, i, 0);
            lemma_trivia_upto(s1, s2, n, i, 0);
        }
    } else {
        if i < s1.len() && !(s1[i] == 0x2a && i + 1 < s1.len() && s1[i + 1] == 0x2f) {
            lemma_trivia_end_bounds(s1, i + 1, 2);
            lemma_trivia_upto(s1, s2, n, i + 1, 2);
        } else if i + 2 <= s1.len() {
            lemma_trivia_end_bounds(s1, i + 2, 0);
            lemma_trivia_upto(s1, s2, n, i + 2, 0);
        } else {
            lemma_trivia_end_bounds(s1, s1.len() as int, 0);
        }
    }
}

proof fn lemma_quoted_upto(s1: Seq<u8>, s2: Seq<u8>, n: int, q: u8, c: int)
    requires
        agree(s1, s2, n),
        n < s1.len(),
        0 <= c,
        quoted_end(s1, q, c) <= n,
    ensures
        quoted_end(s2, q, c) == quoted_end(s1, q, c),
    decreases s1.len() + 1 - c,
{
    if c < s1.len() {
        if s1[c] == 0x5c {
            lemma_quoted_end_bounds(s1, q, c + 2);
            assert(s2[c] == s1[c]);
            lemma_quoted_upto(s1, s2, n, q, c + 2);
        } else if s1[c] != q {
            lemma_quoted_end_bounds(s1, q, c + 1);
            assert(s2[c] == s1[c]);
            lemma_quoted_upto(s1, s2, n, q, c + 1);
        } else {
            assert(s2[c] == s1[c]);
        }
    }
}

proof fn lemma_skip_quoted_upto(s1: Seq<u8>, s2: Seq<u8>, n: int, i: int)
    requires
        brace_boundary(s1, s2, n),
        0 <= i < n,
        skip_quoted_end(s1, i, SourceLanguage::Rust) <= n,
    ensures
        skip_quoted_end(s2, i, SourceLanguage::Rust) == skip_quoted_end(s1, i, SourceLanguage::Rust),
{
    let rs = SourceLanguage::Rust;
    assert(s2[i] == s1[i]);
    if i + 1 < n {
        assert(s2[i + 1] == s1[i + 1]);
    }
    if i + 2 < n {
        assert(s2[i + 2] == s1[i + 2]);
    }
    if s1[i] == 0x27 {
        if i + 1 == n && char_literal_at(s1, i) {
            lemma_quoted_end_bounds(s1, s1[i], i + 2);
            assert(quoted_end(s1, s1[i], i + 1) == quoted_end(s1, s1[i], i + 2));
        }
        assert(char_literal_at(s2, i) == char_literal_at(s1, i));
    }
    if !(s1[i] == 0x27 && !char_literal_at(s1, i)) {
        lemma_quoted_upto(s1, s2, n, s1[i], i + 1);
    }
}

proof fn lemma_delimiter_upto(
    s1: Seq<u8>,
    s2: Seq<u8>,
    n: int,
    i: int,
    opening: u8,
    closing: u8,
    depth: int,
)
    requires
        brace_boundary(s1, s2, n),
        0 <= i,
        opening != 0x2f,
        closing != 0x2f,
        delimiter_end(s1, i, SourceLanguage::Rust, opening, closing, depth) matches Some(e) && e <= n,
    ensures
        delimiter_end(s2, i, SourceLanguage::Rust, opening, closing, depth) == delimiter_end(
            s1,
            i,
            SourceLanguage::Rust,
            opening,
            closing,
            depth,
        ),
    decreases s1.len() + 2 - i,
{
    let rs = SourceLanguage::Rust;
    lemma_delimiter_end_bounds(s1, i, rs, opening, closing, depth);
    assert(s2[i] == s1[i]);
    if i + 1 < n {
        assert(s2[i + 1] == s1[i + 1]);
    }
    if is_quote(s1[i]) {
        let next = skip_quoted_end(s1, i, rs);
        lemma_delimiter_end_bounds(s1, next, rs, opening, closing, depth);
        lemma_skip_quoted_upto(s1, s2, n, i);
        lemma_delimiter_upto(s1, s2, n, next, opening, closing, depth);
    } else if comment_starts(s1, i) {
        let next = trivia_end(s1, i, 0);
        lemma_comment_advances(s1, i);
        lemma_delimiter_end_bounds(s1, next, rs, opening, closing, depth);
        lemma_trivia_upto(s1, s2, n, i, 0);
        lemma_delimiter_upto(s1, s2, n, next, opening, closing, depth);
    } else if s1[i] == opening {
        lemma_delimiter_end_bounds(s1, i + 1, rs, opening, closing, depth + 1);
        lemma_delimiter_upto(s1, s2, n, i + 1, opening, closing, depth + 1);
    } else if s1[i] == closing {
        if depth - 1 != 0 {
            lemma_delimiter_end_bounds(s1, i + 1, rs, opening, closing, depth - 1);
            lemma_delimiter_upto(s1, s2, n, i + 1, opening, closing, depth - 1);
        }
    } else {
        lemma_delimiter_end_bounds(s1, i + 1, rs, opening, closing, depth);
        lemma_delimiter_upto(s1, s2, n, i + 1, opening, closing, depth);
    }
}

proof fn lemma_match_delimiter_upto(s1: Seq<u8>, s2: Seq<u8>, n: int, open: int)
    requires
        brace_boundary(s1, s2, n),
        0 <= open,
        match_delimiter_spec(s1, open, SourceLanguage::Rust) matches Some(e) && e <= n,
    ensures
        match_delimiter_spec(s2, open, SourceLanguage::Rust) == match_delimiter_spec(
            s1,
            open,
            SourceLanguage::Rust,
        ),
{
    lemma_match_delimiter_bounds(s1, open, SourceLanguage::Rust);
    assert(s2[open] == s1[open]);
    let opening = s1[open];
    let closing = closing_of(opening)->Some_0;
    lemma_delimiter_upto(s1, s2, n, open, opening, closing, 0);
}

proof fn lemma_generics_upto(s1: Seq<u8>, s2: Seq<u8>, n: int, i: int, depth: int)
    requires
        brace_boundary(s1, s2, n),
        0 <= i,
        generics_end(s1, i, SourceLanguage::Rust, depth) matches Some(e) && e <= n,
    ensures
        generics_end(s2, i, SourceLanguage::Rust, depth) == generics_end(
            s1,
            i,
            SourceLanguage::Rust,
            depth,
        ),
    decreases s1.len() + 2 - i,
{
    let rs = SourceLanguage::Rust;
    lemma_generics_end_bounds(s1, i, rs, depth);
    assert(s2[i] == s1[i]);
    if i + 1 < n {
        assert(s2[i + 1] == s1[i + 1]);
    }
    if is_quote(s1[i]) {
        let next = skip_quoted_end(s1, i, rs);
        lemma_generics_end_bounds(s1, next, rs, depth);
        lemma_skip_quoted_upto(s1, s2, n, i);
        lemma_generics_upto(s1, s2, n, next, depth);
    } else if (s1[i] == 0x3d || s1[i] == 0x2d) && i + 1 < s1.len() && s1[i + 1] == 0x3e {
        lemma_generics_end_bounds(s1, i + 2, rs, depth);
        lemma_generics_upto(s1, s2, n, i + 2, depth);
    } else if s1[i] == 0x28 {
        let next = match_delimiter_spec(s1, i, rs)->Some_0;
        lemma_generics_end_bounds(s1, next, rs, depth);
        lemma_match_delimiter_upto(s1, s2, n, i);
        lemma_generics_upto(s1, s2, n, next, depth);
    } else if s1[i] == 0x3c {
        lemma_generics_end_bounds(s1, i + 1, rs, depth + 1);
        lemma_generics_upto(s1, s2, n, i + 1, depth + 1);
    } else if s1[i] == 0x3e {
        if depth - 1 != 0 {
            lemma_generics_end_bounds(s1, i + 1, rs, depth - 1);
            lemma_generics_upto(s1, s2, n, i + 1, depth - 1);
        }
    } else {
        lemma_generics_end_bounds(s1, i + 1, rs, depth);
        lemma_generics_upto(s1, s2, n, i + 1, depth);
    }
}

proof fn lemma_scan_to_upto(s1: Seq<u8>, s2: Seq<u8>, n: int, i: int, target: u8)
    requires
        brace_boundary(s1, s2, n),
        0 <= i,
        target != 0x2f,
        scan_to_spec(s1, i, SourceLanguage::Rust, target) matches Some(p) && p < n,
    ensures
        scan_to_spec(s2, i, SourceLanguage::Rust, target) == scan_to_spec(
            s1,
            i,
            SourceLanguage::Rust,
            target,
        ),
    decreases s1.len() + 2 - i,
{
    let rs = SourceLanguage::Rust;
    lemma_scan_to_bounds(s1, i, rs, target);
    assert(s2[i] == s1[i]);
    if i + 1 < n {
        assert(s2[i + 1] == s1[i + 1]);
    }
    if s1[i] == target {
    } else if is_quote(s1[i]) {
        let next = skip_quoted_end(s1, i, rs);
        lemma_scan_to_bounds(s1, next, rs, target);
        lemma_skip_quoted_upto(s1, s2, n, i);
        lemma_scan_to_upto(s1, s2, n, next, target);
    } else if comment_starts(s1, i) {
        let next = trivia_end(s1, i, 0);
        lemma_comment_advances(s1, i);
        lemma_scan_to_bounds(s1, next, rs, target);
        lemma_trivia_upto(s1, s2, n, i, 0);
        lemma_scan_to_upto(s1, s2, n, next, target);
    } else {
        lemma_scan_to_bounds(s1, i + 1, rs, target);
        lemma_scan_to_upto(s1, s2, n, i + 1, target);
    }
}

/// A Rust body search that ends at the brace at `n` ends, in a text that
/// agrees before `n`, where a search started at `n` there ends.
proof fn lemma_body_search_upto(s1: Seq<u8>, s2: Seq<u8>, n: int, i: int)
    requires
        brace_boundary(s1, s2, n),
        0 <= i <= n,
        body_search(s1, i, SourceLanguage::Rust) == Ok::<int, crate::contract::BraceFailure>(n),
    ensures
        body_search(s2, i, SourceLanguage::Rust) == body_search(s2, n, SourceLanguage::Rust),
    decreases s1.len() + 2 - i,
{
    let rs = SourceLanguage::Rust;
    lemma_trivia_end_bounds(s1, i, 0);
    lemma_trivia_end_bounds(s2, n, 0);
    lemma_trivia_end_bounds(s2, i, 0);
    let j = trivia_end(s1, i, 0);
    assert(j < s1.len() && s1[j] != 0x3b);
    if s1[j] == 0x7b {
        assert(j == n);
        lemma_trivia_upto(s1, s2, n, i, 0);
    } else if is_quote(s1[j]) {
        let next = skip_quoted_end(s1, j, rs);
        lemma_skip_quoted_bounds(s1, j, rs);
        lemma_body_search_after(s1, next, rs);
        lemma_trivia_upto(s1, s2, n, i, 0);
        assert(s2[j] == s1[j]);
        lemma_skip_quoted_upto(s1, s2, n, j);
        lemma_body_search_upto(s1, s2, n, next);
    } else {
        lemma_body_search_after(s1, j + 1, rs);
        lemma_trivia_upto(s1, s2, n, i, 0);
        assert(s2[j] == s1[j]);
        lemma_body_search_upto(s1, s2, n, j + 1);
    }
}

/// Where the body of a Rust function `name` opens is found, in a text that
/// agrees before that brace, where a body search started there ends.
pub(crate) proof fn lemma_body_brace_upto(t1: Seq<u8>, t2: Seq<u8>, name: Seq<u8>, n: int)
    requires
        brace_boundary(t1, t2, n),
        find(t1, name) is Some,
        body_brace_spec(t1, SourceLanguage::Rust, name) == Ok::<int, crate::contract::BraceFailure>(n),
    ensures
        body_brace_spec(t2, SourceLanguage::Rust, name) == body_search(t2, n, SourceLanguage::Rust),
{
    let rs = SourceLanguage::Rust;
    let p = find(t1, name)->Some_0;
    lemma_find_from_bounds(t1, name, 0);
    let start = p + name.len();
    let i0 = trivia_end(t1, start, 0);
    lemma_trivia_end_bounds(t1, start, 0);
    let i1 = if 0 <= i0 < t1.len() && t1[i0] == 0x3c {
        match_generics_spec(t1, i0, rs)->Some_0
    } else {
        i0
    };
    if 0 <= i0 < t1.len() && t1[i0] == 0x3c {
        lemma_generics_end_bounds(t1, i0, rs, 0);
    }
    let open = scan_to_spec(t1, i1, rs, 0x28)->Some_0;
    lemma_scan_to_bounds(t1, i1, rs, 0x28);
    let k = match_delimiter_spec(t1, open, rs)->Some_0;
    lemma_match_delimiter_bounds(t1, open, rs);
    lemma_body_search_after(t1, k, rs);
    lemma_find_prefix(t1, t2, n, name, 0);
    lemma_trivia_upto(t1, t2, n, start, 0);
    if 0 <= i0 < t1.len() && t1[i0] == 0x3c {
        assert(t2[i0] == t1[i0]);
        lemma_generics_upto(t1, t2, n, i0, 0);
    } else if 0 <= i0 < t1.len() {
        assert(t2[i0] == t1[i0]);
    }
    lemma_scan_to_upto(t1, t2, n, i1, 0x28);
    lemma_match_delimiter_upto(t1, t2, n, open);
    lemma_body_search_upto(t1, t2, n, k);
}

/// Whether a Rust body search walks from `i` to `q` without stopping:
/// outside comments no byte opens a body, ends a declaration or opens a
/// literal, and no block comment opens; a line comment (`c` says whether
/// `i` lies inside one) ends before `q`.
pub open spec fn walkable(s: Seq<u8>, i: int, q: int, c: bool) -> bool
    decreases q + 1 - i,
{
    if !(0 <= i < q) {
        !c
    } else if c {
        walkable(s, i + 1, q, s[i] != 0x0a)
    } else if i + 1 < s.len() && s[i] == 0x2f && s[i + 1] == 0x2f {
        walkable(s, i + 2, q, true)
    } else {
        &&& s[i] != 0x7b
        &&& s[i] != 0x3b
        &&& !is_quote(s[i])
        &&& !(i + 1 < s.len() && s[i] == 0x2f && s[i + 1] == 0x2a)
        &&& walkable(s, i + 1, q, false)
    }
}

proof fn lemma_trivia_walk(s: Seq<u8>, i: int, q: int, c: bool)
    requires
        0 <= i <= q < s.len(),
        s[q] == 0x7b,
        walkable(s, i, q, c),
    ensures
        ({
            let j = trivia_end(s, i, if c { 1 } else { 0 });
            &&& i <= j <= q
            &&& walkable(s, j, q, false)
            &&& j < q ==> !is_ascii_ws(s[j]) && !comment_starts(s, j)
        }),
    decreases q - i,
{
    if i < q {
        if c {
            if s[i] == 0x0a {
                assert(trivia_end(s, i, 1) == trivia_end(s, i, 0));
                assert(trivia_end(s, i, 0) == trivia_end(s, i + 1, 0));
                lemma_trivia_walk(s, i + 1, q, false);
            } else {
                lemma_trivia_walk(s, i + 1, q, true);
            }
        } else if i + 1 < s.len() && s[i] == 0x2f && s[i + 1] == 0x2f {
            lemma_trivia_walk(s, i + 2, q, true);
        } else if is_ascii_ws(s[i]) {
            lemma_trivia_walk(s, i + 1, q, false);
        }
    }
}

/// A Rust body search over walkable text ends at the brace after it.
pub(crate) proof fn lemma_body_walk(s: Seq<u8>, i: int, q: int)
    requires
        0 <= i <= q < s.len(),
        s[q] == 0x7b,
        walkable(s, i, q, false),
    ensures
        body_search(s, i, SourceLanguage::Rust) == Ok::<int, crate::contract::BraceFailure>(q),
    decreases q - i,
{
    lemma_trivia_walk(s, i, q, false);
    let j = trivia_end(s, i, 0);
    if j < q {
        assert(!(j + 1 < s.len() && s[j] == 0x2f && s[j + 1] == 0x2f));
        lemma_body_walk(s, j + 1, q);
    }
}

/// Walkability reads only the text it walks and the byte after it.
pub(crate) proof fn lemma_walkable_shift(a: Seq<u8>, b: Seq<u8>, r: Seq<u8>, j: int, c: bool)
    requires
        0 <= j <= b.len(),
        walkable(b, j, b.len() as int, c),
        r.len() > 0,
        r[0] != 0x2f && r[0] != 0x2a,
    ensures
        walkable(a + b + r, a.len() + j, (a.len() + b.len()) as int, c),
    decreases b.len() - j,
{
    let s = a + b + r;
    let k = a.len() + j;
    if j < b.len() {
        assert(s[k] == b[j]);
        if j + 1 < b.len() {
            assert(s[k + 1] == b[j + 1]);
        } else {
            assert(s[k + 1] == r[0]);
        }
        if c {
            lemma_walkable_shift(a, b, r, j + 1, b[j] != 0x0a);
        } else if j + 1 < b.len() && b[j] == 0x2f && b[j + 1] == 0x2f {
            lemma_walkable_shift(a, b, r, j + 2, true);
        } else {
            lemma_walkable_shift(a, b, r, j + 1, false);
        }
    }
}

/// Walkable texts that do not end with `/` walk on into each other.
pub(crate) proof fn lemma_walkable_concat(x: Seq<u8>, y: Seq<u8>, k: int, c: bool)
    requires
        0 <= k <= x.len(),
        walkable(x, k, x.len() as int, c),
        walkable(y, 0, y.len() as int, false),
        x.len() > 0 ==> x.last() != 0x2f,
    ensures
        walkable(x + y, k, (x.len() + y.len()) as int, c),
    decreases x.len() - k,
{
    let s = x + y;
    if k < x.len() {
        assert(s[k] == x[k]);
        if k + 1 < x.len() {
            assert(s[k + 1] == x[k + 1]);
        } else {
            assert(x[k] == x.last());
        }
        if c {
            lemma_walkable_concat(x, y, k + 1, x[k] != 0x0a);
        } else if k + 1 < x.len() && x[k] == 0x2f && x[k + 1] == 0x2f {
            lemma_walkable_concat(x, y, k + 2, true);
        } else {
            lemma_walkable_concat(x, y, k + 1, false);
        }
    } else {
        lemma_walkable_suffix(x, y, 0, false);
    }
}

proof fn lemma_walkable_suffix(x: Seq<u8>, y: Seq<u8>, j: int, c: bool)
    requires
        0 <= j <= y.len(),
        walkable(y, j, y.len() as int, c),
    ensures
        walkable(x + y, x.len() + j, (x.len() + y.len()) as int, c),
    decreases y.len() - j,
{
    let s = x + y;
    let k = x.len() + j;
    if j < y.len() {
        assert(s[k] == y[j]);
        if j + 1 < y.len() {
            assert(s[k + 1] == y[j + 1]);
        }
        if c {
            lemma_walkable_suffix(x, y, j + 1, y[j] != 0x0a);
        } else if j + 1 < y.len() && y[j] == 0x2f && y[j + 1] == 0x2f {
            lemma_walkable_suffix(x, y, j + 2, true);
        } else {
            lemma_walkable_suffix(x, y, j + 1, false);
        }
    }
}

/// The brace a body search finds opens the body, past the text's start.
pub(crate) proof fn lemma_body_brace_facts(t: Seq<u8>, name: Seq<u8>, language: SourceLanguage, b: int)
    requires
        body_brace_spec(t, language, name) == Ok::<int, crate::contract::BraceFailure>(b),
    ensures
        0 < b < t.len(),
        t[b] == 0x7b,
{
    let start = match find(t, name) {
        Some(p) => p + name.len(),
        None => 0,
    };
    lemma_find_from_bounds(t, name, 0);
    let i0 = trivia_end(t, start, 0);
    lemma_trivia_end_bounds(t, start, 0);
    let i1 = if 0 <= i0 < t.len() && t[i0] == 0x3c {
        match_generics_spec(t, i0, language)->Some_0
    } else {
        i0
    };
    if 0 <= i0 < t.len() && t[i0] == 0x3c {
        lemma_generics_end_bounds(t, i0, language, 0);
    }
    let open = scan_to_spec(t, i1, language, 0x28)->Some_0;
    lemma_scan_to_bounds(t, i1, language, 0x28);
    let k = match_delimiter_spec(t, open, language)->Some_0;
    lemma_match_delimiter_bounds(t, open, language);
    lemma_body_search_after(t, k, language);
    lemma_body_search_bounds(t, k, language);
}

} // verus!
