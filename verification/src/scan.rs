//! Lexical scanning of TypeScript, Rust and Java source bytes: stepping over
//! whitespace, comments and literals, and matching brackets, so that the
//! brace opening a function body can be found without being fooled by braces
//! inside signatures, strings or comments.
use vstd::prelude::*;

verus! {

/// The languages whose sources the toolkit reads.
#[derive(Debug, Clone, Copy, PartialEq, Eq, PartialOrd, Ord, Structural)]
pub enum SourceLanguage {
    TypeScript,
    Rust,
    Java,
}

/// ASCII whitespace as `u8::is_ascii_whitespace` defines it.
pub open spec fn is_ascii_ws(b: u8) -> bool {
    b == 0x20 || b == 0x09 || b == 0x0A || b == 0x0C || b == 0x0D
}

/// A byte that opens a string, character or template literal.
pub open spec fn is_quote(b: u8) -> bool {
    b == 0x22 || b == 0x27 || b == 0x60
}

/// The byte at `i`, if there is one.
pub open spec fn byte_at(s: Seq<u8>, i: int) -> Option<u8> {
    if 0 <= i < s.len() {
        Some(s[i])
    } else {
        None
    }
}

/// Whether a comment (`//` or `/*`) starts at `i`.
pub open spec fn comment_starts(s: Seq<u8>, i: int) -> bool {
    0 <= i && i + 1 < s.len() && s[i] == 0x2f && (s[i + 1] == 0x2f || s[i + 1] == 0x2a)
}

/// Where trivia scanning stops, from index `i` in scanning mode `mode`:
/// mode 0 is code, mode 1 is inside a line comment, mode 2 is inside a
/// block comment.
pub open spec fn trivia_end(s: Seq<u8>, i: int, mode: nat) -> int
    decreases s.len() + 2 - i, mode,
{
    if mode == 0 {
        if 0 <= i < s.len() && is_ascii_ws(s[i]) {
            trivia_end(s, i + 1, 0)
        } else if 0 <= i && i + 1 < s.len() && s[i] == 0x2f && s[i + 1] == 0x2f {
            trivia_end(s, i + 2, 1)
        } else if 0 <= i && i + 1 < s.len() && s[i] == 0x2f && s[i + 1] == 0x2a {
            trivia_end(s, i + 2, 2)
        } else {
            i
        }
    } else if mode == 1 {
        if 0 <= i < s.len() && s[i] != 0x0a {
            trivia_end(s, i + 1, 1)
        } else if i <= s.len() {
            trivia_end(s, i, 0)
        } else {
            i
        }
    } else {
        if 0 <= i < s.len() && !(s[i] == 0x2a && i + 1 < s.len() && s[i + 1] == 0x2f) {
            trivia_end(s, i + 1, 2)
        } else if i + 2 <= s.len() {
            trivia_end(s, i + 2, 0)
        } else if i <= s.len() {
            trivia_end(s, s.len() as int, 0)
        } else {
            i
        }
    }
}

/// Trivia scanning never moves backwards, and from inside the text it stays
/// inside the text.
pub proof fn lemma_trivia_end_bounds(s: Seq<u8>, i: int, mode: nat)
    requires
        0 <= i,
    ensures
        i <= s.len() ==> i <= trivia_end(s, i, mode) <= s.len(),
        i > s.len() ==> trivia_end(s, i, mode) == i,
    decreases s.len() + 2 - i, mode,
{
    if mode == 0 {
        if 0 <= i < s.len() && is_ascii_ws(s[i]) {
            lemma_trivia_end_bounds(s, i + 1, 0);
        } else if 0 <= i && i + 1 < s.len() && s[i] == 0x2f && s[i + 1] == 0x2f {
            lemma_trivia_end_bounds(s, i + 2, 1);
        } else if 0 <= i && i + 1 < s.len() && s[i] == 0x2f && s[i + 1] == 0x2a {
            lemma_trivia_end_bounds(s, i + 2, 2);
        }
    } else if mode == 1 {
        if 0 <= i < s.len() && s[i] != 0x0a {
            lemma_trivia_end_bounds(s, i + 1, 1);
        } else if i <= s.len() {
            lemma_trivia_end_bounds(s, i, 0);
        }
    } else {
        if 0 <= i < s.len() && !(s[i] == 0x2a && i + 1 < s.len() && s[i + 1] == 0x2f) {
            lemma_trivia_end_bounds(s, i + 1, 2);
        } else if i + 2 <= s.len() {
            lemma_trivia_end_bounds(s, i + 2, 0);
        } else if i <= s.len() {
            lemma_trivia_end_bounds(s, s.len() as int, 0);
        }
    }
}

/// Index of the first byte at or after `index` that is neither ASCII
/// whitespace nor part of a `//` or `/* */` comment.
pub fn skip_trivia(bytes: &[u8], index: usize) -> (r: usize)
    requires
        index <= bytes@.len() + 1,
        bytes@.len() < usize::MAX,
    ensures
        r == trivia_end(bytes@, index as int, 0),
        r >= index,
        index <= bytes@.len() ==> r <= bytes@.len(),
        index > bytes@.len() ==> r == index,
{
    let ghost s = bytes@;
    proof {
        lemma_trivia_end_bounds(s, index as int, 0);
    }
    let len = bytes.len();
    let mut pos = index;
    loop
        invariant
            len == s.len(),
            len < usize::MAX,
            s == bytes@,
            pos <= len + 1,
            index <= len + 1,
            trivia_end(s, index as int, 0) >= index,
            index <= len ==> trivia_end(s, index as int, 0) <= len,
            index > len ==> trivia_end(s, index as int, 0) == index,
            trivia_end(s, pos as int, 0) == trivia_end(s, index as int, 0),
        decreases len + 2 - pos,
    {
        if pos < len && (bytes[pos] == 0x20 || bytes[pos] == 0x09 || bytes[pos] == 0x0a
            || bytes[pos] == 0x0c || bytes[pos] == 0x0d) {
            pos = pos + 1;
        } else if pos < len && pos + 1 < len && bytes[pos] == 0x2f && bytes[pos + 1] == 0x2f {
            let ghost start = pos;
            pos = pos + 2;
            while pos < len && bytes[pos] != 0x0a
                invariant
                    len == s.len(),
                    len < usize::MAX,
                    s == bytes@,
                    start + 2 <= pos <= len,
                    trivia_end(s, pos as int, 1) == trivia_end(s, index as int, 0),
                decreases len - pos,
            {
                pos = pos + 1;
            }
        } else if pos < len && pos + 1 < len && bytes[pos] == 0x2f && bytes[pos + 1] == 0x2a {
            let ghost start = pos;
            pos = pos + 2;
            while pos < len && !(bytes[pos] == 0x2a && pos + 1 < len && bytes[pos + 1] == 0x2f)
                invariant
                    len == s.len(),
                    len < usize::MAX,
                    s == bytes@,
                    start + 2 <= pos <= len,
                    trivia_end(s, pos as int, 2) == trivia_end(s, index as int, 0),
                decreases len - pos,
            {
                pos = pos + 1;
            }
            if len - pos >= 2 {
                pos = pos + 2;
            } else {
                pos = len;
            }
        } else {
            return pos;
        }
    }
}

/// Whether the `'` at `i` opens a Rust character literal rather than a
/// lifetime.
pub open spec fn char_literal_at(s: Seq<u8>, i: int) -> bool {
    if 0 <= i + 1 < s.len() {
        s[i + 1] == 0x5c || (0 <= i + 2 < s.len() && s[i + 2] == 0x27)
    } else {
        false
    }
}

/// Whether the `'` at `index` opens a Rust character literal rather than a
/// lifetime.
pub fn is_char_literal(bytes: &[u8], index: usize) -> (r: bool)
    requires
        index < bytes@.len(),
    ensures
        r == char_literal_at(bytes@, index as int),
{
    let len = bytes.len();
    if index + 1 < len {
        bytes[index + 1] == 0x5c || (index + 2 < len && bytes[index + 2] == 0x27)
    } else {
        false
    }
}

/// Where a literal closed by `quote` ends when scanning from `c`: just past
/// the closing quote, with a backslash escaping the byte after it.
pub open spec fn quoted_end(s: Seq<u8>, quote: u8, c: int) -> int
    decreases s.len() + 1 - c,
{
    if 0 <= c < s.len() {
        if s[c] == 0x5c {
            quoted_end(s, quote, c + 2)
        } else if s[c] == quote {
            c + 1
        } else {
            quoted_end(s, quote, c + 1)
        }
    } else {
        c
    }
}

/// Index just past the literal opened at `i`; a Rust lifetime is one byte.
pub open spec fn skip_quoted_end(s: Seq<u8>, i: int, language: SourceLanguage) -> int {
    if s[i] == 0x27 && language == SourceLanguage::Rust && !char_literal_at(s, i) {
        i + 1
    } else {
        quoted_end(s, s[i], i + 1)
    }
}

pub(crate) proof fn lemma_quoted_end_bounds(s: Seq<u8>, quote: u8, c: int)
    requires
        0 <= c <= s.len() + 1,
    ensures
        c <= quoted_end(s, quote, c) <= s.len() + 1,
    decreases s.len() + 1 - c,
{
    if 0 <= c < s.len() {
        if s[c] == 0x5c {
            lemma_quoted_end_bounds(s, quote, c + 2);
        } else if s[c] != quote {
            lemma_quoted_end_bounds(s, quote, c + 1);
        }
    }
}

/// A literal ends after it starts and at most one byte past the text.
pub proof fn lemma_skip_quoted_bounds(s: Seq<u8>, i: int, language: SourceLanguage)
    requires
        0 <= i < s.len(),
    ensures
        i < skip_quoted_end(s, i, language) <= s.len() + 1,
{
    lemma_quoted_end_bounds(s, s[i], i + 1);
}

/// Index just past the closing quote of the literal starting at `index`. A
/// Rust lifetime (`'a`) is not a literal, so it advances a single byte.
pub fn skip_quoted(bytes: &[u8], index: usize, language: SourceLanguage) -> (r: usize)
    requires
        index < bytes@.len(),
        bytes@.len() < usize::MAX,
    ensures
        r == skip_quoted_end(bytes@, index as int, language),
        index < r <= bytes@.len() + 1,
{
    proof {
        lemma_skip_quoted_bounds(bytes@, index as int, language);
    }
    let quote = bytes[index];
    if quote == 0x27 && language == SourceLanguage::Rust && !is_char_literal(bytes, index) {
        return index + 1;
    }
    let len = bytes.len();
    let mut cursor = index + 1;
    while cursor < len
        invariant
            len == bytes@.len(),
            len < usize::MAX,
            index < cursor <= len + 1,
            quote == bytes@[index as int],
            !(quote == 0x27 && language == SourceLanguage::Rust && !char_literal_at(
                bytes@,
                index as int,
            )),
            quoted_end(bytes@, quote, cursor as int) == quoted_end(bytes@, quote, index + 1),
        decreases len + 1 - cursor,
    {
        if bytes[cursor] == 0x5c {
            cursor = cursor + 2;
        } else if bytes[cursor] == quote {
            return cursor + 1;
        } else {
            cursor = cursor + 1;
        }
    }
    cursor
}

/// The next `target` byte that is real code, scanning from `i`.
pub open spec fn scan_to_spec(s: Seq<u8>, i: int, language: SourceLanguage, target: u8) -> Option<
    int,
>
    decreases s.len() + 2 - i,
{
    if 0 <= i < s.len() {
        if s[i] == target {
            Some(i)
        } else if is_quote(s[i]) {
            let next = skip_quoted_end(s, i, language);
            if i < next <= s.len() + 1 {
                scan_to_spec(s, next, language, target)
            } else {
                None
            }
        } else if comment_starts(s, i) {
            let next = trivia_end(s, i, 0);
            if i < next <= s.len() {
                scan_to_spec(s, next, language, target)
            } else {
                None
            }
        } else {
            scan_to_spec(s, i + 1, language, target)
        }
    } else {
        None
    }
}

/// A comment start is always stepped over: trivia scanning moves past it.
pub(crate) proof fn lemma_comment_advances(s: Seq<u8>, i: int)
    requires
        comment_starts(s, i),
    ensures
        i < trivia_end(s, i, 0) <= s.len(),
{
    if s[i + 1] == 0x2f {
        lemma_trivia_end_bounds(s, i + 2, 1);
    } else {
        lemma_trivia_end_bounds(s, i + 2, 2);
    }
}

pub(crate) proof fn lemma_scan_to_bounds(s: Seq<u8>, i: int, language: SourceLanguage, target: u8)
    ensures
        scan_to_spec(s, i, language, target) matches Some(k) ==> i <= k < s.len(),
    decreases s.len() + 2 - i,
{
    if 0 <= i < s.len() {
        if s[i] == target {
        } else if is_quote(s[i]) {
            let next = skip_quoted_end(s, i, language);
            if i < next <= s.len() + 1 {
                lemma_scan_to_bounds(s, next, language, target);
            }
        } else if comment_starts(s, i) {
            let next = trivia_end(s, i, 0);
            if i < next <= s.len() {
                lemma_scan_to_bounds(s, next, language, target);
            }
        } else {
            lemma_scan_to_bounds(s, i + 1, language, target);
        }
    }
}

/// Index of the next `target` byte that is real code, skipping over string
/// literals and comments.
pub fn scan_to(bytes: &[u8], index: usize, language: SourceLanguage, target: u8) -> (r: Option<
    usize,
>)
    requires
        index <= bytes@.len() + 1,
        bytes@.len() < usize::MAX,
    ensures
        r == match scan_to_spec(bytes@, index as int, language, target) {
            Some(k) => Some(k as usize),
            None => None::<usize>,
        },
        r matches Some(k) ==> index <= k < bytes@.len(),
        scan_to_spec(bytes@, index as int, language, target) matches Some(k) ==> index <= k
            < bytes@.len(),
{
    let ghost goal = scan_to_spec(bytes@, index as int, language, target);
    proof {
        lemma_scan_to_bounds(bytes@, index as int, language, target);
    }
    let len = bytes.len();
    let mut pos = index;
    while pos < len
        invariant
            len == bytes@.len(),
            len < usize::MAX,
            index <= pos <= len + 1,
            goal == scan_to_spec(bytes@, index as int, language, target),
            scan_to_spec(bytes@, pos as int, language, target) == goal,
        decreases len + 2 - pos,
    {
        proof {
            lemma_scan_to_bounds(bytes@, pos as int, language, target);
        }
        let byte = bytes[pos];
        if byte == target {
            return Some(pos);
        } else if byte == 0x22 || byte == 0x27 || byte == 0x60 {
            pos = skip_quoted(bytes, pos, language);
        } else if pos + 1 < len && byte == 0x2f && (bytes[pos + 1] == 0x2f || bytes[pos + 1]
            == 0x2a) {
            proof {
                lemma_comment_advances(bytes@, pos as int);
            }
            pos = skip_trivia(bytes, pos);
        } else {
            pos = pos + 1;
        }
    }
    None
}

/// The closing bracket of an opening one, if the byte is an opening bracket.
pub open spec fn closing_of(opening: u8) -> Option<u8> {
    if opening == 0x28 {
        Some(0x29u8)
    } else if opening == 0x5b {
        Some(0x5du8)
    } else if opening == 0x7b {
        Some(0x7du8)
    } else {
        None
    }
}

/// Scanning for the bracket that closes a group, from `i` at nesting
/// `depth`: the index just past it, or `None` when the text ends first.
pub open spec fn delimiter_end(
    s: Seq<u8>,
    i: int,
    language: SourceLanguage,
    opening: u8,
    closing: u8,
    depth: int,
) -> Option<int>
    decreases s.len() + 2 - i,
{
    if 0 <= i < s.len() {
        if is_quote(s[i]) {
            let next = skip_quoted_end(s, i, language);
            if i < next <= s.len() + 1 {
                delimiter_end(s, next, language, opening, closing, depth)
            } else {
                None
            }
        } else if comment_starts(s, i) {
            let next = trivia_end(s, i, 0);
            if i < next <= s.len() {
                delimiter_end(s, next, language, opening, closing, depth)
            } else {
                None
            }
        } else if s[i] == opening {
            delimiter_end(s, i + 1, language, opening, closing, depth + 1)
        } else if s[i] == closing {
            if depth - 1 == 0 {
                Some(i + 1)
            } else {
                delimiter_end(s, i + 1, language, opening, closing, depth - 1)
            }
        } else {
            delimiter_end(s, i + 1, language, opening, closing, depth)
        }
    } else {
        None
    }
}

/// Index just past the bracket matching the opening one at `open`.
pub open spec fn match_delimiter_spec(s: Seq<u8>, open: int, language: SourceLanguage) -> Option<
    int,
> {
    match byte_at(s, open) {
        Some(opening) => match closing_of(opening) {
            Some(closing) => delimiter_end(s, open, language, opening, closing, 0),
            None => None,
        },
        None => None,
    }
}

pub(crate) proof fn lemma_delimiter_end_bounds(
    s: Seq<u8>,
    i: int,
    language: SourceLanguage,
    opening: u8,
    closing: u8,
    depth: int,
)
    ensures
        delimiter_end(s, i, language, opening, closing, depth) matches Some(k) ==> i < k <= s.len(),
    decreases s.len() + 2 - i,
{
    if 0 <= i < s.len() {
        if is_quote(s[i]) {
            let next = skip_quoted_end(s, i, language);
            if i < next <= s.len() + 1 {
                lemma_delimiter_end_bounds(s, next, language, opening, closing, depth);
            }
        } else if comment_starts(s, i) {
            let next = trivia_end(s, i, 0);
            if i < next <= s.len() {
                lemma_delimiter_end_bounds(s, next, language, opening, closing, depth);
            }
        } else if s[i] == opening {
            lemma_delimiter_end_bounds(s, i + 1, language, opening, closing, depth + 1);
        } else if s[i] == closing {
            if depth - 1 != 0 {
                lemma_delimiter_end_bounds(s, i + 1, language, opening, closing, depth - 1);
            }
        } else {
            lemma_delimiter_end_bounds(s, i + 1, language, opening, closing, depth);
        }
    }
}

/// A bracket group, once matched, ends after it opens and inside the text.
pub proof fn lemma_match_delimiter_bounds(s: Seq<u8>, open: int, language: SourceLanguage)
    ensures
        match_delimiter_spec(s, open, language) matches Some(k) ==> open < k <= s.len(),
{
    match byte_at(s, open) {
        Some(opening) => match closing_of(opening) {
            Some(closing) => lemma_delimiter_end_bounds(s, open, language, opening, closing, 0),
            None => {},
        },
        None => {},
    }
}

/// Index just past the bracket matching the one at `open`.
pub fn match_delimiter(bytes: &[u8], open: usize, language: SourceLanguage) -> (r: Option<usize>)
    requires
        bytes@.len() < usize::MAX,
    ensures
        r == match match_delimiter_spec(bytes@, open as int, language) {
            Some(k) => Some(k as usize),
            None => None::<usize>,
        },
        r matches Some(k) ==> open < k <= bytes@.len(),
        match_delimiter_spec(bytes@, open as int, language) matches Some(k) ==> open < k
            <= bytes@.len(),
{
    proof {
        lemma_match_delimiter_bounds(bytes@, open as int, language);
    }
    let len = bytes.len();
    if open >= len {
        return None;
    }
    let opening = bytes[open];
    let closing: u8 = if opening == 0x28 {
        0x29
    } else if opening == 0x5b {
        0x5d
    } else if opening == 0x7b {
        0x7d
    } else {
        return None;
    };
    let ghost goal = delimiter_end(bytes@, open as int, language, opening, closing, 0);
    let mut depth: usize = 0;
    let mut index = open;
    while index < len
        invariant
            len == bytes@.len(),
            len < usize::MAX,
            goal == match_delimiter_spec(bytes@, open as int, language),
            open <= index <= len + 1,
            depth <= index - open,
            index > open ==> depth >= 1,
            index == open ==> depth == 0,
            opening == bytes@[open as int],
            closing_of(opening) == Some(closing),
            opening != closing,
            delimiter_end(bytes@, index as int, language, opening, closing, depth as int) == goal,
        decreases len + 2 - index,
    {
        let byte = bytes[index];
        if byte == 0x22 || byte == 0x27 || byte == 0x60 {
            proof {
                lemma_skip_quoted_bounds(bytes@, index as int, language);
            }
            index = skip_quoted(bytes, index, language);
        } else if index + 1 < len && byte == 0x2f && (bytes[index + 1] == 0x2f
            || bytes[index + 1] == 0x2a) {
            proof {
                lemma_comment_advances(bytes@, index as int);
            }
            index = skip_trivia(bytes, index);
        } else if byte == opening {
            depth = depth + 1;
            index = index + 1;
        } else if byte == closing {
            if depth == 1 {
                return Some(index + 1);
            }
            depth = depth - 1;
            index = index + 1;
        } else {
            index = index + 1;
        }
    }
    None
}

/// Scanning a generic parameter list from `i` at nesting `depth`: the index
/// just past its closing `>`, or `None` when the text ends first.
pub open spec fn generics_end(s: Seq<u8>, i: int, language: SourceLanguage, depth: int) -> Option<
    int,
>
    decreases s.len() + 2 - i,
{
    if 0 <= i < s.len() {
        if is_quote(s[i]) {
            let next = skip_quoted_end(s, i, language);
            if i < next <= s.len() + 1 {
                generics_end(s, next, language, depth)
            } else {
                None
            }
        } else if (s[i] == 0x3d || s[i] == 0x2d) && i + 1 < s.len() && s[i + 1] == 0x3e {
            generics_end(s, i + 2, language, depth)
        } else if s[i] == 0x28 {
            match match_delimiter_spec(s, i, language) {
                Some(next) => if i < next <= s.len() {
                    generics_end(s, next, language, depth)
                } else {
                    None
                },
                None => None,
            }
        } else if s[i] == 0x3c {
            generics_end(s, i + 1, language, depth + 1)
        } else if s[i] == 0x3e {
            if depth - 1 == 0 {
                Some(i + 1)
            } else {
                generics_end(s, i + 1, language, depth - 1)
            }
        } else {
            generics_end(s, i + 1, language, depth)
        }
    } else {
        None
    }
}

pub(crate) proof fn lemma_generics_end_bounds(s: Seq<u8>, i: int, language: SourceLanguage, depth: int)
    ensures
        generics_end(s, i, language, depth) matches Some(k) ==> i < k <= s.len(),
    decreases s.len() + 2 - i,
{
    if 0 <= i < s.len() {
        if is_quote(s[i]) {
            let next = skip_quoted_end(s, i, language);
            if i < next <= s.len() + 1 {
                lemma_generics_end_bounds(s, next, language, depth);
            }
        } else if (s[i] == 0x3d || s[i] == 0x2d) && i + 1 < s.len() && s[i + 1] == 0x3e {
            lemma_generics_end_bounds(s, i + 2, language, depth);
        } else if s[i] == 0x28 {
            match match_delimiter_spec(s, i, language) {
                Some(next) => if i < next <= s.len() {
                    lemma_generics_end_bounds(s, next, language, depth);
                },
                None => {},
            }
        } else if s[i] == 0x3c {
            lemma_generics_end_bounds(s, i + 1, language, depth + 1);
        } else if s[i] == 0x3e {
            if depth - 1 != 0 {
                lemma_generics_end_bounds(s, i + 1, language, depth - 1);
            }
        } else {
            lemma_generics_end_bounds(s, i + 1, language, depth);
        }
    }
}

/// Index just past the `>` closing the generic list opened at `open`.
pub open spec fn match_generics_spec(s: Seq<u8>, open: int, language: SourceLanguage) -> Option<
    int,
> {
    generics_end(s, open, language, 0)
}

/// Index just past the `>` closing the generic list at `open`. Arrow and
/// return tokens (`=>`, `->`) are consumed whole so their `>` does not read
/// as a closing bracket.
pub fn match_generics(bytes: &[u8], open: usize, language: SourceLanguage) -> (r: Option<usize>)
    requires
        open < bytes@.len(),
        bytes@[open as int] == 0x3c,
        bytes@.len() < usize::MAX,
    ensures
        r == match match_generics_spec(bytes@, open as int, language) {
            Some(k) => Some(k as usize),
            None => None::<usize>,
        },
        r matches Some(k) ==> open < k <= bytes@.len(),
        match_generics_spec(bytes@, open as int, language) matches Some(k) ==> open < k
            <= bytes@.len(),
{
    proof {
        lemma_generics_end_bounds(bytes@, open as int, language, 0);
    }
    let ghost goal = generics_end(bytes@, open as int, language, 0);
    let len = bytes.len();
    let mut depth: usize = 0;
    let mut index = open;
    while index < len
        invariant
            len == bytes@.len(),
            len < usize::MAX,
            goal == match_generics_spec(bytes@, open as int, language),
            open <= index <= len + 1,
            depth <= index - open,
            index > open ==> depth >= 1,
            index == open ==> depth == 0,
            bytes@[open as int] == 0x3c,
            generics_end(bytes@, index as int, language, depth as int) == goal,
        decreases len + 2 - index,
    {
        let byte = bytes[index];
        if byte == 0x22 || byte == 0x27 || byte == 0x60 {
            index = skip_quoted(bytes, index, language);
        } else if (byte == 0x3d || byte == 0x2d) && index + 1 < len && bytes[index + 1] == 0x3e {
            index = index + 2;
        } else if byte == 0x28 {
            match match_delimiter(bytes, index, language) {
                Some(next) => {
                    index = next;
                },
                None => {
                    return None;
                },
            }
        } else if byte == 0x3c {
            depth = depth + 1;
            index = index + 1;
        } else if byte == 0x3e {
            if depth == 1 {
                return Some(index + 1);
            }
            depth = depth - 1;
            index = index + 1;
        } else {
            index = index + 1;
        }
    }
    None
}

} // verus!
