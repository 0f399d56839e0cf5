//! Placing contract annotations into source text: finding the brace that
//! opens a function body, reading the annotations already there, and building
//! the text to insert so that re-running never duplicates a clause.
use vstd::prelude::*;
use vstd::utf8::encode_utf8;

use crate::bytes::{
    append_bytes, contains_crlf, find, find_bytes, has_crlf, join, join_bytes, line_spans,
    lines, range_equals, range_starts_with, slice_bytes, spans_match_lines, trim, trim_range,
    trim_start, trim_start_index, LineSpan,
};
use crate::scan::{
    is_quote, match_delimiter, match_delimiter_spec, match_generics, match_generics_spec,
    scan_to, scan_to_spec, skip_quoted, skip_quoted_end, skip_trivia, trivia_end,
    SourceLanguage,
};

verus! {

broadcast use vstd::string::group_string_axioms;

/// Why the body of a function could not be located.
#[derive(Debug, Clone, Copy, PartialEq, Eq, Structural)]
pub enum BraceFailure {
    UnterminatedGenerics,
    NoParameterList,
    UnterminatedParameters,
    NoBody,
    NoWritableBody,
}

impl BraceFailure {
    /// How the failure reads after "symbol '<name>' ".
    pub open spec fn detail(self) -> Seq<char> {
        match self {
            BraceFailure::UnterminatedGenerics => "has an unterminated generic parameter list"@,
            BraceFailure::NoParameterList => "has no parameter list"@,
            BraceFailure::UnterminatedParameters => "has an unterminated parameter list"@,
            BraceFailure::NoBody => "has no function body"@,
            BraceFailure::NoWritableBody => "has no writable function body"@,
        }
    }

    /// How the failure reads after "symbol '<name>' ".
    pub fn detail_str(self) -> (s: &'static str)
        ensures
            s@ == self.detail(),
    {
        match self {
            BraceFailure::UnterminatedGenerics => "has an unterminated generic parameter list",
            BraceFailure::NoParameterList => "has no parameter list",
            BraceFailure::UnterminatedParameters => "has an unterminated parameter list",
            BraceFailure::NoBody => "has no function body",
            BraceFailure::NoWritableBody => "has no writable function body",
        }
    }
}

/// Searching for the body's `{` from index `i`, past the parameter list.
/// A body whose braces never balance still opens at its first `{`; in
/// TypeScript an object-literal return type before the body is stepped over.
pub open spec fn body_search(s: Seq<u8>, i: int, language: SourceLanguage) -> Result<
    int,
    BraceFailure,
>
    decreases s.len() + 2 - i,
{
    if !(0 <= i <= s.len() + 1) {
        Err(BraceFailure::NoBody)
    } else {
        let j = trivia_end(s, i, 0);
        if !(i <= j) {
            Err(BraceFailure::NoBody)
        } else if j >= s.len() {
            Err(BraceFailure::NoBody)
        } else if s[j] == 0x3b {
            Err(BraceFailure::NoWritableBody)
        } else if s[j] == 0x7b {
            match match_delimiter_spec(s, j, language) {
                None => Ok(j),
                Some(close) => {
                    let k = trivia_end(s, close, 0);
                    if language == SourceLanguage::TypeScript && 0 <= k < s.len() && s[k] == 0x7b
                        && j < k {
                        body_search(s, k, language)
                    } else {
                        Ok(j)
                    }
                },
            }
        } else if is_quote(s[j]) {
            let next = skip_quoted_end(s, j, language);
            if j < next <= s.len() + 1 {
                body_search(s, next, language)
            } else {
                Err(BraceFailure::NoBody)
            }
        } else {
            body_search(s, j + 1, language)
        }
    }
}

/// Byte offset of the `{` that opens the body of the function `name`,
/// searching `tail` from its start: past the name, any generic parameter
/// list and the parameter list.
pub open spec fn body_brace_spec(tail: Seq<u8>, language: SourceLanguage, name: Seq<u8>) -> Result<
    int,
    BraceFailure,
> {
    let start = match find(tail, name) {
        Some(p) => p + name.len(),
        None => 0,
    };
    let i0 = trivia_end(tail, start, 0);
    let generics = if 0 <= i0 < tail.len() && tail[i0] == 0x3c {
        match match_generics_spec(tail, i0, language) {
            Some(k) => Ok(k),
            None => Err(BraceFailure::UnterminatedGenerics),
        }
    } else {
        Ok(i0)
    };
    match generics {
        Err(e) => Err(e),
        Ok(i1) => match scan_to_spec(tail, i1, language, 0x28) {
            None => Err(BraceFailure::NoParameterList),
            Some(open) => match match_delimiter_spec(tail, open, language) {
                None => Err(BraceFailure::UnterminatedParameters),
                Some(k) => body_search(tail, k, language),
            },
        },
    }
}

pub(crate) proof fn lemma_body_search_bounds(s: Seq<u8>, i: int, language: SourceLanguage)
    ensures
        body_search(s, i, language) matches Ok(k) ==> 0 <= k < s.len() && s[k] == 0x7b,
    decreases s.len() + 2 - i,
{
    if 0 <= i <= s.len() + 1 {
        let j = trivia_end(s, i, 0);
        if i <= j && j < s.len() && s[j] != 0x3b {
            if s[j] == 0x7b {
                match match_delimiter_spec(s, j, language) {
                    None => {},
                    Some(close) => {
                        let k = trivia_end(s, close, 0);
                        if language == SourceLanguage::TypeScript && 0 <= k < s.len() && s[k]
                            == 0x7b && j < k {
                            lemma_body_search_bounds(s, k, language);
                        }
                    },
                }
            } else if is_quote(s[j]) {
                let next = skip_quoted_end(s, j, language);
                if j < next <= s.len() + 1 {
                    lemma_body_search_bounds(s, next, language);
                }
            } else {
                lemma_body_search_bounds(s, j + 1, language);
            }
        }
    }
}

fn body_search_exec(bytes: &[u8], start: usize, language: SourceLanguage) -> (r: Result<
    usize,
    BraceFailure,
>)
    requires
        start <= bytes@.len() + 1,
        bytes@.len() < usize::MAX,
    ensures
        r == match body_search(bytes@, start as int, language) {
            Ok(k) => Ok(k as usize),
            Err(e) => Err::<usize, BraceFailure>(e),
        },
        r matches Ok(k) ==> k < bytes@.len() && bytes@[k as int] == 0x7b,
{
    proof {
        lemma_body_search_bounds(bytes@, start as int, language);
    }
    let len = bytes.len();
    let mut index = start;
    loop
        invariant
            len == bytes@.len(),
            len < usize::MAX,
            index <= len + 1,
            body_search(bytes@, index as int, language) == body_search(
                bytes@,
                start as int,
                language,
            ),
            body_search(bytes@, start as int, language) matches Ok(k) ==> 0 <= k < len
                && bytes@[k] == 0x7b,
        decreases len + 2 - index,
    {
        let j = skip_trivia(bytes, index);
        if j >= len {
            return Err(BraceFailure::NoBody);
        }
        let b = bytes[j];
        if b == 0x3b {
            return Err(BraceFailure::NoWritableBody);
        }
        if b == 0x7b {
            match match_delimiter(bytes, j, language) {
                None => {
                    return Ok(j);
                },
                Some(close) => {
                    let k = skip_trivia(bytes, close);
                    if language == SourceLanguage::TypeScript && k < len && bytes[k] == 0x7b {
                        index = k;
                        continue ;
                    }
                    return Ok(j);
                },
            }
        } else if b == 0x22 || b == 0x27 || b == 0x60 {
            index = skip_quoted(bytes, j, language);
        } else {
            index = j + 1;
        }
    }
}

/// Byte offset of the `{` that opens the function body, searching from the
/// start of the symbol's first line. Generic bounds, the parameter list,
/// strings and comments are stepped over so their braces are never mistaken
/// for the body.
pub fn body_brace(tail: &[u8], language: SourceLanguage, name: &[u8]) -> (r: Result<
    usize,
    BraceFailure,
>)
    requires
        tail@.len() < usize::MAX,
    ensures
        r == match body_brace_spec(tail@, language, name@) {
            Ok(k) => Ok(k as usize),
            Err(e) => Err::<usize, BraceFailure>(e),
        },
        r matches Ok(k) ==> k < tail@.len() && tail@[k as int] == 0x7b,
        body_brace_spec(tail@, language, name@) matches Ok(k) ==> 0 <= k < tail@.len(),
{
    proof {
        let start = match find(tail@, name@) {
            Some(p) => p + name@.len(),
            None => 0,
        };
        let i0 = trivia_end(tail@, start, 0);
        let generics = if 0 <= i0 < tail@.len() && tail@[i0] == 0x3c {
            match match_generics_spec(tail@, i0, language) {
                Some(k) => Ok(k),
                None => Err(BraceFailure::UnterminatedGenerics),
            }
        } else {
            Ok(i0)
        };
        if let Ok(i1) = generics {
            if let Some(open) = scan_to_spec(tail@, i1, language, 0x28) {
                if let Some(k) = match_delimiter_spec(tail@, open, language) {
                    lemma_body_search_bounds(tail@, k, language);
                }
            }
        }
    }
    let start = match find_bytes(tail, name) {
        Some(p) => p + name.len(),
        None => 0,
    };
    let mut index = skip_trivia(tail, start);
    if index < tail.len() && tail[index] == 0x3c {
        match match_generics(tail, index, language) {
            Some(k) => {
                index = k;
            },
            None => {
                return Err(BraceFailure::UnterminatedGenerics);
            },
        }
    }
    let open = match scan_to(tail, index, language, 0x28) {
        Some(open) => open,
        None => {
            return Err(BraceFailure::NoParameterList);
        },
    };
    let after = match match_delimiter(tail, open, language) {
        Some(k) => k,
        None => {
            return Err(BraceFailure::UnterminatedParameters);
        },
    };
    body_search_exec(tail, after, language)
}

/// The index of the line feed that ends line `n` (counting from 0) of the
/// text from `i` on.
pub open spec fn nth_newline(s: Seq<u8>, i: int, n: nat) -> Option<int>
    decreases s.len() - i,
{
    if i < 0 || i >= s.len() {
        None
    } else if s[i] == 0x0a {
        if n == 0 {
            Some(i)
        } else {
            nth_newline(s, i + 1, (n - 1) as nat)
        }
    } else {
        nth_newline(s, i + 1, n)
    }
}

/// Byte offset where the one-based line `line` starts; 0 when the text has
/// fewer lines.
pub open spec fn line_start(s: Seq<u8>, line: int) -> int {
    if line <= 1 {
        0
    } else {
        match nth_newline(s, 0, (line - 2) as nat) {
            Some(p) => p + 1,
            None => 0,
        }
    }
}

proof fn lemma_nth_newline_bounds(s: Seq<u8>, i: int, n: nat)
    ensures
        nth_newline(s, i, n) matches Some(p) ==> 0 <= i <= p < s.len(),
    decreases s.len() - i,
{
    if 0 <= i < s.len() {
        if s[i] == 0x0a {
            if n > 0 {
                lemma_nth_newline_bounds(s, i + 1, (n - 1) as nat);
            }
        } else {
            lemma_nth_newline_bounds(s, i + 1, n);
        }
    }
}

/// Byte offset where the one-based line `one_based_line` starts.
pub fn line_start_offset(source: &[u8], one_based_line: usize) -> (r: usize)
    ensures
        r == line_start(source@, one_based_line as int),
        r <= source@.len(),
{
    if one_based_line <= 1 {
        return 0;
    }
    proof {
        lemma_nth_newline_bounds(source@, 0, (one_based_line - 2) as nat);
    }
    let len = source.len();
    let mut remaining = one_based_line - 2;
    let mut i: usize = 0;
    while i < len
        invariant
            len == source@.len(),
            i <= len,
            one_based_line >= 2,
            nth_newline(source@, i as int, remaining as nat) == nth_newline(
                source@,
                0,
                (one_based_line - 2) as nat,
            ),
            nth_newline(source@, 0, (one_based_line - 2) as nat) matches Some(p) ==> p < len,
        decreases len - i,
    {
        if source[i] == 0x0a {
            if remaining == 0 {
                return i + 1;
            }
            remaining = remaining - 1;
        }
        i = i + 1;
    }
    0
}

/// Where the run of spaces and tabs that starts at `i` ends.
pub open spec fn indent_end(s: Seq<u8>, i: int) -> int
    decreases s.len() - i,
{
    if 0 <= i < s.len() && (s[i] == 0x20 || s[i] == 0x09) {
        indent_end(s, i + 1)
    } else {
        i
    }
}

fn indent_end_exec(s: &[u8], start: usize) -> (r: usize)
    requires
        start <= s@.len(),
    ensures
        r == indent_end(s@, start as int),
        start <= r <= s@.len(),
{
    let mut i = start;
    while i < s.len() && (s[i] == 0x20 || s[i] == 0x09)
        invariant
            start <= i <= s@.len(),
            indent_end(s@, i as int) == indent_end(s@, start as int),
        decreases s.len() - i,
    {
        i = i + 1;
    }
    i
}

/// Whether a line is empty once trimmed.
pub open spec fn is_blank(line: Seq<u8>) -> bool {
    trim(line).len() == 0
}

/// Whether a line, once its leading whitespace is dropped, starts with
/// `marker`.
pub open spec fn is_marked(line: Seq<u8>, marker: Seq<u8>) -> bool {
    marker.len() <= trim_start(line).len() && trim_start(line).take(marker.len() as int) == marker
}

/// The lines after the leading blank ones.
pub open spec fn skip_blank(ls: Seq<Seq<u8>>) -> Seq<Seq<u8>>
    decreases ls.len(),
{
    if ls.len() > 0 && is_blank(ls[0]) {
        skip_blank(ls.drop_first())
    } else {
        ls
    }
}

/// The trimmed leading run of marked lines.
pub open spec fn take_marked(ls: Seq<Seq<u8>>, marker: Seq<u8>) -> Seq<Seq<u8>>
    decreases ls.len(),
{
    if ls.len() > 0 && is_marked(ls[0], marker) {
        seq![trim(ls[0])] + take_marked(ls.drop_first(), marker)
    } else {
        Seq::empty()
    }
}

/// The lines before the trailing blank ones.
pub open spec fn skip_blank_back(ls: Seq<Seq<u8>>) -> Seq<Seq<u8>>
    decreases ls.len(),
{
    if ls.len() > 0 && is_blank(ls.last()) {
        skip_blank_back(ls.drop_last())
    } else {
        ls
    }
}

/// The trimmed trailing run of marked lines, in text order.
pub open spec fn take_marked_back(ls: Seq<Seq<u8>>, marker: Seq<u8>) -> Seq<Seq<u8>>
    decreases ls.len(),
{
    if ls.len() > 0 && is_marked(ls.last(), marker) {
        take_marked_back(ls.drop_last(), marker).push(trim(ls.last()))
    } else {
        Seq::empty()
    }
}

/// The annotation lines that open a text: after any blank lines, the run of
/// lines that start with `marker`, each trimmed.
pub open spec fn leading_contract_list(text: Seq<u8>, marker: Seq<u8>) -> Seq<Seq<u8>> {
    take_marked(skip_blank(lines(text)), marker)
}

/// The annotation lines that close a text: before any trailing blank lines,
/// the run of lines that start with `marker`, each trimmed, in text order.
pub open spec fn trailing_contract_list(text: Seq<u8>, marker: Seq<u8>) -> Seq<Seq<u8>> {
    take_marked_back(skip_blank_back(lines(text)), marker)
}

/// Each line trimmed.
pub open spec fn trimmed_lines(ls: Seq<Seq<u8>>) -> Seq<Seq<u8>> {
    ls.map_values(|l: Seq<u8>| trim(l))
}

/// The views of a list of byte vectors.
pub open spec fn vecs_view(v: Seq<Vec<u8>>) -> Seq<Seq<u8>> {
    v.map_values(|x: Vec<u8>| x@)
}

fn line_is_blank(s: &[u8], span: &LineSpan) -> (r: bool)
    requires
        span.start <= span.end <= s@.len(),
    ensures
        r == is_blank(s@.subrange(span.start as int, span.end as int)),
{
    let (a, b) = trim_range(s, span.start, span.end);
    a == b
}

fn line_is_marked(s: &[u8], span: &LineSpan, marker: &[u8]) -> (r: bool)
    requires
        span.start <= span.end <= s@.len(),
    ensures
        r == is_marked(s@.subrange(span.start as int, span.end as int), marker@),
{
    let a = trim_start_index(s, span.start, span.end);
    range_starts_with(s, a, span.end, marker)
}

fn trimmed_line(s: &[u8], span: &LineSpan) -> (r: Vec<u8>)
    requires
        span.start <= span.end <= s@.len(),
    ensures
        r@ == trim(s@.subrange(span.start as int, span.end as int)),
{
    let (a, b) = trim_range(s, span.start, span.end);
    slice_bytes(s, a, b)
}

proof fn lemma_skip_blank_step(ls: Seq<Seq<u8>>, i: int)
    requires
        0 <= i < ls.len(),
        is_blank(ls[i]),
    ensures
        skip_blank(ls.skip(i)) == skip_blank(ls.skip(i + 1)),
{
    assert(ls.skip(i)[0] == ls[i]);
    assert(ls.skip(i).drop_first() =~= ls.skip(i + 1));
}

/// The annotation lines that open `text`: after any blank lines, the run of
/// lines that start with `marker`, each trimmed.
pub fn leading_contract_lines(text: &[u8], marker: &[u8]) -> (r: Vec<Vec<u8>>)
    ensures
        vecs_view(r@) == leading_contract_list(text@, marker@),
{
    let spans = line_spans(text);
    let ghost ls = lines(text@);
    let n = spans.len();
    let mut i: usize = 0;
    assert(ls.skip(0) =~= ls);
    while i < n && line_is_blank(text, &spans[i])
        invariant
            n == spans@.len(),
            spans_match_lines(text@, spans@, ls),
            i <= n,
            skip_blank(ls.skip(i as int)) == skip_blank(ls),
        decreases n - i,
    {
        proof {
            lemma_skip_blank_step(ls, i as int);
        }
        i = i + 1;
    }
    proof {
        if i < n {
            assert(ls.skip(i as int)[0] == ls[i as int]);
        } else {
            assert(ls.skip(i as int) =~= Seq::<Seq<u8>>::empty());
        }
    }
    let ghost start = i;
    let mut out: Vec<Vec<u8>> = Vec::new();
    while i < n && line_is_marked(text, &spans[i], marker)
        invariant
            n == spans@.len(),
            spans_match_lines(text@, spans@, ls),
            start <= i <= n,
            skip_blank(ls) == ls.skip(start as int),
            vecs_view(out@) + take_marked(ls.skip(i as int), marker@) == take_marked(
                ls.skip(start as int),
                marker@,
            ),
        decreases n - i,
    {
        let line = trimmed_line(text, &spans[i]);
        proof {
            assert(ls.skip(i as int)[0] == ls[i as int]);
            assert(ls.skip(i as int).drop_first() =~= ls.skip(i + 1));
        }
        let ghost before = vecs_view(out@);
        out.push(line);
        assert(vecs_view(out@) =~= before.push(trim(ls[i as int])));
        assert(vecs_view(out@) + take_marked(ls.skip(i + 1), marker@) =~= before + take_marked(
            ls.skip(i as int),
            marker@,
        ));
        i = i + 1;
    }
    proof {
        if i < n {
            assert(ls.skip(i as int)[0] == ls[i as int]);
        }
        assert(take_marked(ls.skip(i as int), marker@) =~= Seq::<Seq<u8>>::empty());
        assert(vecs_view(out@) =~= vecs_view(out@) + take_marked(ls.skip(i as int), marker@));
    }
    out
}

proof fn lemma_skip_blank_back_step(ls: Seq<Seq<u8>>, i: int)
    requires
        0 < i <= ls.len(),
        is_blank(ls[i - 1]),
    ensures
        skip_blank_back(ls.take(i)) == skip_blank_back(ls.take(i - 1)),
{
    assert(ls.take(i).last() == ls[i - 1]);
    assert(ls.take(i).drop_last() =~= ls.take(i - 1));
}

/// The annotation lines that close `text`: before any trailing blank lines,
/// the run of lines that start with `marker`, each trimmed, in text order.
pub fn trailing_contract_lines(text: &[u8], marker: &[u8]) -> (r: Vec<Vec<u8>>)
    ensures
        vecs_view(r@) == trailing_contract_list(text@, marker@),
{
    let spans = line_spans(text);
    let ghost ls = lines(text@);
    let n = spans.len();
    let mut i: usize = n;
    assert(ls.take(n as int) =~= ls);
    while i > 0 && line_is_blank(text, &spans[i - 1])
        invariant
            n == spans@.len(),
            spans_match_lines(text@, spans@, ls),
            i <= n,
            skip_blank_back(ls.take(i as int)) == skip_blank_back(ls),
        decreases i,
    {
        proof {
            lemma_skip_blank_back_step(ls, i as int);
        }
        i = i - 1;
    }
    proof {
        if i > 0 {
            assert(ls.take(i as int).last() == ls[i - 1]);
        } else {
            assert(ls.take(i as int) =~= Seq::<Seq<u8>>::empty());
        }
    }
    let end = i;
    let mut j: usize = i;
    while j > 0 && line_is_marked(text, &spans[j - 1], marker)
        invariant
            n == spans@.len(),
            spans_match_lines(text@, spans@, ls),
            j <= end <= n,
            skip_blank_back(ls) == ls.take(end as int),
            take_marked_back(ls.take(end as int), marker@) == take_marked_back(
                ls.take(j as int),
                marker@,
            ) + trimmed_lines(ls.subrange(j as int, end as int)),
        decreases j,
    {
        proof {
            assert(ls.take(j as int).last() == ls[j - 1]);
            assert(ls.take(j as int).drop_last() =~= ls.take(j - 1));
            assert(trimmed_lines(ls.subrange(j - 1, end as int)) =~= seq![
                trim(ls[j - 1]),
            ] + trimmed_lines(ls.subrange(j as int, end as int)));
        }
        j = j - 1;
    }
    proof {
        if j > 0 {
            assert(ls.take(j as int).last() == ls[j - 1]);
        }
        assert(take_marked_back(ls.take(j as int), marker@) =~= Seq::<Seq<u8>>::empty());
    }
    let mut out: Vec<Vec<u8>> = Vec::new();
    let mut k = j;
    while k < end
        invariant
            n == spans@.len(),
            spans_match_lines(text@, spans@, ls),
            j <= k <= end <= n,
            out@.len() == k - j,
            forall|m: int| 0 <= m < k - j ==> (#[trigger] out@[m])@ == trim(ls[j + m]),
        decreases end - k,
    {
        let line = trimmed_line(text, &spans[k]);
        assert(ls[k as int] == text@.subrange(
            spans@[k as int].start as int,
            spans@[k as int].end as int,
        ));
        out.push(line);
        k = k + 1;
    }
    assert(vecs_view(out@) =~= trimmed_lines(ls.subrange(j as int, end as int)));
    assert(vecs_view(out@) =~= trailing_contract_list(text@, marker@));
    out
}

/// The bytes of each clause, UTF-8 encoded.
pub open spec fn clause_bytes(clauses: Seq<String>) -> Seq<Seq<u8>> {
    clauses.map_values(|c: String| encode_utf8(c@))
}

/// The annotation line for one clause.
pub open spec fn annotation_line(prefix: Seq<u8>, keyword: Seq<u8>, clause: Seq<u8>, suffix: Seq<
    u8,
>) -> Seq<u8> {
    prefix + keyword + clause + suffix
}

/// The annotation lines for `clauses` that are not already present: a line
/// counts as present when its trimmed form is among `existing`.
pub open spec fn missing_annotations(
    clauses: Seq<Seq<u8>>,
    prefix: Seq<u8>,
    keyword: Seq<u8>,
    suffix: Seq<u8>,
    existing: Seq<Seq<u8>>,
) -> Seq<Seq<u8>>
    decreases clauses.len(),
{
    if clauses.len() == 0 {
        Seq::empty()
    } else {
        let rest = missing_annotations(clauses.drop_last(), prefix, keyword, suffix, existing);
        let line = annotation_line(prefix, keyword, clauses.last(), suffix);
        if existing.contains(trim(line)) {
            rest
        } else {
            rest.push(line)
        }
    }
}

/// The annotations to add are exactly the requested ones that are not
/// already present: every line added is the line of a requested clause and
/// is absent, every absent one is added, and when every requested clause
/// is present nothing is added.
pub proof fn lemma_missing_annotations_are_the_absent_ones(
    clauses: Seq<Seq<u8>>,
    prefix: Seq<u8>,
    keyword: Seq<u8>,
    suffix: Seq<u8>,
    existing: Seq<Seq<u8>>,
)
    ensures
        forall|k: int|
            0 <= k < missing_annotations(clauses, prefix, keyword, suffix, existing).len()
                ==> exists|i: int|
                0 <= i < clauses.len() && #[trigger] missing_annotations(
                    clauses,
                    prefix,
                    keyword,
                    suffix,
                    existing,
                )[k] == annotation_line(prefix, keyword, clauses[i], suffix) && !existing.contains(
                    trim(annotation_line(prefix, keyword, clauses[i], suffix)),
                ),
        forall|i: int|
            0 <= i < clauses.len() && !existing.contains(
                trim(annotation_line(prefix, keyword, #[trigger] clauses[i], suffix)),
            ) ==> missing_annotations(clauses, prefix, keyword, suffix, existing).contains(
                annotation_line(prefix, keyword, clauses[i], suffix),
            ),
        (forall|i: int|
            0 <= i < clauses.len() ==> existing.contains(
                trim(annotation_line(prefix, keyword, #[trigger] clauses[i], suffix)),
            )) ==> missing_annotations(clauses, prefix, keyword, suffix, existing).len() == 0,
    decreases clauses.len(),
{
    if clauses.len() > 0 {
        let d = clauses.drop_last();
        let n = clauses.len() - 1;
        lemma_missing_annotations_are_the_absent_ones(d, prefix, keyword, suffix, existing);
        let rest = missing_annotations(d, prefix, keyword, suffix, existing);
        let all = missing_annotations(clauses, prefix, keyword, suffix, existing);
        let line = annotation_line(prefix, keyword, clauses.last(), suffix);
        assert forall|k: int| 0 <= k < all.len() implies exists|i: int|
            0 <= i < clauses.len() && #[trigger] all[k] == annotation_line(
                prefix,
                keyword,
                clauses[i],
                suffix,
            ) && !existing.contains(trim(annotation_line(prefix, keyword, clauses[i], suffix))) by {
            if k < rest.len() {
                let i = choose|i: int|
                    0 <= i < d.len() && #[trigger] rest[k] == annotation_line(
                        prefix,
                        keyword,
                        d[i],
                        suffix,
                    ) && !existing.contains(trim(annotation_line(prefix, keyword, d[i], suffix)));
                assert(clauses[i] == d[i]);
                assert(all[k] == rest[k]);
            } else {
                assert(all[k] == line);
                assert(clauses[n] == clauses.last());
            }
        }
        assert forall|i: int|
            0 <= i < clauses.len() && !existing.contains(
                trim(annotation_line(prefix, keyword, #[trigger] clauses[i], suffix)),
            ) implies all.contains(annotation_line(prefix, keyword, clauses[i], suffix)) by {
            if i < n {
                assert(d[i] == clauses[i]);
                assert(rest.contains(annotation_line(prefix, keyword, d[i], suffix)));
                let k = choose|k: int| 0 <= k < rest.len() && rest[k] == annotation_line(prefix, keyword, d[i], suffix);
                assert(all[k] == rest[k]);
            } else {
                assert(all[rest.len() as int] == line);
            }
        }
        if forall|i: int|
            0 <= i < clauses.len() ==> existing.contains(
                trim(annotation_line(prefix, keyword, #[trigger] clauses[i], suffix)),
            ) {
            assert forall|i: int| 0 <= i < d.len() implies existing.contains(
                trim(annotation_line(prefix, keyword, #[trigger] d[i], suffix)),
            ) by {
                assert(d[i] == clauses[i]);
            }
            assert(existing.contains(trim(annotation_line(prefix, keyword, clauses[n], suffix))));
        }
    }
}

/// The comment marker that starts an annotation line.
pub open spec fn marker() -> Seq<u8> {
    seq![0x2fu8, 0x2fu8, 0x40u8]
}

/// `requires ` as bytes.
pub open spec fn requires_keyword() -> Seq<u8> {
    seq![0x72u8, 0x65u8, 0x71u8, 0x75u8, 0x69u8, 0x72u8, 0x65u8, 0x73u8, 0x20u8]
}

/// `ensures ` as bytes.
pub open spec fn ensures_keyword() -> Seq<u8> {
    seq![0x65u8, 0x6eu8, 0x73u8, 0x75u8, 0x72u8, 0x65u8, 0x73u8, 0x20u8]
}

/// The line ending a text uses: CRLF when it holds one anywhere, else LF.
pub open spec fn eol_of(s: Seq<u8>) -> Seq<u8> {
    if has_crlf(s) {
        seq![0x0du8, 0x0au8]
    } else {
        seq![0x0au8]
    }
}

/// All annotations to add, requires before ensures.
pub open spec fn annotations(
    reqs: Seq<Seq<u8>>,
    ens: Seq<Seq<u8>>,
    prefix: Seq<u8>,
    suffix: Seq<u8>,
    existing: Seq<Seq<u8>>,
) -> Seq<Seq<u8>> {
    missing_annotations(reqs, prefix, requires_keyword(), suffix, existing)
        + missing_annotations(ens, prefix, ensures_keyword(), suffix, existing)
}

/// Where to insert which text so that the function whose name is `name`
/// and whose signature starts on line `line` carries the given clauses:
/// TypeScript gets `//@` comments at the top of the body, Java gets them on
/// the lines above the method, Rust gets `requires`/`ensures` clauses
/// between the signature and the body. Clauses already present are skipped;
/// `None` when nothing is left to add.
pub open spec fn insertion_spec(
    s: Seq<u8>,
    language: SourceLanguage,
    line: int,
    name: Seq<u8>,
    reqs: Seq<Seq<u8>>,
    ens: Seq<Seq<u8>>,
) -> Result<Option<(int, Seq<u8>)>, BraceFailure> {
    if reqs.len() == 0 && ens.len() == 0 {
        Ok(None)
    } else {
        let ls = line_start(s, line);
        let indent = s.subrange(ls, indent_end(s, ls));
        let eol = eol_of(s);
        let tail = s.skip(ls);
        match language {
            SourceLanguage::TypeScript => match body_brace_spec(tail, language, name) {
                Err(e) => Err(e),
                Ok(brace) => {
                    let existing = leading_contract_list(tail.skip(brace + 1), marker());
                    let prefix = indent + seq![0x20u8, 0x20u8] + marker() + seq![0x20u8];
                    let ann = annotations(reqs, ens, prefix, Seq::empty(), existing);
                    if ann.len() == 0 {
                        Ok(None)
                    } else {
                        Ok(Some((ls + brace + 1, eol + join(ann, eol))))
                    }
                },
            },
            SourceLanguage::Java => {
                let existing = trailing_contract_list(s.take(ls), marker());
                let prefix = indent + marker() + seq![0x20u8];
                let ann = annotations(reqs, ens, prefix, Seq::empty(), existing);
                if ann.len() == 0 {
                    Ok(None)
                } else {
                    Ok(Some((ls, join(ann, eol) + eol)))
                }
            },
            SourceLanguage::Rust => match body_brace_spec(tail, language, name) {
                Err(e) => Err(e),
                Ok(brace) => {
                    let existing = trimmed_lines(lines(tail.take(brace)));
                    let prefix = indent + seq![0x20u8, 0x20u8, 0x20u8, 0x20u8];
                    let ann = annotations(reqs, ens, prefix, seq![0x2cu8], existing);
                    if ann.len() == 0 {
                        Ok(None)
                    } else {
                        Ok(Some((ls + brace, eol + join(ann, eol) + eol + indent)))
                    }
                },
            },
        }
    }
}

fn contains_line(list: &Vec<Vec<u8>>, t: &[u8]) -> (r: bool)
    ensures
        r == vecs_view(list@).contains(t@),
{
    let mut i: usize = 0;
    while i < list.len()
        invariant
            i <= list@.len(),
            forall|k: int| 0 <= k < i ==> list@[k]@ != t@,
        decreases list.len() - i,
    {
        let item = list[i].as_slice();
        if range_equals(item, 0, item.len(), t) {
            assert(item@.subrange(0, item@.len() as int) =~= item@);
            assert(vecs_view(list@)[i as int] == t@);
            return true;
        }
        assert(item@.subrange(0, item@.len() as int) =~= item@);
        i = i + 1;
    }
    proof {
        if vecs_view(list@).contains(t@) {
            let k = choose|k: int| 0 <= k < vecs_view(list@).len() && vecs_view(list@)[k] == t@;
            assert(list@[k]@ == t@);
        }
    }
    false
}

fn add_missing_annotations(
    clauses: &Vec<String>,
    prefix: &[u8],
    keyword: &[u8],
    suffix: &[u8],
    existing: &Vec<Vec<u8>>,
    out: &mut Vec<Vec<u8>>,
)
    ensures
        vecs_view(final(out)@) == vecs_view(old(out)@) + missing_annotations(
            clause_bytes(clauses@),
            prefix@,
            keyword@,
            suffix@,
            vecs_view(existing@),
        ),
{
    let ghost start = vecs_view(out@);
    let ghost cs = clause_bytes(clauses@);
    let mut i: usize = 0;
    assert(cs.take(0) =~= Seq::<Seq<u8>>::empty());
    while i < clauses.len()
        invariant
            i <= clauses@.len(),
            cs == clause_bytes(clauses@),
            vecs_view(out@) == start + missing_annotations(
                cs.take(i as int),
                prefix@,
                keyword@,
                suffix@,
                vecs_view(existing@),
            ),
        decreases clauses.len() - i,
    {
        let clause = clauses[i].as_str().as_bytes();
        let mut line: Vec<u8> = Vec::new();
        append_bytes(&mut line, prefix);
        append_bytes(&mut line, keyword);
        append_bytes(&mut line, clause);
        append_bytes(&mut line, suffix);
        assert(line@ =~= annotation_line(prefix@, keyword@, cs[i as int], suffix@));
        let (a, b) = trim_range(line.as_slice(), 0, line.len());
        assert(line@.subrange(0, line@.len() as int) =~= line@);
        let trimmed = slice_bytes(line.as_slice(), a, b);
        assert(cs.take(i + 1).drop_last() =~= cs.take(i as int));
        assert(cs.take(i + 1).last() == cs[i as int]);
        if !contains_line(existing, trimmed.as_slice()) {
            let ghost before = vecs_view(out@);
            out.push(line);
            assert(vecs_view(out@) =~= before.push(line@));
        }
        i = i + 1;
    }
    assert(cs.take(clauses@.len() as int) =~= cs);
}

/// The bytes `src[start..]`.
fn suffix_bytes(src: &[u8], start: usize) -> (r: Vec<u8>)
    requires
        start <= src@.len(),
    ensures
        r@ == src@.skip(start as int),
{
    let r = slice_bytes(src, start, src.len());
    assert(src@.subrange(start as int, src@.len() as int) =~= src@.skip(start as int));
    r
}

/// Where to insert which text so that the function whose name is `name` and
/// whose signature starts on line `line` carries the given clauses.
pub fn insertion_bytes(
    source: &[u8],
    language: SourceLanguage,
    line: usize,
    name: &[u8],
    preconditions: &Vec<String>,
    postconditions: &Vec<String>,
) -> (r: Result<Option<(usize, Vec<u8>)>, BraceFailure>)
    requires
        source@.len() < usize::MAX,
    ensures
        match insertion_spec(
            source@,
            language,
            line as int,
            name@,
            clause_bytes(preconditions@),
            clause_bytes(postconditions@),
        ) {
            Ok(None) => r == Ok::<Option<(usize, Vec<u8>)>, BraceFailure>(None),
            Ok(Some((offset, text))) => r matches Ok(Some((o, t))) && o == offset && t@ == text,
            Err(e) => r == Err::<Option<(usize, Vec<u8>)>, BraceFailure>(e),
        },
        r matches Ok(Some((o, t))) ==> o <= source@.len(),
{
    if preconditions.len() == 0 && postconditions.len() == 0 {
        return Ok(None);
    }
    let ls = line_start_offset(source, line);
    let ie = indent_end_exec(source, ls);
    let indent = slice_bytes(source, ls, ie);
    let crlf = contains_crlf(source);
    let eol: Vec<u8> = if crlf {
        vec![0x0du8, 0x0au8]
    } else {
        vec![0x0au8]
    };
    let tail = suffix_bytes(source, ls);
    let mark: Vec<u8> = vec![0x2fu8, 0x2fu8, 0x40u8];
    let kw_requires: Vec<u8> = vec![0x72u8, 0x65u8, 0x71u8, 0x75u8, 0x69u8, 0x72u8, 0x65u8, 0x73u8, 0x20u8];
    let kw_ensures: Vec<u8> = vec![0x65u8, 0x6eu8, 0x73u8, 0x75u8, 0x72u8, 0x65u8, 0x73u8, 0x20u8];
    assert(mark@ == marker());
    assert(kw_requires@ == requires_keyword());
    assert(kw_ensures@ == ensures_keyword());
    assert(eol@ == eol_of(source@));
    let empty: Vec<u8> = Vec::new();
    match language {
        SourceLanguage::TypeScript => {
            let brace = match body_brace(tail.as_slice(), language, name) {
                Ok(b) => b,
                Err(e) => {
                    return Err(e);
                },
            };
            let after = suffix_bytes(tail.as_slice(), brace + 1);
            let existing = leading_contract_lines(after.as_slice(), mark.as_slice());
            let mut prefix = indent.clone();
            prefix.push(0x20u8);
            prefix.push(0x20u8);
            append_bytes(&mut prefix, mark.as_slice());
            prefix.push(0x20u8);
            assert(prefix@ =~= indent@ + seq![0x20u8, 0x20u8] + marker() + seq![0x20u8]);
            let mut ann: Vec<Vec<u8>> = Vec::new();
            add_missing_annotations(preconditions, prefix.as_slice(), kw_requires.as_slice(), empty.as_slice(), &existing, &mut ann);
            add_missing_annotations(postconditions, prefix.as_slice(), kw_ensures.as_slice(), empty.as_slice(), &existing, &mut ann);
            assert(vecs_view(ann@) =~= annotations(clause_bytes(preconditions@), clause_bytes(postconditions@), prefix@, Seq::empty(), vecs_view(existing@)));
            if ann.len() == 0 {
                return Ok(None);
            }
            let mut text = eol.clone();
            let joined = join_bytes(&ann, eol.as_slice());
            append_bytes(&mut text, joined.as_slice());
            Ok(Some((ls + brace + 1, text)))
        },
        SourceLanguage::Java => {
            let before = slice_bytes(source, 0, ls);
            assert(source@.subrange(0, ls as int) =~= source@.take(ls as int));
            let existing = trailing_contract_lines(before.as_slice(), mark.as_slice());
            let mut prefix = indent.clone();
            append_bytes(&mut prefix, mark.as_slice());
            prefix.push(0x20u8);
            assert(prefix@ =~= indent@ + marker() + seq![0x20u8]);
            let mut ann: Vec<Vec<u8>> = Vec::new();
            add_missing_annotations(preconditions, prefix.as_slice(), kw_requires.as_slice(), empty.as_slice(), &existing, &mut ann);
            add_missing_annotations(postconditions, prefix.as_slice(), kw_ensures.as_slice(), empty.as_slice(), &existing, &mut ann);
            assert(vecs_view(ann@) =~= annotations(clause_bytes(preconditions@), clause_bytes(postconditions@), prefix@, Seq::empty(), vecs_view(existing@)));
            if ann.len() == 0 {
                return Ok(None);
            }
            let mut text = join_bytes(&ann, eol.as_slice());
            append_bytes(&mut text, eol.as_slice());
            Ok(Some((ls, text)))
        },
        SourceLanguage::Rust => {
            let brace = match body_brace(tail.as_slice(), language, name) {
                Ok(b) => b,
                Err(e) => {
                    return Err(e);
                },
            };
            let head = slice_bytes(tail.as_slice(), 0, brace);
            assert(tail@.subrange(0, brace as int) =~= tail@.take(brace as int));
            let spans = line_spans(head.as_slice());
            let mut existing: Vec<Vec<u8>> = Vec::new();
            let mut k: usize = 0;
            while k < spans.len()
                invariant
                    k <= spans@.len(),
                    spans_match_lines(head@, spans@, lines(head@)),
                    existing@.len() == k,
                    forall|m: int| 0 <= m < k ==> (#[trigger] existing@[m])@ == trim(lines(head@)[m]),
                decreases spans.len() - k,
            {
                let (a, b) = trim_range(head.as_slice(), spans[k].start, spans[k].end);
                let t = slice_bytes(head.as_slice(), a, b);
                existing.push(t);
                k = k + 1;
            }
            assert(vecs_view(existing@) =~= trimmed_lines(lines(head@)));
            let mut prefix = indent.clone();
            prefix.push(0x20u8);
            prefix.push(0x20u8);
            prefix.push(0x20u8);
            prefix.push(0x20u8);
            assert(prefix@ =~= indent@ + seq![0x20u8, 0x20u8, 0x20u8, 0x20u8]);
            let comma: Vec<u8> = vec![0x2cu8];
            assert(comma@ =~= seq![0x2cu8]);
            let mut ann: Vec<Vec<u8>> = Vec::new();
            add_missing_annotations(preconditions, prefix.as_slice(), kw_requires.as_slice(), comma.as_slice(), &existing, &mut ann);
            add_missing_annotations(postconditions, prefix.as_slice(), kw_ensures.as_slice(), comma.as_slice(), &existing, &mut ann);
            assert(vecs_view(ann@) =~= annotations(clause_bytes(preconditions@), clause_bytes(postconditions@), prefix@, seq![0x2cu8], vecs_view(existing@)));
            if ann.len() == 0 {
                return Ok(None);
            }
            let mut text = eol.clone();
            let joined = join_bytes(&ann, eol.as_slice());
            append_bytes(&mut text, joined.as_slice());
            append_bytes(&mut text, eol.as_slice());
            append_bytes(&mut text, indent.as_slice());
            Ok(Some((ls + brace, text)))
        },
    }
}

} // verus!
