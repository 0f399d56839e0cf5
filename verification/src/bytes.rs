//! Byte-level text operations on UTF-8 encoded text: searching, splitting
//! into lines, trimming Unicode whitespace and joining.
use vstd::prelude::*;

verus! {

/// Whether `pat` occurs in `s` at index `i`.
pub open spec fn occurs_at(s: Seq<u8>, pat: Seq<u8>, i: int) -> bool {
    0 <= i && i + pat.len() <= s.len() && s.subrange(i, i + pat.len()) =~= pat
}

/// The first index at or after `i` where `pat` occurs in `s`.
pub open spec fn find_from(s: Seq<u8>, pat: Seq<u8>, i: int) -> Option<int>
    decreases s.len() + 1 - i,
{
    if i < 0 || i + pat.len() > s.len() {
        None
    } else if occurs_at(s, pat, i) {
        Some(i)
    } else {
        find_from(s, pat, i + 1)
    }
}

/// The first index where `pat` occurs in `s`, as `str::find` reports it.
pub open spec fn find(s: Seq<u8>, pat: Seq<u8>) -> Option<int> {
    find_from(s, pat, 0)
}

pub(crate) proof fn lemma_find_from_bounds(s: Seq<u8>, pat: Seq<u8>, i: int)
    ensures
        find_from(s, pat, i) matches Some(k) ==> i <= k && occurs_at(s, pat, k),
    decreases s.len() + 1 - i,
{
    if !(i < 0 || i + pat.len() > s.len()) && !occurs_at(s, pat, i) {
        lemma_find_from_bounds(s, pat, i + 1);
    }
}

/// Whether `pat` occurs in `s` at `i`.
pub fn bytes_occur_at(s: &[u8], pat: &[u8], i: usize) -> (r: bool)
    ensures
        r == occurs_at(s@, pat@, i as int),
{
    let n = s.len();
    let m = pat.len();
    if i > n || m > n - i {
        return false;
    }
    let mut j: usize = 0;
    while j < m
        invariant
            n == s@.len(),
            m == pat@.len(),
            i + m <= n,
            j <= m,
            forall|k: int| 0 <= k < j ==> s@[i + k] == pat@[k],
        decreases m - j,
    {
        if s[i + j] != pat[j] {
            return false;
        }
        j = j + 1;
    }
    assert(s@.subrange(i as int, i + m) =~= pat@);
    true
}

/// The first index where `pat` occurs in `s`.
pub fn find_bytes(s: &[u8], pat: &[u8]) -> (r: Option<usize>)
    ensures
        r == match find(s@, pat@) {
            Some(k) => Some(k as usize),
            None => None::<usize>,
        },
        r matches Some(k) ==> occurs_at(s@, pat@, k as int),
        find(s@, pat@) matches Some(k) ==> 0 <= k && occurs_at(s@, pat@, k),
{
    proof {
        lemma_find_from_bounds(s@, pat@, 0);
    }
    let n = s.len();
    let m = pat.len();
    if m > n {
        return None;
    }
    let mut i: usize = 0;
    while i <= n - m
        invariant
            n == s@.len(),
            m == pat@.len(),
            m <= n,
            i <= n - m + 1,
            find_from(s@, pat@, i as int) == find(s@, pat@),
        decreases n - m + 1 - i,
    {
        if bytes_occur_at(s, pat, i) {
            return Some(i);
        }
        i = i + 1;
    }
    None
}

/// Whether `s` holds a carriage return directly followed by a line feed.
pub open spec fn has_crlf(s: Seq<u8>) -> bool {
    exists|i: int| #[trigger] crlf_at(s, i)
}

/// Whether a carriage return and a line feed start at `i`.
pub open spec fn crlf_at(s: Seq<u8>, i: int) -> bool {
    0 <= i && i + 1 < s.len() && s[i] == 0x0d && s[i + 1] == 0x0a
}

/// Whether `s` holds a carriage return directly followed by a line feed.
pub fn contains_crlf(s: &[u8]) -> (r: bool)
    ensures
        r == has_crlf(s@),
{
    let n = s.len();
    let mut i: usize = 0;
    while n > 0 && i < n - 1
        invariant
            n == s@.len(),
            forall|k: int| 0 <= k < i ==> !#[trigger] crlf_at(s@, k),
        decreases n - i,
    {
        if s[i] == 0x0d && s[i + 1] == 0x0a {
            assert(crlf_at(s@, i as int));
            return true;
        }
        i = i + 1;
    }
    assert forall|k: int| !#[trigger] crlf_at(s@, k) by {
        if 0 <= k && k + 1 < n {
            assert(k < i);
        }
    }
    false
}

/// Length of the whitespace character (`char::is_whitespace`) that starts
/// `s`, in bytes, or 0 when `s` does not start with one.
pub open spec fn leading_ws_len(s: Seq<u8>) -> int {
    if s.len() >= 1 && ((0x09 <= s[0] && s[0] <= 0x0d) || s[0] == 0x20) {
        1
    } else if s.len() >= 2 && s[0] == 0xc2 && (s[1] == 0x85 || s[1] == 0xa0) {
        2
    } else if s.len() >= 3 && ((s[0] == 0xe1 && s[1] == 0x9a && s[2] == 0x80) || (s[0] == 0xe2
        && s[1] == 0x80 && ((0x80 <= s[2] && s[2] <= 0x8a) || s[2] == 0xa8 || s[2] == 0xa9
        || s[2] == 0xaf)) || (s[0] == 0xe2 && s[1] == 0x81 && s[2] == 0x9f) || (s[0] == 0xe3
        && s[1] == 0x80 && s[2] == 0x80)) {
        3
    } else {
        0
    }
}

/// Length of the whitespace character that ends `s`, in bytes, or 0.
pub open spec fn trailing_ws_len(s: Seq<u8>) -> int {
    let n = s.len() as int;
    if n >= 1 && ((0x09 <= s[n - 1] && s[n - 1] <= 0x0d) || s[n - 1] == 0x20) {
        1
    } else if n >= 2 && leading_ws_len(s.subrange(n - 2, n)) == 2 {
        2
    } else if n >= 3 && leading_ws_len(s.subrange(n - 3, n)) == 3 {
        3
    } else {
        0
    }
}

/// `s` without its leading whitespace characters.
pub open spec fn trim_start(s: Seq<u8>) -> Seq<u8>
    decreases s.len(),
{
    if leading_ws_len(s) > 0 {
        trim_start(s.skip(leading_ws_len(s)))
    } else {
        s
    }
}

/// `s` without its trailing whitespace characters.
pub open spec fn trim_end(s: Seq<u8>) -> Seq<u8>
    decreases s.len(),
{
    if trailing_ws_len(s) > 0 {
        trim_end(s.take(s.len() - trailing_ws_len(s)))
    } else {
        s
    }
}

/// `s` without leading and trailing whitespace, as `str::trim` gives it.
pub open spec fn trim(s: Seq<u8>) -> Seq<u8> {
    trim_end(trim_start(s))
}

fn leading_ws(s: &[u8], start: usize, end: usize) -> (r: usize)
    requires
        start <= end <= s@.len(),
    ensures
        r as int == leading_ws_len(s@.subrange(start as int, end as int)),
{
    let ghost t = s@.subrange(start as int, end as int);
    let n = end - start;
    if n >= 1 && ((0x09 <= s[start] && s[start] <= 0x0d) || s[start] == 0x20) {
        return 1;
    }
    if n >= 2 && s[start] == 0xc2 && (s[start + 1] == 0x85 || s[start + 1] == 0xa0) {
        return 2;
    }
    if n >= 3 {
        let a = s[start];
        let b = s[start + 1];
        let c = s[start + 2];
        if (a == 0xe1 && b == 0x9a && c == 0x80) || (a == 0xe2 && b == 0x80 && ((0x80 <= c && c
            <= 0x8a) || c == 0xa8 || c == 0xa9 || c == 0xaf)) || (a == 0xe2 && b == 0x81 && c
            == 0x9f) || (a == 0xe3 && b == 0x80 && c == 0x80) {
            return 3;
        }
    }
    0
}

fn trailing_ws(s: &[u8], start: usize, end: usize) -> (r: usize)
    requires
        start <= end <= s@.len(),
    ensures
        r as int == trailing_ws_len(s@.subrange(start as int, end as int)),
        r <= end - start,
{
    let ghost t = s@.subrange(start as int, end as int);
    let n = end - start;
    if n >= 1 && ((0x09 <= s[end - 1] && s[end - 1] <= 0x0d) || s[end - 1] == 0x20) {
        return 1;
    }
    if n >= 2 {
        assert(t.subrange(n - 2, n as int) =~= s@.subrange(end - 2, end as int));
        if leading_ws(s, end - 2, end) == 2 {
            return 2;
        }
    }
    if n >= 3 {
        assert(t.subrange(n - 3, n as int) =~= s@.subrange(end - 3, end as int));
        if leading_ws(s, end - 3, end) == 3 {
            return 3;
        }
    }
    0
}

/// Where `str::trim_start` of `s[start..end]` begins, as an index of `s`.
pub fn trim_start_index(s: &[u8], start: usize, end: usize) -> (r: usize)
    requires
        start <= end <= s@.len(),
    ensures
        start <= r <= end,
        s@.subrange(r as int, end as int) == trim_start(s@.subrange(start as int, end as int)),
{
    let mut a = start;
    loop
        invariant
            start <= a <= end <= s@.len(),
            trim_start(s@.subrange(a as int, end as int)) == trim_start(
                s@.subrange(start as int, end as int),
            ),
        ensures
            start <= a <= end,
            leading_ws_len(s@.subrange(a as int, end as int)) == 0,
            trim_start(s@.subrange(a as int, end as int)) == trim_start(
                s@.subrange(start as int, end as int),
            ),
        decreases end - a,
    {
        let k = leading_ws(s, a, end);
        if k == 0 {
            break;
        }
        assert(s@.subrange(a as int, end as int).skip(k as int) =~= s@.subrange(
            a + k,
            end as int,
        ));
        a = a + k;
    }
    a
}

/// The bounds of `str::trim` of `s[start..end]`, as a byte range of `s`.
pub fn trim_range(s: &[u8], start: usize, end: usize) -> (r: (usize, usize))
    requires
        start <= end <= s@.len(),
    ensures
        start <= r.0 <= r.1 <= end,
        s@.subrange(r.0 as int, r.1 as int) == trim(s@.subrange(start as int, end as int)),
{
    let a = trim_start_index(s, start, end);
    let mut b = end;
    loop
        invariant
            start <= a <= b <= end <= s@.len(),
            trim_end(s@.subrange(a as int, b as int)) == trim(
                s@.subrange(start as int, end as int),
            ),
        ensures
            start <= a <= b <= end,
            trailing_ws_len(s@.subrange(a as int, b as int)) == 0,
            trim_end(s@.subrange(a as int, b as int)) == trim(
                s@.subrange(start as int, end as int),
            ),
        decreases b - a,
    {
        let k = trailing_ws(s, a, b);
        if k == 0 {
            break;
        }
        assert(s@.subrange(a as int, b as int).take((b - a) - k) =~= s@.subrange(
            a as int,
            b - k,
        ));
        b = b - k;
    }
    assert(trim_end(s@.subrange(a as int, b as int)) == s@.subrange(a as int, b as int));
    (a, b)
}

/// A line ending: an optional carriage return before the final line feed is
/// not part of the line.
pub open spec fn strip_cr(line: Seq<u8>) -> Seq<u8> {
    if line.len() > 0 && line.last() == 0x0d {
        line.drop_last()
    } else {
        line
    }
}

/// The index of the first line feed in `s` at or after `i`.
pub open spec fn newline_from(s: Seq<u8>, i: int) -> Option<int>
    decreases s.len() - i,
{
    if i < 0 || i >= s.len() {
        None
    } else if s[i] == 0x0a {
        Some(i)
    } else {
        newline_from(s, i + 1)
    }
}

/// The lines of `s` from index `i`, as `str::lines` splits them.
pub open spec fn lines_from(s: Seq<u8>, i: int) -> Seq<Seq<u8>>
    decreases s.len() - i,
{
    if i < 0 || i >= s.len() {
        Seq::empty()
    } else {
        match newline_from(s, i) {
            Some(p) => if i <= p < s.len() {
                seq![strip_cr(s.subrange(i, p))] + lines_from(s, p + 1)
            } else {
                Seq::empty()
            },
            None => seq![s.subrange(i, s.len() as int)],
        }
    }
}

/// The lines of `s`, as `str::lines` splits them.
pub open spec fn lines(s: Seq<u8>) -> Seq<Seq<u8>> {
    lines_from(s, 0)
}

pub(crate) proof fn lemma_newline_from(s: Seq<u8>, i: int)
    requires
        0 <= i,
    ensures
        newline_from(s, i) matches Some(p) ==> i <= p < s.len() && s[p] == 0x0a && forall|k: int|
            i <= k < p ==> s[k] != 0x0a,
        newline_from(s, i) is None ==> forall|k: int| i <= k < s.len() ==> s[k] != 0x0a,
    decreases s.len() - i,
{
    if i < s.len() && s[i] != 0x0a {
        lemma_newline_from(s, i + 1);
    }
}

/// A line's byte range within a text, with the carriage return before a
/// line feed excluded.
pub struct LineSpan {
    pub start: usize,
    pub end: usize,
}

/// The spans of the lines of `s`.
pub open spec fn spans_match_lines(s: Seq<u8>, spans: Seq<LineSpan>, ls: Seq<Seq<u8>>) -> bool {
    &&& spans.len() == ls.len()
    &&& forall|k: int|
        0 <= k < spans.len() ==> (#[trigger] spans[k]).start <= spans[k].end <= s.len() && ls[k]
            == s.subrange(spans[k].start as int, spans[k].end as int)
}

/// The byte ranges of the lines of `s`, as `str::lines` splits them.
pub fn line_spans(s: &[u8]) -> (r: Vec<LineSpan>)
    ensures
        spans_match_lines(s@, r@, lines(s@)),
{
    let n = s.len();
    let mut spans: Vec<LineSpan> = Vec::new();
    let mut i: usize = 0;
    while i < n
        invariant
            n == s@.len(),
            i <= n,
            spans@.len() + lines_from(s@, i as int).len() == lines(s@).len(),
            forall|k: int|
                0 <= k < spans@.len() ==> (#[trigger] spans@[k]).start <= spans@[k].end <= n
                    && lines(s@)[k] == s@.subrange(spans@[k].start as int, spans@[k].end as int),
            forall|k: int|
                spans@.len() <= k < lines(s@).len() ==> #[trigger] lines(s@)[k] == lines_from(
                    s@,
                    i as int,
                )[k - spans@.len()],
        decreases n - i,
    {
        proof {
            lemma_newline_from(s@, i as int);
        }
        let start = i;
        let mut j = i;
        while j < n && s[j] != 0x0a
            invariant
                n == s@.len(),
                start <= j <= n,
                forall|k: int| start <= k < j ==> s@[k] != 0x0a,
            decreases n - j,
        {
            j = j + 1;
        }
        let ghost rest = lines_from(s@, i as int);
        let ghost m = spans@.len() as int;
        if j < n {
            assert(newline_from(s@, i as int) == Some(j as int));
            let mut end = j;
            if j > start && s[j - 1] == 0x0d {
                end = j - 1;
            }
            assert(strip_cr(s@.subrange(start as int, j as int)) =~= s@.subrange(
                start as int,
                end as int,
            ));
            assert(rest =~= seq![s@.subrange(start as int, end as int)] + lines_from(
                s@,
                j + 1,
            ));
            assert(lines(s@)[m] == rest[0]);
            spans.push(LineSpan { start, end });
            i = j + 1;
            assert forall|k: int|
                spans@.len() <= k < lines(s@).len() implies #[trigger] lines(s@)[k] == lines_from(
                s@,
                i as int,
            )[k - spans@.len()] by {
                assert(lines(s@)[k] == rest[k - m]);
            }
        } else {
            assert(newline_from(s@, i as int) is None);
            assert(rest =~= seq![s@.subrange(start as int, n as int)]);
            assert(lines(s@)[m] == rest[0]);
            spans.push(LineSpan { start, end: n });
            i = n;
            assert(lines_from(s@, n as int) =~= Seq::<Seq<u8>>::empty());
        }
    }
    assert(lines_from(s@, i as int) =~= Seq::<Seq<u8>>::empty());
    spans
}

/// `parts` joined with `sep` between each pair.
pub open spec fn join(parts: Seq<Seq<u8>>, sep: Seq<u8>) -> Seq<u8>
    decreases parts.len(),
{
    if parts.len() == 0 {
        Seq::empty()
    } else if parts.len() == 1 {
        parts[0]
    } else {
        join(parts.drop_last(), sep) + sep + parts.last()
    }
}

/// Appends `src` to `dst`.
pub fn append_bytes(dst: &mut Vec<u8>, src: &[u8])
    ensures
        final(dst)@ == old(dst)@ + src@,
{
    let mut i: usize = 0;
    while i < src.len()
        invariant
            i <= src@.len(),
            dst@ == old(dst)@ + src@.take(i as int),
        decreases src.len() - i,
    {
        assert(src@.take(i + 1) =~= src@.take(i as int).push(src@[i as int]));
        dst.push(src[i]);
        i = i + 1;
    }
    assert(src@.take(src@.len() as int) =~= src@);
}

/// `parts` joined with `sep` between each pair.
pub fn join_bytes(parts: &Vec<Vec<u8>>, sep: &[u8]) -> (r: Vec<u8>)
    ensures
        r@ == join(parts@.map_values(|p: Vec<u8>| p@), sep@),
{
    let ghost views = parts@.map_values(|p: Vec<u8>| p@);
    let mut out: Vec<u8> = Vec::new();
    let mut i: usize = 0;
    while i < parts.len()
        invariant
            i <= parts@.len(),
            views == parts@.map_values(|p: Vec<u8>| p@),
            out@ == join(views.take(i as int), sep@),
        decreases parts.len() - i,
    {
        let ghost before = views.take(i as int);
        assert(views.take(i + 1).drop_last() =~= before);
        assert(views.take(i + 1).last() == parts@[i as int]@);
        if i > 0 {
            append_bytes(&mut out, sep);
        } else {
            assert(before =~= Seq::<Seq<u8>>::empty());
        }
        append_bytes(&mut out, parts[i].as_slice());
        if i == 0 {
            assert(out@ =~= views.take(1)[0]);
        } else {
            assert(out@ =~= join(before, sep@) + sep@ + parts@[i as int]@);
        }
        i = i + 1;
    }
    assert(views.take(parts@.len() as int) =~= views);
    out
}

/// A copy of `s[start..end]`.
pub fn slice_bytes(s: &[u8], start: usize, end: usize) -> (r: Vec<u8>)
    requires
        start <= end <= s@.len(),
    ensures
        r@ == s@.subrange(start as int, end as int),
{
    let mut out: Vec<u8> = Vec::new();
    let mut i = start;
    while i < end
        invariant
            start <= i <= end <= s@.len(),
            out@ == s@.subrange(start as int, i as int),
        decreases end - i,
    {
        out.push(s[i]);
        assert(s@.subrange(start as int, i + 1) =~= s@.subrange(start as int, i as int).push(
            s@[i as int],
        ));
        i = i + 1;
    }
    out
}

/// Whether `s[start..end]` begins with `prefix`.
pub fn range_starts_with(s: &[u8], start: usize, end: usize, prefix: &[u8]) -> (r: bool)
    requires
        start <= end <= s@.len(),
    ensures
        r == (prefix@.len() <= end - start && s@.subrange(start as int, end as int).take(
            prefix@.len() as int,
        ) == prefix@),
{
    if prefix.len() > end - start {
        return false;
    }
    let ok = bytes_occur_at(s, prefix, start);
    assert(s@.subrange(start as int, end as int).take(prefix@.len() as int) =~= s@.subrange(
        start as int,
        start + prefix@.len(),
    ));
    ok
}

/// Whether `s[start..end]` equals `t`.
pub fn range_equals(s: &[u8], start: usize, end: usize, t: &[u8]) -> (r: bool)
    requires
        start <= end <= s@.len(),
    ensures
        r == (s@.subrange(start as int, end as int) == t@),
{
    if t.len() != end - start {
        return false;
    }
    let ok = bytes_occur_at(s, t, start);
    assert(ok ==> s@.subrange(start as int, end as int) =~= t@);
    ok
}

} // verus!
