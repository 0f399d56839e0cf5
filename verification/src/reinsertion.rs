//! Scaffolding a second time: once the clauses a first scaffolding inserted
//! stand in the text (above a Java method, at the top of a TypeScript
//! function's body, or between a Rust signature and its body), asking for
//! the same clauses again inserts nothing.
use vstd::prelude::*;

use crate::bytes::{
    crlf_at, has_crlf, join, leading_ws_len, lines, lines_from, newline_from, strip_cr, trailing_ws_len,
    trim, trim_end, trim_start,
};
use crate::contract::{
    annotation_line, annotations, eol_of, indent_end, insertion_spec, is_blank, is_marked,
    lemma_missing_annotations_are_the_absent_ones, line_start, marker, missing_annotations,
    nth_newline, requires_keyword, ensures_keyword, skip_blank, skip_blank_back, take_marked,
    take_marked_back, trailing_contract_list, leading_contract_list,
};
use crate::scan::is_ascii_ws;
use crate::bytes::find;
use crate::contract::{body_brace_spec, trimmed_lines};
use crate::scan::SourceLanguage;
use crate::symbols::newline_count;

verus! {

/// Whether no byte of `s` is `b`.
pub open spec fn free_of(s: Seq<u8>, b: u8) -> bool {
    forall|i: int| 0 <= i < s.len() ==> s[i] != b
}

/// Whether a clause fits on one line: it holds neither a line feed nor a
/// carriage return.
pub open spec fn single_line(c: Seq<u8>) -> bool {
    free_of(c, 0x0a) && free_of(c, 0x0d)
}

proof fn lemma_newline_count_one(b: u8)
    ensures
        newline_count(seq![b]) == if b == 0x0a { 1nat } else { 0nat },
{
    assert(seq![b].drop_last() =~= Seq::<u8>::empty());
    assert(newline_count(Seq::<u8>::empty()) == 0);
}

proof fn lemma_newline_count_concat(p: Seq<u8>, q: Seq<u8>)
    ensures
        newline_count(p + q) == newline_count(p) + newline_count(q),
    decreases q.len(),
{
    if q.len() == 0 {
        assert(p + q =~= p);
    } else {
        lemma_newline_count_concat(p, q.drop_last());
        assert((p + q).drop_last() =~= p + q.drop_last());
    }
}

proof fn lemma_nth_newline_shift(x: Seq<u8>, y: Seq<u8>, j: int, n: nat)
    requires
        0 <= j,
    ensures
        nth_newline(x + y, x.len() + j, n) == match nth_newline(y, j, n) {
            Some(p) => Some(p + x.len()),
            None => None::<int>,
        },
    decreases y.len() - j,
{
    if j < y.len() {
        assert((x + y)[x.len() + j] == y[j]);
        if y[j] == 0x0a {
            if n > 0 {
                lemma_nth_newline_shift(x, y, j + 1, (n - 1) as nat);
            }
        } else {
            lemma_nth_newline_shift(x, y, j + 1, n);
        }
    }
}

proof fn lemma_nth_newline_concat(x: Seq<u8>, y: Seq<u8>, i: int, n: nat)
    requires
        0 <= i <= x.len(),
    ensures
        n < newline_count(x.skip(i)) ==> nth_newline(x + y, i, n) == nth_newline(x, i, n),
        n >= newline_count(x.skip(i)) ==> nth_newline(x + y, i, n) == match nth_newline(
            y,
            0,
            (n - newline_count(x.skip(i))) as nat,
        ) {
            Some(p) => Some(p + x.len()),
            None => None::<int>,
        },
    decreases x.len() - i,
{
    if i == x.len() {
        assert(x.skip(i) =~= Seq::<u8>::empty());
        lemma_nth_newline_shift(x, y, 0, n);
    } else {
        assert(x.skip(i) =~= seq![x[i]] + x.skip(i + 1));
        lemma_newline_count_concat(seq![x[i]], x.skip(i + 1));
        lemma_newline_count_one(x[i]);
        assert((x + y)[i] == x[i]);
        if x[i] == 0x0a {
            if n > 0 {
                lemma_nth_newline_concat(x, y, i + 1, (n - 1) as nat);
            }
        } else {
            lemma_nth_newline_concat(x, y, i + 1, n);
        }
    }
}

proof fn lemma_nth_newline_counts(s: Seq<u8>, i: int, n: nat)
    requires
        0 <= i,
        nth_newline(s, i, n) is Some,
    ensures
        ({
            let p = nth_newline(s, i, n)->Some_0;
            &&& i <= p < s.len()
            &&& s[p] == 0x0a
            &&& newline_count(s.subrange(i, p + 1)) == n + 1
        }),
    decreases s.len() - i,
{
    let p = nth_newline(s, i, n)->Some_0;
    if s[i] == 0x0a && n == 0 {
        assert(p == i);
        assert(s.subrange(i, p + 1) =~= seq![s[i]]);
        lemma_newline_count_one(s[i]);
    } else {
        if s[i] == 0x0a {
            lemma_nth_newline_counts(s, i + 1, (n - 1) as nat);
        } else {
            lemma_nth_newline_counts(s, i + 1, n);
        }
        assert(s.subrange(i, p + 1) =~= seq![s[i]] + s.subrange(i + 1, p + 1));
        lemma_newline_count_concat(seq![s[i]], s.subrange(i + 1, p + 1));
        lemma_newline_count_one(s[i]);
    }
}

proof fn lemma_last_newline(y: Seq<u8>)
    requires
        y.len() > 0,
        y.last() == 0x0a,
    ensures
        newline_count(y) >= 1,
        nth_newline(y, 0, (newline_count(y) - 1) as nat) == Some(y.len() - 1),
{
    let x = y.drop_last();
    let z = seq![0x0au8];
    assert(x + z =~= y);
    lemma_newline_count_concat(x, z);
    lemma_newline_count_one(0x0au8);
    assert(x.skip(0) =~= x);
    lemma_nth_newline_concat(x, z, 0, newline_count(x));
}

/// The line that starts right after a block of whole lines inserted at the
/// start of line `line` is `line` plus the number of inserted lines.
proof fn lemma_line_after_insert(s: Seq<u8>, line: int, txt: Seq<u8>)
    requires
        line >= 1,
        line == 1 || nth_newline(s, 0, (line - 2) as nat) is Some,
        txt.len() > 0,
        txt.last() == 0x0a,
    ensures
        0 <= line_start(s, line) <= s.len(),
        line_start(
            s.take(line_start(s, line)) + txt + s.skip(line_start(s, line)),
            line + newline_count(txt),
        ) == line_start(s, line) + txt.len(),
        line_start(s, line) == 0 || s[line_start(s, line) - 1] == 0x0a,
{
    let ls = line_start(s, line);
    lemma_last_newline(txt);
    let k = newline_count(txt);
    if line == 1 {
        let s2 = s.take(0) + txt + s.skip(0);
        assert(s2 =~= txt + s);
        assert(txt.skip(0) =~= txt);
        lemma_nth_newline_concat(txt, s, 0, (k - 1) as nat);
    } else {
        lemma_nth_newline_counts(s, 0, (line - 2) as nat);
        let p = nth_newline(s, 0, (line - 2) as nat)->Some_0;
        assert(ls == p + 1);
        let a = s.take(ls);
        assert(s.subrange(0, p + 1) =~= a);
        let rest = s.skip(ls);
        let s2 = a + txt + rest;
        lemma_newline_count_concat(a, txt);
        assert((a + txt).skip(0) =~= a + txt);
        lemma_nth_newline_concat(a + txt, rest, 0, (line - 2 + k) as nat);
        assert(a.skip(0) =~= a);
        lemma_nth_newline_concat(a, txt, 0, (line - 2 + k) as nat);
    }
}

proof fn lemma_indent_shift(x: Seq<u8>, i: int, y: Seq<u8>, j: int)
    requires
        0 <= i <= x.len(),
        0 <= j <= y.len(),
        x.skip(i) == y.skip(j),
    ensures
        indent_end(x, i) - i == indent_end(y, j) - j,
        i <= indent_end(x, i) <= x.len(),
        x.subrange(i, indent_end(x, i)) == y.subrange(j, indent_end(y, j)),
        forall|k: int| i <= k < indent_end(x, i) ==> x[k] == 0x20 || x[k] == 0x09,
    decreases x.len() - i,
{
    if i < x.len() {
        assert(x[i] == x.skip(i)[0]);
        assert(y[j] == y.skip(j)[0]);
        if x[i] == 0x20 || x[i] == 0x09 {
            assert(x.skip(i + 1) =~= x.skip(i).drop_first());
            assert(y.skip(j + 1) =~= y.skip(j).drop_first());
            lemma_indent_shift(x, i + 1, y, j + 1);
            let e = indent_end(x, i);
            assert(x.subrange(i, e) =~= seq![x[i]] + x.subrange(i + 1, e));
            assert(y.subrange(j, indent_end(y, j)) =~= seq![y[j]] + y.subrange(j + 1, indent_end(y, j)));
        } else {
            assert(x.subrange(i, i) =~= y.subrange(j, j));
        }
    } else {
        assert(y.skip(j).len() == 0);
        assert(x.subrange(i, i) =~= y.subrange(j, j));
    }
}

proof fn lemma_join_free_of(parts: Seq<Seq<u8>>, sep: Seq<u8>, b: u8)
    requires
        free_of(sep, b),
        forall|k: int| 0 <= k < parts.len() ==> free_of(#[trigger] parts[k], b),
    ensures
        free_of(join(parts, sep), b),
    decreases parts.len(),
{
    if parts.len() > 1 {
        lemma_join_free_of(parts.drop_last(), sep, b);
        let j = join(parts.drop_last(), sep);
        assert(free_of(parts.last(), b));
        assert forall|i: int| 0 <= i < (j + sep + parts.last()).len() implies (j + sep
            + parts.last())[i] != b by {
            if i < j.len() {
                assert((j + sep + parts.last())[i] == j[i]);
            } else if i < j.len() + sep.len() {
                assert((j + sep + parts.last())[i] == sep[i - j.len()]);
            } else {
                assert((j + sep + parts.last())[i] == parts.last()[i - j.len() - sep.len()]);
            }
        }
    } else if parts.len() == 1 {
        assert(free_of(parts[0], b));
    }
}

proof fn lemma_crlf_regions(a: Seq<u8>, t: Seq<u8>, r: Seq<u8>)
    requires
        a.len() == 0 || a.last() == 0x0a,
        t.len() > 0,
        t.last() == 0x0a,
    ensures
        has_crlf(a + t + r) == (has_crlf(a + r) || has_crlf(t)),
{
    let s2 = a + t + r;
    let s = a + r;
    if has_crlf(s2) {
        let k = choose|k: int| #[trigger] crlf_at(s2, k);
        if k + 1 < a.len() {
            assert(crlf_at(s, k));
        } else if k < a.len() {
            assert(s2[k] == a.last());
        } else if k + 1 < a.len() + t.len() {
            assert(crlf_at(t, k - a.len()));
        } else if k < a.len() + t.len() {
            assert(s2[k] == t.last());
        } else {
            assert(s2[k] == r[k - a.len() - t.len()]);
            assert(s2[k + 1] == r[k + 1 - a.len() - t.len()]);
            assert(crlf_at(s, k - t.len()));
        }
    }
    if has_crlf(s) {
        let k = choose|k: int| #[trigger] crlf_at(s, k);
        if k + 1 < a.len() {
            assert(crlf_at(s2, k));
        } else if k < a.len() {
            assert(s[k] == a.last());
        } else {
            assert(crlf_at(s2, k + t.len()));
        }
    }
    if has_crlf(t) {
        let k = choose|k: int| #[trigger] crlf_at(t, k);
        assert(crlf_at(s2, k + a.len()));
    }
}

proof fn lemma_newline_at(s: Seq<u8>, i: int, q: int)
    requires
        0 <= i <= q < s.len(),
        s[q] == 0x0a,
        forall|k: int| i <= k < q ==> s[k] != 0x0a,
    ensures
        newline_from(s, i) == Some(q),
    decreases q - i,
{
    if i < q {
        lemma_newline_at(s, i + 1, q);
    }
}

proof fn lemma_newline_from_found(s: Seq<u8>, i: int)
    requires
        0 <= i < s.len(),
        s.last() == 0x0a,
    ensures
        newline_from(s, i) matches Some(p) && i <= p < s.len() && s[p] == 0x0a,
    decreases s.len() - i,
{
    if s[i] != 0x0a {
        lemma_newline_from_found(s, i + 1);
    }
}

proof fn lemma_newline_from_prefix(x: Seq<u8>, y: Seq<u8>, i: int)
    requires
        0 <= i < x.len(),
        x.last() == 0x0a,
    ensures
        newline_from(x + y, i) == newline_from(x, i),
    decreases x.len() - i,
{
    assert((x + y)[i] == x[i]);
    if x[i] != 0x0a {
        lemma_newline_from_prefix(x, y, i + 1);
    }
}

proof fn lemma_newline_from_shift(x: Seq<u8>, y: Seq<u8>, j: int)
    requires
        0 <= j,
    ensures
        newline_from(x + y, x.len() + j) == match newline_from(y, j) {
            Some(p) => Some(p + x.len()),
            None => None::<int>,
        },
    decreases y.len() - j,
{
    if j < y.len() {
        assert((x + y)[x.len() + j] == y[j]);
        if y[j] != 0x0a {
            lemma_newline_from_shift(x, y, j + 1);
        }
    }
}

proof fn lemma_lines_from_shift(x: Seq<u8>, y: Seq<u8>, j: int)
    requires
        0 <= j,
    ensures
        lines_from(x + y, x.len() + j) == lines_from(y, j),
    decreases y.len() - j,
{
    lemma_newline_from_shift(x, y, j);
    if j < y.len() {
        match newline_from(y, j) {
            Some(p) => {
                if j <= p < y.len() {
                    assert((x + y).subrange(x.len() + j, x.len() + p) =~= y.subrange(j, p));
                    lemma_lines_from_shift(x, y, p + 1);
                    assert(x.len() + p + 1 == x.len() + (p + 1));
                }
            },
            None => {
                assert((x + y).subrange(x.len() + j, (x + y).len() as int) =~= y.subrange(j, y.len() as int));
            },
        }
    }
}

proof fn lemma_lines_from_concat(x: Seq<u8>, y: Seq<u8>, i: int)
    requires
        0 <= i <= x.len(),
        x.len() == 0 || x.last() == 0x0a,
    ensures
        lines_from(x + y, i) == lines_from(x, i) + lines(y),
    decreases x.len() - i,
{
    if i == x.len() {
        lemma_lines_from_shift(x, y, 0);
        assert(lines_from(x, i) =~= Seq::<Seq<u8>>::empty());
        assert(Seq::<Seq<u8>>::empty() + lines(y) =~= lines(y));
    } else {
        lemma_newline_from_found(x, i);
        lemma_newline_from_prefix(x, y, i);
        let p = newline_from(x, i)->Some_0;
        assert((x + y).subrange(i, p) =~= x.subrange(i, p));
        lemma_lines_from_concat(x, y, p + 1);
        assert(seq![strip_cr(x.subrange(i, p))] + (lines_from(x, p + 1) + lines(y)) =~= (seq![
            strip_cr(x.subrange(i, p)),
        ] + lines_from(x, p + 1)) + lines(y));
    }
}

proof fn lemma_lines_concat(x: Seq<u8>, y: Seq<u8>)
    requires
        x.len() == 0 || x.last() == 0x0a,
    ensures
        lines(x + y) == lines(x) + lines(y),
{
    lemma_lines_from_concat(x, y, 0);
}

/// Whether `eol` is a line ending: a line feed, or a carriage return and a
/// line feed.
pub open spec fn is_eol(eol: Seq<u8>) -> bool {
    eol == seq![0x0au8] || eol == seq![0x0du8, 0x0au8]
}

proof fn lemma_one_line(p: Seq<u8>, eol: Seq<u8>)
    requires
        single_line(p),
        is_eol(eol),
    ensures
        lines(p + eol) == seq![p],
{
    let s = p + eol;
    let q = s.len() - 1;
    assert forall|k: int| 0 <= k < q implies s[k] != 0x0a by {
        if k < p.len() {
            assert(s[k] == p[k]);
        } else {
            assert(s[k] == 0x0d);
        }
    }
    lemma_newline_at(s, 0, q);
    if eol.len() == 1 {
        assert(s.subrange(0, q) =~= p);
        if p.len() > 0 {
            assert(p.last() == p[p.len() - 1]);
        }
    } else {
        assert(s.subrange(0, q) =~= p.push(0x0d));
        assert(p.push(0x0d).drop_last() =~= p);
    }
    assert(lines_from(s, q + 1) =~= Seq::<Seq<u8>>::empty());
    assert(lines(s) =~= seq![p]);
}

proof fn lemma_block_lines(parts: Seq<Seq<u8>>, eol: Seq<u8>)
    requires
        parts.len() >= 1,
        is_eol(eol),
        forall|k: int| 0 <= k < parts.len() ==> single_line(#[trigger] parts[k]),
    ensures
        lines(join(parts, eol) + eol) == parts,
    decreases parts.len(),
{
    if parts.len() == 1 {
        assert(single_line(parts[0]));
        lemma_one_line(parts[0], eol);
        assert(seq![parts[0]] =~= parts);
    } else {
        let d = parts.drop_last();
        assert forall|k: int| 0 <= k < d.len() implies single_line(#[trigger] d[k]) by {
            assert(d[k] == parts[k]);
        }
        lemma_block_lines(d, eol);
        let x = join(d, eol) + eol;
        let y = parts.last() + eol;
        assert(join(parts, eol) + eol =~= x + y);
        assert(x.last() == 0x0a);
        assert(single_line(parts[parts.len() - 1]));
        lemma_lines_concat(x, y);
        lemma_one_line(parts.last(), eol);
        assert(d + seq![parts.last()] =~= parts);
    }
}

/// Whether every byte of `w` is a space or a tab.
pub open spec fn blank_run(w: Seq<u8>) -> bool {
    forall|i: int| 0 <= i < w.len() ==> w[i] == 0x20 || w[i] == 0x09
}

proof fn lemma_trim_start_blank_run(w: Seq<u8>, r: Seq<u8>)
    requires
        blank_run(w),
    ensures
        trim_start(w + r) == trim_start(r),
    decreases w.len(),
{
    if w.len() == 0 {
        assert(w + r =~= r);
    } else {
        assert((w + r)[0] == w[0]);
        assert(leading_ws_len(w + r) == 1);
        assert((w + r).skip(1) =~= w.drop_first() + r);
        lemma_trim_start_blank_run(w.drop_first(), r);
    }
}

proof fn lemma_trim_start_marker(r: Seq<u8>)
    requires
        r.len() >= 3,
        r.take(3) == marker(),
    ensures
        trim_start(r) == r,
{
    assert(r[0] == r.take(3)[0]);
    assert(r[0] == 0x2f);
    assert(leading_ws_len(r) == 0);
}

proof fn lemma_trim_end_keeps_marker(x: Seq<u8>)
    requires
        x.len() >= 3,
        x.take(3) == marker(),
    ensures
        trim_end(x).len() >= 3,
        trim_end(x).take(3) == marker(),
    decreases x.len(),
{
    let n = x.len() as int;
    assert(x[0] == x.take(3)[0] && x[1] == x.take(3)[1] && x[2] == x.take(3)[2]);
    let r = trailing_ws_len(x);
    if r > 0 {
        if r == 2 {
            assert(x.subrange(n - 2, n)[0] == x[n - 2]);
        } else if r == 3 {
            assert(x.subrange(n - 3, n)[0] == x[n - 3]);
        }
        assert(n - r >= 3);
        let y = x.take(n - r);
        assert(y.take(3) =~= x.take(3));
        lemma_trim_end_keeps_marker(y);
    }
}

/// An annotation line, once trimmed at its start, begins with the marker.
proof fn lemma_annotation_marked(indent: Seq<u8>, keyword: Seq<u8>, clause: Seq<u8>)
    requires
        blank_run(indent),
    ensures
        is_marked(annotation_line(indent + marker() + seq![0x20u8], keyword, clause, Seq::empty()), marker()),
        !is_blank(annotation_line(indent + marker() + seq![0x20u8], keyword, clause, Seq::empty())),
{
    let body = marker() + seq![0x20u8] + keyword + clause;
    let l = annotation_line(indent + marker() + seq![0x20u8], keyword, clause, Seq::empty());
    assert(l =~= indent + body);
    assert(body.take(3) =~= marker());
    lemma_trim_start_blank_run(indent, body);
    lemma_trim_start_marker(body);
    lemma_trim_end_keeps_marker(body);
}

proof fn lemma_take_marked_back_append(xs: Seq<Seq<u8>>, ys: Seq<Seq<u8>>, m: Seq<u8>)
    requires
        forall|k: int| 0 <= k < ys.len() ==> is_marked(#[trigger] ys[k], m),
    ensures
        take_marked_back(xs + ys, m) == take_marked_back(xs, m) + ys.map_values(|l: Seq<u8>| trim(l)),
    decreases ys.len(),
{
    if ys.len() == 0 {
        assert(xs + ys =~= xs);
        assert(take_marked_back(xs, m) + ys.map_values(|l: Seq<u8>| trim(l)) =~= take_marked_back(xs, m));
    } else {
        let d = ys.drop_last();
        assert forall|k: int| 0 <= k < d.len() implies is_marked(#[trigger] d[k], m) by {
            assert(d[k] == ys[k]);
        }
        lemma_take_marked_back_append(xs, d, m);
        assert((xs + ys).drop_last() =~= xs + d);
        assert((xs + ys).last() == ys.last());
        assert(is_marked(ys[ys.len() - 1], m));
        assert(take_marked_back(xs, m) + ys.map_values(|l: Seq<u8>| trim(l)) =~= (take_marked_back(
            xs,
            m,
        ) + d.map_values(|l: Seq<u8>| trim(l))).push(trim(ys.last())));
    }
}

proof fn lemma_free_of_concat(x: Seq<u8>, y: Seq<u8>, b: u8)
    requires
        free_of(x, b),
        free_of(y, b),
    ensures
        free_of(x + y, b),
{
    assert forall|i: int| 0 <= i < (x + y).len() implies (x + y)[i] != b by {
        if i < x.len() {
            assert((x + y)[i] == x[i]);
        } else {
            assert((x + y)[i] == y[i - x.len()]);
        }
    }
}

/// An annotation line of a one-line clause is itself one line.
proof fn lemma_annotation_single_line(indent: Seq<u8>, keyword: Seq<u8>, clause: Seq<u8>)
    requires
        blank_run(indent),
        keyword == requires_keyword() || keyword == ensures_keyword(),
        single_line(clause),
    ensures
        single_line(annotation_line(indent + marker() + seq![0x20u8], keyword, clause, Seq::empty())),
{
    let head = marker() + seq![0x20u8] + keyword;
    assert(free_of(head, 0x0a) && free_of(head, 0x0d)) by {
        assert(forall|i: int| 0 <= i < requires_keyword().len() ==> requires_keyword()[i] >= 0x20);
        assert(forall|i: int| 0 <= i < ensures_keyword().len() ==> ensures_keyword()[i] >= 0x20);
        assert(forall|i: int| 0 <= i < marker().len() ==> marker()[i] >= 0x20);
        assert forall|i: int| 0 <= i < head.len() implies head[i] >= 0x20 by {
            if i < 3 {
                assert(head[i] == marker()[i]);
            } else if i == 3 {
                assert(head[i] == 0x20);
            } else {
                assert(head[i] == keyword[i - 4]);
            }
        }
    }
    assert(free_of(indent, 0x0a) && free_of(indent, 0x0d));
    lemma_free_of_concat(indent, head, 0x0a);
    lemma_free_of_concat(indent, head, 0x0d);
    lemma_free_of_concat(indent + head, clause, 0x0a);
    lemma_free_of_concat(indent + head, clause, 0x0d);
    assert(annotation_line(indent + marker() + seq![0x20u8], keyword, clause, Seq::empty()) =~= indent
        + head + clause);
}

/// The indentation of line `line`.
pub open spec fn line_indent(s: Seq<u8>, line: int) -> Seq<u8> {
    s.subrange(line_start(s, line), indent_end(s, line_start(s, line)))
}

/// The start of a Java annotation line on line `line`: its indentation and
/// the marker.
pub open spec fn java_prefix(s: Seq<u8>, line: int) -> Seq<u8> {
    line_indent(s, line) + marker() + seq![0x20u8]
}

/// The annotations written above line `line`.
pub open spec fn annotations_above(s: Seq<u8>, line: int) -> Seq<Seq<u8>> {
    trailing_contract_list(s.take(line_start(s, line)), marker())
}

/// Whether the line above line `line`, if any, is not blank.
pub open spec fn no_gap_above(s: Seq<u8>, line: int) -> bool {
    let above = lines(s.take(line_start(s, line)));
    above.len() == 0 || !is_blank(above.last())
}

/// Whether none of `clauses`, written as `keyword` annotations after
/// `prefix`, stands among `existing`.
pub open spec fn none_present(
    clauses: Seq<Seq<u8>>,
    prefix: Seq<u8>,
    keyword: Seq<u8>,
    existing: Seq<Seq<u8>>,
) -> bool {
    forall|i: int|
        0 <= i < clauses.len() ==> !existing.contains(
            trim(annotation_line(prefix, keyword, #[trigger] clauses[i], Seq::empty())),
        )
}

/// The text after inserting `txt` at `o`.
pub open spec fn inserted(s: Seq<u8>, o: int, txt: Seq<u8>) -> Seq<u8> {
    s.take(o) + txt + s.skip(o)
}

proof fn lemma_missing_lines_facts(
    clauses: Seq<Seq<u8>>,
    indent: Seq<u8>,
    keyword: Seq<u8>,
    existing: Seq<Seq<u8>>,
)
    requires
        blank_run(indent),
        keyword == requires_keyword() || keyword == ensures_keyword(),
        forall|k: int| 0 <= k < clauses.len() ==> single_line(#[trigger] clauses[k]),
    ensures
        forall|k: int|
            0 <= k < missing_annotations(clauses, indent + marker() + seq![0x20u8], keyword, Seq::empty(), existing).len()
                ==> single_line(#[trigger] missing_annotations(clauses, indent + marker() + seq![0x20u8], keyword, Seq::empty(), existing)[k])
                && is_marked(missing_annotations(clauses, indent + marker() + seq![0x20u8], keyword, Seq::empty(), existing)[k], marker())
                && !is_blank(missing_annotations(clauses, indent + marker() + seq![0x20u8], keyword, Seq::empty(), existing)[k]),
{
    let prefix = indent + marker() + seq![0x20u8];
    let ms = missing_annotations(clauses, prefix, keyword, Seq::empty(), existing);
    lemma_missing_annotations_are_the_absent_ones(clauses, prefix, keyword, Seq::empty(), existing);
    assert forall|k: int| 0 <= k < ms.len() implies single_line(#[trigger] ms[k]) && is_marked(ms[k], marker())
        && !is_blank(ms[k]) by {
        let i = choose|i: int|
            0 <= i < clauses.len() && #[trigger] ms[k] == annotation_line(prefix, keyword, clauses[i], Seq::empty())
                && !existing.contains(trim(annotation_line(prefix, keyword, clauses[i], Seq::empty())));
        lemma_annotation_single_line(indent, keyword, clauses[i]);
        lemma_annotation_marked(indent, keyword, clauses[i]);
    }
}

/// Each clause, written as an annotation, stands among `existing2` when it
/// stood among `existing` (which `existing2` begins with, unless no clause
/// stood there) or was among the annotations added (which `existing2`
/// holds, trimmed).
proof fn lemma_clauses_now_present(
    clauses: Seq<Seq<u8>>,
    prefix: Seq<u8>,
    keyword: Seq<u8>,
    existing: Seq<Seq<u8>>,
    added: Seq<Seq<u8>>,
    existing2: Seq<Seq<u8>>,
)
    requires
        forall|l: Seq<u8>| #[trigger] added.contains(l) ==> existing2.contains(trim(l)),
        forall|k: int|
            0 <= k < missing_annotations(clauses, prefix, keyword, Seq::empty(), existing).len()
                ==> added.contains(#[trigger] missing_annotations(clauses, prefix, keyword, Seq::empty(), existing)[k]),
        none_present(clauses, prefix, keyword, existing) || forall|l: Seq<u8>| #[trigger] existing.contains(l)
            ==> existing2.contains(l),
    ensures
        forall|i: int|
            0 <= i < clauses.len() ==> existing2.contains(
                trim(annotation_line(prefix, keyword, #[trigger] clauses[i], Seq::empty())),
            ),
{
    let ms = missing_annotations(clauses, prefix, keyword, Seq::empty(), existing);
    lemma_missing_annotations_are_the_absent_ones(clauses, prefix, keyword, Seq::empty(), existing);
    assert forall|i: int| 0 <= i < clauses.len() implies existing2.contains(
        trim(annotation_line(prefix, keyword, #[trigger] clauses[i], Seq::empty())),
    ) by {
        let l = annotation_line(prefix, keyword, clauses[i], Seq::empty());
        if existing.contains(trim(l)) {
            assert(!none_present(clauses, prefix, keyword, existing));
        } else {
            assert(ms.contains(l));
            let k = choose|k: int| 0 <= k < ms.len() && ms[k] == l;
            assert(added.contains(ms[k]));
        }
    }
}

/// Inserting a block of whole annotation lines at the start of line
/// `line`: the line then starts `txt.len()` bytes later with the same
/// indentation, the text keeps its line endings, and the annotations above
/// it are those above it before (as far as they reach down to it) followed
/// by the inserted ones, trimmed.
proof fn lemma_block_above_line(s: Seq<u8>, line: int, ann: Seq<Seq<u8>>)
    requires
        line >= 1,
        line == 1 || nth_newline(s, 0, (line - 2) as nat) is Some,
        ann.len() > 0,
        forall|k: int|
            0 <= k < ann.len() ==> single_line(#[trigger] ann[k]) && is_marked(ann[k], marker())
                && !is_blank(ann[k]),
    ensures
        ({
            let ls = line_start(s, line);
            let txt = join(ann, eol_of(s)) + eol_of(s);
            let s2 = inserted(s, ls, txt);
            let line2 = line + newline_count(txt);
            &&& 0 <= ls <= s.len()
            &&& line_start(s2, line2) == ls + txt.len()
            &&& line_indent(s2, line2) == line_indent(s, line)
            &&& blank_run(line_indent(s, line))
            &&& has_crlf(txt) == has_crlf(s)
            &&& eol_of(s2) == eol_of(s)
            &&& annotations_above(s2, line2) == take_marked_back(lines(s.take(ls)), marker())
                + ann.map_values(|l: Seq<u8>| trim(l))
        }),
{
    let ls = line_start(s, line);
    let eol = eol_of(s);
    let txt = join(ann, eol) + eol;
    assert(txt.len() > 0 && txt.last() == 0x0a);
    lemma_line_after_insert(s, line, txt);
    let a = s.take(ls);
    let rest = s.skip(ls);
    let s2 = inserted(s, ls, txt);
    let line2 = line + newline_count(txt);
    let ls2 = ls + txt.len();
    assert(a.len() == ls);
    assert(s2 =~= a + txt + rest);
    assert(s2.skip(ls2) =~= rest);
    lemma_indent_shift(s2, ls2, s, ls);
    lemma_indent_shift(s, ls, s, ls);
    assert(is_eol(eol));
    lemma_block_lines(ann, eol);
    assert(a + rest =~= s);
    assert(a.len() == 0 || a.last() == s[ls - 1]);
    lemma_crlf_regions(a, txt, rest);
    if has_crlf(s) {
        assert(crlf_at(txt, txt.len() - 2));
    } else {
        assert(free_of(eol, 0x0d));
        assert forall|k: int| 0 <= k < ann.len() implies free_of(#[trigger] ann[k], 0x0d) by {
            assert(single_line(ann[k]));
        }
        lemma_join_free_of(ann, eol, 0x0d);
        lemma_free_of_concat(join(ann, eol), eol, 0x0d);
        if has_crlf(txt) {
            let k = choose|k: int| #[trigger] crlf_at(txt, k);
            assert(txt[k] == 0x0d);
        }
    }
    assert(s2.take(ls2) =~= a + txt);
    lemma_lines_concat(a, txt);
    let above = lines(a);
    assert(skip_blank_back(above + ann) == above + ann) by {
        assert((above + ann).last() == ann.last());
        assert(!is_blank(ann[ann.len() - 1]));
    }
    lemma_take_marked_back_append(above, ann, marker());
}

/// Scaffolding a Java method a second time adds nothing: once the annotation
/// lines an insertion produced stand above the method (which then starts
/// that many lines further down), every requested clause is found among the
/// annotations above it. The inserted lines end as the file's lines do,
/// with CRLF exactly when the file uses CRLF. The law needs the method's
/// line to exist, the clauses to fit on one line, and either no blank line
/// between the annotations already there and the method, or none of the
/// requested clauses among those annotations.
pub proof fn lemma_java_scaffolding_twice_adds_nothing(
    s: Seq<u8>,
    line: int,
    name: Seq<u8>,
    reqs: Seq<Seq<u8>>,
    ens: Seq<Seq<u8>>,
)
    requires
        line >= 1,
        line == 1 || nth_newline(s, 0, (line - 2) as nat) is Some,
        forall|k: int| 0 <= k < reqs.len() ==> single_line(#[trigger] reqs[k]),
        forall|k: int| 0 <= k < ens.len() ==> single_line(#[trigger] ens[k]),
        insertion_spec(s, SourceLanguage::Java, line, name, reqs, ens) matches Ok(Some(_)),
        no_gap_above(s, line) || (none_present(
            reqs,
            java_prefix(s, line),
            requires_keyword(),
            annotations_above(s, line),
        ) && none_present(ens, java_prefix(s, line), ensures_keyword(), annotations_above(s, line))),
    ensures
        ({
            let (o, txt) = insertion_spec(s, SourceLanguage::Java, line, name, reqs, ens)->Ok_0->Some_0;
            let s2 = inserted(s, o, txt);
            let line2 = line + newline_count(txt);
            &&& o == line_start(s, line)
            &&& line_start(s2, line2) == o + txt.len()
            &&& has_crlf(txt) == has_crlf(s)
            &&& eol_of(s2) == eol_of(s)
            &&& insertion_spec(s2, SourceLanguage::Java, line2, name, reqs, ens) == Ok::<
                Option<(int, Seq<u8>)>,
                crate::contract::BraceFailure,
            >(None)
        }),
{
    let ls = line_start(s, line);
    let indent = line_indent(s, line);
    let prefix = java_prefix(s, line);
    let eol = eol_of(s);
    let existing = annotations_above(s, line);
    let ms_r = missing_annotations(reqs, prefix, requires_keyword(), Seq::empty(), existing);
    let ms_e = missing_annotations(ens, prefix, ensures_keyword(), Seq::empty(), existing);
    let ann = annotations(reqs, ens, prefix, Seq::empty(), existing);
    assert(ann == ms_r + ms_e);
    let txt = join(ann, eol) + eol;
    assert(insertion_spec(s, SourceLanguage::Java, line, name, reqs, ens) == Ok::<
        Option<(int, Seq<u8>)>,
        crate::contract::BraceFailure,
    >(Some((ls, txt))));
    assert(txt.len() > 0 && txt.last() == 0x0a);
    lemma_line_after_insert(s, line, txt);
    lemma_indent_shift(s, ls, s, ls);
    assert(blank_run(indent));
    lemma_missing_lines_facts(reqs, indent, requires_keyword(), existing);
    lemma_missing_lines_facts(ens, indent, ensures_keyword(), existing);
    assert forall|k: int| 0 <= k < ann.len() implies single_line(#[trigger] ann[k]) && is_marked(ann[k], marker())
        && !is_blank(ann[k]) by {
        if k < ms_r.len() {
            assert(ann[k] == ms_r[k]);
        } else {
            assert(ann[k] == ms_e[k - ms_r.len()]);
        }
    }
    lemma_block_above_line(s, line, ann);
    let s2 = inserted(s, ls, txt);
    let line2 = line + newline_count(txt);
    let above = lines(s.take(ls));
    let existing2 = take_marked_back(above, marker()) + ann.map_values(|l: Seq<u8>| trim(l));
    assert(java_prefix(s2, line2) == prefix);
    assert forall|l: Seq<u8>| #[trigger] ann.contains(l) implies existing2.contains(trim(l)) by {
        let k = choose|k: int| 0 <= k < ann.len() && ann[k] == l;
        assert(existing2[take_marked_back(above, marker()).len() + k] == trim(l));
    }
    if no_gap_above(s, line) {
        assert(skip_blank_back(above) == above);
        assert(existing == take_marked_back(above, marker()));
        assert forall|l: Seq<u8>| #[trigger] existing.contains(l) implies existing2.contains(l) by {
            let k = choose|k: int| 0 <= k < existing.len() && existing[k] == l;
            assert(existing2[k] == l);
        }
    }
    assert forall|k: int| 0 <= k < ms_r.len() implies ann.contains(#[trigger] ms_r[k]) by {
        assert(ann[k] == ms_r[k]);
    }
    assert forall|k: int| 0 <= k < ms_e.len() implies ann.contains(#[trigger] ms_e[k]) by {
        assert(ann[ms_r.len() + k] == ms_e[k]);
    }
    lemma_clauses_now_present(reqs, prefix, requires_keyword(), existing, ann, existing2);
    lemma_clauses_now_present(ens, prefix, ensures_keyword(), existing, ann, existing2);
    lemma_missing_annotations_are_the_absent_ones(reqs, prefix, requires_keyword(), Seq::empty(), existing2);
    lemma_missing_annotations_are_the_absent_ones(ens, prefix, ensures_keyword(), Seq::empty(), existing2);
    assert(annotations(reqs, ens, prefix, Seq::empty(), existing2).len() == 0);
}

/// Whether every byte of `w` is ASCII whitespace.
pub open spec fn ws_run(w: Seq<u8>) -> bool {
    forall|i: int| 0 <= i < w.len() ==> is_ascii_ws(#[trigger] w[i])
}

proof fn lemma_lf_line(p: Seq<u8>)
    requires
        free_of(p, 0x0a),
    ensures
        lines(p + seq![0x0au8]) == seq![strip_cr(p)],
{
    let s = p + seq![0x0au8];
    let q = p.len() as int;
    assert forall|k: int| 0 <= k < q implies s[k] != 0x0a by {
        assert(s[k] == p[k]);
    }
    lemma_newline_at(s, 0, q);
    assert(s.subrange(0, q) =~= p);
    assert(lines_from(s, q + 1) =~= Seq::<Seq<u8>>::empty());
    assert(lines(s) =~= seq![strip_cr(p)]);
}

proof fn lemma_last_line(p: Seq<u8>)
    requires
        p.len() > 0,
        free_of(p, 0x0a),
    ensures
        lines(p) == seq![p],
{
    assert forall|k: int| 0 <= k < p.len() implies p[k] != 0x0a by {}
    crate::bytes::lemma_newline_from(p, 0);
    assert(newline_from(p, 0) is None);
    assert(p.subrange(0, p.len() as int) =~= p);
}

proof fn lemma_take_marked_append(xs: Seq<Seq<u8>>, ys: Seq<Seq<u8>>, m: Seq<u8>)
    requires
        forall|k: int| 0 <= k < xs.len() ==> is_marked(#[trigger] xs[k], m),
    ensures
        take_marked(xs + ys, m) == xs.map_values(|l: Seq<u8>| trim(l)) + take_marked(ys, m),
    decreases xs.len(),
{
    if xs.len() == 0 {
        assert(xs + ys =~= ys);
        assert(xs.map_values(|l: Seq<u8>| trim(l)) + take_marked(ys, m) =~= take_marked(ys, m));
    } else {
        let d = xs.drop_first();
        assert forall|k: int| 0 <= k < d.len() implies is_marked(#[trigger] d[k], m) by {
            assert(d[k] == xs[k + 1]);
        }
        lemma_take_marked_append(d, ys, m);
        assert((xs + ys).drop_first() =~= d + ys);
        assert((xs + ys)[0] == xs[0]);
        assert(is_marked(xs[0], m));
        assert(xs.map_values(|l: Seq<u8>| trim(l)) + take_marked(ys, m) =~= seq![trim(xs[0])] + (
        d.map_values(|l: Seq<u8>| trim(l)) + take_marked(ys, m)));
    }
}

proof fn lemma_trim_end_ws_suffix(a: Seq<u8>, w: Seq<u8>)
    requires
        ws_run(w),
    ensures
        trim_end(a + w) == trim_end(a),
    decreases w.len(),
{
    if w.len() == 0 {
        assert(a + w =~= a);
    } else {
        let x = a + w;
        assert(x[x.len() - 1] == w[w.len() - 1]);
        assert(is_ascii_ws(w[w.len() - 1]));
        assert(trailing_ws_len(x) == 1);
        assert(x.take(x.len() - 1) =~= a + w.drop_last());
        lemma_trim_end_ws_suffix(a, w.drop_last());
    }
}

proof fn lemma_trim_start_ws(x: Seq<u8>)
    requires
        ws_run(x),
    ensures
        trim_start(x).len() == 0,
    decreases x.len(),
{
    if x.len() > 0 {
        assert(is_ascii_ws(x[0]));
        assert(leading_ws_len(x) == 1);
        assert forall|i: int| 0 <= i < x.skip(1).len() implies is_ascii_ws(#[trigger] x.skip(1)[i]) by {
            assert(x.skip(1)[i] == x[i + 1]);
        }
        lemma_trim_start_ws(x.skip(1));
    }
}

/// A marked line with whitespace after it trims to what the line alone
/// trims to, and stays marked.
proof fn lemma_marked_line_ws_suffix(w: Seq<u8>, body: Seq<u8>, tail: Seq<u8>)
    requires
        blank_run(w),
        body.len() >= 3,
        body.take(3) == marker(),
        ws_run(tail),
    ensures
        trim(w + body + tail) == trim(w + body),
        is_marked(w + body + tail, marker()),
        !is_blank(w + body + tail),
{
    lemma_trim_start_blank_run(w, body + tail);
    assert(w + body + tail =~= w + (body + tail));
    assert((body + tail).take(3) =~= body.take(3));
    lemma_trim_start_marker(body + tail);
    lemma_trim_start_blank_run(w, body);
    lemma_trim_start_marker(body);
    lemma_trim_end_ws_suffix(body, tail);
    lemma_trim_end_keeps_marker(body);
}

/// Whether the line after the first line of `r` is not blank (or there is
/// no such line).
pub open spec fn no_gap_after_first_line(r: Seq<u8>) -> bool {
    lines(r).len() < 2 || !is_blank(lines(r)[1])
}

proof fn lemma_ws_blank(x: Seq<u8>)
    requires
        ws_run(x),
    ensures
        is_blank(x),
{
    lemma_trim_start_ws(x);
    assert(trim_start(x) =~= Seq::<u8>::empty());
    assert(trailing_ws_len(Seq::<u8>::empty()) == 0);
}

/// The end of the first line of `r`: its first line feed, or its end.
pub open spec fn first_line_end(r: Seq<u8>) -> int {
    match newline_from(r, 0) {
        Some(q) => q,
        None => r.len() as int,
    }
}

/// The lines after the first line of `r`.
pub open spec fn after_first_line(r: Seq<u8>) -> Seq<u8> {
    if first_line_end(r) < r.len() {
        r.skip(first_line_end(r) + 1)
    } else {
        Seq::empty()
    }
}

/// Line `l` run on with the first line of `r`.
pub open spec fn run_on(l: Seq<u8>, r: Seq<u8>) -> Seq<u8> {
    if first_line_end(r) < r.len() {
        strip_cr(l + r.take(first_line_end(r)))
    } else {
        l + r.take(first_line_end(r))
    }
}

proof fn lemma_skip_one_blank(x: Seq<u8>, z: Seq<Seq<u8>>)
    requires
        is_blank(x),
        z.len() > 0,
        !is_blank(z[0]),
    ensures
        skip_blank(seq![x] + z) == z,
{
    assert((seq![x] + z).drop_first() =~= z);
    assert((seq![x] + z)[0] == x);
    assert(skip_blank(z) == z);
}

/// The lines of a text that opens with a line ending, then a block of
/// one-line parts, then `r`: an empty line, the parts, the last of them run
/// on with the first line of `r`, then the lines of `r` after its first.
proof fn lemma_lines_after_brace(eol: Seq<u8>, ann: Seq<Seq<u8>>, r: Seq<u8>)
    requires
        is_eol(eol),
        ann.len() >= 1,
        forall|k: int| 0 <= k < ann.len() ==> single_line(#[trigger] ann[k]) && ann[k].len() > 0,
    ensures
        lines(eol + join(ann, eol) + r) == seq![Seq::<u8>::empty()] + (ann.drop_last() + (seq![
            run_on(ann.last(), r),
        ] + lines(after_first_line(r)))),
{
    let d = ann.drop_last();
    let l = ann.last();
    let n = ann.len() - 1;
    assert(single_line(ann[n]) && ann[n].len() > 0);
    assert forall|k: int| 0 <= k < d.len() implies single_line(#[trigger] d[k]) by {
        assert(d[k] == ann[k]);
    }
    lemma_one_line(Seq::<u8>::empty(), eol);
    assert(Seq::<u8>::empty() + eol =~= eol);
    crate::bytes::lemma_newline_from(r, 0);
    let q = first_line_end(r);
    let w0 = r.take(q);
    assert(free_of(w0, 0x0a)) by {
        assert forall|i: int| 0 <= i < w0.len() implies w0[i] != 0x0a by {
            assert(w0[i] == r[i]);
        }
    }
    lemma_free_of_concat(l, w0, 0x0a);
    let rest = after_first_line(r);
    let last2 = run_on(l, r);
    let mid = if q < r.len() {
        l + w0 + seq![0x0au8]
    } else {
        l + w0
    };
    if q < r.len() {
        assert(r =~= w0 + seq![0x0au8] + rest);
        lemma_lf_line(l + w0);
        lemma_lines_concat(mid, rest);
        assert(mid + rest =~= l + r);
    } else {
        assert(r =~= w0);
        lemma_last_line(l + w0);
        assert(lines(rest) =~= Seq::<Seq<u8>>::empty()) by {
            assert(lines_from(rest, 0) =~= Seq::<Seq<u8>>::empty());
        }
        assert(mid =~= l + r);
    }
    assert(lines(l + r) == seq![last2] + lines(rest)) by {
        if q >= r.len() {
            assert(seq![last2] + lines(rest) =~= seq![last2]);
        }
    }
    let whole = eol + join(ann, eol) + r;
    if n == 0 {
        assert(join(ann, eol) == l);
        assert(whole =~= eol + (l + r));
        lemma_lines_concat(eol, l + r);
        assert(d =~= Seq::<Seq<u8>>::empty());
        assert(d + (seq![last2] + lines(rest)) =~= seq![last2] + lines(rest));
        assert(lines(eol) == seq![Seq::<u8>::empty()]);
        assert(lines(whole) == lines(eol) + lines(l + r));
    } else {
        assert(join(ann, eol) == join(d, eol) + eol + l);
        assert(whole =~= eol + ((join(d, eol) + eol) + (l + r)));
        lemma_block_lines(d, eol);
        assert((join(d, eol) + eol).last() == 0x0a);
        lemma_lines_concat(join(d, eol) + eol, l + r);
        lemma_lines_concat(eol, (join(d, eol) + eol) + (l + r));
        assert(lines(eol) == seq![Seq::<u8>::empty()]);
        assert(lines(whole) == lines(eol) + (d + lines(l + r)));
        assert(d + lines(l + r) == d + (seq![last2] + lines(rest)));
    }
    assert(lines(whole) =~= seq![Seq::<u8>::empty()] + (d + (seq![last2] + lines(rest))));
    assert(last2 == run_on(ann.last(), r));
    assert(rest == after_first_line(r));
}

proof fn lemma_marked_shape(a: Seq<u8>, w: Seq<u8>)
    requires
        blank_run(w),
        a.len() >= w.len() + 3,
        a.take(w.len() + 3 as int) == w + marker(),
    ensures
        a == w + a.skip(w.len() as int),
        a.skip(w.len() as int).len() >= 3,
        a.skip(w.len() as int).take(3) == marker(),
        is_marked(a, marker()),
        !is_blank(a),
{
    let wl = w.len() as int;
    let b = a.skip(wl);
    assert forall|i: int| 0 <= i < wl implies a[i] == w[i] by {
        assert(a.take(wl + 3)[i] == (w + marker())[i]);
    }
    assert(a =~= w + b);
    assert forall|i: int| 0 <= i < 3 implies b[i] == marker()[i] by {
        assert(a.take(wl + 3)[wl + i] == (w + marker())[wl + i]);
    }
    assert(b.take(3) =~= marker());
    assert(w + b + Seq::<u8>::empty() =~= a);
    lemma_marked_line_ws_suffix(w, b, Seq::<u8>::empty());
}

/// The annotations that open a body into whose first line a block of
/// annotation lines was written, right after the brace: the block's lines,
/// trimmed, followed by the annotations that opened the body before, as far
/// as they started on the line after the brace.
proof fn lemma_comments_after_brace(eol: Seq<u8>, ann: Seq<Seq<u8>>, w: Seq<u8>, r: Seq<u8>)
    requires
        is_eol(eol),
        ann.len() >= 1,
        blank_run(w),
        forall|k: int|
            0 <= k < ann.len() ==> single_line(#[trigger] ann[k]) && ann[k].len() >= w.len() + 3
                && ann[k].take(w.len() + 3 as int) == w + marker(),
        crate::rescan::blank_to_eol(r, 0),
    ensures
        forall|k: int|
            0 <= k < ann.len() ==> leading_contract_list(eol + join(ann, eol) + r, marker()).contains(
                trim(#[trigger] ann[k]),
            ),
        no_gap_after_first_line(r) ==> forall|l: Seq<u8>|
            #[trigger] leading_contract_list(r, marker()).contains(l) ==> leading_contract_list(
                eol + join(ann, eol) + r,
                marker(),
            ).contains(l),
{
    let m = marker();
    let d = ann.drop_last();
    let l = ann.last();
    let n = ann.len() - 1;
    assert(single_line(ann[n]) && ann[n].len() >= w.len() + 3 && ann[n].take(w.len() + 3 as int) == w + m);
    lemma_marked_shape(l, w);
    let body_l = l.skip(w.len() as int);
    assert forall|k: int| 0 <= k < ann.len() implies is_marked(#[trigger] ann[k], m) && ann[k].len() > 0 by {
        assert(single_line(ann[k]) && ann[k].len() >= w.len() + 3 && ann[k].take(w.len() + 3 as int) == w + m);
        lemma_marked_shape(ann[k], w);
    }
    assert forall|k: int| 0 <= k < ann.len() implies single_line(#[trigger] ann[k]) && ann[k].len() > 0 by {
        assert(single_line(ann[k]) && ann[k].len() >= w.len() + 3);
    }
    lemma_lines_after_brace(eol, ann, r);
    crate::bytes::lemma_newline_from(r, 0);
    let q = first_line_end(r);
    let w0 = r.take(q);
    assert(ws_run(w0)) by {
        assert forall|i: int| 0 <= i < w0.len() implies is_ascii_ws(#[trigger] w0[i]) by {
            assert(w0[i] == r[i]);
        }
    }
    let rest = after_first_line(r);
    let last2 = run_on(l, r);
    let w1 = if q < r.len() && w0.len() > 0 && w0.last() == 0x0d {
        w0.drop_last()
    } else {
        w0
    };
    assert(ws_run(w1)) by {
        assert forall|i: int| 0 <= i < w1.len() implies is_ascii_ws(#[trigger] w1[i]) by {
            assert(w1[i] == w0[i]);
        }
    }
    assert(last2 =~= w + body_l + w1) by {
        if q < r.len() && w0.len() == 0 {
            assert(l[l.len() - 1] != 0x0d);
            assert(l + w0 =~= l);
        }
    }
    lemma_marked_line_ws_suffix(w, body_l, w1);
    lemma_marked_line_ws_suffix(w, body_l, Seq::<u8>::empty());
    assert(w + body_l + Seq::<u8>::empty() =~= l);
    let marked = d + seq![last2];
    assert forall|k: int| 0 <= k < marked.len() implies is_marked(#[trigger] marked[k], m) by {
        if k < d.len() {
            assert(marked[k] == ann[k]);
        }
    }
    let whole = eol + join(ann, eol) + r;
    assert(lines(whole) =~= seq![Seq::<u8>::empty()] + (marked + lines(rest)));
    lemma_ws_blank(Seq::<u8>::empty());
    assert(!is_blank((marked + lines(rest))[0])) by {
        if d.len() > 0 {
            assert((marked + lines(rest))[0] == ann[0]);
            lemma_marked_shape(ann[0], w);
        } else {
            assert((marked + lines(rest))[0] == last2);
        }
    }
    lemma_skip_one_blank(Seq::<u8>::empty(), marked + lines(rest));
    lemma_take_marked_append(marked, lines(rest), m);
    let pre = marked.map_values(|x: Seq<u8>| trim(x));
    let y = leading_contract_list(whole, m);
    assert(y == pre + take_marked(lines(rest), m));
    assert forall|k: int| 0 <= k < ann.len() implies y.contains(trim(#[trigger] ann[k])) by {
        if k < d.len() {
            assert(y[k] == pre[k]);
            assert(marked[k] == ann[k]);
        } else {
            assert(y[d.len() as int] == pre[d.len() as int]);
        }
    }
    if no_gap_after_first_line(r) {
        let old_lines = lines(r);
        if q < r.len() {
            lemma_lf_line(w0);
            assert(free_of(w0, 0x0a)) by {
                assert forall|i: int| 0 <= i < w0.len() implies w0[i] != 0x0a by {
                    assert(w0[i] == r[i]);
                }
            }
            assert(r =~= (w0 + seq![0x0au8]) + rest);
            lemma_lines_concat(w0 + seq![0x0au8], rest);
            assert(old_lines == seq![strip_cr(w0)] + lines(rest));
            assert(ws_run(strip_cr(w0))) by {
                assert forall|i: int| 0 <= i < strip_cr(w0).len() implies is_ascii_ws(#[trigger] strip_cr(w0)[i]) by {
                    assert(strip_cr(w0)[i] == w0[i]);
                }
            }
            lemma_ws_blank(strip_cr(w0));
            if lines(rest).len() > 0 {
                assert(old_lines[1] == lines(rest)[0]);
                lemma_skip_one_blank(strip_cr(w0), lines(rest));
            } else {
                assert(old_lines =~= seq![strip_cr(w0)]);
                assert(old_lines.drop_first() =~= lines(rest));
                assert(old_lines[0] == strip_cr(w0));
                assert(skip_blank(lines(rest)) == lines(rest));
            }
            assert(skip_blank(old_lines) == lines(rest));
            let e = take_marked(lines(rest), m);
            assert forall|x: Seq<u8>| #[trigger] leading_contract_list(r, m).contains(x) implies y.contains(x) by {
                let k = choose|k: int| 0 <= k < e.len() && e[k] == x;
                assert(y[pre.len() + k] == e[k]);
            }
        } else {
            if r.len() > 0 {
                assert(free_of(r, 0x0a));
                lemma_last_line(r);
                assert(r =~= w0);
                lemma_ws_blank(r);
                assert(old_lines.drop_first() =~= Seq::<Seq<u8>>::empty());
                assert(old_lines[0] == r);
                assert(skip_blank(Seq::<Seq<u8>>::empty()) =~= Seq::<Seq<u8>>::empty());
            } else {
                assert(old_lines =~= Seq::<Seq<u8>>::empty()) by {
                    assert(lines_from(r, 0) =~= Seq::<Seq<u8>>::empty());
                }
            }
            assert(skip_blank(old_lines) =~= Seq::<Seq<u8>>::empty());
            assert(leading_contract_list(r, m) =~= Seq::<Seq<u8>>::empty());
        }
    }
}

proof fn lemma_line_start_kept(s: Seq<u8>, line: int, o: int, x: Seq<u8>)
    requires
        line >= 1,
        line == 1 || nth_newline(s, 0, (line - 2) as nat) is Some,
        line_start(s, line) < o <= s.len(),
    ensures
        line_start(inserted(s, o, x), line) == line_start(s, line),
{
    if line > 1 {
        let n = (line - 2) as nat;
        lemma_nth_newline_counts(s, 0, n);
        let p = nth_newline(s, 0, n)->Some_0;
        let a = s.take(o);
        assert(a =~= s.subrange(0, p + 1) + s.subrange(p + 1, o));
        lemma_newline_count_concat(s.subrange(0, p + 1), s.subrange(p + 1, o));
        assert(a.skip(0) =~= a);
        lemma_nth_newline_concat(a, s.skip(o), 0, n);
        lemma_nth_newline_concat(a, x + s.skip(o), 0, n);
        assert(a + s.skip(o) =~= s);
        assert(inserted(s, o, x) =~= a + (x + s.skip(o)));
    }
}

proof fn lemma_indent_prefix(s1: Seq<u8>, s2: Seq<u8>, n: int, i: int, k: int)
    requires
        crate::rescan::agree(s1, s2, n),
        0 <= i <= k < n,
        !(s1[k] == 0x20 || s1[k] == 0x09),
    ensures
        indent_end(s2, i) == indent_end(s1, i),
        indent_end(s1, i) <= k,
    decreases k - i,
{
    assert(s2[i] == s1[i]);
    if i < k && (s1[i] == 0x20 || s1[i] == 0x09) {
        lemma_indent_prefix(s1, s2, n, i + 1, k);
    }
}

proof fn lemma_crlf_mid(a: Seq<u8>, x: Seq<u8>, r: Seq<u8>)
    requires
        a.len() > 0,
        a.last() != 0x0d,
        x.len() > 0,
        x.last() != 0x0d,
    ensures
        has_crlf(a + x + r) == (has_crlf(a + r) || has_crlf(x)),
{
    let s2 = a + x + r;
    let s = a + r;
    if has_crlf(s2) {
        let k = choose|k: int| #[trigger] crlf_at(s2, k);
        if k + 1 < a.len() {
            assert(crlf_at(s, k));
        } else if k < a.len() {
            assert(s2[k] == a.last());
        } else if k + 1 < a.len() + x.len() {
            assert(crlf_at(x, k - a.len()));
        } else if k < a.len() + x.len() {
            assert(s2[k] == x.last());
        } else {
            assert(s2[k] == r[k - a.len() - x.len()]);
            assert(s2[k + 1] == r[k + 1 - a.len() - x.len()]);
            assert(crlf_at(s, k - x.len()));
        }
    }
    if has_crlf(s) {
        let k = choose|k: int| #[trigger] crlf_at(s, k);
        if k + 1 < a.len() {
            assert(crlf_at(s2, k));
        } else if k < a.len() {
            assert(s[k] == a.last());
        } else {
            assert(crlf_at(s2, k + x.len()));
        }
    }
    if has_crlf(x) {
        let k = choose|k: int| #[trigger] crlf_at(x, k);
        assert(crlf_at(s2, k + a.len()));
    }
}

proof fn lemma_join_ends_with_last(parts: Seq<Seq<u8>>, sep: Seq<u8>)
    requires
        parts.len() >= 1,
        parts.last().len() > 0,
    ensures
        join(parts, sep).len() > 0,
        join(parts, sep).last() == parts.last().last(),
{
    if parts.len() > 1 {
        let j = join(parts.drop_last(), sep) + sep + parts.last();
        assert(j[j.len() - 1] == parts.last()[parts.last().len() - 1]);
    }
}

/// An annotation line written after `w`: `w`, the marker, and no line feed.
proof fn lemma_annotation_shape(w: Seq<u8>, keyword: Seq<u8>, clause: Seq<u8>)
    requires
        blank_run(w),
        single_line(annotation_line(w + marker() + seq![0x20u8], keyword, clause, Seq::empty())),
    ensures
        ({
            let a = annotation_line(w + marker() + seq![0x20u8], keyword, clause, Seq::empty());
            &&& a.len() >= w.len() + 3
            &&& a.take(w.len() + 3 as int) == w + marker()
            &&& crate::rescan::comment_line(a, w.len() as int)
        }),
{
    let a = annotation_line(w + marker() + seq![0x20u8], keyword, clause, Seq::empty());
    let wl = w.len() as int;
    assert(a =~= w + marker() + (seq![0x20u8] + keyword + clause));
    assert(a.take(wl + 3) =~= w + marker());
    assert(a[wl] == marker()[0] && a[wl + 1] == marker()[1]);
    assert forall|k: int| 0 <= k < wl implies #[trigger] a[k] == 0x20 || a[k] == 0x09 by {
        assert(a[k] == w[k]);
    }
    assert forall|k: int| 0 <= k < a.len() implies #[trigger] a[k] != 0x0a by {
        assert(free_of(a, 0x0a));
    }
}

proof fn lemma_blank_to_eol_skip(t: Seq<u8>, i: int)
    requires
        0 <= i <= t.len(),
        crate::rescan::blank_to_eol(t, i),
    ensures
        crate::rescan::blank_to_eol(t.skip(i), 0),
{
    let x = t.take(i);
    let y = t.skip(i);
    assert(x + y =~= t);
    lemma_newline_from_shift(x, y, 0);
    crate::bytes::lemma_newline_from(t, i);
    crate::bytes::lemma_newline_from(y, 0);
    match newline_from(y, 0) {
        Some(q) => {
            assert forall|j: int| 0 <= j < q implies is_ascii_ws(#[trigger] y[j]) by {
                assert(y[j] == t[j + i]);
            }
        },
        None => {
            assert forall|j: int| 0 <= j < y.len() implies is_ascii_ws(#[trigger] y[j]) by {
                assert(y[j] == t[j + i]);
            }
        },
    }
}

/// The text of a function from the start of its line on.
pub open spec fn body_tail(s: Seq<u8>, line: int) -> Seq<u8> {
    s.skip(line_start(s, line))
}

/// Where, within `body_tail`, the `{` that opens the body of `name` stands.
pub open spec fn body_brace(s: Seq<u8>, line: int, name: Seq<u8>) -> int {
    body_brace_spec(body_tail(s, line), SourceLanguage::TypeScript, name)->Ok_0
}

/// The start of an annotation line at the top of a TypeScript body: the
/// function's indentation, two spaces and the marker.
pub open spec fn body_prefix(s: Seq<u8>, line: int) -> Seq<u8> {
    line_indent(s, line) + seq![0x20u8, 0x20u8] + marker() + seq![0x20u8]
}

/// The text after the `{` that opens the body of `name`.
pub open spec fn after_brace(s: Seq<u8>, line: int, name: Seq<u8>) -> Seq<u8> {
    body_tail(s, line).skip(body_brace(s, line, name) + 1)
}

/// The annotations that open the body of `name`.
pub open spec fn annotations_below(s: Seq<u8>, line: int, name: Seq<u8>) -> Seq<Seq<u8>> {
    leading_contract_list(after_brace(s, line, name), marker())
}

/// The annotation lines added at the top of a TypeScript body: each fits
/// on one line, is marked, and is a comment after `indent2`.
proof fn lemma_body_lines_added(
    reqs: Seq<Seq<u8>>,
    ens: Seq<Seq<u8>>,
    indent2: Seq<u8>,
    existing: Seq<Seq<u8>>,
)
    requires
        blank_run(indent2),
        forall|k: int| 0 <= k < reqs.len() ==> single_line(#[trigger] reqs[k]),
        forall|k: int| 0 <= k < ens.len() ==> single_line(#[trigger] ens[k]),
    ensures
        ({
            let prefix = indent2 + marker() + seq![0x20u8];
            let ann = annotations(reqs, ens, prefix, Seq::empty(), existing);
            forall|k: int|
                0 <= k < ann.len() ==> single_line(#[trigger] ann[k]) && ann[k].len() >= indent2.len() + 3
                    && ann[k].take(indent2.len() + 3 as int) == indent2 + marker()
                    && crate::rescan::comment_line(ann[k], indent2.len() as int)
        }),
{
    let prefix = indent2 + marker() + seq![0x20u8];
    let ms_r = missing_annotations(reqs, prefix, requires_keyword(), Seq::empty(), existing);
    let ms_e = missing_annotations(ens, prefix, ensures_keyword(), Seq::empty(), existing);
    let ann = annotations(reqs, ens, prefix, Seq::empty(), existing);
    assert(ann == ms_r + ms_e);
    lemma_missing_lines_facts(reqs, indent2, requires_keyword(), existing);
    lemma_missing_lines_facts(ens, indent2, ensures_keyword(), existing);
    lemma_missing_annotations_are_the_absent_ones(reqs, prefix, requires_keyword(), Seq::empty(), existing);
    lemma_missing_annotations_are_the_absent_ones(ens, prefix, ensures_keyword(), Seq::empty(), existing);
    assert forall|k: int| 0 <= k < ann.len() implies single_line(#[trigger] ann[k]) && ann[k].len()
        >= indent2.len() + 3 && ann[k].take(indent2.len() + 3 as int) == indent2 + marker()
        && crate::rescan::comment_line(ann[k], indent2.len() as int) by {
        if k < ms_r.len() {
            assert(ann[k] == ms_r[k]);
            let i = choose|i: int|
                0 <= i < reqs.len() && #[trigger] ms_r[k] == annotation_line(prefix, requires_keyword(), reqs[i], Seq::empty())
                    && !existing.contains(trim(annotation_line(prefix, requires_keyword(), reqs[i], Seq::empty())));
            lemma_annotation_shape(indent2, requires_keyword(), reqs[i]);
        } else {
            let k2 = k - ms_r.len();
            assert(ann[k] == ms_e[k2]);
            let i = choose|i: int|
                0 <= i < ens.len() && #[trigger] ms_e[k2] == annotation_line(prefix, ensures_keyword(), ens[i], Seq::empty())
                    && !existing.contains(trim(annotation_line(prefix, ensures_keyword(), ens[i], Seq::empty())));
            lemma_annotation_shape(indent2, ensures_keyword(), ens[i]);
        }
    }
}

/// Inserting a block of one-line annotations after the byte at `o - 1`,
/// which is neither a space nor a tab nor a carriage return and lies on
/// line `line` past its start, keeps that line's start and indentation and
/// the text's line endings.
proof fn lemma_line_kept(s: Seq<u8>, line: int, o: int, ann: Seq<Seq<u8>>)
    requires
        line >= 1,
        line == 1 || nth_newline(s, 0, (line - 2) as nat) is Some,
        0 <= line_start(s, line) < o <= s.len(),
        !(s[o - 1] == 0x20 || s[o - 1] == 0x09 || s[o - 1] == 0x0d),
        ann.len() >= 1,
        forall|k: int| 0 <= k < ann.len() ==> single_line(#[trigger] ann[k]) && ann[k].len() > 0,
    ensures
        ({
            let x = eol_of(s) + join(ann, eol_of(s));
            let s2 = inserted(s, o, x);
            &&& line_start(s2, line) == line_start(s, line)
            &&& line_indent(s2, line) == line_indent(s, line)
            &&& body_prefix(s2, line) == body_prefix(s, line)
            &&& has_crlf(x) == has_crlf(s)
            &&& eol_of(s2) == eol_of(s)
        }),
{
    let ls = line_start(s, line);
    let eol = eol_of(s);
    let x = eol + join(ann, eol);
    let s2 = inserted(s, o, x);
    lemma_line_start_kept(s, line, o, x);
    let a0 = s.take(o);
    assert(s2 == a0 + x + s.skip(o));
    assert(crate::rescan::agree(s, s2, o)) by {
        assert forall|j: int| 0 <= j < o implies #[trigger] s[j] == s2[j] by {
            assert((a0 + x + s.skip(o))[j] == (a0 + x)[j]);
            assert((a0 + x)[j] == a0[j]);
        }
    }
    lemma_indent_prefix(s, s2, o, ls, o - 1);
    lemma_indent_shift(s, ls, s, ls);
    let ie = indent_end(s, ls);
    assert(line_start(s2, line) == ls);
    assert(indent_end(s2, ls) == ie);
    assert forall|j: int| 0 <= j < ie - ls implies s2.subrange(ls, ie)[j] == s.subrange(ls, ie)[j] by {
        assert(s[ls + j] == s2[ls + j]);
    }
    assert(line_indent(s2, line) =~= line_indent(s, line));
    let a = s.take(o);
    assert(a.last() == s[o - 1]);
    let l = ann.last();
    assert(single_line(ann[ann.len() - 1]) && ann[ann.len() - 1].len() > 0);
    lemma_join_ends_with_last(ann, eol);
    assert(x.last() == join(ann, eol).last());
    assert(l[l.len() - 1] != 0x0d);
    lemma_crlf_mid(a, x, s.skip(o));
    assert(a + s.skip(o) =~= s);
    assert(s2 =~= a + x + s.skip(o));
    if has_crlf(s) {
        assert(crlf_at(x, 0));
    } else {
        assert(free_of(eol, 0x0d));
        assert forall|k: int| 0 <= k < ann.len() implies free_of(#[trigger] ann[k], 0x0d) by {
            assert(single_line(ann[k]));
        }
        lemma_join_free_of(ann, eol, 0x0d);
        lemma_free_of_concat(eol, join(ann, eol), 0x0d);
        if has_crlf(x) {
            let k = choose|k: int| #[trigger] crlf_at(x, k);
            assert(x[k] == 0x0d);
        }
    }
}

/// A TypeScript function whose body opens at `b` within the text from its
/// line on, and whose body's opening annotations leave none of the clauses
/// missing, gets nothing inserted.
proof fn lemma_body_nothing_missing(
    s: Seq<u8>,
    line: int,
    name: Seq<u8>,
    reqs: Seq<Seq<u8>>,
    ens: Seq<Seq<u8>>,
    b: int,
)
    requires
        body_brace_spec(body_tail(s, line), SourceLanguage::TypeScript, name) == Ok::<int, crate::contract::BraceFailure>(b),
        annotations(
            reqs,
            ens,
            body_prefix(s, line),
            Seq::empty(),
            leading_contract_list(body_tail(s, line).skip(b + 1), marker()),
        ).len() == 0,
    ensures
        insertion_spec(s, SourceLanguage::TypeScript, line, name, reqs, ens) == Ok::<
            Option<(int, Seq<u8>)>,
            crate::contract::BraceFailure,
        >(None),
{
}

/// When every added annotation line stands, trimmed, among `existing2`,
/// and so do the annotations of `existing` (or none of the clauses was
/// there), no clause is missing from `existing2`.
proof fn lemma_body_clauses_present(
    reqs: Seq<Seq<u8>>,
    ens: Seq<Seq<u8>>,
    prefix: Seq<u8>,
    existing: Seq<Seq<u8>>,
    existing2: Seq<Seq<u8>>,
)
    requires
        forall|k: int|
            0 <= k < annotations(reqs, ens, prefix, Seq::empty(), existing).len() ==> existing2.contains(
                trim(#[trigger] annotations(reqs, ens, prefix, Seq::empty(), existing)[k]),
            ),
        (forall|l: Seq<u8>| #[trigger] existing.contains(l) ==> existing2.contains(l)) || (
        none_present(reqs, prefix, requires_keyword(), existing) && none_present(
            ens,
            prefix,
            ensures_keyword(),
            existing,
        )),
    ensures
        annotations(reqs, ens, prefix, Seq::empty(), existing2).len() == 0,
{
    let ms_r = missing_annotations(reqs, prefix, requires_keyword(), Seq::empty(), existing);
    let ms_e = missing_annotations(ens, prefix, ensures_keyword(), Seq::empty(), existing);
    let ann = annotations(reqs, ens, prefix, Seq::empty(), existing);
    assert(ann == ms_r + ms_e);
    assert forall|l2: Seq<u8>| #[trigger] ann.contains(l2) implies existing2.contains(trim(l2)) by {
        let k = choose|k: int| 0 <= k < ann.len() && ann[k] == l2;
        assert(existing2.contains(trim(ann[k])));
    }
    assert forall|k: int| 0 <= k < ms_r.len() implies ann.contains(#[trigger] ms_r[k]) by {
        assert(ann[k] == ms_r[k]);
    }
    assert forall|k: int| 0 <= k < ms_e.len() implies ann.contains(#[trigger] ms_e[k]) by {
        assert(ann[ms_r.len() + k] == ms_e[k]);
    }
    lemma_clauses_now_present(reqs, prefix, requires_keyword(), existing, ann, existing2);
    lemma_clauses_now_present(ens, prefix, ensures_keyword(), existing, ann, existing2);
    lemma_missing_annotations_are_the_absent_ones(reqs, prefix, requires_keyword(), Seq::empty(), existing2);
    lemma_missing_annotations_are_the_absent_ones(ens, prefix, ensures_keyword(), Seq::empty(), existing2);
}

/// What a TypeScript insertion is made of: the line ending, then the
/// missing annotation lines joined by line endings, right after the brace.
proof fn lemma_body_insertion_shape(
    s: Seq<u8>,
    line: int,
    name: Seq<u8>,
    reqs: Seq<Seq<u8>>,
    ens: Seq<Seq<u8>>,
)
    requires
        insertion_spec(s, SourceLanguage::TypeScript, line, name, reqs, ens) matches Ok(Some(_)),
    ensures
        ({
            let b = body_brace(s, line, name);
            let ann = annotations(
                reqs,
                ens,
                body_prefix(s, line),
                Seq::empty(),
                annotations_below(s, line, name),
            );
            &&& body_brace_spec(body_tail(s, line), SourceLanguage::TypeScript, name) == Ok::<int, crate::contract::BraceFailure>(b)
            &&& ann.len() >= 1
            &&& insertion_spec(s, SourceLanguage::TypeScript, line, name, reqs, ens) == Ok::<
                Option<(int, Seq<u8>)>,
                crate::contract::BraceFailure,
            >(Some((line_start(s, line) + b + 1, eol_of(s) + join(ann, eol_of(s)))))
        }),
{
}

/// After comment lines were inserted right after the brace that opens a
/// TypeScript body, the body opens at the same brace.
proof fn lemma_body_brace_kept(t: Seq<u8>, name: Seq<u8>, b: int, eol: Seq<u8>, ann: Seq<Seq<u8>>, w: int)
    requires
        body_brace_spec(t, SourceLanguage::TypeScript, name) == Ok::<int, crate::contract::BraceFailure>(b),
        find(t, name) is Some,
        crate::rescan::line_end(eol),
        ann.len() >= 1,
        forall|m: int| 0 <= m < ann.len() ==> crate::rescan::comment_line(#[trigger] ann[m], w),
        crate::rescan::blank_to_eol(t, b + 1),
    ensures
        body_brace_spec(t.take(b + 1) + (eol + join(ann, eol)) + t.skip(b + 1), SourceLanguage::TypeScript, name)
            == Ok::<int, crate::contract::BraceFailure>(b),
{
    let t2 = t.take(b + 1) + (eol + join(ann, eol)) + t.skip(b + 1);
    crate::rescan::lemma_body_brace_lands(t, name, b);
    crate::rescan::lemma_trivia_over_comments(t, b, eol, ann, w);
    crate::rescan::lemma_brace_kept_over_comments(t, b, eol, ann, w);
    crate::rescan::lemma_body_brace_prefix(t, t2, name, b);
}

/// After the missing annotation lines were written right after the brace,
/// the annotations that open the body leave no clause missing.
proof fn lemma_body_annotations_grow(
    eol: Seq<u8>,
    indent2: Seq<u8>,
    r: Seq<u8>,
    reqs: Seq<Seq<u8>>,
    ens: Seq<Seq<u8>>,
)
    requires
        is_eol(eol),
        blank_run(indent2),
        annotations(reqs, ens, indent2 + marker() + seq![0x20u8], Seq::empty(), leading_contract_list(r, marker())).len() >= 1,
        forall|k: int|
            0 <= k < annotations(reqs, ens, indent2 + marker() + seq![0x20u8], Seq::empty(), leading_contract_list(r, marker())).len()
                ==> single_line(#[trigger] annotations(reqs, ens, indent2 + marker() + seq![0x20u8], Seq::empty(), leading_contract_list(r, marker()))[k])
                && annotations(reqs, ens, indent2 + marker() + seq![0x20u8], Seq::empty(), leading_contract_list(r, marker()))[k].len() >= indent2.len() + 3
                && annotations(reqs, ens, indent2 + marker() + seq![0x20u8], Seq::empty(), leading_contract_list(r, marker()))[k].take(indent2.len() + 3 as int) == indent2 + marker(),
        crate::rescan::blank_to_eol(r, 0),
        no_gap_after_first_line(r) || (none_present(
            reqs,
            indent2 + marker() + seq![0x20u8],
            requires_keyword(),
            leading_contract_list(r, marker()),
        ) && none_present(ens, indent2 + marker() + seq![0x20u8], ensures_keyword(), leading_contract_list(r, marker()))),
    ensures
        ({
            let ann = annotations(reqs, ens, indent2 + marker() + seq![0x20u8], Seq::empty(), leading_contract_list(r, marker()));
            annotations(
                reqs,
                ens,
                indent2 + marker() + seq![0x20u8],
                Seq::empty(),
                leading_contract_list(eol + join(ann, eol) + r, marker()),
            ).len() == 0
        }),
{
    let prefix = indent2 + marker() + seq![0x20u8];
    let existing = leading_contract_list(r, marker());
    let ann = annotations(reqs, ens, prefix, Seq::empty(), existing);
    let existing2 = leading_contract_list(eol + join(ann, eol) + r, marker());
    lemma_comments_after_brace(eol, ann, indent2, r);
    lemma_body_clauses_present(reqs, ens, prefix, existing, existing2);
}

/// Scaffolding a TypeScript function a second time adds nothing: once the
/// annotation lines an insertion produced stand right after the brace that
/// opens its body, every requested clause is found among the annotations
/// that open the body, and the function stays on its line. The inserted
/// lines end as the file's lines do, with CRLF exactly when the file uses
/// CRLF. The law needs the function's line to exist and its name to occur
/// from there on, the clauses to fit on one line, nothing but whitespace
/// after the brace on its line, and either no blank line between the brace's
/// line and the annotations already there, or none of the requested clauses
/// among those annotations.
#[verifier::rlimit(80)]
#[verifier::spinoff_prover]
pub proof fn lemma_typescript_scaffolding_twice_adds_nothing(
    s: Seq<u8>,
    line: int,
    name: Seq<u8>,
    reqs: Seq<Seq<u8>>,
    ens: Seq<Seq<u8>>,
)
    requires
        line >= 1,
        line == 1 || nth_newline(s, 0, (line - 2) as nat) is Some,
        forall|k: int| 0 <= k < reqs.len() ==> single_line(#[trigger] reqs[k]),
        forall|k: int| 0 <= k < ens.len() ==> single_line(#[trigger] ens[k]),
        insertion_spec(s, SourceLanguage::TypeScript, line, name, reqs, ens) matches Ok(Some(_)),
        find(body_tail(s, line), name) is Some,
        crate::rescan::blank_to_eol(body_tail(s, line), body_brace(s, line, name) + 1),
        no_gap_after_first_line(after_brace(s, line, name)) || (none_present(
            reqs,
            body_prefix(s, line),
            requires_keyword(),
            annotations_below(s, line, name),
        ) && none_present(ens, body_prefix(s, line), ensures_keyword(), annotations_below(s, line, name))),
    ensures
        ({
            let (o, txt) = insertion_spec(s, SourceLanguage::TypeScript, line, name, reqs, ens)->Ok_0->Some_0;
            let s2 = inserted(s, o, txt);
            &&& o == line_start(s, line) + body_brace(s, line, name) + 1
            &&& line_start(s2, line) == line_start(s, line)
            &&& has_crlf(txt) == has_crlf(s)
            &&& eol_of(s2) == eol_of(s)
            &&& insertion_spec(s2, SourceLanguage::TypeScript, line, name, reqs, ens) == Ok::<
                Option<(int, Seq<u8>)>,
                crate::contract::BraceFailure,
            >(None)
        }),
{
    let ts = SourceLanguage::TypeScript;
    let ls = line_start(s, line);
    let t = s.skip(ls);
    let b = body_brace(s, line, name);
    let indent = line_indent(s, line);
    let indent2 = indent + seq![0x20u8, 0x20u8];
    let prefix = body_prefix(s, line);
    let eol = eol_of(s);
    let r = t.skip(b + 1);
    let existing = leading_contract_list(r, marker());
    let ann = annotations(reqs, ens, prefix, Seq::empty(), existing);
    let x = eol + join(ann, eol);
    let o = ls + b + 1;
    let wl = indent2.len() as int;
    let t2 = t.take(b + 1) + x + t.skip(b + 1);
    let s2 = inserted(s, o, x);
    let existing2 = leading_contract_list(eol + join(ann, eol) + r, marker());
    assert(prefix == indent2 + marker() + seq![0x20u8]);
    assert(annotations_below(s, line, name) == existing);
    assert(after_brace(s, line, name) == r);
    lemma_body_insertion_shape(s, line, name, reqs, ens);
    assert(0 <= ls <= s.len()) by {
        if line > 1 {
            lemma_nth_newline_counts(s, 0, (line - 2) as nat);
        }
    }
    crate::rescan::lemma_body_brace_lands(t, name, b);
    assert(blank_run(indent2)) by {
        lemma_indent_shift(s, ls, s, ls);
        assert forall|i: int| 0 <= i < indent2.len() implies indent2[i] == 0x20 || indent2[i] == 0x09 by {
            if i < indent.len() {
                assert(indent2[i] == indent[i]);
            }
        }
    }
    lemma_body_lines_added(reqs, ens, indent2, existing);
    assert(is_eol(eol) && crate::rescan::line_end(eol));
    // The body still opens at the same brace.
    lemma_body_brace_kept(t, name, b, eol, ann, wl);
    assert(body_tail(s2, line) == t2 && body_prefix(s2, line) == prefix && eol_of(s2) == eol
        && line_start(s2, line) == ls && has_crlf(x) == has_crlf(s)) by {
        assert(s[o - 1] == t[b]);
        assert forall|k: int| 0 <= k < ann.len() implies single_line(#[trigger] ann[k]) && ann[k].len() > 0 by {
            assert(single_line(ann[k]) && ann[k].len() >= indent2.len() + 3);
        }
        lemma_line_kept(s, line, o, ann);
        assert(s2.skip(ls) =~= t2);
    }
    // The annotations that now open the body hold every requested clause.
    lemma_blank_to_eol_skip(t, b + 1);
    lemma_body_annotations_grow(eol, indent2, r, reqs, ens);
    assert(t2.skip(b + 1) =~= eol + join(ann, eol) + r);
    lemma_body_nothing_missing(s2, line, name, reqs, ens, b);
}

proof fn lemma_trim_start_ws_suffix(y: Seq<u8>, w: Seq<u8>)
    requires
        ws_run(w),
    ensures
        trim_start(y).len() > 0 ==> trim_start(y + w) == trim_start(y) + w,
        trim_start(y).len() == 0 ==> trim_start(y + w).len() == 0,
    decreases y.len(),
{
    let x = y + w;
    if y.len() == 0 {
        assert(x =~= w);
        lemma_trim_start_ws(w);
    } else {
        assert(x[0] == y[0]);
        if y.len() >= 2 {
            assert(x[1] == y[1]);
        } else if w.len() > 0 {
            assert(x[1] == w[0]);
            assert(is_ascii_ws(w[0]));
        }
        if y.len() >= 3 {
            assert(x[2] == y[2]);
        } else if y.len() == 2 && w.len() > 0 {
            assert(x[2] == w[0]);
            assert(is_ascii_ws(w[0]));
        }
        let k = leading_ws_len(y);
        if k > 0 {
            assert(leading_ws_len(x) == k);
            assert(x.skip(k) =~= y.skip(k) + w);
            lemma_trim_start_ws_suffix(y.skip(k), w);
        } else {
            assert(leading_ws_len(x) == 0);
        }
    }
}

/// Whitespace after a line does not change what it trims to.
proof fn lemma_trim_ws_suffix(y: Seq<u8>, w: Seq<u8>)
    requires
        ws_run(w),
    ensures
        trim(y + w) == trim(y),
{
    lemma_trim_start_ws_suffix(y, w);
    if trim_start(y).len() > 0 {
        lemma_trim_end_ws_suffix(trim_start(y), w);
    } else {
        assert(trim_start(y + w) =~= trim_start(y));
    }
}

proof fn lemma_newline_from_kept(x: Seq<u8>, y: Seq<u8>, i: int)
    requires
        0 <= i,
        newline_from(x, i) is Some,
    ensures
        newline_from(x + y, i) == newline_from(x, i),
    decreases x.len() - i,
{
    assert((x + y)[i] == x[i]);
    if x[i] != 0x0a {
        lemma_newline_from_kept(x, y, i + 1);
    }
}

/// Ending a text with a line ending keeps every line, as trimmed.
proof fn lemma_lines_with_eol(p: Seq<u8>, eol: Seq<u8>, i: int)
    requires
        is_eol(eol),
        0 <= i <= p.len(),
    ensures
        forall|x: Seq<u8>|
            #[trigger] trimmed_lines(lines_from(p, i)).contains(x) ==> trimmed_lines(
                lines_from(p + eol, i),
            ).contains(x),
    decreases p.len() - i,
{
    let q2 = p + eol;
    if i < p.len() {
        crate::bytes::lemma_newline_from(p, i);
        match newline_from(p, i) {
            Some(q) => {
                lemma_newline_from_kept(p, eol, i);
                assert(q2.subrange(i, q) =~= p.subrange(i, q));
                lemma_lines_with_eol(p, eol, q + 1);
                let a = trimmed_lines(lines_from(p, i));
                let b = trimmed_lines(lines_from(q2, i));
                assert(lines_from(p, i) == seq![strip_cr(p.subrange(i, q))] + lines_from(p, q + 1));
                assert(lines_from(q2, i) == seq![strip_cr(p.subrange(i, q))] + lines_from(q2, q + 1));
                assert forall|x: Seq<u8>| #[trigger] a.contains(x) implies b.contains(x) by {
                    let k = choose|k: int| 0 <= k < a.len() && a[k] == x;
                    if k == 0 {
                        assert(b[0] == a[0]);
                    } else {
                        assert(a[k] == trimmed_lines(lines_from(p, q + 1))[k - 1]);
                        assert(trimmed_lines(lines_from(p, q + 1)).contains(x));
                        let rest2 = trimmed_lines(lines_from(q2, q + 1));
                        assert(rest2.contains(x));
                        let k2 = choose|k2: int| 0 <= k2 < rest2.len() && #[trigger] rest2[k2] == x;
                        assert(b[k2 + 1] == rest2[k2]);
                    }
                }
            },
            None => {
                let e = p.len() + eol.len() - 1;
                assert(q2[e] == 0x0a);
                assert forall|k: int| i <= k < e implies q2[k] != 0x0a by {
                    if k < p.len() {
                        assert(q2[k] == p[k]);
                    } else {
                        assert(q2[k] == 0x0d);
                    }
                }
                lemma_newline_at(q2, i, e);
                let z = p.subrange(i, p.len() as int);
                assert(lines_from(p, i) == seq![z]);
                assert(lines_from(q2, e + 1) =~= Seq::<Seq<u8>>::empty());
                assert(lines_from(q2, i) == seq![strip_cr(q2.subrange(i, e))]);
                if eol.len() == 2 {
                    assert(q2.subrange(i, e) =~= z.push(0x0d));
                    assert(z.push(0x0d).drop_last() =~= z);
                } else {
                    assert(q2.subrange(i, e) =~= z);
                    if z.len() > 0 && z.last() == 0x0d {
                        assert(z =~= z.drop_last() + seq![0x0du8]);
                        assert(ws_run(seq![0x0du8]));
                        lemma_trim_ws_suffix(z.drop_last(), seq![0x0du8]);
                    }
                }
                assert(trimmed_lines(lines_from(q2, i)) =~= trimmed_lines(lines_from(p, i)));
            },
        }
    }
}

/// Whether a Rust clause is plain: on one line, and a body search walks
/// over it (outside a line comment it holds no brace, semicolon or quote,
/// and opens no block comment).
pub open spec fn plain_clause(c: Seq<u8>) -> bool {
    &&& single_line(c)
    &&& crate::rescan::walkable(c + seq![0x0au8], 0, (c.len() + 1) as int, false)
}

/// Whether no byte of `y` opens a body, ends a declaration, opens a literal
/// or could start a comment.
pub open spec fn inert(y: Seq<u8>) -> bool {
    forall|k: int|
        0 <= k < y.len() ==> #[trigger] y[k] != 0x7b && y[k] != 0x3b && !crate::scan::is_quote(y[k])
            && y[k] != 0x2f
}

proof fn lemma_inert_walkable(y: Seq<u8>, j: int)
    requires
        inert(y),
        0 <= j <= y.len(),
    ensures
        crate::rescan::walkable(y, j, y.len() as int, false),
    decreases y.len() - j,
{
    if j < y.len() {
        assert(y[j] != 0x2f);
        lemma_inert_walkable(y, j + 1);
    }
}

/// A clause that walks when a line feed follows it walks when a comma and a
/// line ending follow it.
proof fn lemma_clause_walk_end(c: Seq<u8>, eol: Seq<u8>, k: int, m: bool)
    requires
        is_eol(eol),
        free_of(c, 0x0a),
        0 <= k <= c.len(),
        crate::rescan::walkable(c + seq![0x0au8], k, (c.len() + 1) as int, m),
    ensures
        crate::rescan::walkable(c + seq![0x2cu8] + eol, k, (c.len() + 1 + eol.len()) as int, m),
    decreases c.len() - k,
{
    let x = c + seq![0x0au8];
    let y = c + seq![0x2cu8] + eol;
    let n = c.len() as int;
    let e = n + 1 + eol.len();
    if k < n {
        assert(x[k] == c[k] && y[k] == c[k]);
        if k + 1 < n {
            assert(x[k + 1] == c[k + 1] && y[k + 1] == c[k + 1]);
        } else {
            assert(x[k + 1] == 0x0a && y[k + 1] == 0x2c);
        }
        if m {
            lemma_clause_walk_end(c, eol, k + 1, c[k] != 0x0a);
        } else if k + 1 < x.len() && x[k] == 0x2f && x[k + 1] == 0x2f {
            lemma_clause_walk_end(c, eol, k + 2, true);
        } else {
            lemma_clause_walk_end(c, eol, k + 1, false);
        }
    } else {
        assert(y[n] == 0x2c);
        assert(y[e - 1] == 0x0a);
        assert(crate::rescan::walkable(y, e, e, false));
        assert(crate::rescan::walkable(y, e - 1, e, m) || true);
        if eol.len() == 2 {
            assert(y[n + 1] == 0x0d);
            assert(crate::rescan::walkable(y, n + 2, e, m));
            assert(crate::rescan::walkable(y, n + 2, e, false));
            assert(crate::rescan::walkable(y, n + 1, e, m));
            assert(crate::rescan::walkable(y, n + 1, e, false));
        } else {
            assert(crate::rescan::walkable(y, n + 1, e, m));
            assert(crate::rescan::walkable(y, n + 1, e, false));
        }
    }
}

/// A Rust clause line followed by a line ending walks.
proof fn lemma_rust_line_walks(prefix: Seq<u8>, keyword: Seq<u8>, clause: Seq<u8>, eol: Seq<u8>)
    requires
        blank_run(prefix),
        keyword == requires_keyword() || keyword == ensures_keyword(),
        plain_clause(clause),
        is_eol(eol),
    ensures
        crate::rescan::walkable(
            annotation_line(prefix, keyword, clause, seq![0x2cu8]) + eol,
            0,
            (annotation_line(prefix, keyword, clause, seq![0x2cu8]).len() + eol.len()) as int,
            false,
        ),
        single_line(annotation_line(prefix, keyword, clause, seq![0x2cu8])),
        annotation_line(prefix, keyword, clause, seq![0x2cu8]).len() > 0,
{
    let l = annotation_line(prefix, keyword, clause, seq![0x2cu8]);
    let head = prefix + keyword;
    assert(l =~= head + clause + seq![0x2cu8]);
    assert forall|k: int| 0 <= k < head.len() implies #[trigger] head[k] != 0x0a && head[k] != 0x0d
        && head[k] != 0x7b && head[k] != 0x3b && !crate::scan::is_quote(head[k]) && head[k] != 0x2f by {
        if k < prefix.len() {
            assert(head[k] == prefix[k]);
        } else {
            assert(head[k] == keyword[k - prefix.len()]);
            assert(forall|i: int| 0 <= i < requires_keyword().len() ==> 0x20 <= #[trigger] requires_keyword()[i] <= 0x75);
            assert(forall|i: int| 0 <= i < ensures_keyword().len() ==> 0x20 <= #[trigger] ensures_keyword()[i] <= 0x75);
        }
    }
    assert(inert(head));
    lemma_inert_walkable(head, 0);
    assert(free_of(clause, 0x0a) && free_of(clause, 0x0d));
    lemma_clause_walk_end(clause, eol, 0, false);
    assert(head.last() == head[head.len() - 1]);
    crate::rescan::lemma_walkable_concat(head, clause + seq![0x2cu8] + eol, 0, false);
    assert(l + eol =~= head + (clause + seq![0x2cu8] + eol));
    assert(free_of(seq![0x2cu8], 0x0a) && free_of(seq![0x2cu8], 0x0d));
    assert(free_of(head, 0x0a) && free_of(head, 0x0d));
    lemma_free_of_concat(head, clause, 0x0a);
    lemma_free_of_concat(head, clause, 0x0d);
    lemma_free_of_concat(head + clause, seq![0x2cu8], 0x0a);
    lemma_free_of_concat(head + clause, seq![0x2cu8], 0x0d);
}

/// Clause lines, each followed by a line ending, walk.
proof fn lemma_rust_lines_walk(ann: Seq<Seq<u8>>, eol: Seq<u8>)
    requires
        is_eol(eol),
        ann.len() >= 1,
        forall|k: int|
            0 <= k < ann.len() ==> crate::rescan::walkable(
                #[trigger] ann[k] + eol,
                0,
                (ann[k].len() + eol.len()) as int,
                false,
            ),
    ensures
        crate::rescan::walkable(join(ann, eol) + eol, 0, (join(ann, eol).len() + eol.len()) as int, false),
    decreases ann.len(),
{
    let l = ann.last();
    assert(crate::rescan::walkable(ann[ann.len() - 1] + eol, 0, (ann[ann.len() - 1].len() + eol.len()) as int, false));
    if ann.len() > 1 {
        let d = ann.drop_last();
        assert forall|k: int| 0 <= k < d.len() implies crate::rescan::walkable(
            #[trigger] d[k] + eol,
            0,
            (d[k].len() + eol.len()) as int,
            false,
        ) by {
            assert(d[k] == ann[k]);
        }
        lemma_rust_lines_walk(d, eol);
        let x = join(d, eol) + eol;
        assert(x.last() == 0x0a);
        crate::rescan::lemma_walkable_concat(x, l + eol, 0, false);
        assert(join(ann, eol) + eol =~= x + (l + eol));
    }
}

proof fn lemma_clauses_present_with(
    clauses: Seq<Seq<u8>>,
    prefix: Seq<u8>,
    keyword: Seq<u8>,
    suffix: Seq<u8>,
    existing: Seq<Seq<u8>>,
    existing2: Seq<Seq<u8>>,
)
    requires
        forall|k: int|
            0 <= k < missing_annotations(clauses, prefix, keyword, suffix, existing).len()
                ==> existing2.contains(trim(#[trigger] missing_annotations(clauses, prefix, keyword, suffix, existing)[k])),
        forall|l: Seq<u8>| #[trigger] existing.contains(l) ==> existing2.contains(l),
    ensures
        missing_annotations(clauses, prefix, keyword, suffix, existing2).len() == 0,
{
    let ms = missing_annotations(clauses, prefix, keyword, suffix, existing);
    lemma_missing_annotations_are_the_absent_ones(clauses, prefix, keyword, suffix, existing);
    assert forall|i: int| 0 <= i < clauses.len() implies existing2.contains(
        trim(annotation_line(prefix, keyword, #[trigger] clauses[i], suffix)),
    ) by {
        let l = annotation_line(prefix, keyword, clauses[i], suffix);
        if !existing.contains(trim(l)) {
            assert(ms.contains(l));
            let k = choose|k: int| 0 <= k < ms.len() && ms[k] == l;
            assert(existing2.contains(trim(ms[k])));
        }
    }
    lemma_missing_annotations_are_the_absent_ones(clauses, prefix, keyword, suffix, existing2);
}

proof fn lemma_indent_upto(s1: Seq<u8>, s2: Seq<u8>, n: int, i: int)
    requires
        crate::rescan::agree(s1, s2, n),
        0 <= i <= n,
        n < s1.len(),
        n < s2.len(),
        !(s1[n] == 0x20 || s1[n] == 0x09),
        !(s2[n] == 0x20 || s2[n] == 0x09),
    ensures
        indent_end(s2, i) == indent_end(s1, i),
        indent_end(s1, i) <= n,
    decreases n - i,
{
    if i < n {
        assert(s2[i] == s1[i]);
        if s1[i] == 0x20 || s1[i] == 0x09 {
            lemma_indent_upto(s1, s2, n, i + 1);
        }
    }
}

proof fn lemma_join_starts_with_first(parts: Seq<Seq<u8>>, sep: Seq<u8>)
    requires
        parts.len() >= 1,
        parts[0].len() > 0,
    ensures
        join(parts, sep).len() > 0,
        join(parts, sep)[0] == parts[0][0],
    decreases parts.len(),
{
    if parts.len() > 1 {
        lemma_join_starts_with_first(parts.drop_last(), sep);
        let j = join(parts.drop_last(), sep);
        assert((j + sep + parts.last())[0] == j[0]);
    }
}

/// Where the `{` that opens the body of the Rust function `name` stands
/// within `body_tail`.
pub open spec fn rust_brace(s: Seq<u8>, line: int, name: Seq<u8>) -> int {
    body_brace_spec(body_tail(s, line), SourceLanguage::Rust, name)->Ok_0
}

/// The start of a Rust clause line: the function's indentation and four
/// spaces.
pub open spec fn rust_prefix(s: Seq<u8>, line: int) -> Seq<u8> {
    line_indent(s, line) + seq![0x20u8, 0x20u8, 0x20u8, 0x20u8]
}

/// The clauses written in the signature of the Rust function `name`: its
/// lines up to the brace, trimmed.
pub open spec fn rust_signature_lines(s: Seq<u8>, line: int, name: Seq<u8>) -> Seq<Seq<u8>> {
    trimmed_lines(lines(body_tail(s, line).take(rust_brace(s, line, name))))
}

proof fn lemma_rust_insertion_shape(
    s: Seq<u8>,
    line: int,
    name: Seq<u8>,
    reqs: Seq<Seq<u8>>,
    ens: Seq<Seq<u8>>,
)
    requires
        insertion_spec(s, SourceLanguage::Rust, line, name, reqs, ens) matches Ok(Some(_)),
    ensures
        ({
            let b = rust_brace(s, line, name);
            let ann = annotations(
                reqs,
                ens,
                rust_prefix(s, line),
                seq![0x2cu8],
                rust_signature_lines(s, line, name),
            );
            &&& body_brace_spec(body_tail(s, line), SourceLanguage::Rust, name) == Ok::<int, crate::contract::BraceFailure>(b)
            &&& ann.len() >= 1
            &&& insertion_spec(s, SourceLanguage::Rust, line, name, reqs, ens) == Ok::<
                Option<(int, Seq<u8>)>,
                crate::contract::BraceFailure,
            >(Some((line_start(s, line) + b, eol_of(s) + join(ann, eol_of(s)) + eol_of(s) + line_indent(s, line))))
        }),
{
}

proof fn lemma_rust_nothing_missing(
    s: Seq<u8>,
    line: int,
    name: Seq<u8>,
    reqs: Seq<Seq<u8>>,
    ens: Seq<Seq<u8>>,
    b: int,
)
    requires
        body_brace_spec(body_tail(s, line), SourceLanguage::Rust, name) == Ok::<int, crate::contract::BraceFailure>(b),
        annotations(
            reqs,
            ens,
            rust_prefix(s, line),
            seq![0x2cu8],
            trimmed_lines(lines(body_tail(s, line).take(b))),
        ).len() == 0,
    ensures
        insertion_spec(s, SourceLanguage::Rust, line, name, reqs, ens) == Ok::<
            Option<(int, Seq<u8>)>,
            crate::contract::BraceFailure,
        >(None),
{
}

/// The clause lines added to a Rust signature: on one line, walkable when
/// a line ending follows, and starting with the prefix's first byte.
proof fn lemma_rust_lines_added(
    reqs: Seq<Seq<u8>>,
    ens: Seq<Seq<u8>>,
    prefix: Seq<u8>,
    existing: Seq<Seq<u8>>,
    eol: Seq<u8>,
)
    requires
        blank_run(prefix),
        prefix.len() > 0,
        is_eol(eol),
        forall|k: int| 0 <= k < reqs.len() ==> plain_clause(#[trigger] reqs[k]),
        forall|k: int| 0 <= k < ens.len() ==> plain_clause(#[trigger] ens[k]),
    ensures
        ({
            let ann = annotations(reqs, ens, prefix, seq![0x2cu8], existing);
            forall|k: int|
                0 <= k < ann.len() ==> crate::rescan::walkable(
                    #[trigger] ann[k] + eol,
                    0,
                    (ann[k].len() + eol.len()) as int,
                    false,
                ) && single_line(ann[k]) && ann[k].len() > 0 && ann[k][0] == prefix[0]
        }),
{
    let sfx = seq![0x2cu8];
    let ms_r = missing_annotations(reqs, prefix, requires_keyword(), sfx, existing);
    let ms_e = missing_annotations(ens, prefix, ensures_keyword(), sfx, existing);
    let ann = annotations(reqs, ens, prefix, sfx, existing);
    assert(ann == ms_r + ms_e);
    lemma_missing_annotations_are_the_absent_ones(reqs, prefix, requires_keyword(), sfx, existing);
    lemma_missing_annotations_are_the_absent_ones(ens, prefix, ensures_keyword(), sfx, existing);
    assert forall|k: int| 0 <= k < ann.len() implies crate::rescan::walkable(
        #[trigger] ann[k] + eol,
        0,
        (ann[k].len() + eol.len()) as int,
        false,
    ) && single_line(ann[k]) && ann[k].len() > 0 && ann[k][0] == prefix[0] by {
        if k < ms_r.len() {
            assert(ann[k] == ms_r[k]);
            let i = choose|i: int|
                0 <= i < reqs.len() && #[trigger] ms_r[k] == annotation_line(prefix, requires_keyword(), reqs[i], sfx)
                    && !existing.contains(trim(annotation_line(prefix, requires_keyword(), reqs[i], sfx)));
            lemma_rust_line_walks(prefix, requires_keyword(), reqs[i], eol);
            assert(annotation_line(prefix, requires_keyword(), reqs[i], sfx)[0] == prefix[0]);
        } else {
            let k2 = k - ms_r.len();
            assert(ann[k] == ms_e[k2]);
            let i = choose|i: int|
                0 <= i < ens.len() && #[trigger] ms_e[k2] == annotation_line(prefix, ensures_keyword(), ens[i], sfx)
                    && !existing.contains(trim(annotation_line(prefix, ensures_keyword(), ens[i], sfx)));
            lemma_rust_line_walks(prefix, ensures_keyword(), ens[i], eol);
            assert(annotation_line(prefix, ensures_keyword(), ens[i], sfx)[0] == prefix[0]);
        }
    }
}

/// After a walkable insertion right before the brace that opens a Rust
/// body, the body opens at the moved brace.
proof fn lemma_rust_brace_moved(t: Seq<u8>, name: Seq<u8>, b: int, x: Seq<u8>)
    requires
        body_brace_spec(t, SourceLanguage::Rust, name) == Ok::<int, crate::contract::BraceFailure>(b),
        find(t, name) is Some,
        crate::rescan::walkable(x, 0, x.len() as int, false),
        x.len() >= 2,
        x[0] == 0x0a || x[0] == 0x0d,
        x[1] != 0x27,
    ensures
        body_brace_spec(t.take(b) + x + t.skip(b), SourceLanguage::Rust, name) == Ok::<
            int,
            crate::contract::BraceFailure,
        >(b + x.len()),
{
    let t2 = t.take(b) + x + t.skip(b);
    let b2 = b + x.len();
    crate::rescan::lemma_body_brace_facts(t, name, SourceLanguage::Rust, b);
    assert(crate::rescan::brace_boundary(t, t2, b)) by {
        assert forall|j: int| 0 <= j < b implies #[trigger] t[j] == t2[j] by {
            assert(t2[j] == t.take(b)[j]);
        }
        assert(t2[b] == x[0]);
        if b + 1 < t2.len() {
            assert(t2[b + 1] == x[1]);
        }
    }
    assert(t2[b2] == t[b]);
    assert(t.skip(b)[0] == t[b]);
    crate::rescan::lemma_walkable_shift(t.take(b), x, t.skip(b), 0, false);
    crate::rescan::lemma_body_walk(t2, b, b2);
    crate::rescan::lemma_body_brace_upto(t, t2, name, b);
}

/// The signature's lines after clause lines were added before its brace
/// hold the old ones and the added ones, so no clause is missing any more.
proof fn lemma_rust_signature_grows(
    p: Seq<u8>,
    eol: Seq<u8>,
    indent: Seq<u8>,
    reqs: Seq<Seq<u8>>,
    ens: Seq<Seq<u8>>,
    prefix: Seq<u8>,
)
    requires
        is_eol(eol),
        annotations(reqs, ens, prefix, seq![0x2cu8], trimmed_lines(lines(p))).len() >= 1,
        forall|k: int|
            0 <= k < annotations(reqs, ens, prefix, seq![0x2cu8], trimmed_lines(lines(p))).len()
                ==> single_line(#[trigger] annotations(reqs, ens, prefix, seq![0x2cu8], trimmed_lines(lines(p)))[k]),
    ensures
        annotations(
            reqs,
            ens,
            prefix,
            seq![0x2cu8],
            trimmed_lines(lines(p + (eol + join(annotations(reqs, ens, prefix, seq![0x2cu8], trimmed_lines(lines(p))), eol) + eol + indent))),
        ).len() == 0,
{
    let sfx = seq![0x2cu8];
    let existing = trimmed_lines(lines(p));
    let ann = annotations(reqs, ens, prefix, sfx, existing);
    let x = eol + join(ann, eol) + eol + indent;
    let existing2 = trimmed_lines(lines(p + x));
    assert(p + x =~= (p + eol) + ((join(ann, eol) + eol) + indent));
    lemma_block_lines(ann, eol);
    assert((join(ann, eol) + eol).last() == 0x0a);
    lemma_lines_concat(join(ann, eol) + eol, indent);
    assert((p + eol).last() == 0x0a);
    lemma_lines_concat(p + eol, (join(ann, eol) + eol) + indent);
    let front = lines(p + eol);
    assert(lines(p + x) == front + (ann + lines(indent)));
    lemma_lines_with_eol(p, eol, 0);
    assert forall|l2: Seq<u8>| #[trigger] existing.contains(l2) implies existing2.contains(l2) by {
        assert(trimmed_lines(lines_from(p, 0)).contains(l2));
        let k = choose|k: int| 0 <= k < trimmed_lines(front).len() && trimmed_lines(front)[k] == l2;
        assert(existing2[k] == trimmed_lines(front)[k]);
    }
    let ms_r = missing_annotations(reqs, prefix, requires_keyword(), sfx, existing);
    let ms_e = missing_annotations(ens, prefix, ensures_keyword(), sfx, existing);
    assert(ann == ms_r + ms_e);
    assert forall|k: int| 0 <= k < ann.len() implies existing2.contains(trim(#[trigger] ann[k])) by {
        assert(existing2[front.len() + k] == trim(ann[k]));
    }
    assert forall|k: int| 0 <= k < ms_r.len() implies existing2.contains(trim(#[trigger] ms_r[k])) by {
        assert(ann[k] == ms_r[k]);
    }
    assert forall|k: int| 0 <= k < ms_e.len() implies existing2.contains(trim(#[trigger] ms_e[k])) by {
        assert(ann[ms_r.len() + k] == ms_e[k]);
    }
    lemma_clauses_present_with(reqs, prefix, requires_keyword(), sfx, existing, existing2);
    lemma_clauses_present_with(ens, prefix, ensures_keyword(), sfx, existing, existing2);
}

/// Inserting text that starts with a line ending right before the byte at
/// `o`, which is neither a space nor a tab and lies on line `line` past its
/// start, keeps that line's start and indentation.
proof fn lemma_rust_line_kept(s: Seq<u8>, line: int, o: int, x: Seq<u8>)
    requires
        line >= 1,
        line == 1 || nth_newline(s, 0, (line - 2) as nat) is Some,
        0 <= line_start(s, line) < o < s.len(),
        !(s[o] == 0x20 || s[o] == 0x09),
        x.len() > 0,
        x[0] == 0x0a || x[0] == 0x0d,
    ensures
        line_start(inserted(s, o, x), line) == line_start(s, line),
        rust_prefix(inserted(s, o, x), line) == rust_prefix(s, line),
        inserted(s, o, x).skip(line_start(s, line)) == s.skip(line_start(s, line)).take(o - line_start(s, line)) + x
            + s.skip(line_start(s, line)).skip(o - line_start(s, line)),
{
    let ls = line_start(s, line);
    let s2 = inserted(s, o, x);
    lemma_line_start_kept(s, line, o, x);
    assert(s2.skip(ls) =~= s.skip(ls).take(o - ls) + x + s.skip(ls).skip(o - ls));
    let a0 = s.take(o);
    assert(s2 == a0 + x + s.skip(o));
    assert(crate::rescan::agree(s, s2, o)) by {
        assert forall|j: int| 0 <= j < o implies #[trigger] s[j] == s2[j] by {
            assert((a0 + x + s.skip(o))[j] == (a0 + x)[j]);
            assert((a0 + x)[j] == a0[j]);
        }
    }
    assert(s2[o] == x[0]);
    lemma_indent_upto(s, s2, o, ls);
    lemma_indent_shift(s, ls, s, ls);
    let ie = indent_end(s, ls);
    assert forall|j: int| 0 <= j < ie - ls implies s2.subrange(ls, ie)[j] == s.subrange(ls, ie)[j] by {
        assert(s[ls + j] == s2[ls + j]);
    }
    assert(line_indent(s2, line) =~= line_indent(s, line));
}

/// The text a Rust insertion adds: walkable, opening with a line ending
/// that is not followed by a quote, and holding CRLF exactly when its line
/// ending is CRLF.
proof fn lemma_rust_inserted_text(eol: Seq<u8>, ann: Seq<Seq<u8>>, indent: Seq<u8>, prefix: Seq<u8>)
    requires
        is_eol(eol),
        blank_run(indent),
        ann.len() >= 1,
        forall|k: int|
            0 <= k < ann.len() ==> crate::rescan::walkable(
                #[trigger] ann[k] + eol,
                0,
                (ann[k].len() + eol.len()) as int,
                false,
            ) && single_line(ann[k]) && ann[k].len() > 0 && ann[k][0] == prefix[0],
        prefix.len() > 0,
        prefix[0] == 0x20 || prefix[0] == 0x09,
    ensures
        ({
            let x = eol + join(ann, eol) + eol + indent;
            &&& crate::rescan::walkable(x, 0, x.len() as int, false)
            &&& x.len() >= 2
            &&& (x[0] == 0x0a || x[0] == 0x0d)
            &&& x[1] != 0x27
            &&& has_crlf(x) == (eol.len() == 2)
        }),
{
    let x = eol + join(ann, eol) + eol + indent;
    assert forall|k: int| 0 <= k < ann.len() implies crate::rescan::walkable(
        #[trigger] ann[k] + eol,
        0,
        (ann[k].len() + eol.len()) as int,
        false,
    ) by {
        assert(single_line(ann[k]));
    }
    lemma_rust_lines_walk(ann, eol);
    assert(inert(eol));
    assert(inert(indent));
    lemma_inert_walkable(eol, 0);
    lemma_inert_walkable(indent, 0);
    let body = join(ann, eol) + eol;
    assert(body.last() == 0x0a);
    crate::rescan::lemma_walkable_concat(body, indent, 0, false);
    assert(eol.last() == 0x0a);
    crate::rescan::lemma_walkable_concat(eol, body + indent, 0, false);
    assert(x =~= eol + (body + indent));
    assert(ann[0].len() > 0 && ann[0][0] == prefix[0]);
    lemma_join_starts_with_first(ann, eol);
    if eol.len() == 1 {
        assert(x[1] == join(ann, eol)[0]);
    } else {
        assert(x[1] == eol[1]);
    }
    if eol.len() == 2 {
        assert(crlf_at(x, 0));
    } else {
        assert(free_of(eol, 0x0d));
        assert forall|k: int| 0 <= k < ann.len() implies free_of(#[trigger] ann[k], 0x0d) by {
            assert(single_line(ann[k]));
        }
        lemma_join_free_of(ann, eol, 0x0d);
        assert(free_of(indent, 0x0d));
        lemma_free_of_concat(eol, join(ann, eol), 0x0d);
        lemma_free_of_concat(eol + join(ann, eol), eol, 0x0d);
        lemma_free_of_concat(eol + join(ann, eol) + eol, indent, 0x0d);
        if has_crlf(x) {
            let k = choose|k: int| #[trigger] crlf_at(x, k);
            assert(x[k] == 0x0d);
        }
    }
}

/// Scaffolding a Rust function a second time adds nothing: once the clause
/// lines an insertion produced stand between the signature and the brace
/// that opens the body, every requested clause is found among the
/// signature's lines, and the function stays on its line. The inserted
/// lines end with CRLF exactly when the file uses CRLF. The law needs the
/// function's line to exist and its name to occur from there on, and each
/// clause to be plain: on one line and, outside a line comment, without a
/// brace, a semicolon or a quote and without a block comment opening.
#[verifier::rlimit(80)]
#[verifier::spinoff_prover]
pub proof fn lemma_rust_scaffolding_twice_adds_nothing(
    s: Seq<u8>,
    line: int,
    name: Seq<u8>,
    reqs: Seq<Seq<u8>>,
    ens: Seq<Seq<u8>>,
)
    requires
        line >= 1,
        line == 1 || nth_newline(s, 0, (line - 2) as nat) is Some,
        forall|k: int| 0 <= k < reqs.len() ==> plain_clause(#[trigger] reqs[k]),
        forall|k: int| 0 <= k < ens.len() ==> plain_clause(#[trigger] ens[k]),
        insertion_spec(s, SourceLanguage::Rust, line, name, reqs, ens) matches Ok(Some(_)),
        find(body_tail(s, line), name) is Some,
    ensures
        ({
            let (o, txt) = insertion_spec(s, SourceLanguage::Rust, line, name, reqs, ens)->Ok_0->Some_0;
            let s2 = inserted(s, o, txt);
            &&& o == line_start(s, line) + rust_brace(s, line, name)
            &&& line_start(s2, line) == line_start(s, line)
            &&& has_crlf(txt) == has_crlf(s)
            &&& insertion_spec(s2, SourceLanguage::Rust, line, name, reqs, ens) == Ok::<
                Option<(int, Seq<u8>)>,
                crate::contract::BraceFailure,
            >(None)
        }),
{
    let rs = SourceLanguage::Rust;
    let ls = line_start(s, line);
    let t = s.skip(ls);
    let b = rust_brace(s, line, name);
    let indent = line_indent(s, line);
    let prefix = rust_prefix(s, line);
    let eol = eol_of(s);
    let p = t.take(b);
    let existing = trimmed_lines(lines(p));
    let sfx = seq![0x2cu8];
    let ann = annotations(reqs, ens, prefix, sfx, existing);
    let x = eol + join(ann, eol) + eol + indent;
    let o = ls + b;
    let t2 = t.take(b) + x + t.skip(b);
    let b2 = b + x.len();
    let s2 = inserted(s, o, x);
    assert(rust_signature_lines(s, line, name) == existing);
    lemma_rust_insertion_shape(s, line, name, reqs, ens);
    assert(0 <= ls <= s.len()) by {
        if line > 1 {
            lemma_nth_newline_counts(s, 0, (line - 2) as nat);
        }
    }
    crate::rescan::lemma_body_brace_facts(t, name, rs, b);
    assert(blank_run(indent) && blank_run(prefix)) by {
        lemma_indent_shift(s, ls, s, ls);
        assert forall|i: int| 0 <= i < prefix.len() implies prefix[i] == 0x20 || prefix[i] == 0x09 by {
            if i < indent.len() {
                assert(prefix[i] == indent[i]);
            }
        }
    }
    assert(is_eol(eol));
    lemma_rust_lines_added(reqs, ens, prefix, existing, eol);
    lemma_rust_inserted_text(eol, ann, indent, prefix);
    lemma_rust_brace_moved(t, name, b, x);
    assert(s[o] == t[b]);
    lemma_rust_line_kept(s, line, o, x);
    assert(body_tail(s2, line) == t2);
    assert(has_crlf(x) == has_crlf(s));
    assert forall|k: int| 0 <= k < ann.len() implies single_line(#[trigger] ann[k]) by {
        assert(single_line(ann[k]));
    }
    lemma_rust_signature_grows(p, eol, indent, reqs, ens, prefix);
    assert(t2.take(b2) =~= p + x);
    lemma_rust_nothing_missing(s2, line, name, reqs, ens, b2);
}

} // verus!
