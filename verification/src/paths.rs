//! Lexical reading of slash-separated paths, as `std::path` reads them on
//! Unix: components, joining, prefixes, file names and extensions. Nothing
//! here touches the file system.
use vstd::prelude::*;

use crate::scan::SourceLanguage;
use crate::schema::strings_view;
use crate::text::{concat, concat3, copy_string, owned, same_text};

verus! {

broadcast use vstd::string::group_string_axioms;

/// The pieces of `s` between slashes, empty pieces included; a path with no
/// slash is one piece.
pub open spec fn split_slash(s: Seq<char>) -> Seq<Seq<char>>
    decreases s.len(),
{
    if s.len() == 0 {
        seq![Seq::empty()]
    } else {
        let r = split_slash(s.drop_last());
        if s.last() == '/' {
            r.push(Seq::empty())
        } else {
            r.update(r.len() - 1, r.last().push(s.last()))
        }
    }
}

/// A piece that names something: neither empty nor `.`.
pub open spec fn is_normal_piece(p: Seq<char>) -> bool {
    p.len() > 0 && p != seq!['.']
}

/// The pieces that name something, in order.
pub open spec fn normal_pieces(pieces: Seq<Seq<char>>) -> Seq<Seq<char>>
    decreases pieces.len(),
{
    if pieces.len() == 0 {
        Seq::empty()
    } else {
        let r = normal_pieces(pieces.drop_last());
        if is_normal_piece(pieces.last()) {
            r.push(pieces.last())
        } else {
            r
        }
    }
}

/// The root component, written `/`.
pub open spec fn root_component() -> Seq<char> {
    seq!['/']
}

/// The current-directory component, written `.`.
pub open spec fn current_component() -> Seq<char> {
    seq!['.']
}

/// The parent-directory component, written `..`.
pub open spec fn parent_component() -> Seq<char> {
    seq!['.', '.']
}

/// Whether a path starts at the root.
pub open spec fn is_absolute(s: Seq<char>) -> bool {
    s.len() > 0 && s[0] == '/'
}

/// The components of a path: the root for an absolute path, `.` for a
/// relative path whose first piece is `.`, then every piece that names
/// something (`..` included).
pub open spec fn components(s: Seq<char>) -> Seq<Seq<char>> {
    let pieces = split_slash(s);
    if is_absolute(s) {
        seq![root_component()] + normal_pieces(pieces)
    } else if pieces[0] == current_component() {
        seq![current_component()] + normal_pieces(pieces)
    } else {
        normal_pieces(pieces)
    }
}

/// Whether a path has a `..` component.
pub open spec fn has_parent_component(s: Seq<char>) -> bool {
    components(s).contains(parent_component())
}

/// Whether the components of `base` begin the components of `path`.
pub open spec fn path_starts_with(path: Seq<char>, base: Seq<char>) -> bool {
    components(base).is_prefix_of(components(path))
}

/// Components joined by slashes, the root written once.
pub open spec fn render_components(cs: Seq<Seq<char>>) -> Seq<char>
    decreases cs.len(),
{
    if cs.len() == 0 {
        Seq::empty()
    } else if cs.len() == 1 {
        cs[0]
    } else {
        let head = render_components(cs.drop_last());
        if head == root_component() {
            head + cs.last()
        } else {
            head + seq!['/'] + cs.last()
        }
    }
}

/// What is left of `path` past the components of `base`, when `base` begins
/// it.
pub open spec fn strip_prefix(path: Seq<char>, base: Seq<char>) -> Option<Seq<char>> {
    if path_starts_with(path, base) {
        Some(render_components(components(path).skip(components(base).len() as int)))
    } else {
        None
    }
}

/// `rel` appended to `base` as `PathBuf::push` does: an absolute `rel`
/// replaces `base`, and a slash goes between them unless `base` is empty or
/// already ends with one.
pub open spec fn join_path(base: Seq<char>, rel: Seq<char>) -> Seq<char> {
    if is_absolute(rel) || base.len() == 0 {
        rel
    } else if base.last() == '/' {
        base + rel
    } else {
        base + seq!['/'] + rel
    }
}

/// The final component of a path when it names something.
pub open spec fn file_name(s: Seq<char>) -> Option<Seq<char>> {
    let cs = components(s);
    if cs.len() == 0 {
        None
    } else {
        let last = cs.last();
        if last == root_component() || last == current_component() || last == parent_component() {
            None
        } else {
            Some(last)
        }
    }
}

/// The index of the last `.` in `s`.
pub open spec fn last_dot(s: Seq<char>) -> Option<int>
    decreases s.len(),
{
    if s.len() == 0 {
        None
    } else if s.last() == '.' {
        Some(s.len() - 1)
    } else {
        last_dot(s.drop_last())
    }
}

/// The extension of a file name: what follows its last `.`, when that dot
/// is not the name's first character.
pub open spec fn extension_of(name: Seq<char>) -> Option<Seq<char>> {
    match last_dot(name) {
        Some(i) => if i > 0 {
            Some(name.skip(i + 1))
        } else {
            None
        },
        None => None,
    }
}

/// The extension of the path's file name.
pub open spec fn path_extension(s: Seq<char>) -> Option<Seq<char>> {
    match file_name(s) {
        Some(name) => extension_of(name),
        None => None,
    }
}

/// The language a source extension stands for.
pub open spec fn language_of_extension(ext: Seq<char>) -> Option<SourceLanguage> {
    if ext == seq!['t', 's'] || ext == seq!['t', 's', 'x'] {
        Some(SourceLanguage::TypeScript)
    } else if ext == seq!['r', 's'] {
        Some(SourceLanguage::Rust)
    } else if ext == seq!['j', 'a', 'v', 'a'] {
        Some(SourceLanguage::Java)
    } else {
        None
    }
}

/// The language of a source path, by its extension.
pub open spec fn language_of_path(s: Seq<char>) -> Option<SourceLanguage> {
    match path_extension(s) {
        Some(ext) => language_of_extension(ext),
        None => None,
    }
}

proof fn lemma_split_nonempty(s: Seq<char>)
    ensures
        split_slash(s).len() >= 1,
    decreases s.len(),
{
    if s.len() > 0 {
        lemma_split_nonempty(s.drop_last());
    }
}

/// The pieces of `s` between slashes.
fn split_pieces(s: &str) -> (r: Vec<String>)
    ensures
        strings_view(r@) == split_slash(s@),
{
    let n = s.unicode_len();
    let mut out: Vec<String> = Vec::new();
    let mut start: usize = 0;
    let mut i: usize = 0;
    assert(s@.take(0) =~= Seq::<char>::empty());
    assert(s@.subrange(0, 0) =~= Seq::<char>::empty());
    while i < n
        invariant
            n == s@.len(),
            start <= i <= n,
            strings_view(out@).push(s@.subrange(start as int, i as int)) == split_slash(
                s@.take(i as int),
            ),
        decreases n - i,
    {
        let c = s.get_char(i);
        let ghost before = strings_view(out@);
        proof {
            lemma_split_nonempty(s@.take(i as int));
            assert(s@.take(i + 1).drop_last() =~= s@.take(i as int));
            assert(s@.take(i + 1).last() == c);
        }
        if c == '/' {
            let piece = s.substring_char(start, i).to_string();
            let ghost old_start = start;
            out.push(piece);
            start = i + 1;
            assert(s@.subrange(start as int, (i + 1) as int) =~= Seq::<char>::empty());
            assert(strings_view(out@) =~= before.push(s@.subrange(old_start as int, i as int)));
        } else {
            assert(s@.subrange(start as int, i + 1) =~= s@.subrange(start as int, i as int).push(c));
        }
        i = i + 1;
    }
    let last = s.substring_char(start, n).to_string();
    let ghost before = strings_view(out@);
    out.push(last);
    assert(strings_view(out@) =~= before.push(s@.subrange(start as int, n as int)));
    assert(s@.take(n as int) =~= s@);
    out
}

/// The components of a path.
pub fn path_components(s: &str) -> (r: Vec<String>)
    ensures
        strings_view(r@) == components(s@),
{
    let pieces = split_pieces(s);
    proof {
        lemma_split_nonempty(s@);
    }
    let mut out: Vec<String> = Vec::new();
    let n = s.unicode_len();
    let absolute = n > 0 && s.get_char(0) == '/';
    let dot = ".";
    proof {
        reveal_strlit(".");
        reveal_strlit("/");
        assert("."@ =~= current_component());
        assert("/"@ =~= root_component());
    }
    if absolute {
        out.push(owned("/"));
        assert(strings_view(out@) =~= seq![root_component()]);
    } else if same_text(pieces[0].as_str(), dot) {
        out.push(owned(dot));
        assert(strings_view(out@) =~= seq![current_component()]);
    } else {
        assert(strings_view(out@) =~= Seq::<Seq<char>>::empty());
    }
    let ghost lead = strings_view(out@);
    assert(split_slash(s@).take(0) =~= Seq::<Seq<char>>::empty());
    assert(lead + normal_pieces(split_slash(s@).take(0)) =~= lead);
    let mut k: usize = 0;
    while k < pieces.len()
        invariant
            k <= pieces@.len(),
            dot@ == current_component(),
            strings_view(pieces@) == split_slash(s@),
            strings_view(out@) == lead + normal_pieces(split_slash(s@).take(k as int)),
        decreases pieces.len() - k,
    {
        let piece = pieces[k].as_str();
        assert(split_slash(s@).take(k + 1).drop_last() =~= split_slash(s@).take(k as int));
        assert(split_slash(s@).take(k + 1).last() == piece@);
        let named = piece.unicode_len() > 0 && !same_text(piece, dot);
        assert(named == is_normal_piece(piece@));
        let ghost before = strings_view(out@);
        let ghost done = normal_pieces(split_slash(s@).take(k as int));
        if named {
            out.push(copy_string(&pieces[k]));
            assert(strings_view(out@) =~= before.push(piece@));
            assert(lead + done.push(piece@) =~= (lead + done).push(piece@));
        }
        k = k + 1;
    }
    assert(split_slash(s@).take(pieces@.len() as int) =~= split_slash(s@));
    proof {
        if !absolute && split_slash(s@)[0] != current_component() {
            assert(lead + normal_pieces(split_slash(s@)) =~= normal_pieces(split_slash(s@)));
        }
    }
    out
}

/// Whether `s` starts at the root.
pub fn is_absolute_path(s: &str) -> (r: bool)
    ensures
        r == is_absolute(s@),
{
    s.unicode_len() > 0 && s.get_char(0) == '/'
}

/// Whether the components of `path` begin with those of `base`.
pub fn starts_with_components(path: &Vec<String>, base: &Vec<String>) -> (r: bool)
    ensures
        r == strings_view(base@).is_prefix_of(strings_view(path@)),
{
    if base.len() > path.len() {
        return false;
    }
    let mut i: usize = 0;
    while i < base.len()
        invariant
            base@.len() <= path@.len(),
            i <= base@.len(),
            forall|j: int| 0 <= j < i ==> base@[j]@ == path@[j]@,
        decreases base.len() - i,
    {
        if !same_text(base[i].as_str(), path[i].as_str()) {
            assert(strings_view(path@).subrange(0, base@.len() as int)[i as int] != strings_view(
                base@,
            )[i as int]);
            return false;
        }
        i = i + 1;
    }
    assert(strings_view(base@) =~= strings_view(path@).subrange(0, base@.len() as int));
    true
}

/// Whether the components of `base` begin the components of `path`.
pub fn path_has_prefix(path: &str, base: &str) -> (r: bool)
    ensures
        r == path_starts_with(path@, base@),
{
    let p = path_components(path);
    let b = path_components(base);
    starts_with_components(&p, &b)
}

/// Components joined by slashes, the root written once.
pub fn render_path(cs: &Vec<String>, from: usize) -> (r: String)
    requires
        from <= cs@.len(),
    ensures
        r@ == render_components(strings_view(cs@).skip(from as int)),
{
    let ghost all = strings_view(cs@).skip(from as int);
    let mut out = String::new();
    let mut k: usize = from;
    assert(all.take(0) =~= Seq::<Seq<char>>::empty());
    while k < cs.len()
        invariant
            from <= k <= cs@.len(),
            all == strings_view(cs@).skip(from as int),
            out@ == render_components(all.take(k - from)),
        decreases cs.len() - k,
    {
        let part = cs[k].as_str();
        let ghost done = all.take(k - from);
        assert(all.take(k - from + 1).drop_last() =~= done);
        assert(all.take(k - from + 1).last() == part@);
        if k == from {
            assert(all.take(1) =~= seq![part@]);
            out = copy_string(&cs[k]);
        } else {
            proof {
                reveal_strlit("/");
                assert("/"@ =~= root_component());
            }
            let ghost t = all.take(k - from + 1);
            assert(t.len() >= 2);
            assert(render_components(t) == if render_components(done) == root_component() {
                render_components(done) + part@
            } else {
                render_components(done) + seq!['/'] + part@
            });
            if same_text(out.as_str(), "/") {
                out = concat(out.as_str(), part);
            } else {
                out = concat3(out.as_str(), "/", part);
            }
        }
        k = k + 1;
    }
    assert(all.take(cs@.len() - from) =~= all);
    out
}

/// What is left of `path` past the components of `base`, when `base` begins
/// it.
pub fn strip_path_prefix(path: &str, base: &str) -> (r: Option<String>)
    ensures
        match strip_prefix(path@, base@) {
            Some(rest) => r matches Some(s) && s@ == rest,
            None => r is None,
        },
{
    let p = path_components(path);
    let b = path_components(base);
    if starts_with_components(&p, &b) {
        Some(render_path(&p, b.len()))
    } else {
        None
    }
}

/// `rel` appended to `base` as `PathBuf::push` does.
pub fn join_paths(base: &str, rel: &str) -> (r: String)
    ensures
        r@ == join_path(base@, rel@),
{
    let n = base.unicode_len();
    if is_absolute_path(rel) || n == 0 {
        owned(rel)
    } else if base.get_char(n - 1) == '/' {
        concat(base, rel)
    } else {
        proof {
            reveal_strlit("/");
        }
        concat3(base, "/", rel)
    }
}

/// The final component of a path when it names something.
pub fn path_file_name(s: &str) -> (r: Option<String>)
    ensures
        match file_name(s@) {
            Some(name) => r matches Some(x) && x@ == name,
            None => r is None,
        },
{
    let cs = path_components(s);
    let n = cs.len();
    if n == 0 {
        return None;
    }
    let last = cs[n - 1].as_str();
    proof {
        reveal_strlit("/");
        reveal_strlit(".");
        reveal_strlit("..");
        assert("/"@ =~= root_component());
        assert("."@ =~= current_component());
        assert(".."@ =~= parent_component());
        assert(strings_view(cs@)[n - 1] == last@);
        assert(components(s@).last() == last@);
    }
    if same_text(last, "/") || same_text(last, ".") || same_text(last, "..") {
        None
    } else {
        Some(owned(last))
    }
}

/// The extension of a file name.
pub fn name_extension(name: &str) -> (r: Option<String>)
    ensures
        match extension_of(name@) {
            Some(ext) => r matches Some(x) && x@ == ext,
            None => r is None,
        },
{
    let n = name.unicode_len();
    let mut i: usize = n;
    assert(name@.take(n as int) =~= name@);
    while i > 0
        invariant
            n == name@.len(),
            i <= n,
            last_dot(name@) == last_dot(name@.take(i as int)),
        decreases i,
    {
        let c = name.get_char(i - 1);
        assert(name@.take(i as int).drop_last() =~= name@.take(i - 1));
        assert(name@.take(i as int).last() == c);
        if c == '.' {
            assert(last_dot(name@) == Some(i - 1));
            if i - 1 > 0 {
                let ext = name.substring_char(i, n).to_string();
                assert(name@.subrange(i as int, n as int) =~= name@.skip(i as int));
                return Some(ext);
            } else {
                return None;
            }
        }
        i = i - 1;
    }
    assert(name@.take(0) =~= Seq::<char>::empty());
    None
}

/// The language of a source path, by its extension: `.ts` and `.tsx` are
/// TypeScript, `.rs` is Rust, `.java` is Java.
pub fn language_for_path(file: &str) -> (r: Option<SourceLanguage>)
    ensures
        r == language_of_path(file@),
{
    let name = match path_file_name(file) {
        Some(n) => n,
        None => {
            return None;
        },
    };
    let ext = match name_extension(name.as_str()) {
        Some(e) => e,
        None => {
            return None;
        },
    };
    let e = ext.as_str();
    proof {
        reveal_strlit("ts");
        reveal_strlit("tsx");
        reveal_strlit("rs");
        reveal_strlit("java");
        assert("ts"@ =~= seq!['t', 's']);
        assert("tsx"@ =~= seq!['t', 's', 'x']);
        assert("rs"@ =~= seq!['r', 's']);
        assert("java"@ =~= seq!['j', 'a', 'v', 'a']);
    }
    if same_text(e, "ts") || same_text(e, "tsx") {
        Some(SourceLanguage::TypeScript)
    } else if same_text(e, "rs") {
        Some(SourceLanguage::Rust)
    } else if same_text(e, "java") {
        Some(SourceLanguage::Java)
    } else {
        None
    }
}

proof fn lemma_split_concat_plain(x: Seq<char>, y: Seq<char>)
    ensures
        split_slash(x + seq!['/'] + y) == split_slash(x) + split_slash(y),
    decreases y.len(),
{
    lemma_split_nonempty(y);
    if y.len() == 0 {
        assert((x + seq!['/'] + y).drop_last() =~= x);
        assert(split_slash(y) =~= seq![Seq::<char>::empty()]);
    } else {
        let z = x + seq!['/'] + y;
        assert(z.drop_last() =~= x + seq!['/'] + y.drop_last());
        assert(z.last() == y.last());
        lemma_split_concat_plain(x, y.drop_last());
        lemma_split_nonempty(y.drop_last());
        lemma_split_nonempty(x);
        let a = split_slash(x);
        let b = split_slash(y.drop_last());
        if y.last() == '/' {
            assert((a + b).push(Seq::empty()) =~= a + b.push(Seq::empty()));
        } else {
            assert((a + b).update((a + b).len() - 1, (a + b).last().push(y.last())) =~= a + b.update(
                b.len() - 1,
                b.last().push(y.last()),
            ));
        }
    }
}

proof fn lemma_normal_concat(a: Seq<Seq<char>>, b: Seq<Seq<char>>)
    ensures
        normal_pieces(a + b) == normal_pieces(a) + normal_pieces(b),
    decreases b.len(),
{
    if b.len() == 0 {
        assert(a + b =~= a);
        assert(normal_pieces(a) + normal_pieces(b) =~= normal_pieces(a));
    } else {
        assert((a + b).drop_last() =~= a + b.drop_last());
        assert((a + b).last() == b.last());
        lemma_normal_concat(a, b.drop_last());
        if is_normal_piece(b.last()) {
            assert(normal_pieces(a) + normal_pieces(b.drop_last()).push(b.last()) =~= (normal_pieces(
                a,
            ) + normal_pieces(b.drop_last())).push(b.last()));
        }
    }
}

proof fn lemma_normal_no_parent(pieces: Seq<Seq<char>>)
    ensures
        forall|k: int|
            0 <= k < normal_pieces(pieces).len() ==> exists|j: int|
                0 <= j < pieces.len() && pieces[j] == #[trigger] normal_pieces(pieces)[k],
    decreases pieces.len(),
{
    if pieces.len() > 0 {
        lemma_normal_no_parent(pieces.drop_last());
        let r = normal_pieces(pieces.drop_last());
        assert forall|k: int| 0 <= k < normal_pieces(pieces).len() implies exists|j: int|
            0 <= j < pieces.len() && pieces[j] == #[trigger] normal_pieces(pieces)[k] by {
            if k < r.len() {
                let j = choose|j: int| 0 <= j < pieces.drop_last().len() && pieces.drop_last()[j] == r[k];
                assert(pieces[j] == pieces.drop_last()[j]);
            } else {
                assert(pieces[pieces.len() - 1] == normal_pieces(pieces)[k]);
            }
        }
    }
}

/// A relative path resolved under a non-empty base stays under it: the joined path
/// has the base's components first, and below them exactly the components
/// that name something in the relative path.
pub proof fn lemma_join_stays_under(base: Seq<char>, rel: Seq<char>)
    requires
        base.len() > 0,
        !is_absolute(rel),
    ensures
        path_starts_with(join_path(base, rel), base),
        components(join_path(base, rel)).skip(components(base).len() as int) == normal_pieces(
            split_slash(rel),
        ),
{
    let j = join_path(base, rel);
    lemma_split_nonempty(base);
    lemma_split_nonempty(rel);
    let x = if base.last() == '/' { base.drop_last() } else { base };
    assert(j == x + seq!['/'] + rel) by {
        if base.last() == '/' {
            assert(base =~= base.drop_last() + seq!['/']);
        }
    }
    lemma_split_concat_plain(x, rel);
    lemma_split_nonempty(x);
    let sx = split_slash(x);
    let sr = split_slash(rel);
    lemma_normal_concat(sx, sr);
    let nb = normal_pieces(split_slash(base));
    assert(nb == normal_pieces(sx)) by {
        if base.last() == '/' {
            assert(base.drop_last() == x);
            assert(split_slash(base) == sx.push(Seq::empty()));
            assert(split_slash(base).drop_last() =~= sx);
        }
    }
    assert(is_absolute(j) == is_absolute(base)) by {
        if x.len() == 0 {
            assert(base.len() == 1 && base[0] == '/');
            assert(j[0] == '/');
        } else {
            assert(j[0] == x[0]);
            assert(base[0] == x[0]);
        }
    }
    let lead = if is_absolute(base) {
        seq![root_component()]
    } else if split_slash(base)[0] == current_component() {
        seq![current_component()]
    } else {
        Seq::<Seq<char>>::empty()
    };
    assert(split_slash(j)[0] == split_slash(base)[0]) by {
        assert(split_slash(j) == sx + sr);
        assert(split_slash(j)[0] == sx[0]);
        if base.last() == '/' {
            assert(split_slash(base) == sx.push(Seq::empty()));
            assert(split_slash(base)[0] == sx[0]);
        }
    }
    assert(components(base) == lead + nb);
    assert(components(j) == lead + (nb + normal_pieces(sr)));
    assert((lead + (nb + normal_pieces(sr))).take((lead + nb).len() as int) =~= lead + nb);
    assert((lead + (nb + normal_pieces(sr))).skip((lead + nb).len() as int) =~= normal_pieces(sr));
}

} // verus!
