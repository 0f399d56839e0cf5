//! Discovering the function symbols of a set of source files: each file is
//! fingerprinted, decoded and parsed by its language, and the symbols come
//! out ordered by file, line and selector.
use vstd::prelude::*;
use vstd::utf8::{decode_utf8, encode_utf8, valid_utf8};

use crate::digest::{sha256, sha256_hex_of};
use crate::errors::{path_error, AuthoringError, AuthoringErrorCode, AuthoringErrorView, AuthoringResult};
use crate::order::{
    bytes_le, bytes_lt, lemma_bytes_le_antisymmetric, lemma_bytes_le_reflexive,
    lemma_bytes_le_total, lemma_bytes_le_transitive, text_le,
};
use crate::paths::{language_for_path, language_of_path};
use crate::scan::SourceLanguage;
use crate::schema::strings_view;
use crate::sort::{is_sorted, lemma_sorted_by, lemma_sorted_by_map, sort_by, sorted_by, total_preorder};
use crate::symbols::{
    parse_symbols, parse_symbols_spec, symbols_view, DiscoveredSymbol, DiscoveredSymbolView,
};
use crate::text::{contains_text, copy_string, ends_with_text, has_text, owned, utf8_text};

verus! {

broadcast use vstd::string::group_string_axioms;

/// A source file that discovery read, with the SHA-256 of its content.
#[derive(Debug, Clone, PartialEq, Eq)]
pub struct DiscoveredFile {
    pub path: String,
    pub sha256: String,
}

/// The mathematical model of a [`DiscoveredFile`].
pub struct DiscoveredFileView {
    pub path: Seq<char>,
    pub sha256: Seq<char>,
}

impl View for DiscoveredFile {
    type V = DiscoveredFileView;

    open spec fn view(&self) -> DiscoveredFileView {
        DiscoveredFileView { path: self.path@, sha256: self.sha256@ }
    }
}

/// What discovery found: the symbols, the files read, and warnings.
#[derive(Debug, Clone, PartialEq, Eq)]
pub struct DiscoverSymbolsOutput {
    pub symbols: Vec<DiscoveredSymbol>,
    pub files: Vec<DiscoveredFile>,
    pub warnings: Vec<String>,
}

/// The mathematical model of a [`DiscoverSymbolsOutput`].
pub struct DiscoverSymbolsOutputView {
    pub symbols: Seq<DiscoveredSymbolView>,
    pub files: Seq<DiscoveredFileView>,
    pub warnings: Seq<Seq<char>>,
}

/// The views of a list of discovered files.
pub open spec fn discovered_files_view(v: Seq<DiscoveredFile>) -> Seq<DiscoveredFileView> {
    v.map_values(|f: DiscoveredFile| f@)
}

impl View for DiscoverSymbolsOutput {
    type V = DiscoverSymbolsOutputView;

    open spec fn view(&self) -> DiscoverSymbolsOutputView {
        DiscoverSymbolsOutputView {
            symbols: symbols_view(self.symbols@),
            files: discovered_files_view(self.files@),
            warnings: strings_view(self.warnings@),
        }
    }
}

/// The view of what reading a file gave: its content or the error.
pub open spec fn content_view(r: AuthoringResult<Vec<u8>>) -> Result<Seq<u8>, AuthoringErrorView> {
    match r {
        Ok(b) => Ok(b@),
        Err(e) => Err(e@),
    }
}

/// The views of a list of read outcomes.
pub open spec fn contents_view(v: Seq<AuthoringResult<Vec<u8>>>) -> Seq<
    Result<Seq<u8>, AuthoringErrorView>,
> {
    v.map_values(|r: AuthoringResult<Vec<u8>>| content_view(r))
}

/// Message for source content that is not UTF-8.
pub open spec fn not_utf8_message() -> Seq<char> {
    "source file is not valid UTF-8"@
}

/// Message for a file discovery has no language for.
pub open spec fn unsupported_extension_message() -> Seq<char> {
    "supported source extensions are .ts, .tsx, .rs, and .java"@
}

/// Symbols ordered by file, then line, then selector, with strings in
/// Rust's order (by their UTF-8 bytes).
pub open spec fn symbol_key_le(a: DiscoveredSymbolView, b: DiscoveredSymbolView) -> bool {
    let fa = encode_utf8(a.file);
    let fb = encode_utf8(b.file);
    ||| bytes_lt(fa, fb)
    ||| fa == fb && a.line < b.line
    ||| fa == fb && a.line == b.line && bytes_le(encode_utf8(a.symbol), encode_utf8(b.symbol))
}

/// Files ordered by path.
pub open spec fn file_path_le(a: DiscoveredFileView, b: DiscoveredFileView) -> bool {
    bytes_le(encode_utf8(a.path), encode_utf8(b.path))
}

/// Going through the files in order: the symbols each declares and its
/// fingerprint, or the first failure (a failed read, content that is not
/// UTF-8, or an unsupported extension).
pub open spec fn discover_scan(
    files: Seq<Seq<char>>,
    contents: Seq<Result<Seq<u8>, AuthoringErrorView>>,
) -> Result<(Seq<DiscoveredSymbolView>, Seq<DiscoveredFileView>), AuthoringErrorView>
    decreases files.len(),
{
    if files.len() == 0 {
        Ok((Seq::empty(), Seq::empty()))
    } else {
        let n = files.len() - 1;
        let file = files[n];
        match discover_scan(files.drop_last(), contents.take(n)) {
            Err(e) => Err(e),
            Ok((symbols, found)) => match contents[n] {
                Err(e) => Err(e),
                Ok(bytes) => if !valid_utf8(bytes) {
                    Err(
                        AuthoringErrorView {
                            code: AuthoringErrorCode::Malformed,
                            message: not_utf8_message(),
                            path: Some(file),
                        },
                    )
                } else {
                    match language_of_path(file) {
                        None => Err(
                            AuthoringErrorView {
                                code: AuthoringErrorCode::Malformed,
                                message: unsupported_extension_message(),
                                path: Some(file),
                            },
                        ),
                        Some(language) => Ok(
                            (
                                symbols + parse_symbols_spec(file, language, decode_utf8(bytes)),
                                found.push(DiscoveredFileView { path: file, sha256: sha256_hex_of(bytes) }),
                            ),
                        ),
                    }
                },
            },
        }
    }
}

/// What discovery reports for the files and what reading them gave.
pub open spec fn discover_spec(
    files: Seq<Seq<char>>,
    contents: Seq<Result<Seq<u8>, AuthoringErrorView>>,
) -> Result<DiscoverSymbolsOutputView, AuthoringErrorView> {
    match discover_scan(files, contents) {
        Err(e) => Err(e),
        Ok((symbols, found)) => Ok(
            DiscoverSymbolsOutputView {
                symbols: sorted_by(
                    symbols,
                    |a: DiscoveredSymbolView, b: DiscoveredSymbolView| symbol_key_le(a, b),
                ),
                files: sorted_by(
                    found,
                    |a: DiscoveredFileView, b: DiscoveredFileView| file_path_le(a, b),
                ),
                warnings: Seq::empty(),
            },
        ),
    }
}

fn symbol_order(a: &DiscoveredSymbol, b: &DiscoveredSymbol) -> (r: bool)
    ensures
        r == symbol_key_le(a@, b@),
{
    let ab = text_le(a.file.as_str(), b.file.as_str());
    let ba = text_le(b.file.as_str(), a.file.as_str());
    proof {
        if ab && ba {
            lemma_bytes_le_antisymmetric(encode_utf8(a.file@), encode_utf8(b.file@));
        }
        if encode_utf8(a.file@) == encode_utf8(b.file@) {
            lemma_bytes_le_reflexive(encode_utf8(a.file@));
        }
    }
    if !ba {
        true
    } else if !ab {
        false
    } else if a.line != b.line {
        a.line < b.line
    } else {
        text_le(a.symbol.as_str(), b.symbol.as_str())
    }
}

fn file_order(a: &DiscoveredFile, b: &DiscoveredFile) -> (r: bool)
    ensures
        r == file_path_le(a@, b@),
{
    text_le(a.path.as_str(), b.path.as_str())
}

/// The order on symbols is a total preorder.
pub proof fn lemma_symbol_key_total_preorder()
    ensures
        total_preorder(|a: DiscoveredSymbolView, b: DiscoveredSymbolView| symbol_key_le(a, b)),
{
    let le = |a: DiscoveredSymbolView, b: DiscoveredSymbolView| symbol_key_le(a, b);
    assert forall|a: DiscoveredSymbolView, b: DiscoveredSymbolView| #[trigger] le(a, b) || le(b, a) by {
        let fa = encode_utf8(a.file);
        let fb = encode_utf8(b.file);
        lemma_bytes_le_total(fa, fb);
        lemma_bytes_le_total(encode_utf8(a.symbol), encode_utf8(b.symbol));
        if bytes_le(fa, fb) && bytes_le(fb, fa) {
            lemma_bytes_le_antisymmetric(fa, fb);
        }
    }
    assert forall|a: DiscoveredSymbolView, b: DiscoveredSymbolView, c: DiscoveredSymbolView|
        #[trigger] le(a, b) && #[trigger] le(b, c) implies le(a, c) by {
        let fa = encode_utf8(a.file);
        let fb = encode_utf8(b.file);
        let fc = encode_utf8(c.file);
        lemma_bytes_le_total(fa, fb);
        lemma_bytes_le_total(fb, fc);
        lemma_bytes_le_total(fa, fc);
        if bytes_le(fc, fa) && bytes_le(fa, fb) {
            lemma_bytes_le_transitive(fc, fa, fb);
        }
        if bytes_le(fb, fc) && bytes_le(fc, fa) {
            lemma_bytes_le_transitive(fb, fc, fa);
        }
        if bytes_le(fa, fb) && bytes_le(fb, fa) {
            lemma_bytes_le_antisymmetric(fa, fb);
        }
        if bytes_le(fb, fc) && bytes_le(fc, fb) {
            lemma_bytes_le_antisymmetric(fb, fc);
        }
        if bytes_le(fa, fc) && bytes_le(fc, fa) {
            lemma_bytes_le_antisymmetric(fa, fc);
        }
        if fa == fb && fb == fc && a.line == b.line && b.line == c.line {
            lemma_bytes_le_transitive(
                encode_utf8(a.symbol),
                encode_utf8(b.symbol),
                encode_utf8(c.symbol),
            );
        }
    }
}

/// The order on files is a total preorder.
pub proof fn lemma_file_path_total_preorder()
    ensures
        total_preorder(|a: DiscoveredFileView, b: DiscoveredFileView| file_path_le(a, b)),
{
    let le = |a: DiscoveredFileView, b: DiscoveredFileView| file_path_le(a, b);
    assert forall|a: DiscoveredFileView, b: DiscoveredFileView| #[trigger] le(a, b) || le(b, a) by {
        lemma_bytes_le_total(encode_utf8(a.path), encode_utf8(b.path));
    }
    assert forall|a: DiscoveredFileView, b: DiscoveredFileView, c: DiscoveredFileView|
        #[trigger] le(a, b) && #[trigger] le(b, c) implies le(a, c) by {
        lemma_bytes_le_transitive(encode_utf8(a.path), encode_utf8(b.path), encode_utf8(c.path));
    }
}

proof fn lemma_discover_scan_err_extends(
    fs: Seq<Seq<char>>,
    cs: Seq<Result<Seq<u8>, AuthoringErrorView>>,
    k: int,
)
    requires
        0 <= k <= fs.len(),
        fs.len() == cs.len(),
        discover_scan(fs.take(k), cs.take(k)) is Err,
    ensures
        discover_scan(fs, cs) == discover_scan(fs.take(k), cs.take(k)),
    decreases fs.len() - k,
{
    if k < fs.len() {
        assert(fs.take(k + 1).drop_last() =~= fs.take(k));
        assert(cs.take(k + 1).take(k) =~= cs.take(k));
        lemma_discover_scan_err_extends(fs, cs, k + 1);
    } else {
        assert(fs.take(k) =~= fs);
        assert(cs.take(k) =~= cs);
    }
}

/// Discovers the symbols of `files` given what reading each gave
/// (`contents`, in the same order). Each file must be UTF-8 and have a
/// supported extension; the symbols come out ordered by file, line and
/// selector, the files by path.
pub fn discover_symbols(
    files: &Vec<String>,
    contents: &Vec<AuthoringResult<Vec<u8>>>,
) -> (r: AuthoringResult<DiscoverSymbolsOutput>)
    requires
        files@.len() == contents@.len(),
        forall|k: int|
            0 <= k < contents@.len() ==> (#[trigger] contents@[k] matches Ok(b) ==> b@.len()
                < usize::MAX),
    ensures
        match discover_spec(strings_view(files@), contents_view(contents@)) {
            Err(e) => r matches Err(x) && x@ == e,
            Ok(out) => r matches Ok(o) && o@ == out,
        },
{
    let ghost fs = strings_view(files@);
    let ghost cs = contents_view(contents@);
    let mut symbols: Vec<DiscoveredSymbol> = Vec::new();
    let mut found: Vec<DiscoveredFile> = Vec::new();
    let mut k: usize = 0;
    assert(fs.take(0) =~= Seq::<Seq<char>>::empty());
    assert(symbols_view(symbols@) =~= Seq::<DiscoveredSymbolView>::empty());
    assert(discovered_files_view(found@) =~= Seq::<DiscoveredFileView>::empty());
    while k < files.len()
        invariant
            k <= files@.len(),
            files@.len() == contents@.len(),
            fs == strings_view(files@),
            cs == contents_view(contents@),
            forall|j: int|
                0 <= j < contents@.len() ==> (#[trigger] contents@[j] matches Ok(b) ==> b@.len()
                    < usize::MAX),
            discover_scan(fs.take(k as int), cs.take(k as int)) == Ok::<
                (Seq<DiscoveredSymbolView>, Seq<DiscoveredFileView>),
                AuthoringErrorView,
            >((symbols_view(symbols@), discovered_files_view(found@))),
        decreases files.len() - k,
    {
        let file = files[k].as_str();
        let ghost fk = fs.take(k + 1);
        let ghost ck = cs.take(k + 1);
        assert(fk.drop_last() =~= fs.take(k as int));
        assert(ck.take(k as int) =~= cs.take(k as int));
        assert(fk[k as int] == file@);
        assert(ck[k as int] == content_view(contents@[k as int]));
        let bytes = match &contents[k] {
            Err(e) => {
                proof {
                    lemma_discover_scan_err_extends(fs, cs, (k + 1) as int);
                }
                return Err(e.copied());
            },
            Ok(b) => b,
        };
        let sha = sha256(bytes.as_slice());
        let source = match utf8_text(bytes.clone()) {
            Some(s) => s,
            None => {
                proof {
                    reveal_strlit("source file is not valid UTF-8");
                    lemma_discover_scan_err_extends(fs, cs, (k + 1) as int);
                }
                return Err(
                    path_error(
                        AuthoringErrorCode::Malformed,
                        owned(file),
                        owned("source file is not valid UTF-8"),
                    ),
                );
            },
        };
        proof {
            vstd::utf8::encode_utf8_decode_utf8(source@);
        }
        let language = match language_for_path(file) {
            Some(l) => l,
            None => {
                proof {
                    reveal_strlit("supported source extensions are .ts, .tsx, .rs, and .java");
                    lemma_discover_scan_err_extends(fs, cs, (k + 1) as int);
                }
                return Err(
                    path_error(
                        AuthoringErrorCode::Malformed,
                        owned(file),
                        owned("supported source extensions are .ts, .tsx, .rs, and .java"),
                    ),
                );
            },
        };
        let parsed = parse_symbols(file, language, source.as_str());
        let ghost before_symbols = symbols_view(symbols@);
        let ghost before_found = discovered_files_view(found@);
        let mut i: usize = 0;
        while i < parsed.len()
            invariant
                i <= parsed@.len(),
                symbols_view(symbols@) == before_symbols + symbols_view(parsed@).take(i as int),
            decreases parsed.len() - i,
        {
            let ghost prev = symbols_view(symbols@);
            symbols.push(parsed[i].copied());
            assert(symbols_view(symbols@) =~= prev.push(parsed@[i as int]@));
            assert(symbols_view(parsed@).take(i + 1) =~= symbols_view(parsed@).take(i as int).push(
                parsed@[i as int]@,
            ));
            i = i + 1;
        }
        assert(symbols_view(parsed@).take(parsed@.len() as int) =~= symbols_view(parsed@));
        let entry = DiscoveredFile { path: owned(file), sha256: sha };
        found.push(entry);
        assert(discovered_files_view(found@) =~= before_found.push(
            DiscoveredFileView { path: file@, sha256: sha256_hex_of(bytes@) },
        ));
        k = k + 1;
    }
    assert(fs.take(files@.len() as int) =~= fs);
    assert(cs.take(files@.len() as int) =~= cs);
    let ghost unsorted_symbols = symbols@;
    let ghost unsorted_found = found@;
    let sorted_symbols = sort_by(
        symbols,
        symbol_order,
        Ghost(|a: DiscoveredSymbol, b: DiscoveredSymbol| symbol_key_le(a@, b@)),
    );
    let sorted_found = sort_by(
        found,
        file_order,
        Ghost(|a: DiscoveredFile, b: DiscoveredFile| file_path_le(a@, b@)),
    );
    proof {
        lemma_sorted_by_map(
            unsorted_symbols,
            |s: DiscoveredSymbol| s@,
            |a: DiscoveredSymbol, b: DiscoveredSymbol| symbol_key_le(a@, b@),
            |a: DiscoveredSymbolView, b: DiscoveredSymbolView| symbol_key_le(a, b),
        );
        lemma_sorted_by_map(
            unsorted_found,
            |f: DiscoveredFile| f@,
            |a: DiscoveredFile, b: DiscoveredFile| file_path_le(a@, b@),
            |a: DiscoveredFileView, b: DiscoveredFileView| file_path_le(a, b),
        );
    }
    let out = DiscoverSymbolsOutput { symbols: sorted_symbols, files: sorted_found, warnings: Vec::new() };
    assert(out@.warnings =~= Seq::<Seq<char>>::empty());
    Ok(out)
}

/// Discovery reports its symbols ordered by file, line and selector and its
/// files ordered by path, each list holding exactly what the files gave.
pub proof fn lemma_discovery_is_ordered(
    files: Seq<Seq<char>>,
    contents: Seq<Result<Seq<u8>, AuthoringErrorView>>,
)
    requires
        discover_spec(files, contents) is Ok,
    ensures
        is_sorted(
            discover_spec(files, contents)->Ok_0.symbols,
            |a: DiscoveredSymbolView, b: DiscoveredSymbolView| symbol_key_le(a, b),
        ),
        is_sorted(
            discover_spec(files, contents)->Ok_0.files,
            |a: DiscoveredFileView, b: DiscoveredFileView| file_path_le(a, b),
        ),
        discover_spec(files, contents)->Ok_0.symbols.to_multiset() == discover_scan(
            files,
            contents,
        )->Ok_0.0.to_multiset(),
        discover_spec(files, contents)->Ok_0.files.to_multiset() == discover_scan(
            files,
            contents,
        )->Ok_0.1.to_multiset(),
{
    lemma_symbol_key_total_preorder();
    lemma_file_path_total_preorder();
    let (symbols, found) = discover_scan(files, contents)->Ok_0;
    lemma_sorted_by(symbols, |a: DiscoveredSymbolView, b: DiscoveredSymbolView| symbol_key_le(a, b));
    lemma_sorted_by(found, |a: DiscoveredFileView, b: DiscoveredFileView| file_path_le(a, b));
}

/// Whether a language is among those asked for; an empty request asks for
/// all of them.
pub open spec fn language_selected(languages: Seq<SourceLanguage>, language: SourceLanguage) -> bool {
    languages.len() == 0 || languages.contains(language)
}

/// Whether a source file belongs to the languages asked for.
pub open spec fn source_selected(languages: Seq<SourceLanguage>, file: Seq<char>) -> bool {
    match language_of_path(file) {
        Some(language) => language_selected(languages, language),
        None => false,
    }
}

/// Whether the source file `file` belongs to the languages asked for (all
/// of them when `languages` is empty).
pub fn is_selected_source(languages: &Vec<SourceLanguage>, file: &str) -> (r: bool)
    ensures
        r == source_selected(languages@, file@),
{
    let language = match language_for_path(file) {
        Some(l) => l,
        None => {
            return false;
        },
    };
    if languages.len() == 0 {
        return true;
    }
    let mut i: usize = 0;
    while i < languages.len()
        invariant
            i <= languages@.len(),
            language_of_path(file@) == Some(language),
            forall|j: int| 0 <= j < i ==> languages@[j] != language,
        decreases languages.len() - i,
    {
        if languages[i] == language {
            assert(languages@[i as int] == language);
            assert(languages@.contains(language));
            return true;
        }
        i = i + 1;
    }
    false
}

/// The files of the languages asked for, each with what reading it gave.
pub open spec fn select_sources(
    languages: Seq<SourceLanguage>,
    files: Seq<Seq<char>>,
    contents: Seq<Result<Seq<u8>, AuthoringErrorView>>,
) -> (Seq<Seq<char>>, Seq<Result<Seq<u8>, AuthoringErrorView>>)
    decreases files.len(),
{
    if files.len() == 0 {
        (Seq::empty(), Seq::empty())
    } else {
        let n = files.len() - 1;
        let (fs, cs) = select_sources(languages, files.drop_last(), contents.take(n));
        if source_selected(languages, files[n]) {
            (fs.push(files[n]), cs.push(contents[n]))
        } else {
            (fs, cs)
        }
    }
}

/// Discovers the symbols of the project's source files (`files`, with what
/// reading each gave) that belong to the languages asked for, all of them
/// when `languages` is empty.
pub fn discover_project_symbols(
    languages: &Vec<SourceLanguage>,
    files: &Vec<String>,
    contents: &Vec<AuthoringResult<Vec<u8>>>,
) -> (r: AuthoringResult<DiscoverSymbolsOutput>)
    requires
        files@.len() == contents@.len(),
        forall|k: int|
            0 <= k < contents@.len() ==> (#[trigger] contents@[k] matches Ok(b) ==> b@.len()
                < usize::MAX),
    ensures
        ({
            let (fs, cs) = select_sources(languages@, strings_view(files@), contents_view(contents@));
            match discover_spec(fs, cs) {
                Err(e) => r matches Err(x) && x@ == e,
                Ok(out) => r matches Ok(o) && o@ == out,
            }
        }),
{
    let ghost all_fs = strings_view(files@);
    let ghost all_cs = contents_view(contents@);
    let mut chosen: Vec<String> = Vec::new();
    let mut chosen_contents: Vec<AuthoringResult<Vec<u8>>> = Vec::new();
    let mut k: usize = 0;
    assert(all_fs.take(0) =~= Seq::<Seq<char>>::empty());
    assert(strings_view(chosen@) =~= Seq::<Seq<char>>::empty());
    assert(contents_view(chosen_contents@) =~= Seq::<Result<Seq<u8>, AuthoringErrorView>>::empty());
    while k < files.len()
        invariant
            k <= files@.len(),
            files@.len() == contents@.len(),
            all_fs == strings_view(files@),
            all_cs == contents_view(contents@),
            forall|j: int|
                0 <= j < contents@.len() ==> (#[trigger] contents@[j] matches Ok(b) ==> b@.len()
                    < usize::MAX),
            forall|j: int|
                0 <= j < chosen_contents@.len() ==> (#[trigger] chosen_contents@[j] matches Ok(b)
                    ==> b@.len() < usize::MAX),
            chosen@.len() == chosen_contents@.len(),
            select_sources(languages@, all_fs.take(k as int), all_cs.take(k as int)) == (
                strings_view(chosen@),
                contents_view(chosen_contents@),
            ),
        decreases files.len() - k,
    {
        assert(all_fs.take(k + 1).drop_last() =~= all_fs.take(k as int));
        assert(all_cs.take(k + 1).take(k as int) =~= all_cs.take(k as int));
        if is_selected_source(languages, files[k].as_str()) {
            let ghost before_f = strings_view(chosen@);
            let ghost before_c = contents_view(chosen_contents@);
            chosen.push(copy_string(&files[k]));
            let c = match &contents[k] {
                Ok(b) => Ok(b.clone()),
                Err(e) => Err(e.copied()),
            };
            assert(content_view(c) == content_view(contents@[k as int]));
            chosen_contents.push(c);
            assert(strings_view(chosen@) =~= before_f.push(files@[k as int]@));
            assert(contents_view(chosen_contents@) =~= before_c.push(content_view(contents@[k as int])));
        }
        k = k + 1;
    }
    assert(all_fs.take(files@.len() as int) =~= all_fs);
    assert(all_cs.take(files@.len() as int) =~= all_cs);
    discover_symbols(&chosen, &chosen_contents)
}

/// The languages among `files`, each once, in the order TypeScript, Rust,
/// Java.
pub open spec fn languages_present(files: Seq<Seq<char>>) -> Seq<SourceLanguage> {
    seq![SourceLanguage::TypeScript, SourceLanguage::Rust, SourceLanguage::Java].filter(
        |l: SourceLanguage| exists|i: int| 0 <= i < files.len() && language_of_path(files[i]) == Some(l),
    )
}

/// The languages of the project's source files, each once, in the order
/// TypeScript, Rust, Java.
pub fn detect_languages(files: &Vec<String>) -> (r: Vec<SourceLanguage>)
    ensures
        r@ == languages_present(strings_view(files@)),
{
    let ghost fs = strings_view(files@);
    let mut ts = false;
    let mut rs = false;
    let mut java = false;
    let mut i: usize = 0;
    while i < files.len()
        invariant
            i <= files@.len(),
            fs == strings_view(files@),
            ts == exists|j: int| 0 <= j < i && language_of_path(fs[j]) == Some(SourceLanguage::TypeScript),
            rs == exists|j: int| 0 <= j < i && language_of_path(fs[j]) == Some(SourceLanguage::Rust),
            java == exists|j: int| 0 <= j < i && language_of_path(fs[j]) == Some(SourceLanguage::Java),
        decreases files.len() - i,
    {
        let l = language_for_path(files[i].as_str());
        assert(fs[i as int] == files@[i as int]@);
        match l {
            Some(SourceLanguage::TypeScript) => {
                ts = true;
            },
            Some(SourceLanguage::Rust) => {
                rs = true;
            },
            Some(SourceLanguage::Java) => {
                java = true;
            },
            None => {},
        }
        i = i + 1;
    }
    let mut out: Vec<SourceLanguage> = Vec::new();
    if ts {
        out.push(SourceLanguage::TypeScript);
    }
    if rs {
        out.push(SourceLanguage::Rust);
    }
    if java {
        out.push(SourceLanguage::Java);
    }
    proof {
        let all = seq![SourceLanguage::TypeScript, SourceLanguage::Rust, SourceLanguage::Java];
        let pred = |l: SourceLanguage|
            exists|i: int| 0 <= i < fs.len() && language_of_path(fs[i]) == Some(l);
        reveal_with_fuel(Seq::filter, 4);
        assert(all.drop_last().drop_last().drop_last() =~= Seq::<SourceLanguage>::empty());
        assert(all.drop_last().drop_last() =~= seq![SourceLanguage::TypeScript]);
        assert(all.drop_last() =~= seq![SourceLanguage::TypeScript, SourceLanguage::Rust]);
        assert(pred(SourceLanguage::TypeScript) == ts);
        assert(pred(SourceLanguage::Rust) == rs);
        assert(pred(SourceLanguage::Java) == java);
        assert(out@ =~= all.filter(pred));
    }
    out
}

/// The directories, relative to the project root, that hold sources.
pub open spec fn source_directories_spec() -> Seq<Seq<char>> {
    seq!["src"@, "lib"@, "app"@]
}

/// The directories, relative to the project root, that hold sources.
pub fn source_directories() -> (r: Vec<String>)
    ensures
        strings_view(r@) == source_directories_spec(),
{
    let mut r: Vec<String> = Vec::new();
    r.push(owned("src"));
    r.push(owned("lib"));
    r.push(owned("app"));
    assert(strings_view(r@) =~= source_directories_spec());
    r
}

/// Directories a source scan does not enter.
pub open spec fn skipped_directory(name: Seq<char>) -> bool {
    name == ".git"@ || name == ".forall"@ || name == "node_modules"@ || name == "target"@
        || name == "dist"@ || name == "build"@
}

/// Whether a source scan leaves the directory named `name` out.
pub fn is_skipped_directory(name: &str) -> (r: bool)
    ensures
        r == skipped_directory(name@),
{
    use_text_eq(name, ".git") || use_text_eq(name, ".forall") || use_text_eq(name, "node_modules")
        || use_text_eq(name, "target") || use_text_eq(name, "dist") || use_text_eq(name, "build")
}

fn use_text_eq(a: &str, b: &str) -> (r: bool)
    ensures
        r == (a@ == b@),
{
    crate::text::same_text(a, b)
}

/// A project-relative file that discovery reads: one in a supported
/// language that is neither a declaration file nor a test or spec file.
pub open spec fn discoverable_source(relative: Seq<char>) -> bool {
    &&& language_of_path(relative) is Some
    &&& !".d.ts"@.is_suffix_of(relative)
    &&& !contains_text(relative, ".test."@)
    &&& !contains_text(relative, ".spec."@)
}

/// Whether discovery reads the project-relative file `relative`.
pub fn is_discoverable_source(relative: &str) -> (r: bool)
    ensures
        r == discoverable_source(relative@),
{
    language_for_path(relative).is_some() && !ends_with_text(relative, ".d.ts") && !has_text(
        relative,
        ".test.",
    ) && !has_text(relative, ".spec.")
}

/// `s` with each run of equal neighbours kept once.
pub open spec fn dedup_adjacent<T>(s: Seq<T>) -> Seq<T>
    decreases s.len(),
{
    if s.len() <= 1 {
        s
    } else if s.last() == s[s.len() - 2] {
        dedup_adjacent(s.drop_last())
    } else {
        dedup_adjacent(s.drop_last()).push(s.last())
    }
}

/// The paths in `candidates` that discovery reads.
pub open spec fn discoverable_filter(candidates: Seq<Seq<char>>) -> Seq<Seq<char>> {
    candidates.filter(|c: Seq<char>| discoverable_source(c))
}

/// Paths ordered as Rust orders strings.
pub open spec fn path_le(a: Seq<char>, b: Seq<char>) -> bool {
    bytes_le(encode_utf8(a), encode_utf8(b))
}

/// The discoverable sources among the scanned `candidates`, in path order,
/// each once.
pub open spec fn discoverable_sources_spec(candidates: Seq<Seq<char>>) -> Seq<Seq<char>> {
    dedup_adjacent(sorted_by(discoverable_filter(candidates), |a: Seq<char>, b: Seq<char>| path_le(a, b)))
}

fn string_order(a: &String, b: &String) -> (r: bool)
    ensures
        r == path_le(a@, b@),
{
    text_le(a.as_str(), b.as_str())
}

/// The discoverable sources among the files a scan found, in path order,
/// each once.
pub fn discoverable_sources(candidates: &Vec<String>) -> (r: Vec<String>)
    ensures
        strings_view(r@) == discoverable_sources_spec(strings_view(candidates@)),
{
    let ghost cs = strings_view(candidates@);
    let mut kept: Vec<String> = Vec::new();
    let mut i: usize = 0;
    assert(cs.take(0) =~= Seq::<Seq<char>>::empty());
    reveal_with_fuel(Seq::filter, 1);
    assert(strings_view(kept@) =~= discoverable_filter(cs.take(0)));
    while i < candidates.len()
        invariant
            i <= candidates@.len(),
            cs == strings_view(candidates@),
            strings_view(kept@) == discoverable_filter(cs.take(i as int)),
        decreases candidates.len() - i,
    {
        let ghost before = strings_view(kept@);
        assert(cs.take(i + 1).drop_last() =~= cs.take(i as int));
        assert(cs.take(i + 1).last() == candidates@[i as int]@);
        reveal_with_fuel(Seq::filter, 1);
        if is_discoverable_source(candidates[i].as_str()) {
            kept.push(copy_string(&candidates[i]));
            assert(strings_view(kept@) =~= before.push(candidates@[i as int]@));
        }
        i = i + 1;
    }
    assert(cs.take(candidates@.len() as int) =~= cs);
    sorted_unique(kept)
}

/// The strings of `v` in Rust's order, each once.
pub fn sorted_unique(v: Vec<String>) -> (r: Vec<String>)
    ensures
        strings_view(r@) == dedup_adjacent(
            sorted_by(strings_view(v@), |a: Seq<char>, b: Seq<char>| path_le(a, b)),
        ),
{
    let ghost unsorted = v@;
    let sorted = sort_by(v, string_order, Ghost(|a: String, b: String| path_le(a@, b@)));
    proof {
        lemma_sorted_by_map(
            unsorted,
            |s: String| s@,
            |a: String, b: String| path_le(a@, b@),
            |a: Seq<char>, b: Seq<char>| path_le(a, b),
        );
        assert(unsorted.map_values(|s: String| s@) =~= strings_view(unsorted));
    }
    let ghost sv = strings_view(sorted@);
    let mut out: Vec<String> = Vec::new();
    let mut k: usize = 0;
    assert(sv.take(0) =~= Seq::<Seq<char>>::empty());
    assert(strings_view(out@) =~= dedup_adjacent(sv.take(0)));
    while k < sorted.len()
        invariant
            k <= sorted@.len(),
            sv == strings_view(sorted@),
            strings_view(out@) == dedup_adjacent(sv.take(k as int)),
            k > 0 ==> out@.len() > 0 && out@.last()@ == sv[k - 1],
        decreases sorted.len() - k,
    {
        let ghost before = strings_view(out@);
        let ghost t = sv.take(k + 1);
        assert(t.drop_last() =~= sv.take(k as int));
        assert(t.last() == sorted@[k as int]@);
        let n = out.len();
        if k > 0 && use_text_eq(out[n - 1].as_str(), sorted[k].as_str()) {
            assert(t[t.len() - 2] == sv[k - 1]);
        } else {
            if k > 0 {
                assert(t[t.len() - 2] == sv[k - 1]);
            } else {
                assert(t =~= seq![sorted@[0]@]);
            }
            out.push(copy_string(&sorted[k]));
            assert(strings_view(out@) =~= before.push(sorted@[k as int]@));
        }
        k = k + 1;
    }
    assert(sv.take(sorted@.len() as int) =~= sv);
    out
}

} // verus!
