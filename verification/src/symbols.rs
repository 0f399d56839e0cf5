//! Discovery of function symbols in TypeScript, Rust and Java sources.
//! Candidate declarations are found by the `regex` crate with one pattern per
//! language; which symbols they become, their selectors, lines and order, is
//! decided here.
use vstd::prelude::*;
use vstd::string::StringSliceAdditionalSpecFns;

use crate::scan::SourceLanguage;
use crate::sort::{sort_by, sorted_by, lemma_sorted_by, lemma_sorted_by_map, is_sorted, total_preorder};
use crate::text::{concat, copy_string, same_text};

verus! {

broadcast use vstd::string::group_string_axioms;

/// Exported TypeScript function declarations. The parameter group tolerates
/// one level of nesting so `cb: (x: number) => void` stays whole; the generic
/// group lists `=>` first so an arrow inside a bound is consumed whole.
pub const TYPESCRIPT_FUNCTION: &'static str = r"(?m)^[ \t]*export[ \t]+(?:default[ \t]+)?(?:async[ \t]+)?function[ \t]+([A-Za-z_$][\w$]*)(?:<(?:=>|[^<>]|<[^<>]*>)*>)?[ \t]*(\((?:[^()]|\([^()]*\))*\))";

/// Exported TypeScript arrow functions with a block body.
pub const TYPESCRIPT_ARROW: &'static str = r"(?m)^[ \t]*export[ \t]+(?:const|let)[ \t]+([A-Za-z_$][\w$]*)[ \t]*(?::[^=\n]+)?=[ \t]*(?:async[ \t]+)?(\((?:[^()]|\([^()]*\))*\))[ \t]*(?::[^=\n]+)?=>[ \t]*\{";

/// Public Rust functions, `->` consumed whole inside generic bounds; the
/// generic group tolerates bounds nested two levels deep, such as
/// `T: IntoIterator<Item = Vec<u8>>`.
pub const RUST_FUNCTION: &'static str = r"(?m)^[ \t]*pub(?:\([^)]*\))?[ \t]+(?:(?:async|const|unsafe)[ \t]+)*fn[ \t]+([A-Za-z_]\w*)(?:<(?:->|[^<>]|<(?:->|[^<>]|<[^<>]*>)*>)*>)?[ \t]*(\((?:[^()]|\([^()]*\))*\))";

/// Public Java methods with a body.
pub const JAVA_METHOD: &'static str = r"(?m)^[ \t]*public[ \t]+(?:static[ \t]+)?(?:final[ \t]+)?[\w<>\[\], ?]+[ \t]+([A-Za-z_]\w*)[ \t]*(\((?:[^()]|\([^()]*\))*\))[ \t]*(?:throws[^{]+)?\{";

/// One match of a declaration pattern: the byte offset where the whole match
/// starts, the captured name and the captured parameter list.
#[derive(Debug, Clone, PartialEq, Eq)]
pub struct PatternMatch {
    pub start: usize,
    pub name: String,
    pub params: String,
}

impl View for PatternMatch {
    type V = (nat, Seq<char>, Seq<char>);

    open spec fn view(&self) -> (nat, Seq<char>, Seq<char>) {
        (self.start as nat, self.name@, self.params@)
    }
}

/// One match as the `regex` crate reports it: where the whole match starts,
/// and capture groups 1 and 2 when they took part in the match.
#[derive(Debug, Clone, PartialEq, Eq)]
pub struct RawMatch {
    pub start: usize,
    pub name: Option<String>,
    pub params: Option<String>,
}

impl View for RawMatch {
    type V = (nat, Option<Seq<char>>, Option<Seq<char>>);

    open spec fn view(&self) -> (nat, Option<Seq<char>>, Option<Seq<char>>) {
        (self.start as nat, crate::schema::opt_view(self.name), crate::schema::opt_view(self.params))
    }
}

/// The matches, in haystack order, that the `regex` crate reports for
/// `pattern` over `haystack` (where capture 0 starts, and captures 1 and 2);
/// `None` when the pattern does not compile.
pub uninterp spec fn regex_captures(pattern: Seq<char>, haystack: Seq<char>) -> Option<
    Seq<(nat, Option<Seq<char>>, Option<Seq<char>>)>,
>;

/// The views of a list of matches.
pub open spec fn matches_view(v: Seq<PatternMatch>) -> Seq<(nat, Seq<char>, Seq<char>)> {
    v.map_values(|m: PatternMatch| m@)
}

/// The views of a list of reported matches.
pub open spec fn raw_matches_view(v: Seq<RawMatch>) -> Seq<(nat, Option<Seq<char>>, Option<Seq<char>>)> {
    v.map_values(|m: RawMatch| m@)
}

/// The reported matches in which both captures took part, in order.
pub open spec fn complete_matches_spec(v: Seq<(nat, Option<Seq<char>>, Option<Seq<char>>)>) -> Seq<
    (nat, Seq<char>, Seq<char>),
>
    decreases v.len(),
{
    if v.len() == 0 {
        Seq::empty()
    } else {
        let r = complete_matches_spec(v.drop_last());
        match (v.last().1, v.last().2) {
            (Some(name), Some(params)) => r.push((v.last().0, name, params)),
            _ => r,
        }
    }
}

/// Calls `regex::Regex::new` and `Regex::captures_iter`. The contract claims
/// that the matches returned are the named captures of `pattern` over
/// `haystack` and, as `Match::start` documents, that each match starts at a
/// byte offset within the haystack.
#[verifier::external_body]
fn find_pattern_matches(pattern: &str, haystack: &str) -> (r: Option<Vec<RawMatch>>)
    ensures
        match r {
            Some(v) => regex_captures(pattern@, haystack@) == Some(raw_matches_view(v@)),
            None => regex_captures(pattern@, haystack@) is None,
        },
        r matches Some(v) ==> forall|i: int|
            0 <= i < v@.len() ==> #[trigger] v@[i].start <= haystack.spec_bytes().len(),
{
    let re = regex::Regex::new(pattern).ok()?;
    Some(re.captures_iter(haystack).map(|caps| RawMatch {
        start: caps.get_match().start(),
        name: caps.get(1).map(|m| m.as_str().to_string()),
        params: caps.get(2).map(|m| m.as_str().to_string()),
    }).collect())
}

/// The reported matches in which both captures took part, in order.
fn complete_matches(raw: &Vec<RawMatch>, bound: usize) -> (r: Vec<PatternMatch>)
    requires
        forall|i: int| 0 <= i < raw@.len() ==> #[trigger] raw@[i].start <= bound,
    ensures
        matches_view(r@) == complete_matches_spec(raw_matches_view(raw@)),
        forall|i: int| 0 <= i < r@.len() ==> #[trigger] r@[i].start <= bound,
{
    let ghost rv = raw_matches_view(raw@);
    let mut out: Vec<PatternMatch> = Vec::new();
    let mut i: usize = 0;
    assert(rv.take(0) =~= Seq::<(nat, Option<Seq<char>>, Option<Seq<char>>)>::empty());
    assert(matches_view(out@) =~= Seq::<(nat, Seq<char>, Seq<char>)>::empty());
    while i < raw.len()
        invariant
            i <= raw@.len(),
            rv == raw_matches_view(raw@),
            matches_view(out@) == complete_matches_spec(rv.take(i as int)),
            forall|k: int| 0 <= k < raw@.len() ==> #[trigger] raw@[k].start <= bound,
            forall|k: int| 0 <= k < out@.len() ==> #[trigger] out@[k].start <= bound,
        decreases raw.len() - i,
    {
        let ghost t = rv.take(i + 1);
        assert(t.drop_last() =~= rv.take(i as int));
        assert(t.last() == raw@[i as int]@);
        let m = &raw[i];
        match (&m.name, &m.params) {
            (Some(name), Some(params)) => {
                let ghost before = matches_view(out@);
                out.push(PatternMatch { start: m.start, name: copy_string(name), params: copy_string(params) });
                assert(matches_view(out@) =~= before.push((m.start as nat, name@, params@)));
            },
            _ => {},
        }
        i = i + 1;
    }
    assert(rv.take(raw@.len() as int) =~= rv);
    out
}

/// A function found in a source file.
#[derive(Debug, Clone, PartialEq, Eq)]
pub struct DiscoveredSymbol {
    pub file: String,
    pub language: SourceLanguage,
    /// Stable selector accepted by contract scaffolding.
    pub symbol: String,
    pub name: String,
    pub line: usize,
    pub signature: String,
}

/// The mathematical model of a [`DiscoveredSymbol`].
pub struct DiscoveredSymbolView {
    pub file: Seq<char>,
    pub language: SourceLanguage,
    pub symbol: Seq<char>,
    pub name: Seq<char>,
    pub line: nat,
    pub signature: Seq<char>,
}

impl View for DiscoveredSymbol {
    type V = DiscoveredSymbolView;

    open spec fn view(&self) -> DiscoveredSymbolView {
        DiscoveredSymbolView {
            file: self.file@,
            language: self.language,
            symbol: self.symbol@,
            name: self.name@,
            line: self.line as nat,
            signature: self.signature@,
        }
    }
}

impl DiscoveredSymbol {
    /// A field-for-field copy.
    pub fn copied(&self) -> (r: Self)
        ensures
            r@ == self@,
    {
        DiscoveredSymbol {
            file: copy_string(&self.file),
            language: self.language,
            symbol: copy_string(&self.symbol),
            name: copy_string(&self.name),
            line: self.line,
            signature: copy_string(&self.signature),
        }
    }
}

/// The views of a list of symbols.
pub open spec fn symbols_view(v: Seq<DiscoveredSymbol>) -> Seq<DiscoveredSymbolView> {
    v.map_values(|s: DiscoveredSymbol| s@)
}

/// Number of line feeds in `s`.
pub open spec fn newline_count(s: Seq<u8>) -> nat
    decreases s.len(),
{
    if s.len() == 0 {
        0
    } else {
        newline_count(s.drop_last()) + if s.last() == 0x0a { 1nat } else { 0nat }
    }
}

/// The symbol a match declares: its one-based line is one more than the line
/// feeds before the match, its signature is name and parameters, and its
/// selector is the signature for Java (where overloads share a name) and the
/// name otherwise.
pub open spec fn symbol_of_match(
    file: Seq<char>,
    language: SourceLanguage,
    source: Seq<u8>,
    m: (nat, Seq<char>, Seq<char>),
) -> DiscoveredSymbolView {
    DiscoveredSymbolView {
        file,
        language,
        symbol: if language == SourceLanguage::Java { m.1 + m.2 } else { m.1 },
        name: m.1,
        line: newline_count(source.take(m.0 as int)) + 1,
        signature: m.1 + m.2,
    }
}

/// Symbols ordered by line.
pub open spec fn line_le(a: DiscoveredSymbolView, b: DiscoveredSymbolView) -> bool {
    a.line <= b.line
}

/// Exec symbols ordered by line.
pub open spec fn symbol_line_le(a: DiscoveredSymbol, b: DiscoveredSymbol) -> bool {
    a.line <= b.line
}

/// The pattern that finds declarations of a language.
pub open spec fn declaration_pattern(language: SourceLanguage) -> Seq<char> {
    match language {
        SourceLanguage::TypeScript => TYPESCRIPT_FUNCTION@,
        SourceLanguage::Rust => RUST_FUNCTION@,
        SourceLanguage::Java => JAVA_METHOD@,
    }
}

/// The complete matches of a pattern, with a pattern that does not compile
/// matching nothing.
pub open spec fn captures_or_none(pattern: Seq<char>, haystack: Seq<char>) -> Seq<
    (nat, Seq<char>, Seq<char>),
> {
    match regex_captures(pattern, haystack) {
        Some(v) => complete_matches_spec(v),
        None => Seq::empty(),
    }
}

/// The symbols of a source given the declaration matches and, for
/// TypeScript, the block-bodied arrow-function matches, ordered by line with
/// declarations before arrows on the same line.
pub open spec fn symbols_from_matches_spec(
    file: Seq<char>,
    language: SourceLanguage,
    source: Seq<u8>,
    declarations: Seq<(nat, Seq<char>, Seq<char>)>,
    arrows: Seq<(nat, Seq<char>, Seq<char>)>,
) -> Seq<DiscoveredSymbolView> {
    sorted_by(
        unsorted_symbols(file, language, source, declarations, arrows),
        |a: DiscoveredSymbolView, b: DiscoveredSymbolView| line_le(a, b),
    )
}

/// The symbol an arrow-function match declares: selector and name are the
/// bound name.
pub open spec fn symbol_of_arrow(
    file: Seq<char>,
    language: SourceLanguage,
    source: Seq<u8>,
    m: (nat, Seq<char>, Seq<char>),
) -> DiscoveredSymbolView {
    DiscoveredSymbolView {
        file,
        language,
        symbol: m.1,
        name: m.1,
        line: newline_count(source.take(m.0 as int)) + 1,
        signature: m.1 + m.2,
    }
}

/// The symbols of the matches in match order: declarations first, then (for
/// TypeScript only) arrow functions.
pub open spec fn unsorted_symbols(
    file: Seq<char>,
    language: SourceLanguage,
    source: Seq<u8>,
    declarations: Seq<(nat, Seq<char>, Seq<char>)>,
    arrows: Seq<(nat, Seq<char>, Seq<char>)>,
) -> Seq<DiscoveredSymbolView> {
    let found = declarations.map_values(|m| symbol_of_match(file, language, source, m));
    if language == SourceLanguage::TypeScript {
        found + arrows.map_values(|m| symbol_of_arrow(file, language, source, m))
    } else {
        found
    }
}

fn symbol_line_order(a: &DiscoveredSymbol, b: &DiscoveredSymbol) -> (r: bool)
    ensures
        r == symbol_line_le(*a, *b),
{
    a.line <= b.line
}

fn newlines_before(source: &[u8], end: usize) -> (r: usize)
    requires
        end <= source@.len(),
    ensures
        r == newline_count(source@.take(end as int)),
        r <= end,
{
    let mut count: usize = 0;
    let mut i: usize = 0;
    assert(source@.take(0) =~= Seq::<u8>::empty());
    while i < end
        invariant
            i <= end <= source@.len(),
            count == newline_count(source@.take(i as int)),
            count <= i,
        decreases end - i,
    {
        assert(source@.take(i + 1).drop_last() =~= source@.take(i as int));
        if source[i] == 0x0a {
            count = count + 1;
        }
        i = i + 1;
    }
    count
}

/// Builds the symbols of `source` from the pattern matches found in it: the
/// declaration matches and, for TypeScript, the arrow-function matches.
pub fn symbols_from_matches(
    file: &str,
    language: SourceLanguage,
    source: &str,
    declarations: &Vec<PatternMatch>,
    arrows: &Vec<PatternMatch>,
) -> (r: Vec<DiscoveredSymbol>)
    requires
        source.spec_bytes().len() < usize::MAX,
        forall|i: int|
            0 <= i < declarations@.len() ==> #[trigger] declarations@[i].start
                <= source.spec_bytes().len(),
        forall|i: int| 0 <= i < arrows@.len() ==> #[trigger] arrows@[i].start <= source.spec_bytes().len(),
    ensures
        symbols_view(r@) == symbols_from_matches_spec(
            file@,
            language,
            source.spec_bytes(),
            matches_view(declarations@),
            matches_view(arrows@),
        ),
{
    let bytes = source.as_bytes();
    let ghost src = source.spec_bytes();
    let mut found: Vec<DiscoveredSymbol> = Vec::new();
    let mut i: usize = 0;
    while i < declarations.len()
        invariant
            bytes@ == src,
            src.len() < usize::MAX,
            i <= declarations@.len(),
            forall|k: int|
                0 <= k < declarations@.len() ==> #[trigger] declarations@[k].start <= src.len(),
            found@.len() == i,
            forall|k: int|
                0 <= k < i ==> (#[trigger] found@[k])@ == symbol_of_match(
                    file@,
                    language,
                    src,
                    declarations@[k]@,
                ),
        decreases declarations.len() - i,
    {
        let m = &declarations[i];
        let signature = concat(m.name.as_str(), m.params.as_str());
        let selector = if language == SourceLanguage::Java {
            concat(m.name.as_str(), m.params.as_str())
        } else {
            copy_string(&m.name)
        };
        let line = newlines_before(bytes, m.start) + 1;
        found.push(
            DiscoveredSymbol {
                file: file.to_string(),
                language,
                symbol: selector,
                name: copy_string(&m.name),
                line,
                signature,
            },
        );
        i = i + 1;
    }
    let ghost declared = found@;
    if language == SourceLanguage::TypeScript {
        let mut j: usize = 0;
        while j < arrows.len()
            invariant
                bytes@ == src,
                src.len() < usize::MAX,
                language == SourceLanguage::TypeScript,
                j <= arrows@.len(),
                forall|k: int| 0 <= k < arrows@.len() ==> #[trigger] arrows@[k].start <= src.len(),
                found@.len() == declared.len() + j,
                forall|k: int| 0 <= k < declared.len() ==> #[trigger] found@[k] == declared[k],
                forall|k: int|
                    0 <= k < j ==> (#[trigger] found@[declared.len() + k])@ == symbol_of_arrow(
                        file@,
                        language,
                        src,
                        arrows@[k]@,
                    ),
            decreases arrows.len() - j,
        {
            let m = &arrows[j];
            let line = newlines_before(bytes, m.start) + 1;
            found.push(
                DiscoveredSymbol {
                    file: file.to_string(),
                    language,
                    symbol: copy_string(&m.name),
                    name: copy_string(&m.name),
                    line,
                    signature: concat(m.name.as_str(), m.params.as_str()),
                },
            );
            j = j + 1;
        }
    }
    let ghost unsorted = found@;
    proof {
        let expected = unsorted_symbols(
            file@,
            language,
            src,
            matches_view(declarations@),
            matches_view(arrows@),
        );
        let fd = matches_view(declarations@).map_values(
            |m| symbol_of_match(file@, language, src, m),
        );
        let fa = matches_view(arrows@).map_values(|m| symbol_of_arrow(file@, language, src, m));
        assert(declared.len() == declarations@.len());
        if language == SourceLanguage::TypeScript {
            assert(expected == fd + fa);
            assert(unsorted.len() == declared.len() + arrows@.len());
        } else {
            assert(expected == fd);
            assert(unsorted == declared);
        }
        assert forall|k: int| 0 <= k < unsorted.len() implies #[trigger] symbols_view(unsorted)[k]
            == expected[k] by {
            if k < declared.len() {
                assert(unsorted[k] == declared[k]);
                assert(matches_view(declarations@)[k] == declarations@[k]@);
                assert(fd[k] == symbol_of_match(file@, language, src, declarations@[k]@));
            } else {
                let a = k - declared.len();
                assert(unsorted[declared.len() + a]@ == symbol_of_arrow(
                    file@,
                    language,
                    src,
                    arrows@[a]@,
                ));
                assert(matches_view(arrows@)[a] == arrows@[a]@);
                assert(fa[a] == symbol_of_arrow(file@, language, src, arrows@[a]@));
            }
        }
        assert(symbols_view(unsorted) =~= expected);
    }
    let sorted = sort_by(
        found,
        symbol_line_order,
        Ghost(|a: DiscoveredSymbol, b: DiscoveredSymbol| symbol_line_le(a, b)),
    );
    proof {
        lemma_sorted_by_map(
            unsorted,
            |s: DiscoveredSymbol| s@,
            |a: DiscoveredSymbol, b: DiscoveredSymbol| symbol_line_le(a, b),
            |a: DiscoveredSymbolView, b: DiscoveredSymbolView| line_le(a, b),
        );
    }
    sorted
}

/// The symbols that `source` declares, found with the language's patterns
/// and ordered by line.
pub open spec fn parse_symbols_spec(
    file: Seq<char>,
    language: SourceLanguage,
    source: Seq<char>,
) -> Seq<DiscoveredSymbolView> {
    symbols_from_matches_spec(
        file,
        language,
        vstd::utf8::encode_utf8(source),
        captures_or_none(declaration_pattern(language), source),
        if language == SourceLanguage::TypeScript {
            captures_or_none(TYPESCRIPT_ARROW@, source)
        } else {
            Seq::empty()
        },
    )
}

/// The symbols that `source` declares, ordered by line.
pub fn parse_symbols(file: &str, language: SourceLanguage, source: &str) -> (r: Vec<
    DiscoveredSymbol,
>)
    requires
        source.spec_bytes().len() < usize::MAX,
    ensures
        symbols_view(r@) == parse_symbols_spec(file@, language, source@),
{
    let pattern = match language {
        SourceLanguage::TypeScript => TYPESCRIPT_FUNCTION,
        SourceLanguage::Rust => RUST_FUNCTION,
        SourceLanguage::Java => JAVA_METHOD,
    };
    let bound = source.as_bytes().len();
    let declarations = match find_pattern_matches(pattern, source) {
        Some(v) => complete_matches(&v, bound),
        None => Vec::new(),
    };
    let arrows = if language == SourceLanguage::TypeScript {
        match find_pattern_matches(TYPESCRIPT_ARROW, source) {
            Some(v) => complete_matches(&v, bound),
            None => Vec::new(),
        }
    } else {
        Vec::new()
    };
    assert(matches_view(declarations@) == captures_or_none(declaration_pattern(language), source@));
    symbols_from_matches(file, language, source, &declarations, &arrows)
}

/// Symbols parsed from a source are ordered by line.
pub proof fn lemma_parsed_symbols_ordered_by_line(
    file: Seq<char>,
    language: SourceLanguage,
    source: Seq<char>,
)
    ensures
        is_sorted(
            parse_symbols_spec(file, language, source),
            |a: DiscoveredSymbolView, b: DiscoveredSymbolView| line_le(a, b),
        ),
{
    let le = |a: DiscoveredSymbolView, b: DiscoveredSymbolView| line_le(a, b);
    assert(total_preorder(le));
    let arrows = if language == SourceLanguage::TypeScript {
        captures_or_none(TYPESCRIPT_ARROW@, source)
    } else {
        Seq::empty()
    };
    lemma_sorted_by(
        unsorted_symbols(
            file,
            language,
            vstd::utf8::encode_utf8(source),
            captures_or_none(declaration_pattern(language), source),
            arrows,
        ),
        le,
    );
}

} // verus!
