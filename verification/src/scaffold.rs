//! Scaffolding contracts: for each requested target, locate the function the
//! discovery selector names and insert the clauses that are not there yet.
//! Every target is checked before any file is edited.
use vstd::prelude::*;
use vstd::utf8::{decode_utf8, encode_utf8, valid_utf8};

use crate::bytes::{append_bytes, slice_bytes, trim, trim_range};
use crate::contract::{clause_bytes, insertion_bytes, insertion_spec, BraceFailure};
use crate::discovery::{content_view, contents_view, dedup_adjacent, path_le};
use crate::errors::{path_error, AuthoringError, AuthoringErrorCode, AuthoringErrorView, AuthoringResult};
use crate::mutation::{writes_view, MutationOptions, MutationOptionsView};
use crate::order::text_le;
use crate::paths::{language_for_path, language_of_path};
use crate::scan::SourceLanguage;
use crate::schema::{copy_strings, strings_view};
use crate::sort::{
    insert_sorted, is_sorted, lemma_sorted_by, lemma_sorted_by_map, lemma_sorted_by_permutes, sort_by,
    sorted_by, total_preorder,
};
use crate::symbols::{parse_symbols, parse_symbols_spec, symbols_view, DiscoveredSymbol, DiscoveredSymbolView};
use crate::text::{concat, concat3, copy_string, owned, same_text, utf8_text};

verus! {

broadcast use vstd::string::group_string_axioms;

/// The clauses to give one function, named by its discovery selector.
#[derive(Debug, Clone, PartialEq, Eq)]
pub struct ContractTarget {
    pub file: String,
    /// Exact selector returned by discovery, or a name that only one
    /// function of the file has.
    pub symbol: String,
    pub preconditions: Vec<String>,
    pub postconditions: Vec<String>,
}

/// The mathematical model of a [`ContractTarget`].
pub struct ContractTargetView {
    pub file: Seq<char>,
    pub symbol: Seq<char>,
    pub preconditions: Seq<Seq<char>>,
    pub postconditions: Seq<Seq<char>>,
}

impl View for ContractTarget {
    type V = ContractTargetView;

    open spec fn view(&self) -> ContractTargetView {
        ContractTargetView {
            file: self.file@,
            symbol: self.symbol@,
            preconditions: strings_view(self.preconditions@),
            postconditions: strings_view(self.postconditions@),
        }
    }
}

/// A request to scaffold contracts, and how to apply the edits.
#[derive(Debug, Clone, PartialEq, Eq)]
pub struct ScaffoldContractsRequest {
    pub contracts: Vec<ContractTarget>,
    pub mutation: MutationOptions,
}

/// The views of a list of targets.
pub open spec fn targets_view(v: Seq<ContractTarget>) -> Seq<ContractTargetView> {
    v.map_values(|t: ContractTarget| t@)
}

/// The bytes of each clause.
pub open spec fn clauses_bytes(v: Seq<Seq<char>>) -> Seq<Seq<u8>> {
    v.map_values(|c: Seq<char>| encode_utf8(c))
}

/// The message that explains why the body of a function was not found.
pub open spec fn brace_message(symbol: Seq<char>, failure: BraceFailure) -> Seq<char> {
    "symbol '"@ + symbol + "' "@ + failure.detail()
}

/// Where to insert which bytes into `source` so that `symbol` carries the
/// clauses of `target`; `None` when they are all there already.
pub open spec fn contract_insertion_spec(
    source: Seq<u8>,
    language: SourceLanguage,
    symbol: DiscoveredSymbolView,
    target: ContractTargetView,
) -> Result<Option<(int, Seq<u8>)>, AuthoringErrorView> {
    match insertion_spec(
        source,
        language,
        symbol.line as int,
        encode_utf8(symbol.name),
        clauses_bytes(target.preconditions),
        clauses_bytes(target.postconditions),
    ) {
        Ok(x) => Ok(x),
        Err(f) => Err(
            AuthoringErrorView {
                code: AuthoringErrorCode::Malformed,
                message: brace_message(target.symbol, f),
                path: Some(target.file),
            },
        ),
    }
}

/// Scaffolding a Java method's contract a second time adds nothing: in the
/// text the first insertion produced, the method stands as many lines
/// further down as were inserted, and asking for the same clauses there
/// yields no insertion. The inserted lines end with CRLF exactly when the
/// file uses CRLF. The method's line must exist, every clause must fit on
/// one line, and either no blank line separates the annotations already
/// above the method from it, or none of the requested clauses is among
/// them (otherwise the second scaffolding does not see those annotations).
pub proof fn lemma_java_contracts_scaffolded_twice(
    source: Seq<u8>,
    symbol: DiscoveredSymbolView,
    target: ContractTargetView,
)
    requires
        symbol.line >= 1,
        symbol.line == 1 || crate::contract::nth_newline(source, 0, (symbol.line - 2) as nat) is Some,
        forall|k: int|
            0 <= k < target.preconditions.len() ==> crate::reinsertion::single_line(
                #[trigger] clauses_bytes(target.preconditions)[k],
            ),
        forall|k: int|
            0 <= k < target.postconditions.len() ==> crate::reinsertion::single_line(
                #[trigger] clauses_bytes(target.postconditions)[k],
            ),
        contract_insertion_spec(source, SourceLanguage::Java, symbol, target) matches Ok(Some(_)),
        crate::reinsertion::no_gap_above(source, symbol.line as int) || (
        crate::reinsertion::none_present(
            clauses_bytes(target.preconditions),
            crate::reinsertion::java_prefix(source, symbol.line as int),
            crate::contract::requires_keyword(),
            crate::reinsertion::annotations_above(source, symbol.line as int),
        ) && crate::reinsertion::none_present(
            clauses_bytes(target.postconditions),
            crate::reinsertion::java_prefix(source, symbol.line as int),
            crate::contract::ensures_keyword(),
            crate::reinsertion::annotations_above(source, symbol.line as int),
        )),
    ensures
        ({
            let (o, txt) = contract_insertion_spec(source, SourceLanguage::Java, symbol, target)->Ok_0->Some_0;
            let moved = DiscoveredSymbolView {
                line: symbol.line + crate::symbols::newline_count(txt),
                ..symbol
            };
            &&& crate::bytes::has_crlf(txt) == crate::bytes::has_crlf(source)
            &&& contract_insertion_spec(
                crate::reinsertion::inserted(source, o, txt),
                SourceLanguage::Java,
                moved,
                target,
            ) == Ok::<Option<(int, Seq<u8>)>, AuthoringErrorView>(None)
        }),
{
    let reqs = clauses_bytes(target.preconditions);
    let ens = clauses_bytes(target.postconditions);
    assert forall|k: int| 0 <= k < reqs.len() implies crate::reinsertion::single_line(#[trigger] reqs[k]) by {
        assert(crate::reinsertion::single_line(clauses_bytes(target.preconditions)[k]));
    }
    assert forall|k: int| 0 <= k < ens.len() implies crate::reinsertion::single_line(#[trigger] ens[k]) by {
        assert(crate::reinsertion::single_line(clauses_bytes(target.postconditions)[k]));
    }
    crate::reinsertion::lemma_java_scaffolding_twice_adds_nothing(
        source,
        symbol.line as int,
        encode_utf8(symbol.name),
        reqs,
        ens,
    );
}

/// Scaffolding a TypeScript function's contract a second time adds
/// nothing: in the text the first insertion produced, the function stands on
/// the same line, and asking for the same clauses there yields no
/// insertion. The inserted lines end with CRLF exactly when the file uses
/// CRLF. The function's line must exist and its name occur from there on,
/// every clause must fit on one line, nothing but whitespace may follow the
/// brace that opens the body on its line, and either no blank line separates
/// that line from the annotations already at the top of the body, or none of
/// the requested clauses is among them (otherwise the second scaffolding
/// does not see those annotations).
pub proof fn lemma_typescript_contracts_scaffolded_twice(
    source: Seq<u8>,
    symbol: DiscoveredSymbolView,
    target: ContractTargetView,
)
    requires
        symbol.line >= 1,
        symbol.line == 1 || crate::contract::nth_newline(source, 0, (symbol.line - 2) as nat) is Some,
        forall|k: int|
            0 <= k < target.preconditions.len() ==> crate::reinsertion::single_line(
                #[trigger] clauses_bytes(target.preconditions)[k],
            ),
        forall|k: int|
            0 <= k < target.postconditions.len() ==> crate::reinsertion::single_line(
                #[trigger] clauses_bytes(target.postconditions)[k],
            ),
        contract_insertion_spec(source, SourceLanguage::TypeScript, symbol, target) matches Ok(Some(_)),
        crate::bytes::find(
            crate::reinsertion::body_tail(source, symbol.line as int),
            encode_utf8(symbol.name),
        ) is Some,
        crate::rescan::blank_to_eol(
            crate::reinsertion::body_tail(source, symbol.line as int),
            crate::reinsertion::body_brace(source, symbol.line as int, encode_utf8(symbol.name)) + 1,
        ),
        crate::reinsertion::no_gap_after_first_line(
            crate::reinsertion::after_brace(source, symbol.line as int, encode_utf8(symbol.name)),
        ) || (crate::reinsertion::none_present(
            clauses_bytes(target.preconditions),
            crate::reinsertion::body_prefix(source, symbol.line as int),
            crate::contract::requires_keyword(),
            crate::reinsertion::annotations_below(source, symbol.line as int, encode_utf8(symbol.name)),
        ) && crate::reinsertion::none_present(
            clauses_bytes(target.postconditions),
            crate::reinsertion::body_prefix(source, symbol.line as int),
            crate::contract::ensures_keyword(),
            crate::reinsertion::annotations_below(source, symbol.line as int, encode_utf8(symbol.name)),
        )),
    ensures
        ({
            let (o, txt) = contract_insertion_spec(source, SourceLanguage::TypeScript, symbol, target)->Ok_0->Some_0;
            &&& crate::bytes::has_crlf(txt) == crate::bytes::has_crlf(source)
            &&& contract_insertion_spec(
                crate::reinsertion::inserted(source, o, txt),
                SourceLanguage::TypeScript,
                symbol,
                target,
            ) == Ok::<Option<(int, Seq<u8>)>, AuthoringErrorView>(None)
        }),
{
    let reqs = clauses_bytes(target.preconditions);
    let ens = clauses_bytes(target.postconditions);
    assert forall|k: int| 0 <= k < reqs.len() implies crate::reinsertion::single_line(#[trigger] reqs[k]) by {
        assert(crate::reinsertion::single_line(clauses_bytes(target.preconditions)[k]));
    }
    assert forall|k: int| 0 <= k < ens.len() implies crate::reinsertion::single_line(#[trigger] ens[k]) by {
        assert(crate::reinsertion::single_line(clauses_bytes(target.postconditions)[k]));
    }
    crate::reinsertion::lemma_typescript_scaffolding_twice_adds_nothing(
        source,
        symbol.line as int,
        encode_utf8(symbol.name),
        reqs,
        ens,
    );
}

/// Scaffolding a Rust function's contract a second time adds nothing: in
/// the text the first insertion produced, the function stands on the same
/// line, and asking for the same clauses there yields no insertion. The
/// inserted lines end with CRLF exactly when the file uses CRLF. The
/// function's line must exist and its name occur from there on, and every
/// clause must be plain: on one line and, outside a line comment, without a
/// brace, a semicolon or a quote and without a block comment opening (such
/// a clause would change where the body is found).
pub proof fn lemma_rust_contracts_scaffolded_twice(
    source: Seq<u8>,
    symbol: DiscoveredSymbolView,
    target: ContractTargetView,
)
    requires
        symbol.line >= 1,
        symbol.line == 1 || crate::contract::nth_newline(source, 0, (symbol.line - 2) as nat) is Some,
        forall|k: int|
            0 <= k < target.preconditions.len() ==> crate::reinsertion::plain_clause(
                #[trigger] clauses_bytes(target.preconditions)[k],
            ),
        forall|k: int|
            0 <= k < target.postconditions.len() ==> crate::reinsertion::plain_clause(
                #[trigger] clauses_bytes(target.postconditions)[k],
            ),
        contract_insertion_spec(source, SourceLanguage::Rust, symbol, target) matches Ok(Some(_)),
        crate::bytes::find(
            crate::reinsertion::body_tail(source, symbol.line as int),
            encode_utf8(symbol.name),
        ) is Some,
    ensures
        ({
            let (o, txt) = contract_insertion_spec(source, SourceLanguage::Rust, symbol, target)->Ok_0->Some_0;
            &&& crate::bytes::has_crlf(txt) == crate::bytes::has_crlf(source)
            &&& contract_insertion_spec(
                crate::reinsertion::inserted(source, o, txt),
                SourceLanguage::Rust,
                symbol,
                target,
            ) == Ok::<Option<(int, Seq<u8>)>, AuthoringErrorView>(None)
        }),
{
    let reqs = clauses_bytes(target.preconditions);
    let ens = clauses_bytes(target.postconditions);
    assert forall|k: int| 0 <= k < reqs.len() implies crate::reinsertion::plain_clause(#[trigger] reqs[k]) by {
        assert(crate::reinsertion::plain_clause(clauses_bytes(target.preconditions)[k]));
    }
    assert forall|k: int| 0 <= k < ens.len() implies crate::reinsertion::plain_clause(#[trigger] ens[k]) by {
        assert(crate::reinsertion::plain_clause(clauses_bytes(target.postconditions)[k]));
    }
    crate::reinsertion::lemma_rust_scaffolding_twice_adds_nothing(
        source,
        symbol.line as int,
        encode_utf8(symbol.name),
        reqs,
        ens,
    );
}

/// Where to insert which bytes into `source` so that `symbol` carries the
/// clauses of `target`: TypeScript gets `//@` comments at the top of the
/// body, Java `//@` comments above the method, Rust `requires`/`ensures`
/// clauses before the body. `None` when every clause is already there.
pub fn contract_insertion(
    source: &[u8],
    language: SourceLanguage,
    symbol: &DiscoveredSymbol,
    target: &ContractTarget,
) -> (r: AuthoringResult<Option<(usize, Vec<u8>)>>)
    requires
        source@.len() < usize::MAX,
    ensures
        match contract_insertion_spec(source@, language, symbol@, target@) {
            Ok(None) => r matches Ok(None),
            Ok(Some((offset, text))) => r matches Ok(Some((o, t))) && o == offset && t@ == text,
            Err(e) => r matches Err(x) && x@ == e,
        },
        r matches Ok(Some((o, t))) ==> o <= source@.len(),
{
    assert(clause_bytes(target.preconditions@) =~= clauses_bytes(target@.preconditions));
    assert(clause_bytes(target.postconditions@) =~= clauses_bytes(target@.postconditions));
    match insertion_bytes(
        source,
        language,
        symbol.line,
        symbol.name.as_str().as_bytes(),
        &target.preconditions,
        &target.postconditions,
    ) {
        Ok(x) => Ok(x),
        Err(f) => {
            let message = concat3("symbol '", target.symbol.as_str(), "' ");
            let message = concat(message.as_str(), f.detail_str());
            Err(path_error(AuthoringErrorCode::Malformed, copy_string(&target.file), message))
        },
    }
}

/// `text` inserted into `b` at `offset`.
pub open spec fn insert_at(b: Seq<u8>, offset: int, text: Seq<u8>) -> Seq<u8> {
    b.take(offset) + text + b.skip(offset)
}

/// The insertions applied one after another, in order.
pub open spec fn apply_insertions(b: Seq<u8>, ins: Seq<(int, Seq<u8>)>) -> Seq<u8>
    decreases ins.len(),
{
    if ins.len() == 0 {
        b
    } else {
        insert_at(apply_insertions(b, ins.drop_last()), ins.last().0, ins.last().1)
    }
}

/// Insertions ordered from the end of the file backwards.
pub open spec fn later_first(a: (int, Seq<u8>), b: (int, Seq<u8>)) -> bool {
    a.0 >= b.0
}

/// The views of a list of insertions.
pub open spec fn insertions_view(v: Seq<(usize, Vec<u8>)>) -> Seq<(int, Seq<u8>)> {
    v.map_values(|x: (usize, Vec<u8>)| (x.0 as int, x.1@))
}

fn insert_bytes(b: &Vec<u8>, offset: usize, text: &Vec<u8>) -> (r: Vec<u8>)
    requires
        offset <= b@.len(),
    ensures
        r@ == insert_at(b@, offset as int, text@),
{
    let mut out = slice_bytes(b.as_slice(), 0, offset);
    append_bytes(&mut out, text.as_slice());
    let rest = slice_bytes(b.as_slice(), offset, b.len());
    append_bytes(&mut out, rest.as_slice());
    assert(b@.subrange(0, offset as int) =~= b@.take(offset as int));
    assert(b@.subrange(offset as int, b@.len() as int) =~= b@.skip(offset as int));
    out
}

fn insertion_order(a: &(usize, Vec<u8>), b: &(usize, Vec<u8>)) -> (r: bool)
    ensures
        r == (a.0 >= b.0),
{
    a.0 >= b.0
}

proof fn lemma_apply_len(b: Seq<u8>, ins: Seq<(int, Seq<u8>)>)
    requires
        forall|k: int| 0 <= k < ins.len() ==> 0 <= #[trigger] ins[k].0 <= b.len(),
    ensures
        apply_insertions(b, ins).len() >= b.len(),
    decreases ins.len(),
{
    if ins.len() > 0 {
        lemma_apply_len(b, ins.drop_last());
    }
}

/// `b` with the insertions applied from the end of the file backwards, so
/// that each offset still points where it was found.
pub open spec fn edit_with(b: Seq<u8>, ins: Seq<(int, Seq<u8>)>) -> Seq<u8> {
    apply_insertions(
        b,
        sorted_by(ins, |x: (int, Seq<u8>), y: (int, Seq<u8>)| later_first(x, y)),
    )
}

proof fn lemma_apply_prefix(p: Seq<u8>, q: Seq<u8>, ins: Seq<(int, Seq<u8>)>)
    requires
        forall|k: int| 0 <= k < ins.len() ==> 0 <= #[trigger] ins[k].0 <= p.len(),
    ensures
        apply_insertions(p + q, ins) == apply_insertions(p, ins) + q,
    decreases ins.len(),
{
    if ins.len() > 0 {
        let d = ins.drop_last();
        assert forall|k: int| 0 <= k < d.len() implies 0 <= #[trigger] d[k].0 <= p.len() by {
            assert(d[k] == ins[k]);
        }
        lemma_apply_prefix(p, q, d);
        lemma_apply_len(p, d);
        let a = apply_insertions(p, d);
        let x = ins.last();
        assert(0 <= ins[ins.len() - 1].0 <= p.len());
        assert(insert_at(a + q, x.0, x.1) =~= insert_at(a, x.0, x.1) + q);
    }
}

proof fn lemma_apply_first(b: Seq<u8>, x: (int, Seq<u8>), s: Seq<(int, Seq<u8>)>)
    ensures
        apply_insertions(b, seq![x] + s) == apply_insertions(insert_at(b, x.0, x.1), s),
    decreases s.len(),
{
    if s.len() == 0 {
        assert(seq![x] + s =~= seq![x]);
        assert(seq![x].drop_last() =~= Seq::<(int, Seq<u8>)>::empty());
        assert(apply_insertions(b, Seq::<(int, Seq<u8>)>::empty()) == b);
        assert(seq![x].last() == x);
        assert(apply_insertions(b, seq![x]) == insert_at(b, x.0, x.1));
        assert(apply_insertions(insert_at(b, x.0, x.1), s) == insert_at(b, x.0, x.1));
    } else {
        lemma_apply_first(b, x, s.drop_last());
        let whole = seq![x] + s;
        assert(whole.drop_last() =~= seq![x] + s.drop_last());
        assert(whole.last() == s.last());
        assert(apply_insertions(b, whole) == insert_at(
            apply_insertions(b, seq![x] + s.drop_last()),
            s.last().0,
            s.last().1,
        ));
    }
}

proof fn lemma_insert_sorted_front(a: Seq<(int, Seq<u8>)>, x: (int, Seq<u8>), y: (int, Seq<u8>))
    requires
        x.0 >= y.0,
    ensures
        insert_sorted(seq![x] + a, y, |u: (int, Seq<u8>), v: (int, Seq<u8>)| later_first(u, v)) == seq![x]
            + insert_sorted(a, y, |u: (int, Seq<u8>), v: (int, Seq<u8>)| later_first(u, v)),
    decreases a.len(),
{
    let lf = |u: (int, Seq<u8>), v: (int, Seq<u8>)| later_first(u, v);
    if a.len() == 0 {
        assert(seq![x] + a =~= seq![x]);
        assert(seq![x].push(y) =~= seq![x] + seq![y]);
    } else {
        assert((seq![x] + a).last() == a.last());
        assert((seq![x] + a).drop_last() =~= seq![x] + a.drop_last());
        if lf(a.last(), y) {
            assert((seq![x] + a).push(y) =~= seq![x] + a.push(y));
        } else {
            lemma_insert_sorted_front(a.drop_last(), x, y);
            assert((seq![x] + insert_sorted(a.drop_last(), y, lf)).push(a.last()) =~= seq![x]
                + insert_sorted(a.drop_last(), y, lf).push(a.last()));
        }
    }
}

proof fn lemma_sorted_front(s: Seq<(int, Seq<u8>)>, x: (int, Seq<u8>))
    requires
        forall|k: int| 0 <= k < s.len() ==> #[trigger] s[k].0 < x.0,
    ensures
        sorted_by(seq![x] + s, |u: (int, Seq<u8>), v: (int, Seq<u8>)| later_first(u, v)) == seq![x]
            + sorted_by(s, |u: (int, Seq<u8>), v: (int, Seq<u8>)| later_first(u, v)),
    decreases s.len(),
{
    let lf = |u: (int, Seq<u8>), v: (int, Seq<u8>)| later_first(u, v);
    if s.len() == 0 {
        assert(seq![x] + s =~= seq![x]);
        assert(seq![x].drop_last() =~= Seq::<(int, Seq<u8>)>::empty());
        assert(insert_sorted(Seq::<(int, Seq<u8>)>::empty(), x, lf) == seq![x]);
        assert(sorted_by(Seq::<(int, Seq<u8>)>::empty(), lf) == Seq::<(int, Seq<u8>)>::empty());
        assert(seq![x].last() == x);
        assert(sorted_by(seq![x], lf) == insert_sorted(
            sorted_by(Seq::<(int, Seq<u8>)>::empty(), lf),
            x,
            lf,
        ));
        assert(sorted_by(s, lf) =~= s);
        assert(seq![x] + sorted_by(s, lf) =~= seq![x]);
    } else {
        let d = s.drop_last();
        assert forall|k: int| 0 <= k < d.len() implies #[trigger] d[k].0 < x.0 by {
            assert(d[k] == s[k]);
        }
        lemma_sorted_front(d, x);
        let whole = seq![x] + s;
        assert(whole.drop_last() =~= seq![x] + d);
        assert(whole.last() == s.last());
        assert(s[s.len() - 1].0 < x.0);
        lemma_insert_sorted_front(sorted_by(d, lf), x, s.last());
        assert(sorted_by(whole, lf) == insert_sorted(sorted_by(seq![x] + d, lf), s.last(), lf));
        assert(sorted_by(s, lf) == insert_sorted(sorted_by(d, lf), s.last(), lf));
    }
}

proof fn lemma_insert_sorted_max(s: Seq<(int, Seq<u8>)>, x: (int, Seq<u8>))
    requires
        forall|k: int| 0 <= k < s.len() ==> #[trigger] s[k].0 < x.0,
    ensures
        insert_sorted(s, x, |u: (int, Seq<u8>), v: (int, Seq<u8>)| later_first(u, v)) == seq![x] + s,
    decreases s.len(),
{
    let lf = |u: (int, Seq<u8>), v: (int, Seq<u8>)| later_first(u, v);
    if s.len() == 0 {
        assert(seq![x] + s =~= seq![x]);
    } else {
        let d = s.drop_last();
        assert forall|k: int| 0 <= k < d.len() implies #[trigger] d[k].0 < x.0 by {
            assert(d[k] == s[k]);
        }
        assert(s[s.len() - 1].0 < x.0);
        lemma_insert_sorted_max(d, x);
        assert((seq![x] + d).push(s.last()) =~= seq![x] + s);
    }
}

/// An insertion whose offset lies past the offsets of all the others lands
/// right after the part of the source before that offset, with the others
/// applied within that part, wherever it stands in the list: the edit never
/// moves an insertion away from the source position it was computed for.
pub proof fn lemma_edit_places_each_insertion_at_its_offset(
    b: Seq<u8>,
    ins: Seq<(int, Seq<u8>)>,
    o: int,
    t: Seq<u8>,
)
    requires
        0 <= o <= b.len(),
        forall|k: int| 0 <= k < ins.len() ==> 0 <= #[trigger] ins[k].0 < o,
    ensures
        edit_with(b, ins.push((o, t))) == edit_with(b.take(o), ins) + t + b.skip(o),
        edit_with(b, seq![(o, t)] + ins) == edit_with(b.take(o), ins) + t + b.skip(o),
{
    broadcast use vstd::seq_lib::group_to_multiset_ensures;

    let lf = |u: (int, Seq<u8>), v: (int, Seq<u8>)| later_first(u, v);
    let x = (o, t);
    let srt = sorted_by(ins, lf);
    lemma_sorted_by_permutes(ins, lf);
    assert forall|k: int| 0 <= k < srt.len() implies 0 <= #[trigger] srt[k].0 < o by {
        assert(srt.to_multiset().count(srt[k]) > 0);
        assert(ins.to_multiset().count(srt[k]) > 0);
        assert(ins.contains(srt[k]));
        let j = choose|j: int| 0 <= j < ins.len() && ins[j] == srt[k];
    }
    assert(ins.push(x).drop_last() =~= ins);
    assert(ins.push(x).last() == x);
    lemma_insert_sorted_max(srt, x);
    assert(sorted_by(ins.push(x), lf) == seq![x] + srt);
    lemma_sorted_front(ins, x);
    lemma_apply_first(b, x, srt);
    let p = b.take(o);
    assert(insert_at(b, o, t) =~= p + (t + b.skip(o)));
    assert forall|k: int| 0 <= k < srt.len() implies 0 <= #[trigger] srt[k].0 <= p.len() by {
        assert(0 <= srt[k].0 < o);
    }
    lemma_apply_prefix(p, t + b.skip(o), srt);
    assert(apply_insertions(p, srt) + (t + b.skip(o)) =~= apply_insertions(p, srt) + t + b.skip(o));
}

/// Applies the insertions to `b`, later offsets first.
fn apply_edits(b: &Vec<u8>, ins: Vec<(usize, Vec<u8>)>) -> (r: Vec<u8>)
    requires
        forall|k: int| 0 <= k < ins@.len() ==> #[trigger] ins@[k].0 <= b@.len(),
    ensures
        r@ == edit_with(b@, insertions_view(ins@)),
{
    let ghost orig = ins@;
    let sorted = sort_by(
        ins,
        insertion_order,
        Ghost(|x: (usize, Vec<u8>), y: (usize, Vec<u8>)| x.0 >= y.0),
    );
    proof {
        broadcast use vstd::seq_lib::group_to_multiset_ensures;

        lemma_sorted_by_map(
            orig,
            |x: (usize, Vec<u8>)| (x.0 as int, x.1@),
            |x: (usize, Vec<u8>), y: (usize, Vec<u8>)| x.0 >= y.0,
            |x: (int, Seq<u8>), y: (int, Seq<u8>)| later_first(x, y),
        );
        let le = |x: (usize, Vec<u8>), y: (usize, Vec<u8>)| x.0 >= y.0;
        assert(total_preorder(le));
        lemma_sorted_by(orig, le);
        assert forall|k: int| 0 <= k < sorted@.len() implies #[trigger] sorted@[k].0 <= b@.len() by {
            assert(sorted@.to_multiset().count(sorted@[k]) > 0);
            assert(orig.to_multiset().count(sorted@[k]) > 0);
            assert(orig.contains(sorted@[k]));
        }
    }
    let ghost sv = insertions_view(sorted@);
    let mut out = b.clone();
    let mut i: usize = 0;
    assert(out@ == b@);
    assert(sv.take(0) =~= Seq::<(int, Seq<u8>)>::empty());
    while i < sorted.len()
        invariant
            i <= sorted@.len(),
            sv == insertions_view(sorted@),
            forall|k: int| 0 <= k < sorted@.len() ==> #[trigger] sorted@[k].0 <= b@.len(),
            out@ == apply_insertions(b@, sv.take(i as int)),
        decreases sorted.len() - i,
    {
        proof {
            assert forall|k: int| 0 <= k < sv.take(i as int).len() implies 0 <= #[trigger] sv.take(
                i as int,
            )[k].0 <= b@.len() by {
                assert(sv.take(i as int)[k] == sv[k]);
                assert(sorted@[k].0 <= b@.len());
            }
            lemma_apply_len(b@, sv.take(i as int));
            assert(sv.take(i + 1).drop_last() =~= sv.take(i as int));
            assert(sv.take(i + 1).last() == (sorted@[i as int].0 as int, sorted@[i as int].1@));
        }
        out = insert_bytes(&out, sorted[i].0, &sorted[i].1);
        i = i + 1;
    }
    assert(sv.take(sorted@.len() as int) =~= sv);
    out
}

/// A clause that can be written: not blank, and on one line.
pub open spec fn clause_acceptable(c: Seq<char>) -> bool {
    trim(encode_utf8(c)).len() > 0 && !c.contains('\r') && !c.contains('\n')
}

/// All clauses of a target, preconditions first.
pub open spec fn all_clauses(t: ContractTargetView) -> Seq<Seq<char>> {
    t.preconditions + t.postconditions
}

/// What is wrong with the target at index `i`, given the targets before it:
/// a repeated file and selector, or a clause that cannot be written.
pub open spec fn target_problem(contracts: Seq<ContractTargetView>, i: int) -> Option<
    AuthoringErrorView,
> {
    let t = contracts[i];
    if exists|j: int|
        0 <= j < i && #[trigger] contracts[j].file == t.file && contracts[j].symbol == t.symbol {
        Some(
            AuthoringErrorView {
                code: AuthoringErrorCode::Conflict,
                message: "duplicate contract target '"@ + t.symbol + "'"@,
                path: Some(t.file),
            },
        )
    } else if exists|k: int|
        0 <= k < all_clauses(t).len() && !clause_acceptable(#[trigger] all_clauses(t)[k]) {
        Some(
            AuthoringErrorView {
                code: AuthoringErrorCode::Malformed,
                message: "contract clauses must be non-empty single lines"@,
                path: Some(t.file),
            },
        )
    } else {
        None
    }
}

/// The first problem among the targets, in request order.
pub open spec fn request_problem(contracts: Seq<ContractTargetView>) -> Option<AuthoringErrorView>
    decreases contracts.len(),
{
    if contracts.len() == 0 {
        None
    } else {
        match request_problem(contracts.drop_last()) {
            Some(e) => Some(e),
            None => target_problem(contracts, contracts.len() - 1),
        }
    }
}

/// The files the targets name, in path order, each once.
pub open spec fn contract_files_spec(contracts: Seq<ContractTargetView>) -> Seq<Seq<char>> {
    dedup_adjacent(
        sorted_by(
            contracts.map_values(|t: ContractTargetView| t.file),
            |a: Seq<char>, b: Seq<char>| path_le(a, b),
        ),
    )
}

/// The targets in `file`, in request order.
pub open spec fn targets_in(contracts: Seq<ContractTargetView>, file: Seq<char>) -> Seq<
    ContractTargetView,
> {
    contracts.filter(|t: ContractTargetView| t.file == file)
}

/// The symbols a selector picks: those whose selector or name it is.
pub open spec fn matching_symbols(symbols: Seq<DiscoveredSymbolView>, selector: Seq<char>) -> Seq<
    DiscoveredSymbolView,
> {
    symbols.filter(|s: DiscoveredSymbolView| s.symbol == selector || s.name == selector)
}

proof fn lemma_filter_single<A>(s: Seq<A>, pred: spec_fn(A) -> bool, k: int)
    requires
        0 <= k < s.len(),
        pred(s[k]),
        forall|j: int| 0 <= j < s.len() && j != k ==> !pred(#[trigger] s[j]),
    ensures
        s.filter(pred) == seq![s[k]],
    decreases s.len(),
{
    reveal(Seq::filter);
    let d = s.drop_last();
    if k == s.len() - 1 {
        assert forall|j: int| 0 <= j < d.len() implies !pred(#[trigger] d[j]) by {
            assert(d[j] == s[j]);
        }
        lemma_filter_none(d, pred);
        assert(d.filter(pred).push(s.last()) =~= seq![s[k]]);
    } else {
        assert forall|j: int| 0 <= j < d.len() && j != k implies !pred(#[trigger] d[j]) by {
            assert(d[j] == s[j]);
        }
        assert(d[k] == s[k]);
        lemma_filter_single(d, pred, k);
        assert(!pred(s[s.len() - 1]));
    }
}

proof fn lemma_filter_none<A>(s: Seq<A>, pred: spec_fn(A) -> bool)
    requires
        forall|j: int| 0 <= j < s.len() ==> !pred(#[trigger] s[j]),
    ensures
        s.filter(pred) == Seq::<A>::empty(),
    decreases s.len(),
{
    reveal(Seq::filter);
    if s.len() > 0 {
        let d = s.drop_last();
        assert forall|j: int| 0 <= j < d.len() implies !pred(#[trigger] d[j]) by {
            assert(d[j] == s[j]);
        }
        lemma_filter_none(d, pred);
        assert(!pred(s[s.len() - 1]));
    }
}

/// A discovered selector that no other symbol of the file answers to picks
/// exactly its own symbol.
pub proof fn lemma_unique_selector_picks_its_symbol(symbols: Seq<DiscoveredSymbolView>, k: int)
    requires
        0 <= k < symbols.len(),
        forall|j: int|
            0 <= j < symbols.len() && j != k ==> (#[trigger] symbols[j]).symbol != symbols[k].symbol
                && symbols[j].name != symbols[k].symbol,
    ensures
        matching_symbols(symbols, symbols[k].symbol) == seq![symbols[k]],
{
    let sel = symbols[k].symbol;
    let pred = |s: DiscoveredSymbolView| s.symbol == sel || s.name == sel;
    assert forall|j: int| 0 <= j < symbols.len() && j != k implies !pred(#[trigger] symbols[j]) by {}
    lemma_filter_single(symbols, pred, k);
}

/// The insertions the targets of one file need, in target order, or the
/// first failure: a selector that picks no symbol or several, or a body that
/// cannot be located.
pub open spec fn file_insertions(
    source: Seq<u8>,
    language: SourceLanguage,
    file: Seq<char>,
    symbols: Seq<DiscoveredSymbolView>,
    targets: Seq<ContractTargetView>,
) -> Result<Seq<(int, Seq<u8>)>, AuthoringErrorView>
    decreases targets.len(),
{
    if targets.len() == 0 {
        Ok(Seq::empty())
    } else {
        match file_insertions(source, language, file, symbols, targets.drop_last()) {
            Err(e) => Err(e),
            Ok(ins) => match target_step(source, language, file, symbols, targets.last()) {
                Err(e) => Err(e),
                Ok(None) => Ok(ins),
                Ok(Some(x)) => Ok(ins.push(x)),
            },
        }
    }
}

/// The insertion one target needs: its selector must pick exactly one
/// symbol, whose body must be found.
pub open spec fn target_step(
    source: Seq<u8>,
    language: SourceLanguage,
    file: Seq<char>,
    symbols: Seq<DiscoveredSymbolView>,
    t: ContractTargetView,
) -> Result<Option<(int, Seq<u8>)>, AuthoringErrorView> {
    let found = matching_symbols(symbols, t.symbol);
    if found.len() == 0 {
        Err(
            AuthoringErrorView {
                code: AuthoringErrorCode::NotFound,
                message: "symbol '"@ + t.symbol + "' was not found"@,
                path: Some(file),
            },
        )
    } else if found.len() > 1 {
        Err(
            AuthoringErrorView {
                code: AuthoringErrorCode::AmbiguousSymbol,
                message: "symbol '"@ + t.symbol + "' is overloaded; use an exact discovery selector"@,
                path: Some(file),
            },
        )
    } else {
        contract_insertion_spec(source, language, found[0], t)
    }
}

/// The edited content of one file, given what reading it gave.
#[verifier::opaque]
pub open spec fn edit_file_spec(
    file: Seq<char>,
    read: Result<Seq<u8>, AuthoringErrorView>,
    targets: Seq<ContractTargetView>,
) -> Result<Seq<u8>, AuthoringErrorView> {
    match read {
        Err(e) => Err(e),
        Ok(b) => if !valid_utf8(b) {
            Err(
                AuthoringErrorView {
                    code: AuthoringErrorCode::Malformed,
                    message: "source file is not valid UTF-8"@,
                    path: Some(file),
                },
            )
        } else {
            match language_of_path(file) {
                None => Err(
                    AuthoringErrorView {
                        code: AuthoringErrorCode::Malformed,
                        message: "unsupported source language"@,
                        path: Some(file),
                    },
                ),
                Some(language) => match file_insertions(
                    b,
                    language,
                    file,
                    parse_symbols_spec(file, language, decode_utf8(b)),
                    targets,
                ) {
                    Err(e) => Err(e),
                    Ok(ins) => Ok(edit_with(b, ins)),
                },
            }
        },
    }
}

/// The edited files, in order, or the first failure.
pub open spec fn scaffold_scan(
    files: Seq<Seq<char>>,
    reads: Seq<Result<Seq<u8>, AuthoringErrorView>>,
    contracts: Seq<ContractTargetView>,
) -> Result<Seq<(Seq<char>, Seq<u8>)>, AuthoringErrorView>
    decreases files.len(),
{
    if files.len() == 0 {
        Ok(Seq::empty())
    } else {
        let n = files.len() - 1;
        match scaffold_scan(files.drop_last(), reads.take(n), contracts) {
            Err(e) => Err(e),
            Ok(ws) => match edit_file_spec(files[n], reads[n], targets_in(contracts, files[n])) {
                Err(e) => Err(e),
                Ok(b) => Ok(ws.push((files[n], b))),
            },
        }
    }
}

/// What scaffolding the targets gives, with `reads` the contents of the
/// files the targets name (in the order of [`contract_files_spec`]): the
/// edited files, or the first problem of the request, or the first failure
/// while editing.
pub open spec fn scaffold_spec(
    contracts: Seq<ContractTargetView>,
    reads: Seq<Result<Seq<u8>, AuthoringErrorView>>,
) -> Result<Seq<(Seq<char>, Seq<u8>)>, AuthoringErrorView> {
    match request_problem(contracts) {
        Some(e) => Err(e),
        None => scaffold_scan(contract_files_spec(contracts), reads, contracts),
    }
}

fn single_line_clause(c: &str) -> (r: bool)
    ensures
        r == clause_acceptable(c@),
{
    let bytes = c.as_bytes();
    let (a, b) = trim_range(bytes, 0, bytes.len());
    assert(bytes@.subrange(0, bytes@.len() as int) =~= bytes@);
    if a == b {
        return false;
    }
    let n = c.unicode_len();
    let mut i: usize = 0;
    while i < n
        invariant
            n == c@.len(),
            i <= n,
            forall|j: int| 0 <= j < i ==> c@[j] != '\r' && c@[j] != '\n',
        decreases n - i,
    {
        let ch = c.get_char(i);
        if ch == '\r' || ch == '\n' {
            assert(c@.contains(ch));
            return false;
        }
        i = i + 1;
    }
    true
}

fn clauses_acceptable(clauses: &Vec<String>) -> (r: bool)
    ensures
        r == forall|k: int| 0 <= k < clauses@.len() ==> clause_acceptable(#[trigger] clauses@[k]@),
{
    let mut i: usize = 0;
    while i < clauses.len()
        invariant
            i <= clauses@.len(),
            forall|k: int| 0 <= k < i ==> clause_acceptable(#[trigger] clauses@[k]@),
        decreases clauses.len() - i,
    {
        if !single_line_clause(clauses[i].as_str()) {
            return false;
        }
        i = i + 1;
    }
    true
}

fn check_targets(contracts: &Vec<ContractTarget>) -> (r: Option<AuthoringError>)
    ensures
        match request_problem(targets_view(contracts@)) {
            Some(e) => r matches Some(x) && x@ == e,
            None => r is None,
        },
{
    let ghost ts = targets_view(contracts@);
    let mut i: usize = 0;
    assert(ts.take(0) =~= Seq::<ContractTargetView>::empty());
    while i < contracts.len()
        invariant
            i <= contracts@.len(),
            ts == targets_view(contracts@),
            request_problem(ts.take(i as int)) is None,
        decreases contracts.len() - i,
    {
        let t = &contracts[i];
        let ghost ti = ts.take(i + 1);
        assert(ti.drop_last() =~= ts.take(i as int));
        let mut j: usize = 0;
        while j < i
            invariant
                j <= i < contracts@.len(),
                ts == targets_view(contracts@),
                ti == ts.take(i + 1),
                ti.drop_last() == ts.take(i as int),
                request_problem(ts.take(i as int)) is None,
                *t == contracts@[i as int],
                forall|m: int|
                    0 <= m < j ==> !(contracts@[m]@.file == t@.file && contracts@[m]@.symbol
                        == t@.symbol),
            decreases i - j,
        {
            if same_text(contracts[j].file.as_str(), t.file.as_str()) && same_text(
                contracts[j].symbol.as_str(),
                t.symbol.as_str(),
            ) {
                proof {
                    reveal_strlit("duplicate contract target '");
                    reveal_strlit("'");
                    assert(ti[j as int] == contracts@[j as int]@);
                    assert(ti[i as int] == t@);
                    assert(ti[j as int].file == ti[i as int].file && ti[j as int].symbol
                        == ti[i as int].symbol);
                    assert(target_problem(ti, i as int) == Some(
                        AuthoringErrorView {
                            code: AuthoringErrorCode::Conflict,
                            message: "duplicate contract target '"@ + t@.symbol + "'"@,
                            path: Some(t@.file),
                        },
                    ));
                    assert(request_problem(ti) == target_problem(ti, i as int));
                    lemma_request_problem_extends(ts, (i + 1) as int);
                }
                let message = concat3("duplicate contract target '", t.symbol.as_str(), "'");
                return Some(path_error(AuthoringErrorCode::Conflict, copy_string(&t.file), message));
            }
            j = j + 1;
        }
        assert(!exists|m: int|
            0 <= m < i && #[trigger] ti[m].file == ti[i as int].file && ti[m].symbol
                == ti[i as int].symbol) by {
            assert forall|m: int| 0 <= m < i implies !(#[trigger] ti[m].file == ti[i as int].file
                && ti[m].symbol == ti[i as int].symbol) by {
                assert(ti[m] == contracts@[m]@);
            }
        }
        let pre_ok = clauses_acceptable(&t.preconditions);
        let post_ok = clauses_acceptable(&t.postconditions);
        proof {
            let all = all_clauses(ti[i as int]);
            assert(ti[i as int] == t@);
            assert(all == strings_view(t.preconditions@) + strings_view(t.postconditions@));
            if pre_ok && post_ok {
                assert forall|k: int| 0 <= k < all.len() implies clause_acceptable(
                    #[trigger] all[k],
                ) by {
                    if k < t.preconditions@.len() {
                        assert(all[k] == t.preconditions@[k]@);
                    } else {
                        assert(all[k] == t.postconditions@[k - t.preconditions@.len()]@);
                    }
                }
            } else if !pre_ok {
                let k = choose|k: int|
                    0 <= k < t.preconditions@.len() && !clause_acceptable(
                        #[trigger] t.preconditions@[k]@,
                    );
                assert(all[k] == t.preconditions@[k]@);
            } else {
                let k = choose|k: int|
                    0 <= k < t.postconditions@.len() && !clause_acceptable(
                        #[trigger] t.postconditions@[k]@,
                    );
                assert(all[t.preconditions@.len() + k] == t.postconditions@[k]@);
            }
        }
        if !(pre_ok && post_ok) {
            proof {
                reveal_strlit("contract clauses must be non-empty single lines");
                lemma_request_problem_extends(ts, (i + 1) as int);
            }
            return Some(
                path_error(
                    AuthoringErrorCode::Malformed,
                    copy_string(&t.file),
                    owned("contract clauses must be non-empty single lines"),
                ),
            );
        }
        i = i + 1;
    }
    assert(ts.take(contracts@.len() as int) =~= ts);
    None
}

proof fn lemma_request_problem_extends(ts: Seq<ContractTargetView>, k: int)
    requires
        0 <= k <= ts.len(),
        request_problem(ts.take(k)) is Some,
    ensures
        request_problem(ts) == request_problem(ts.take(k)),
    decreases ts.len() - k,
{
    if k < ts.len() {
        assert(ts.take(k + 1).drop_last() =~= ts.take(k));
        lemma_request_problem_extends(ts, k + 1);
    } else {
        assert(ts.take(k) =~= ts);
    }
}

/// The files the targets of `request` name, in path order, each once: the
/// files whose contents [`scaffold_contracts`] needs, in that order.
pub fn contract_files(request: &ScaffoldContractsRequest) -> (r: Vec<String>)
    ensures
        strings_view(r@) == contract_files_spec(targets_view(request.contracts@)),
{
    let ghost ts = targets_view(request.contracts@);
    let mut files: Vec<String> = Vec::new();
    let mut i: usize = 0;
    while i < request.contracts.len()
        invariant
            i <= request.contracts@.len(),
            ts == targets_view(request.contracts@),
            strings_view(files@) == ts.take(i as int).map_values(|t: ContractTargetView| t.file),
        decreases request.contracts.len() - i,
    {
        let ghost before = strings_view(files@);
        files.push(copy_string(&request.contracts[i].file));
        assert(strings_view(files@) =~= before.push(request.contracts@[i as int].file@));
        assert(ts.take(i + 1).map_values(|t: ContractTargetView| t.file) =~= ts.take(
            i as int,
        ).map_values(|t: ContractTargetView| t.file).push(request.contracts@[i as int].file@));
        i = i + 1;
    }
    assert(ts.take(request.contracts@.len() as int) =~= ts);
    crate::discovery::sorted_unique(files)
}

proof fn lemma_file_insertions_err_prefix(
    source: Seq<u8>,
    language: SourceLanguage,
    file: Seq<char>,
    symbols: Seq<DiscoveredSymbolView>,
    targets: Seq<ContractTargetView>,
    k: int,
)
    requires
        0 <= k <= targets.len(),
        file_insertions(source, language, file, symbols, targets.take(k)) is Err,
    ensures
        file_insertions(source, language, file, symbols, targets) == file_insertions(
            source,
            language,
            file,
            symbols,
            targets.take(k),
        ),
    decreases targets.len() - k,
{
    if k < targets.len() {
        assert(targets.take(k + 1).drop_last() =~= targets.take(k));
        lemma_file_insertions_err_prefix(source, language, file, symbols, targets, k + 1);
    } else {
        assert(targets.take(k) =~= targets);
    }
}

proof fn lemma_targets_in_prefix(ts: Seq<ContractTargetView>, file: Seq<char>, i: int)
    requires
        0 <= i <= ts.len(),
    ensures
        targets_in(ts.take(i), file) == targets_in(ts, file).take(targets_in(ts.take(i), file).len() as int),
        targets_in(ts.take(i), file).len() <= targets_in(ts, file).len(),
{
    let pred = |t: ContractTargetView| t.file == file;
    assert(ts =~= ts.take(i) + ts.skip(i));
    Seq::filter_distributes_over_add(ts.take(i), ts.skip(i), pred);
    let a = ts.take(i).filter(pred);
    let b = ts.skip(i).filter(pred);
    assert((a + b).take(a.len() as int) =~= a);
}

fn find_symbol(symbols: &Vec<DiscoveredSymbol>, selector: &str) -> (r: (usize, usize))
    ensures
        r.0 == matching_symbols(symbols_view(symbols@), selector@).len(),
        r.0 > 0 ==> r.1 < symbols@.len() && symbols@[r.1 as int]@ == matching_symbols(
            symbols_view(symbols@),
            selector@,
        )[0],
{
    let ghost sv = symbols_view(symbols@);
    let ghost pred = |s: DiscoveredSymbolView| s.symbol == selector@ || s.name == selector@;
    let mut count: usize = 0;
    let mut first: usize = 0;
    let mut i: usize = 0;
    assert(sv.take(0) =~= Seq::<DiscoveredSymbolView>::empty());
    reveal_with_fuel(Seq::filter, 1);
    while i < symbols.len()
        invariant
            i <= symbols@.len(),
            sv == symbols_view(symbols@),
            pred == (|s: DiscoveredSymbolView| s.symbol == selector@ || s.name == selector@),
            count == sv.take(i as int).filter(pred).len(),
            count <= i,
            count > 0 ==> first < i && symbols@[first as int]@ == sv.take(i as int).filter(pred)[0],
        decreases symbols.len() - i,
    {
        reveal_with_fuel(Seq::filter, 1);
        let ghost t = sv.take(i + 1);
        assert(t.drop_last() =~= sv.take(i as int));
        assert(t.last() == symbols@[i as int]@);
        let hit = same_text(symbols[i].symbol.as_str(), selector) || same_text(
            symbols[i].name.as_str(),
            selector,
        );
        assert(hit == pred(t.last()));
        if hit {
            if count == 0 {
                first = i;
                assert(t.filter(pred) =~= seq![symbols@[i as int]@]);
            } else {
                assert(t.filter(pred)[0] == sv.take(i as int).filter(pred)[0]);
            }
            count = count + 1;
        }
        i = i + 1;
    }
    assert(sv.take(symbols@.len() as int) =~= sv);
    (count, first)
}

fn target_insertion(
    bytes: &Vec<u8>,
    language: SourceLanguage,
    file: &str,
    symbols: &Vec<DiscoveredSymbol>,
    t: &ContractTarget,
) -> (r: AuthoringResult<Option<(usize, Vec<u8>)>>)
    requires
        bytes@.len() < usize::MAX,
    ensures
        match target_step(bytes@, language, file@, symbols_view(symbols@), t@) {
            Err(e) => r matches Err(x) && x@ == e,
            Ok(None) => r matches Ok(None),
            Ok(Some((o, text))) => r matches Ok(Some(y)) && y.0 == o && y.1@ == text,
        },
        r matches Ok(Some(y)) ==> y.0 <= bytes@.len(),
{
    let (count, first) = find_symbol(symbols, t.symbol.as_str());
    if count == 0 {
        proof {
            reveal_strlit("symbol '");
            reveal_strlit("' was not found");
        }
        return Err(
            path_error(
                AuthoringErrorCode::NotFound,
                owned(file),
                concat3("symbol '", t.symbol.as_str(), "' was not found"),
            ),
        );
    }
    if count > 1 {
        proof {
            reveal_strlit("symbol '");
            reveal_strlit("' is overloaded; use an exact discovery selector");
        }
        return Err(
            path_error(
                AuthoringErrorCode::AmbiguousSymbol,
                owned(file),
                concat3("symbol '", t.symbol.as_str(), "' is overloaded; use an exact discovery selector"),
            ),
        );
    }
    contract_insertion(bytes.as_slice(), language, &symbols[first], t)
}

fn collect_insertions(
    bytes: &Vec<u8>,
    language: SourceLanguage,
    file: &str,
    symbols: &Vec<DiscoveredSymbol>,
    contracts: &Vec<ContractTarget>,
) -> (r: AuthoringResult<Vec<(usize, Vec<u8>)>>)
    requires
        bytes@.len() < usize::MAX,
    ensures
        match file_insertions(
            bytes@,
            language,
            file@,
            symbols_view(symbols@),
            targets_in(targets_view(contracts@), file@),
        ) {
            Err(e) => r matches Err(x) && x@ == e,
            Ok(ins) => r matches Ok(v) && insertions_view(v@) == ins,
        },
        r matches Ok(v) ==> forall|k: int| 0 <= k < v@.len() ==> #[trigger] v@[k].0 <= bytes@.len(),
{
    let ghost sv = symbols_view(symbols@);
    let ghost ts = targets_view(contracts@);
    let ghost all_targets = targets_in(ts, file@);
    let mut ins: Vec<(usize, Vec<u8>)> = Vec::new();
    let mut i: usize = 0;
    assert(ts.take(0) =~= Seq::<ContractTargetView>::empty());
    reveal_with_fuel(Seq::filter, 1);
    assert(targets_in(ts.take(0), file@) =~= Seq::<ContractTargetView>::empty());
    assert(insertions_view(ins@) =~= Seq::<(int, Seq<u8>)>::empty());
    while i < contracts.len()
        invariant
            i <= contracts@.len(),
            ts == targets_view(contracts@),
            sv == symbols_view(symbols@),
            all_targets == targets_in(ts, file@),
            bytes@.len() < usize::MAX,
            file_insertions(bytes@, language, file@, sv, targets_in(ts.take(i as int), file@))
                == Ok::<Seq<(int, Seq<u8>)>, AuthoringErrorView>(insertions_view(ins@)),
            forall|k: int| 0 <= k < ins@.len() ==> #[trigger] ins@[k].0 <= bytes@.len(),
        decreases contracts.len() - i,
    {
        let t = &contracts[i];
        let ghost prefix = targets_in(ts.take(i as int), file@);
        let ghost next = targets_in(ts.take(i + 1), file@);
        proof {
            reveal_with_fuel(Seq::filter, 1);
            assert(ts.take(i + 1).drop_last() =~= ts.take(i as int));
            assert(ts.take(i + 1).last() == t@);
        }
        if same_text(t.file.as_str(), file) {
            assert(next == prefix.push(t@));
            assert(next.drop_last() =~= prefix);
            match target_insertion(bytes, language, file, symbols, t) {
                Err(e) => {
                    proof {
                        lemma_targets_in_prefix(ts, file@, (i + 1) as int);
                        lemma_file_insertions_err_prefix(
                            bytes@,
                            language,
                            file@,
                            sv,
                            all_targets,
                            next.len() as int,
                        );
                    }
                    return Err(e);
                },
                Ok(None) => {},
                Ok(Some(x)) => {
                    let ghost before = insertions_view(ins@);
                    let ghost xv = (x.0 as int, x.1@);
                    ins.push(x);
                    assert(insertions_view(ins@) =~= before.push(xv));
                },
            }
        } else {
            assert(next =~= prefix);
        }
        i = i + 1;
    }
    assert(ts.take(contracts@.len() as int) =~= ts);
    Ok(ins)
}

fn edit_file(file: &str, read: &AuthoringResult<Vec<u8>>, contracts: &Vec<ContractTarget>) -> (r:
    AuthoringResult<Vec<u8>>)
    requires
        read matches Ok(b) ==> b@.len() < usize::MAX,
    ensures
        match edit_file_spec(file@, content_view(*read), targets_in(targets_view(contracts@), file@)) {
            Err(e) => r matches Err(x) && x@ == e,
            Ok(b) => r matches Ok(v) && v@ == b,
        },
{
    reveal(edit_file_spec);
    let bytes = match read {
        Err(e) => {
            return Err(e.copied());
        },
        Ok(b) => b,
    };
    let source = match utf8_text(bytes.clone()) {
        Some(s) => s,
        None => {
            proof {
                reveal_strlit("source file is not valid UTF-8");
            }
            return Err(
                path_error(
                    AuthoringErrorCode::Malformed,
                    owned(file),
                    owned("source file is not valid UTF-8"),
                ),
            );
        },
    };
    proof {
        vstd::utf8::encode_utf8_decode_utf8(source@);
    }
    let language = match language_for_path(file) {
        Some(l) => l,
        None => {
            proof {
                reveal_strlit("unsupported source language");
            }
            return Err(
                path_error(
                    AuthoringErrorCode::Malformed,
                    owned(file),
                    owned("unsupported source language"),
                ),
            );
        },
    };
    let symbols = parse_symbols(file, language, source.as_str());
    let ins = match collect_insertions(bytes, language, file, &symbols, contracts) {
        Err(e) => {
            return Err(e);
        },
        Ok(ins) => ins,
    };
    let edited = apply_edits(bytes, ins);
    Ok(edited)
}

proof fn lemma_scaffold_scan_err_extends(
    fs: Seq<Seq<char>>,
    rs: Seq<Result<Seq<u8>, AuthoringErrorView>>,
    contracts: Seq<ContractTargetView>,
    k: int,
)
    requires
        0 <= k <= fs.len(),
        fs.len() == rs.len(),
        scaffold_scan(fs.take(k), rs.take(k), contracts) is Err,
    ensures
        scaffold_scan(fs, rs, contracts) == scaffold_scan(fs.take(k), rs.take(k), contracts),
    decreases fs.len() - k,
{
    if k < fs.len() {
        assert(fs.take(k + 1).drop_last() =~= fs.take(k));
        assert(rs.take(k + 1).take(k) =~= rs.take(k));
        lemma_scaffold_scan_err_extends(fs, rs, contracts, k + 1);
    } else {
        assert(fs.take(k) =~= fs);
        assert(rs.take(k) =~= rs);
    }
}

/// Scaffolds the contracts of `request`, given the contents of the files
/// its targets name (`reads`, in the order [`contract_files`] gives). Every
/// target is checked first: a repeated target or a clause that is blank or
/// spans lines is refused before any file is looked at. Each file then gets
/// the clauses its targets still miss; the edited files come out in path
/// order, ready for `plan_writes`.
pub fn scaffold_contracts(
    request: &ScaffoldContractsRequest,
    reads: &Vec<AuthoringResult<Vec<u8>>>,
) -> (r: AuthoringResult<Vec<(String, Vec<u8>)>>)
    requires
        reads@.len() == contract_files_spec(targets_view(request.contracts@)).len(),
        forall|k: int|
            0 <= k < reads@.len() ==> (#[trigger] reads@[k] matches Ok(b) ==> b@.len()
                < usize::MAX),
    ensures
        match scaffold_spec(targets_view(request.contracts@), contents_view(reads@)) {
            Err(e) => r matches Err(x) && x@ == e,
            Ok(ws) => r matches Ok(v) && writes_view(v@) == ws,
        },
{
    if let Some(e) = check_targets(&request.contracts) {
        return Err(e);
    }
    let files = contract_files(request);
    let ghost fs = strings_view(files@);
    let ghost rs = contents_view(reads@);
    let ghost ts = targets_view(request.contracts@);
    let mut out: Vec<(String, Vec<u8>)> = Vec::new();
    let mut k: usize = 0;
    assert(fs.take(0) =~= Seq::<Seq<char>>::empty());
    assert(writes_view(out@) =~= Seq::<(Seq<char>, Seq<u8>)>::empty());
    while k < files.len()
        invariant
            k <= files@.len(),
            files@.len() == reads@.len(),
            fs == strings_view(files@),
            rs == contents_view(reads@),
            ts == targets_view(request.contracts@),
            fs == contract_files_spec(ts),
            request_problem(ts) is None,
            forall|j: int|
                0 <= j < reads@.len() ==> (#[trigger] reads@[j] matches Ok(b) ==> b@.len()
                    < usize::MAX),
            scaffold_scan(fs.take(k as int), rs.take(k as int), ts) == Ok::<
                Seq<(Seq<char>, Seq<u8>)>,
                AuthoringErrorView,
            >(writes_view(out@)),
        decreases files.len() - k,
    {
        let file = files[k].as_str();
        assert(fs.take(k + 1).drop_last() =~= fs.take(k as int));
        assert(rs.take(k + 1).take(k as int) =~= rs.take(k as int));
        assert(fs.take(k + 1)[k as int] == file@);
        assert(rs.take(k + 1)[k as int] == content_view(reads@[k as int]));
        match edit_file(file, &reads[k], &request.contracts) {
            Err(e) => {
                proof {
                    let fk = fs.take(k + 1);
                    let rk = rs.take(k + 1);
                    assert(edit_file_spec(fk[k as int], rk[k as int], targets_in(ts, fk[k as int]))
                        == Err::<Seq<u8>, AuthoringErrorView>(e@));
                    assert(scaffold_scan(fk, rk, ts) == Err::<
                        Seq<(Seq<char>, Seq<u8>)>,
                        AuthoringErrorView,
                    >(e@));
                    lemma_scaffold_scan_err_extends(fs, rs, ts, (k + 1) as int);
                }
                return Err(e);
            },
            Ok(edited) => {
                let ghost before = writes_view(out@);
                let ghost ev = edited@;
                out.push((owned(file), edited));
                assert(writes_view(out@) =~= before.push((file@, ev)));
            },
        }
        k = k + 1;
    }
    assert(fs.take(files@.len() as int) =~= fs);
    assert(rs.take(files@.len() as int) =~= rs);
    Ok(out)
}

} // verus!
