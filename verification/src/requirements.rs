//! Editing the requirement mapping: keeping requirement ids and mapped
//! symbols unique, merging requested requirements in, and linking property
//! tests.
use vstd::prelude::*;

use crate::bytes::trim_range;
use crate::errors::{error, path_error, AuthoringError, AuthoringErrorCode, AuthoringErrorView, AuthoringResult};
use crate::mutation::{MutationOptions, MAPPING_PATH};
use crate::schema::{
    mapping_problem, requirements_view, strings_view, validate_mapping, CodeRef, Mapping,
    MappingView, PropertyRef, PropertyRefView, Requirement, RequirementView,
};
use crate::text::{concat, concat3, copy_string, owned, same_text};

verus! {

broadcast use vstd::string::group_string_axioms;

/// One mapped symbol: its file, its name, and the requirement that maps it.
pub type SymbolKey = (Seq<char>, Seq<char>, Seq<char>);

/// The symbols a requirement maps, in order.
pub open spec fn requirement_keys(r: RequirementView) -> Seq<SymbolKey> {
    match r.code {
        Some(c) => c.symbols.map_values(|s: Seq<char>| (c.file, s, r.id)),
        None => Seq::empty(),
    }
}

/// The symbols the requirements map, in order.
pub open spec fn all_keys(reqs: Seq<RequirementView>) -> Seq<SymbolKey>
    decreases reqs.len(),
{
    if reqs.len() == 0 {
        Seq::empty()
    } else {
        all_keys(reqs.drop_last()) + requirement_keys(reqs.last())
    }
}

/// The requirement that first maps `file`'s `symbol` among `keys`.
pub open spec fn key_owner(keys: Seq<SymbolKey>, file: Seq<char>, symbol: Seq<char>) -> Option<
    Seq<char>,
>
    decreases keys.len(),
{
    if keys.len() == 0 {
        None
    } else if keys[0].0 == file && keys[0].1 == symbol {
        Some(keys[0].2)
    } else {
        key_owner(keys.drop_first(), file, symbol)
    }
}

/// Message for a symbol mapped by two requirements.
pub open spec fn mapped_twice_message(
    file: Seq<char>,
    symbol: Seq<char>,
    first: Seq<char>,
    second: Seq<char>,
) -> Seq<char> {
    file + "::"@ + symbol + " is mapped by both '"@ + first + "' and '"@ + second + "'"@
}

/// The first of `new_keys` that `known` (with the new keys before it)
/// already maps.
pub open spec fn key_problem(known: Seq<SymbolKey>, new_keys: Seq<SymbolKey>) -> Option<
    AuthoringErrorView,
>
    decreases new_keys.len(),
{
    if new_keys.len() == 0 {
        None
    } else {
        match key_problem(known, new_keys.drop_last()) {
            Some(e) => Some(e),
            None => {
                let k = new_keys.last();
                match key_owner(known + new_keys.drop_last(), k.0, k.1) {
                    Some(owner) => Some(
                        AuthoringErrorView {
                            code: AuthoringErrorCode::Conflict,
                            message: mapped_twice_message(k.0, k.1, owner, k.2),
                            path: None,
                        },
                    ),
                    None => None,
                }
            },
        }
    }
}

/// Whether some requirement among `reqs` has the id `id`.
pub open spec fn has_id(reqs: Seq<RequirementView>, id: Seq<char>) -> bool {
    exists|j: int| 0 <= j < reqs.len() && #[trigger] reqs[j].id == id
}

/// The first repeated id or doubly mapped symbol, in mapping order.
pub open spec fn uniqueness_problem(reqs: Seq<RequirementView>) -> Option<AuthoringErrorView>
    decreases reqs.len(),
{
    if reqs.len() == 0 {
        None
    } else {
        match uniqueness_problem(reqs.drop_last()) {
            Some(e) => Some(e),
            None => {
                let r = reqs.last();
                if has_id(reqs.drop_last(), r.id) {
                    Some(
                        AuthoringErrorView {
                            code: AuthoringErrorCode::Conflict,
                            message: "duplicate requirement id '"@ + r.id + "'"@,
                            path: None,
                        },
                    )
                } else {
                    key_problem(all_keys(reqs.drop_last()), requirement_keys(r))
                }
            },
        }
    }
}

fn owner_of(keys: &Vec<(String, String, String)>, file: &str, symbol: &str) -> (r: Option<String>)
    ensures
        match key_owner(keys_view(keys@), file@, symbol@) {
            Some(o) => r matches Some(x) && x@ == o,
            None => r is None,
        },
{
    let ghost kv = keys_view(keys@);
    let mut i: usize = 0;
    assert(kv.skip(0) =~= kv);
    while i < keys.len()
        invariant
            i <= keys@.len(),
            kv == keys_view(keys@),
            key_owner(kv, file@, symbol@) == key_owner(kv.skip(i as int), file@, symbol@),
        decreases keys.len() - i,
    {
        assert(kv.skip(i as int)[0] == kv[i as int]);
        assert(kv.skip(i as int).drop_first() =~= kv.skip(i + 1));
        if same_text(keys[i].0.as_str(), file) && same_text(keys[i].1.as_str(), symbol) {
            return Some(copy_string(&keys[i].2));
        }
        i = i + 1;
    }
    assert(kv.skip(i as int) =~= Seq::<SymbolKey>::empty());
    None
}

/// The views of a list of symbol keys.
pub open spec fn keys_view(v: Seq<(String, String, String)>) -> Seq<SymbolKey> {
    v.map_values(|k: (String, String, String)| (k.0@, k.1@, k.2@))
}

proof fn lemma_uniqueness_extends(reqs: Seq<RequirementView>, k: int)
    requires
        0 <= k <= reqs.len(),
        uniqueness_problem(reqs.take(k)) is Some,
    ensures
        uniqueness_problem(reqs) == uniqueness_problem(reqs.take(k)),
    decreases reqs.len() - k,
{
    if k < reqs.len() {
        assert(reqs.take(k + 1).drop_last() =~= reqs.take(k));
        lemma_uniqueness_extends(reqs, k + 1);
    } else {
        assert(reqs.take(k) =~= reqs);
    }
}

proof fn lemma_key_problem_extends(known: Seq<SymbolKey>, new_keys: Seq<SymbolKey>, k: int)
    requires
        0 <= k <= new_keys.len(),
        key_problem(known, new_keys.take(k)) is Some,
    ensures
        key_problem(known, new_keys) == key_problem(known, new_keys.take(k)),
    decreases new_keys.len() - k,
{
    if k < new_keys.len() {
        assert(new_keys.take(k + 1).drop_last() =~= new_keys.take(k));
        lemma_key_problem_extends(known, new_keys, k + 1);
    } else {
        assert(new_keys.take(k) =~= new_keys);
    }
}

/// Checks that no requirement id repeats and that no symbol is mapped
/// twice; the error names the first repetition, in mapping order.
pub fn validate_mapping_uniqueness(mapping: &Mapping) -> (r: AuthoringResult<()>)
    ensures
        match uniqueness_problem(mapping@.requirements) {
            Some(e) => r matches Err(x) && x@ == e,
            None => r is Ok,
        },
{
    let reqs = &mapping.requirements;
    let ghost rv = requirements_view(reqs@);
    let mut keys: Vec<(String, String, String)> = Vec::new();
    let mut i: usize = 0;
    assert(rv.take(0) =~= Seq::<RequirementView>::empty());
    assert(keys_view(keys@) =~= all_keys(rv.take(0)));
    while i < reqs.len()
        invariant
            i <= reqs@.len(),
            reqs@ == mapping.requirements@,
            rv == requirements_view(reqs@),
            uniqueness_problem(rv.take(i as int)) is None,
            keys_view(keys@) == all_keys(rv.take(i as int)),
        decreases reqs.len() - i,
    {
        let req = &reqs[i];
        let ghost ri = rv.take(i + 1);
        assert(ri.drop_last() =~= rv.take(i as int));
        assert(ri.last() == req@);
        let mut j: usize = 0;
        while j < i
            invariant
                j <= i < reqs@.len(),
                rv == requirements_view(reqs@),
                rv == mapping@.requirements,
                ri == rv.take(i + 1),
                ri.drop_last() == rv.take(i as int),
                uniqueness_problem(rv.take(i as int)) is None,
                *req == reqs@[i as int],
                forall|m: int| 0 <= m < j ==> reqs@[m]@.id != req@.id,
            decreases i - j,
        {
            if same_text(reqs[j].id.as_str(), req.id.as_str()) {
                proof {
                    reveal_strlit("duplicate requirement id '");
                    reveal_strlit("'");
                    assert(rv.take(i as int)[j as int].id == req@.id);
                    assert(has_id(ri.drop_last(), req@.id));
                    assert(ri.last() == req@);
                    assert(uniqueness_problem(ri) == Some(
                        AuthoringErrorView {
                            code: AuthoringErrorCode::Conflict,
                            message: "duplicate requirement id '"@ + req@.id + "'"@,
                            path: None,
                        },
                    ));
                    lemma_uniqueness_extends(rv, (i + 1) as int);
                }
                return Err(
                    error(
                        AuthoringErrorCode::Conflict,
                        concat3("duplicate requirement id '", req.id.as_str(), "'"),
                    ),
                );
            }
            j = j + 1;
        }
        assert(!has_id(ri.drop_last(), req@.id)) by {
            assert forall|m: int| 0 <= m < i implies #[trigger] ri.drop_last()[m].id != req@.id by {
                assert(ri.drop_last()[m] == reqs@[m]@);
            }
        }
        let ghost known = keys_view(keys@);
        let ghost new_keys = requirement_keys(req@);
        match &req.code {
            None => {
                assert(new_keys =~= Seq::<SymbolKey>::empty());
                assert(all_keys(ri) =~= known);
            },
            Some(code) => {
                let mut k: usize = 0;
                assert(new_keys.take(0) =~= Seq::<SymbolKey>::empty());
                assert(known + new_keys.take(0) =~= known);
                while k < code.symbols.len()
                    invariant
                        k <= code.symbols@.len(),
                        i < reqs@.len(),
                        rv == requirements_view(reqs@),
                        rv == mapping@.requirements,
                        ri == rv.take(i + 1),
                        ri.drop_last() == rv.take(i as int),
                        ri.last() == req@,
                        uniqueness_problem(rv.take(i as int)) is None,
                        !has_id(ri.drop_last(), req@.id),
                        known == all_keys(rv.take(i as int)),
                        req.code == Some(*code),
                        new_keys == requirement_keys(req@),
                        new_keys.len() == code.symbols@.len(),
                        key_problem(known, new_keys.take(k as int)) is None,
                        keys_view(keys@) == known + new_keys.take(k as int),
                    decreases code.symbols.len() - k,
                {
                    let symbol = code.symbols[k].as_str();
                    let ghost nk = new_keys.take(k + 1);
                    assert(nk.drop_last() =~= new_keys.take(k as int));
                    assert(nk.last() == (code.file@, symbol@, req.id@));
                    match owner_of(&keys, code.file.as_str(), symbol) {
                        Some(owner) => {
                            proof {
                                reveal_strlit("::");
                                reveal_strlit(" is mapped by both '");
                                reveal_strlit("' and '");
                                reveal_strlit("'");
                                lemma_key_problem_extends(known, new_keys, (k + 1) as int);
                                assert(uniqueness_problem(ri) == key_problem(known, new_keys));
                                lemma_uniqueness_extends(rv, (i + 1) as int);
                            }
                            let m = concat3(code.file.as_str(), "::", symbol);
                            let m = concat3(m.as_str(), " is mapped by both '", owner.as_str());
                            let m = concat3(m.as_str(), "' and '", req.id.as_str());
                            let m = concat(m.as_str(), "'");
                            return Err(error(AuthoringErrorCode::Conflict, m));
                        },
                        None => {},
                    }
                    let ghost before = keys_view(keys@);
                    keys.push((copy_string(&code.file), owned(symbol), copy_string(&req.id)));
                    assert(keys_view(keys@) =~= before.push((code.file@, symbol@, req.id@)));
                    assert(known + new_keys.take(k + 1) =~= (known + new_keys.take(k as int)).push(
                        (code.file@, symbol@, req.id@),
                    ));
                    k = k + 1;
                }
                assert(new_keys.take(code.symbols@.len() as int) =~= new_keys);
            },
        }
        i = i + 1;
    }
    assert(rv.take(reqs@.len() as int) =~= rv);
    Ok(())
}

/// A request to add or replace requirements, and how to apply the edit.
#[derive(Debug, Clone, PartialEq, Eq)]
pub struct UpsertRequirementsRequest {
    pub requirements: Vec<Requirement>,
    pub mutation: MutationOptions,
}

/// Whether a requirement maps `file`'s `symbol`.
pub open spec fn maps_symbol(r: RequirementView, file: Seq<char>, symbol: Seq<char>) -> bool {
    r.code matches Some(c) && c.file == file && c.symbols.contains(symbol)
}

/// The first requirement among `cur`, other than `id`, that maps `file`'s
/// `symbol`.
pub open spec fn conflict_for(
    cur: Seq<RequirementView>,
    file: Seq<char>,
    symbol: Seq<char>,
    id: Seq<char>,
) -> Option<Seq<char>>
    decreases cur.len(),
{
    if cur.len() == 0 {
        None
    } else if cur[0].id != id && maps_symbol(cur[0], file, symbol) {
        Some(cur[0].id)
    } else {
        conflict_for(cur.drop_first(), file, symbol, id)
    }
}

/// The first of `symbols` that another requirement of `cur` maps, with that
/// requirement's id.
pub open spec fn symbols_conflict(
    cur: Seq<RequirementView>,
    id: Seq<char>,
    file: Seq<char>,
    symbols: Seq<Seq<char>>,
) -> Option<(Seq<char>, Seq<char>)>
    decreases symbols.len(),
{
    if symbols.len() == 0 {
        None
    } else {
        match symbols_conflict(cur, id, file, symbols.drop_last()) {
            Some(x) => Some(x),
            None => match conflict_for(cur, file, symbols.last(), id) {
                Some(owner) => Some((symbols.last(), owner)),
                None => None,
            },
        }
    }
}

/// The index of the first requirement with the id `id`.
pub open spec fn index_of_id(cur: Seq<RequirementView>, id: Seq<char>) -> Option<int>
    decreases cur.len(),
{
    if cur.len() == 0 {
        None
    } else if cur[0].id == id {
        Some(0)
    } else {
        match index_of_id(cur.drop_first(), id) {
            Some(i) => Some(i + 1),
            None => None,
        }
    }
}

/// `cur` with `r` in place of the first requirement that has its id, or
/// with `r` appended when none has.
pub open spec fn replace_or_push(cur: Seq<RequirementView>, r: RequirementView) -> Seq<
    RequirementView,
> {
    match index_of_id(cur, r.id) {
        Some(i) => cur.update(i, r),
        None => cur.push(r),
    }
}

/// Merging one requested requirement into `cur`, given the requested
/// requirements before it.
pub open spec fn upsert_step(
    cur: Seq<RequirementView>,
    earlier: Seq<RequirementView>,
    r: RequirementView,
) -> Result<Seq<RequirementView>, AuthoringErrorView> {
    if has_id(earlier, r.id) {
        Err(
            AuthoringErrorView {
                code: AuthoringErrorCode::Conflict,
                message: "duplicate requirement id '"@ + r.id + "' in request"@,
                path: None,
            },
        )
    } else {
        match r.code {
            Some(c) => match symbols_conflict(cur, r.id, c.file, c.symbols) {
                Some((symbol, owner)) => Err(
                    AuthoringErrorView {
                        code: AuthoringErrorCode::Conflict,
                        message: c.file + "::"@ + symbol + " is already mapped by requirement '"@
                            + owner + "'"@,
                        path: None,
                    },
                ),
                None => Ok(replace_or_push(cur, r)),
            },
            None => Ok(replace_or_push(cur, r)),
        }
    }
}

/// Merging the requested requirements into `cur`, in order.
pub open spec fn upsert_steps(cur: Seq<RequirementView>, reqs: Seq<RequirementView>) -> Result<
    Seq<RequirementView>,
    AuthoringErrorView,
>
    decreases reqs.len(),
{
    if reqs.len() == 0 {
        Ok(cur)
    } else {
        match upsert_steps(cur, reqs.drop_last()) {
            Err(e) => Err(e),
            Ok(c) => upsert_step(c, reqs.drop_last(), reqs.last()),
        }
    }
}

/// The mapping after merging the requested requirements: the mapping must
/// already be free of repetitions, the request must not repeat an id or
/// take a symbol another requirement maps, and the result must be valid.
pub open spec fn upsert_spec(m: MappingView, reqs: Seq<RequirementView>) -> Result<
    MappingView,
    AuthoringErrorView,
> {
    match uniqueness_problem(m.requirements) {
        Some(e) => Err(e),
        None => match upsert_steps(m.requirements, reqs) {
            Err(e) => Err(e),
            Ok(rs) => {
                let merged = MappingView { version: m.version, requirements: rs };
                match mapping_problem(merged) {
                    Some(message) => Err(
                        AuthoringErrorView {
                            code: AuthoringErrorCode::Malformed,
                            message: "requirements are invalid: "@ + message,
                            path: None,
                        },
                    ),
                    None => Ok(merged),
                }
            },
        },
    }
}

/// Whether some requirement of `cur`, other than `id`, lists `symbol` for
/// the file `file`.
pub open spec fn other_maps(cur: Seq<RequirementView>, id: Seq<char>, file: Seq<char>, symbol: Seq<char>) -> bool {
    exists|k: int|
        0 <= k < cur.len() && #[trigger] cur[k].id != id && (cur[k].code matches Some(c) && c.file
            == file && c.symbols.contains(symbol))
}

proof fn lemma_conflict_for_iff(cur: Seq<RequirementView>, file: Seq<char>, symbol: Seq<char>, id: Seq<char>)
    ensures
        conflict_for(cur, file, symbol, id) is Some <==> other_maps(cur, id, file, symbol),
        conflict_for(cur, file, symbol, id) matches Some(owner) ==> owner != id,
    decreases cur.len(),
{
    if cur.len() > 0 {
        let d = cur.drop_first();
        lemma_conflict_for_iff(d, file, symbol, id);
        if other_maps(d, id, file, symbol) {
            let k = choose|k: int|
                0 <= k < d.len() && #[trigger] d[k].id != id && (d[k].code matches Some(c) && c.file
                    == file && c.symbols.contains(symbol));
            assert(cur[k + 1] == d[k]);
        }
        if other_maps(cur, id, file, symbol) && !(cur[0].id != id && maps_symbol(cur[0], file, symbol)) {
            let k = choose|k: int|
                0 <= k < cur.len() && #[trigger] cur[k].id != id && (cur[k].code matches Some(c)
                    && c.file == file && c.symbols.contains(symbol));
            assert(k != 0);
            assert(d[k - 1] == cur[k]);
        }
    } else {
        assert(!other_maps(cur, id, file, symbol));
    }
}

proof fn lemma_symbols_conflict_iff(
    cur: Seq<RequirementView>,
    id: Seq<char>,
    file: Seq<char>,
    symbols: Seq<Seq<char>>,
)
    ensures
        symbols_conflict(cur, id, file, symbols) is Some <==> exists|j: int|
            0 <= j < symbols.len() && other_maps(cur, id, file, #[trigger] symbols[j]),
        symbols_conflict(cur, id, file, symbols) matches Some((sym, owner)) ==> symbols.contains(sym)
            && other_maps(cur, id, file, sym) && owner != id,
    decreases symbols.len(),
{
    if symbols.len() > 0 {
        let d = symbols.drop_last();
        lemma_symbols_conflict_iff(cur, id, file, d);
        lemma_conflict_for_iff(cur, file, symbols.last(), id);
        if exists|j: int| 0 <= j < d.len() && other_maps(cur, id, file, #[trigger] d[j]) {
            let j = choose|j: int| 0 <= j < d.len() && other_maps(cur, id, file, #[trigger] d[j]);
            assert(symbols[j] == d[j]);
        }
        if exists|j: int| 0 <= j < symbols.len() && other_maps(cur, id, file, #[trigger] symbols[j]) {
            let j = choose|j: int| 0 <= j < symbols.len() && other_maps(cur, id, file, #[trigger] symbols[j]);
            if j < d.len() {
                assert(d[j] == symbols[j]);
            }
        }
        match symbols_conflict(cur, id, file, d) {
            Some((sym, owner)) => {
                let j = choose|j: int| 0 <= j < d.len() && d[j] == sym;
                assert(symbols[j] == sym);
            },
            None => {
                assert(symbols[symbols.len() - 1] == symbols.last());
            },
        }
    }
}

/// Upserting a requirement is refused as a conflict over its code exactly
/// when another requirement lists one of its symbols for the same file: a
/// symbol of the same name in a different file is no conflict, and a
/// refusal names a symbol the requirement lists and a requirement that
/// lists it for that file.
pub proof fn lemma_upsert_conflicts_are_same_file_symbols(
    cur: Seq<RequirementView>,
    earlier: Seq<RequirementView>,
    r: RequirementView,
)
    requires
        !has_id(earlier, r.id),
    ensures
        upsert_step(cur, earlier, r) is Ok <==> (r.code matches Some(c) ==> forall|j: int|
            0 <= j < c.symbols.len() ==> !exists|k: int|
                0 <= k < cur.len() && #[trigger] cur[k].id != r.id && (cur[k].code matches Some(c2)
                    && c2.file == c.file && c2.symbols.contains(#[trigger] c.symbols[j]))),
        upsert_step(cur, earlier, r) is Err ==> upsert_step(cur, earlier, r)->Err_0.code
            == AuthoringErrorCode::Conflict && (r.code matches Some(c) && exists|k: int, j: int|
            0 <= k < cur.len() && 0 <= j < c.symbols.len() && #[trigger] cur[k].id != r.id
                && (cur[k].code matches Some(c2) && c2.file == c.file && c2.symbols.contains(
                #[trigger] c.symbols[j],
            ))),
{
    match r.code {
        Some(c) => {
            lemma_symbols_conflict_iff(cur, r.id, c.file, c.symbols);
            match symbols_conflict(cur, r.id, c.file, c.symbols) {
                Some((sym, owner)) => {
                    let j = choose|j: int| 0 <= j < c.symbols.len() && c.symbols[j] == sym;
                    assert(other_maps(cur, r.id, c.file, c.symbols[j]));
                },
                None => {},
            }
        },
        None => {},
    }
}

proof fn lemma_index_of_id(cur: Seq<RequirementView>, id: Seq<char>)
    ensures
        match index_of_id(cur, id) {
            Some(i) => 0 <= i < cur.len() && cur[i].id == id,
            None => !has_id(cur, id),
        },
    decreases cur.len(),
{
    if cur.len() > 0 {
        lemma_index_of_id(cur.drop_first(), id);
        if cur[0].id != id {
            if has_id(cur, id) {
                let j = choose|j: int| 0 <= j < cur.len() && #[trigger] cur[j].id == id;
                assert(cur.drop_first()[j - 1].id == id);
            }
        }
    }
}

proof fn lemma_replace_or_push(cur: Seq<RequirementView>, r: RequirementView)
    ensures
        replace_or_push(cur, r).len() >= cur.len(),
        forall|j: int|
            0 <= j < cur.len() && cur[j].id != r.id ==> #[trigger] replace_or_push(cur, r)[j]
                == cur[j],
        exists|i: int| 0 <= i < replace_or_push(cur, r).len() && #[trigger] replace_or_push(cur, r)[i] == r,
{
    lemma_index_of_id(cur, r.id);
    let n = replace_or_push(cur, r);
    match index_of_id(cur, r.id) {
        Some(i) => {
            assert(n[i] == r);
        },
        None => {
            assert(n[cur.len() as int] == r);
        },
    }
}

proof fn lemma_upsert_steps_keep(cur: Seq<RequirementView>, reqs: Seq<RequirementView>)
    requires
        upsert_steps(cur, reqs) is Ok,
    ensures
        upsert_steps(cur, reqs)->Ok_0.len() >= cur.len(),
        forall|j: int|
            0 <= j < cur.len() && !has_id(reqs, cur[j].id) ==> #[trigger] upsert_steps(
                cur,
                reqs,
            )->Ok_0[j] == cur[j],
        forall|k: int|
            0 <= k < reqs.len() ==> exists|i: int|
                0 <= i < upsert_steps(cur, reqs)->Ok_0.len() && #[trigger] upsert_steps(
                    cur,
                    reqs,
                )->Ok_0[i] == #[trigger] reqs[k],
    decreases reqs.len(),
{
    if reqs.len() > 0 {
        let earlier = reqs.drop_last();
        let r = reqs.last();
        lemma_upsert_steps_keep(cur, earlier);
        let c = upsert_steps(cur, earlier)->Ok_0;
        let out = upsert_steps(cur, reqs)->Ok_0;
        assert(out == replace_or_push(c, r));
        assert(!has_id(earlier, r.id));
        lemma_replace_or_push(c, r);
        assert forall|j: int| 0 <= j < cur.len() && !has_id(reqs, cur[j].id) implies #[trigger] out[j]
            == cur[j] by {
            if has_id(earlier, cur[j].id) {
                let m = choose|m: int| 0 <= m < earlier.len() && #[trigger] earlier[m].id == cur[j].id;
                assert(reqs[m].id == cur[j].id);
            }
            assert(c[j] == cur[j]);
            assert(reqs[reqs.len() - 1].id == r.id);
            assert(cur[j].id != r.id);
        }
        assert forall|k: int| 0 <= k < reqs.len() implies exists|i: int|
            0 <= i < out.len() && #[trigger] out[i] == #[trigger] reqs[k] by {
            if k < reqs.len() - 1 {
                assert(reqs[k] == earlier[k]);
                let i = choose|i: int| 0 <= i < c.len() && #[trigger] c[i] == #[trigger] earlier[k];
                assert(earlier[k].id != r.id);
                assert(out[i] == c[i]);
            } else {
                let i = choose|i: int| 0 <= i < out.len() && #[trigger] out[i] == r;
                assert(out[i] == reqs[k]);
            }
        }
    }
}

/// A successful upsert holds every requested requirement exactly as it
/// was requested, and keeps every requirement the request does not name
/// where it was, unchanged.
pub proof fn lemma_upsert_keeps_requests_and_others(m: MappingView, reqs: Seq<RequirementView>)
    requires
        upsert_spec(m, reqs) is Ok,
    ensures
        upsert_spec(m, reqs)->Ok_0.version == m.version,
        upsert_spec(m, reqs)->Ok_0.requirements.len() >= m.requirements.len(),
        forall|k: int|
            0 <= k < reqs.len() ==> exists|i: int|
                0 <= i < upsert_spec(m, reqs)->Ok_0.requirements.len() && #[trigger] upsert_spec(
                    m,
                    reqs,
                )->Ok_0.requirements[i] == #[trigger] reqs[k],
        forall|j: int|
            0 <= j < m.requirements.len() && !has_id(reqs, m.requirements[j].id)
                ==> #[trigger] upsert_spec(m, reqs)->Ok_0.requirements[j] == m.requirements[j],
{
    lemma_upsert_steps_keep(m.requirements, reqs);
    let rs = upsert_steps(m.requirements, reqs)->Ok_0;
    let out = upsert_spec(m, reqs)->Ok_0.requirements;
    assert(out == rs);
    assert forall|k: int| 0 <= k < reqs.len() implies exists|i: int|
        0 <= i < out.len() && #[trigger] out[i] == #[trigger] reqs[k] by {
        let i = choose|i: int| 0 <= i < rs.len() && #[trigger] rs[i] == #[trigger] reqs[k];
        assert(out[i] == reqs[k]);
    }
}

fn contains_string(v: &Vec<String>, s: &str) -> (r: bool)
    ensures
        r == strings_view(v@).contains(s@),
{
    let mut i: usize = 0;
    while i < v.len()
        invariant
            i <= v@.len(),
            forall|j: int| 0 <= j < i ==> v@[j]@ != s@,
        decreases v.len() - i,
    {
        if same_text(v[i].as_str(), s) {
            assert(strings_view(v@)[i as int] == s@);
            return true;
        }
        i = i + 1;
    }
    proof {
        if strings_view(v@).contains(s@) {
            let j = choose|j: int| 0 <= j < strings_view(v@).len() && strings_view(v@)[j] == s@;
            assert(v@[j]@ == s@);
        }
    }
    false
}

fn requirement_maps(r: &Requirement, file: &str, symbol: &str) -> (b: bool)
    ensures
        b == maps_symbol(r@, file@, symbol@),
{
    match &r.code {
        Some(c) => same_text(c.file.as_str(), file) && contains_string(&c.symbols, symbol),
        None => false,
    }
}

fn find_conflict(cur: &Vec<Requirement>, file: &str, symbol: &str, id: &str) -> (r: Option<String>)
    ensures
        match conflict_for(requirements_view(cur@), file@, symbol@, id@) {
            Some(o) => r matches Some(x) && x@ == o,
            None => r is None,
        },
{
    let ghost cv = requirements_view(cur@);
    let mut i: usize = 0;
    assert(cv.skip(0) =~= cv);
    while i < cur.len()
        invariant
            i <= cur@.len(),
            cv == requirements_view(cur@),
            conflict_for(cv, file@, symbol@, id@) == conflict_for(cv.skip(i as int), file@, symbol@, id@),
        decreases cur.len() - i,
    {
        assert(cv.skip(i as int)[0] == cur@[i as int]@);
        assert(cv.skip(i as int).drop_first() =~= cv.skip(i + 1));
        if !same_text(cur[i].id.as_str(), id) && requirement_maps(&cur[i], file, symbol) {
            return Some(copy_string(&cur[i].id));
        }
        i = i + 1;
    }
    assert(cv.skip(i as int) =~= Seq::<RequirementView>::empty());
    None
}

fn find_id(cur: &Vec<Requirement>, id: &str) -> (r: Option<usize>)
    ensures
        match r {
            Some(i) => index_of_id(requirements_view(cur@), id@) == Some(i as int),
            None => index_of_id(requirements_view(cur@), id@) is None,
        },
        r matches Some(i) ==> i < cur@.len(),
{
    let ghost cv = requirements_view(cur@);
    let mut i: usize = 0;
    assert(cv.skip(0) =~= cv);
    while i < cur.len()
        invariant
            i <= cur@.len(),
            cv == requirements_view(cur@),
            index_of_id(cv, id@) == match index_of_id(cv.skip(i as int), id@) {
                Some(j) => Some(j + i),
                None => None,
            },
        decreases cur.len() - i,
    {
        assert(cv.skip(i as int)[0] == cur@[i as int]@);
        assert(cv.skip(i as int).drop_first() =~= cv.skip(i + 1));
        if same_text(cur[i].id.as_str(), id) {
            return Some(i);
        }
        i = i + 1;
    }
    assert(cv.skip(i as int) =~= Seq::<RequirementView>::empty());
    None
}

proof fn lemma_upsert_steps_err_extends(cur: Seq<RequirementView>, reqs: Seq<RequirementView>, k: int)
    requires
        0 <= k <= reqs.len(),
        upsert_steps(cur, reqs.take(k)) is Err,
    ensures
        upsert_steps(cur, reqs) == upsert_steps(cur, reqs.take(k)),
    decreases reqs.len() - k,
{
    if k < reqs.len() {
        assert(reqs.take(k + 1).drop_last() =~= reqs.take(k));
        lemma_upsert_steps_err_extends(cur, reqs, k + 1);
    } else {
        assert(reqs.take(k) =~= reqs);
    }
}

fn upsert_one(
    cur: &mut Vec<Requirement>,
    earlier: &Vec<Requirement>,
    count: usize,
    r: &Requirement,
) -> (res: AuthoringResult<()>)
    requires
        count <= earlier@.len(),
    ensures
        match upsert_step(
            requirements_view(old(cur)@),
            requirements_view(earlier@.take(count as int)),
            r@,
        ) {
            Err(e) => res matches Err(x) && x@ == e,
            Ok(next) => res is Ok && requirements_view(final(cur)@) == next,
        },
{
    let ghost ev = requirements_view(earlier@.take(count as int));
    let mut j: usize = 0;
    while j < count
        invariant
            j <= count <= earlier@.len(),
            cur@ == old(cur)@,
            ev == requirements_view(earlier@.take(count as int)),
            forall|m: int| 0 <= m < j ==> ev[m].id != r@.id,
        decreases count - j,
    {
        assert(ev[j as int] == earlier@[j as int]@);
        if same_text(earlier[j].id.as_str(), r.id.as_str()) {
            proof {
                reveal_strlit("duplicate requirement id '");
                reveal_strlit("' in request");
                assert(ev[j as int].id == r@.id);
                assert(has_id(ev, r@.id));
            }
            return Err(
                error(
                    AuthoringErrorCode::Conflict,
                    concat3("duplicate requirement id '", r.id.as_str(), "' in request"),
                ),
            );
        }
        j = j + 1;
    }
    assert(!has_id(ev, r@.id));
    let ghost cv = requirements_view(cur@);
    if let Some(code) = &r.code {
        let mut k: usize = 0;
        assert(code@.symbols.take(0) =~= Seq::<Seq<char>>::empty());
        while k < code.symbols.len()
            invariant
                k <= code.symbols@.len(),
                cv == requirements_view(cur@),
                cv == requirements_view(old(cur)@),
                ev == requirements_view(earlier@.take(count as int)),
                !has_id(ev, r@.id),
                r.code == Some(*code),
                symbols_conflict(cv, r@.id, code@.file, code@.symbols.take(k as int)) is None,
            decreases code.symbols.len() - k,
        {
            let symbol = code.symbols[k].as_str();
            assert(code@.symbols.take(k + 1).drop_last() =~= code@.symbols.take(k as int));
            assert(code@.symbols.take(k + 1).last() == symbol@);
            match find_conflict(cur, code.file.as_str(), symbol, r.id.as_str()) {
                Some(owner) => {
                    proof {
                        reveal_strlit("::");
                        reveal_strlit(" is already mapped by requirement '");
                        reveal_strlit("'");
                        lemma_symbols_conflict_extends(cv, r@.id, code@.file, code@.symbols, (k + 1) as int);
                        assert(symbols_conflict(cv, r@.id, code@.file, code@.symbols) == Some(
                            (symbol@, owner@),
                        ));
                    }
                    let m = concat3(code.file.as_str(), "::", symbol);
                    let m = concat3(m.as_str(), " is already mapped by requirement '", owner.as_str());
                    let m = concat(m.as_str(), "'");
                    return Err(error(AuthoringErrorCode::Conflict, m));
                },
                None => {},
            }
            k = k + 1;
        }
        assert(code@.symbols.take(code.symbols@.len() as int) =~= code@.symbols);
    }
    assert(cv == requirements_view(old(cur)@));
    assert(!has_id(ev, r@.id));
    assert(r@.code matches Some(c) ==> symbols_conflict(cv, r@.id, c.file, c.symbols) is None);
    match find_id(cur, r.id.as_str()) {
        Some(i) => {
            cur.set(i, r.copied());
            assert(requirements_view(cur@) =~= cv.update(i as int, r@));
        },
        None => {
            cur.push(r.copied());
            assert(requirements_view(cur@) =~= cv.push(r@));
        },
    }
    assert(requirements_view(cur@) == replace_or_push(cv, r@));
    assert(upsert_step(cv, ev, r@) == Ok::<Seq<RequirementView>, AuthoringErrorView>(
        requirements_view(cur@),
    ));
    Ok(())
}

proof fn lemma_symbols_conflict_extends(
    cur: Seq<RequirementView>,
    id: Seq<char>,
    file: Seq<char>,
    symbols: Seq<Seq<char>>,
    k: int,
)
    requires
        0 <= k <= symbols.len(),
        symbols_conflict(cur, id, file, symbols.take(k)) is Some,
    ensures
        symbols_conflict(cur, id, file, symbols) == symbols_conflict(cur, id, file, symbols.take(k)),
    decreases symbols.len() - k,
{
    if k < symbols.len() {
        assert(symbols.take(k + 1).drop_last() =~= symbols.take(k));
        lemma_symbols_conflict_extends(cur, id, file, symbols, k + 1);
    } else {
        assert(symbols.take(k) =~= symbols);
    }
}

/// Merges the requested requirements into `mapping`: a requirement with a
/// known id replaces it, a new one is appended. The mapping must already be
/// free of repeated ids and doubly mapped symbols; a request that repeats an
/// id, or maps a symbol that another requirement maps, is refused; and the
/// merged mapping must be valid.
pub fn upsert_requirements(mapping: &Mapping, request: &UpsertRequirementsRequest) -> (r:
    AuthoringResult<Mapping>)
    ensures
        match upsert_spec(mapping@, requirements_view(request.requirements@)) {
            Err(e) => r matches Err(x) && x@ == e,
            Ok(m) => r matches Ok(x) && x@ == m,
        },
{
    if let Err(e) = validate_mapping_uniqueness(mapping) {
        return Err(e);
    }
    let reqs = &request.requirements;
    let ghost rv = requirements_view(reqs@);
    let ghost start = mapping@.requirements;
    let mut cur: Vec<Requirement> = Vec::new();
    let mut c: usize = 0;
    while c < mapping.requirements.len()
        invariant
            c <= mapping.requirements@.len(),
            cur@.len() == c,
            forall|m: int| 0 <= m < c ==> (#[trigger] cur@[m])@ == mapping.requirements@[m]@,
        decreases mapping.requirements.len() - c,
    {
        cur.push(mapping.requirements[c].copied());
        c = c + 1;
    }
    assert(requirements_view(cur@) =~= start);
    let mut i: usize = 0;
    assert(rv.take(0) =~= Seq::<RequirementView>::empty());
    while i < reqs.len()
        invariant
            i <= reqs@.len(),
            reqs@ == request.requirements@,
            rv == requirements_view(reqs@),
            start == mapping@.requirements,
            uniqueness_problem(start) is None,
            upsert_steps(start, rv.take(i as int)) == Ok::<Seq<RequirementView>, AuthoringErrorView>(
                requirements_view(cur@),
            ),
        decreases reqs.len() - i,
    {
        assert(rv.take(i + 1).drop_last() =~= rv.take(i as int));
        assert(rv.take(i + 1).last() == reqs@[i as int]@);
        assert(requirements_view(reqs@.take(i as int)) =~= rv.take(i as int));
        match upsert_one(&mut cur, reqs, i, &reqs[i]) {
            Err(e) => {
                proof {
                    assert(upsert_steps(start, rv.take(i + 1)) == Err::<
                        Seq<RequirementView>,
                        AuthoringErrorView,
                    >(e@));
                    lemma_upsert_steps_err_extends(start, rv, (i + 1) as int);
                }
                return Err(e);
            },
            Ok(()) => {},
        }
        i = i + 1;
    }
    assert(rv.take(reqs@.len() as int) =~= rv);
    let merged = Mapping { version: mapping.version, requirements: cur };
    match validate_mapping(&merged) {
        Err(message) => {
            proof {
                reveal_strlit("requirements are invalid: ");
            }
            Err(error(AuthoringErrorCode::Malformed, concat("requirements are invalid: ", message.as_str())))
        },
        Ok(()) => Ok(merged),
    }
}

/// A request to link a property-test module, with its complete body, to a
/// requirement.
#[derive(Debug, Clone, PartialEq, Eq)]
pub struct ScaffoldPropertyRequest {
    pub requirement_id: String,
    /// Complete caller-authored TypeScript property module body.
    pub body: String,
    pub symbol: Option<String>,
    pub mutation: MutationOptions,
}

/// Where the property module of a requirement lives.
pub open spec fn property_path_for(id: Seq<char>) -> Seq<char> {
    ".forall/scenarios/"@ + id + ".property.ts"@
}

/// The mapping after linking the property module of requirement `id`, and
/// the module's path; or why it cannot be linked. An empty body is refused
/// before the mapping is looked at.
pub open spec fn scaffold_property_spec(
    mapping: Result<MappingView, AuthoringErrorView>,
    id: Seq<char>,
    body: Seq<char>,
    symbol: Option<Seq<char>>,
) -> Result<(MappingView, Seq<char>), AuthoringErrorView> {
    if crate::bytes::trim(vstd::utf8::encode_utf8(body)).len() == 0 {
        Err(
            AuthoringErrorView {
                code: AuthoringErrorCode::Malformed,
                message: "property body must be supplied by the caller"@,
                path: None,
            },
        )
    } else {
        match mapping {
            Err(e) => Err(e),
            Ok(m) => match index_of_id(m.requirements, id) {
                None => Err(
                    AuthoringErrorView {
                        code: AuthoringErrorCode::NotFound,
                        message: "requirement '"@ + id + "' was not found"@,
                        path: None,
                    },
                ),
                Some(i) => {
                    let r = m.requirements[i];
                    let path = property_path_for(id);
                    if r.property matches Some(p) && (p.file != path || p.symbol != symbol) {
                        Err(
                            AuthoringErrorView {
                                code: AuthoringErrorCode::Conflict,
                                message: "requirement '"@ + id
                                    + "' already links a different property"@,
                                path: None,
                            },
                        )
                    } else if r.verified {
                        Err(
                            AuthoringErrorView {
                                code: AuthoringErrorCode::Conflict,
                                message: "a proved requirement cannot also be property-tested"@,
                                path: None,
                            },
                        )
                    } else {
                        let linked = RequirementView {
                            property_tested: true,
                            property: Some(PropertyRefView { file: path, symbol }),
                            ..r
                        };
                        let updated = MappingView {
                            version: m.version,
                            requirements: m.requirements.update(i, linked),
                        };
                        match mapping_problem(updated) {
                            Some(message) => Err(
                                AuthoringErrorView {
                                    code: AuthoringErrorCode::Malformed,
                                    message,
                                    path: None,
                                },
                            ),
                            None => Ok((updated, path)),
                        }
                    }
                },
            },
        }
    }
}

proof fn lemma_index_of_first_id(cur: Seq<RequirementView>, id: Seq<char>, i: int)
    requires
        0 <= i < cur.len(),
        cur[i].id == id,
        forall|j: int| 0 <= j < i ==> #[trigger] cur[j].id != id,
    ensures
        index_of_id(cur, id) == Some(i),
    decreases i,
{
    if i > 0 {
        let d = cur.drop_first();
        assert(cur[0].id != id);
        assert forall|j: int| 0 <= j < i - 1 implies #[trigger] d[j].id != id by {
            assert(d[j] == cur[j + 1]);
        }
        lemma_index_of_first_id(d, id, i - 1);
    }
}

/// Linking a property to a requirement that already links exactly that
/// property, at `.forall/scenarios/<id>.property.ts` with the requested
/// symbol, succeeds and leaves the mapping as it is, when the requirement is
/// not proved, the mapping is valid and the body is not blank.
pub proof fn lemma_relinking_the_same_property_succeeds(
    m: MappingView,
    id: Seq<char>,
    body: Seq<char>,
    symbol: Option<Seq<char>>,
    i: int,
)
    requires
        crate::bytes::trim(vstd::utf8::encode_utf8(body)).len() > 0,
        0 <= i < m.requirements.len(),
        m.requirements[i].id == id,
        forall|j: int| 0 <= j < i ==> #[trigger] m.requirements[j].id != id,
        m.requirements[i].property == Some(
            PropertyRefView { file: ".forall/scenarios/"@ + id + ".property.ts"@, symbol },
        ),
        m.requirements[i].property_tested,
        !m.requirements[i].verified,
        mapping_problem(m) is None,
    ensures
        scaffold_property_spec(Ok(m), id, body, symbol) == Ok::<
            (MappingView, Seq<char>),
            AuthoringErrorView,
        >((m, ".forall/scenarios/"@ + id + ".property.ts"@)),
{
    lemma_index_of_first_id(m.requirements, id, i);
    let r = m.requirements[i];
    let path = ".forall/scenarios/"@ + id + ".property.ts"@;
    let linked = RequirementView {
        property_tested: true,
        property: Some(PropertyRefView { file: path, symbol }),
        ..r
    };
    assert(linked == r);
    assert(m.requirements.update(i, linked) =~= m.requirements);
}

/// Linking the same property twice gives what linking it once gave: the
/// second call succeeds with the same mapping and path.
pub proof fn lemma_scaffold_property_twice(
    m: MappingView,
    id: Seq<char>,
    body: Seq<char>,
    symbol: Option<Seq<char>>,
)
    requires
        scaffold_property_spec(Ok(m), id, body, symbol) is Ok,
    ensures
        scaffold_property_spec(Ok(scaffold_property_spec(Ok(m), id, body, symbol)->Ok_0.0), id, body, symbol)
            == scaffold_property_spec(Ok(m), id, body, symbol),
{
    let i = index_of_id(m.requirements, id)->Some_0;
    lemma_index_of_id(m.requirements, id);
    let r = m.requirements[i];
    let path = property_path_for(id);
    let linked = RequirementView {
        property_tested: true,
        property: Some(PropertyRefView { file: path, symbol }),
        ..r
    };
    let m1 = MappingView { version: m.version, requirements: m.requirements.update(i, linked) };
    assert(scaffold_property_spec(Ok(m), id, body, symbol) == Ok::<
        (MappingView, Seq<char>),
        AuthoringErrorView,
    >((m1, path)));
    lemma_index_of_first_hit(m.requirements, id);
    assert forall|j: int| 0 <= j < i implies #[trigger] m1.requirements[j].id != id by {
        assert(m1.requirements[j] == m.requirements[j]);
    }
    lemma_relinking_the_same_property_succeeds(m1, id, body, symbol, i);
}

proof fn lemma_index_of_first_hit(cur: Seq<RequirementView>, id: Seq<char>)
    ensures
        index_of_id(cur, id) matches Some(i) ==> forall|j: int| 0 <= j < i ==> #[trigger] cur[j].id != id,
    decreases cur.len(),
{
    if cur.len() > 0 && cur[0].id != id {
        let d = cur.drop_first();
        lemma_index_of_first_hit(d, id);
        lemma_index_of_id(cur, id);
        lemma_index_of_id(d, id);
        if index_of_id(cur, id) is Some {
            let i = index_of_id(cur, id)->Some_0;
            assert forall|j: int| 0 <= j < i implies #[trigger] cur[j].id != id by {
                if j > 0 {
                    assert(cur[j] == d[j - 1]);
                }
            }
        }
    }
}

/// The view of what reading and parsing the mapping gave.
pub open spec fn mapping_result_view(m: AuthoringResult<Mapping>) -> Result<MappingView, AuthoringErrorView> {
    match m {
        Ok(x) => Ok(x@),
        Err(e) => Err(e@),
    }
}

/// Links the property module of `request` to its requirement, given what
/// reading and parsing the mapping gave: the requirement becomes
/// property-tested with its module at `.forall/scenarios/<id>.property.ts`.
/// Returns the updated mapping and the module's path. An empty body, an
/// unknown requirement, a different property already linked, or a proved
/// requirement is refused, as is an update that leaves the mapping invalid.
pub fn scaffold_property(mapping: AuthoringResult<Mapping>, request: &ScaffoldPropertyRequest) -> (r:
    AuthoringResult<(Mapping, String)>)
    ensures
        match scaffold_property_spec(
            mapping_result_view(mapping),
            request.requirement_id@,
            request.body@,
            crate::schema::opt_view(request.symbol),
        ) {
            Err(e) => r matches Err(x) && x@ == e,
            Ok((m, path)) => r matches Ok(x) && x.0@ == m && x.1@ == path,
        },
{
    let body = request.body.as_str().as_bytes();
    let (a, b) = trim_range(body, 0, body.len());
    assert(body@.subrange(0, body@.len() as int) =~= body@);
    if a == b {
        proof {
            reveal_strlit("property body must be supplied by the caller");
        }
        return Err(
            error(AuthoringErrorCode::Malformed, owned("property body must be supplied by the caller")),
        );
    }
    let m = match mapping {
        Err(e) => {
            return Err(e);
        },
        Ok(m) => m,
    };
    let id = request.requirement_id.as_str();
    let i = match find_id(&m.requirements, id) {
        None => {
            proof {
                reveal_strlit("requirement '");
                reveal_strlit("' was not found");
            }
            return Err(
                error(AuthoringErrorCode::NotFound, concat3("requirement '", id, "' was not found")),
            );
        },
        Some(i) => i,
    };
    let path = concat3(".forall/scenarios/", id, ".property.ts");
    proof {
        reveal_strlit(".forall/scenarios/");
        reveal_strlit(".property.ts");
    }
    let current = &m.requirements[i];
    let differs = match &current.property {
        Some(p) => !same_text(p.file.as_str(), path.as_str()) || !same_optional_text(&p.symbol, &request.symbol),
        None => false,
    };
    if differs {
        proof {
            reveal_strlit("requirement '");
            reveal_strlit("' already links a different property");
        }
        return Err(
            error(
                AuthoringErrorCode::Conflict,
                concat3("requirement '", id, "' already links a different property"),
            ),
        );
    }
    if current.verified {
        proof {
            reveal_strlit("a proved requirement cannot also be property-tested");
        }
        return Err(
            error(
                AuthoringErrorCode::Conflict,
                owned("a proved requirement cannot also be property-tested"),
            ),
        );
    }
    let mut linked = current.copied();
    linked.property_tested = true;
    linked.property = Some(
        PropertyRef { file: copy_string(&path), symbol: crate::schema::copy_opt_string(&request.symbol) },
    );
    let ghost before = requirements_view(m.requirements@);
    let Mapping { version, requirements } = m;
    let mut requirements = requirements;
    let ghost linked_view = linked@;
    requirements.set(i, linked);
    assert(requirements_view(requirements@) =~= before.update(i as int, linked_view));
    let updated = Mapping { version, requirements };
    match validate_mapping(&updated) {
        Err(message) => Err(error(AuthoringErrorCode::Malformed, message)),
        Ok(()) => Ok((updated, path)),
    }
}

fn same_optional_text(a: &Option<String>, b: &Option<String>) -> (r: bool)
    ensures
        r == (crate::schema::opt_view(*a) == crate::schema::opt_view(*b)),
{
    match (a, b) {
        (Some(x), Some(y)) => same_text(x.as_str(), y.as_str()),
        (None, None) => true,
        _ => false,
    }
}

/// How serious an authoring issue is.
#[derive(Debug, Clone, Copy, PartialEq, Eq, Structural)]
pub enum ValidationSeverity {
    Error,
    Warning,
}

/// A problem validation found: what it is, the file and the requirement it
/// is about.
#[derive(Debug, Clone, PartialEq, Eq)]
pub struct AuthoringIssue {
    pub severity: ValidationSeverity,
    pub message: String,
    pub path: Option<String>,
    pub requirement_id: Option<String>,
}

/// The mathematical model of an [`AuthoringIssue`].
pub struct AuthoringIssueView {
    pub severity: ValidationSeverity,
    pub message: Seq<char>,
    pub path: Option<Seq<char>>,
    pub requirement_id: Option<Seq<char>>,
}

impl View for AuthoringIssue {
    type V = AuthoringIssueView;

    open spec fn view(&self) -> AuthoringIssueView {
        AuthoringIssueView {
            severity: self.severity,
            message: self.message@,
            path: crate::schema::opt_view(self.path),
            requirement_id: crate::schema::opt_view(self.requirement_id),
        }
    }
}

/// The outcome of validation: valid exactly when no issue was found.
#[derive(Debug, Clone, PartialEq, Eq)]
pub struct ValidateAuthoringOutput {
    pub valid: bool,
    pub issues: Vec<AuthoringIssue>,
}

/// The views of a list of issues.
pub open spec fn issues_view(v: Seq<AuthoringIssue>) -> Seq<AuthoringIssueView> {
    v.map_values(|i: AuthoringIssue| i@)
}

/// The issue about requirement `r`.
pub open spec fn issue_spec(r: RequirementView, message: Seq<char>, path: Option<Seq<char>>) -> AuthoringIssueView {
    AuthoringIssueView {
        severity: ValidationSeverity::Error,
        message,
        path,
        requirement_id: Some(r.id),
    }
}

/// An error-level issue about requirement `req`.
pub fn issue(req: &Requirement, message: String, path: Option<String>) -> (r: AuthoringIssue)
    ensures
        r@ == issue_spec(req@, message@, crate::schema::opt_view(path)),
{
    AuthoringIssue {
        severity: ValidationSeverity::Error,
        message,
        path,
        requirement_id: Some(copy_string(&req.id)),
    }
}

/// What the file system says of a path a requirement names: whether it
/// resolves inside the project to a regular file (or why it does not
/// resolve), and for a code file that does, what reading it gave.
#[derive(Debug)]
pub struct PathFacts {
    pub path: String,
    pub resolved: AuthoringResult<bool>,
    pub content: Option<AuthoringResult<Vec<u8>>>,
}

/// The mathematical model of [`PathFacts`].
pub struct PathFactsView {
    pub path: Seq<char>,
    pub resolved: Result<bool, AuthoringErrorView>,
    pub content: Option<Result<Seq<u8>, AuthoringErrorView>>,
}

impl View for PathFacts {
    type V = PathFactsView;

    open spec fn view(&self) -> PathFactsView {
        PathFactsView {
            path: self.path@,
            resolved: match self.resolved {
                Ok(b) => Ok(b),
                Err(e) => Err(e@),
            },
            content: match self.content {
                Some(c) => Some(crate::discovery::content_view(c)),
                None => None,
            },
        }
    }
}

/// The views of a list of path facts.
pub open spec fn facts_view(v: Seq<PathFacts>) -> Seq<PathFactsView> {
    v.map_values(|f: PathFacts| f@)
}

/// The first facts given about `path`.
pub open spec fn fact_for(facts: Seq<PathFactsView>, path: Seq<char>) -> Option<PathFactsView>
    decreases facts.len(),
{
    if facts.len() == 0 {
        None
    } else if facts[0].path == path {
        Some(facts[0])
    } else {
        fact_for(facts.drop_first(), path)
    }
}

/// Facts for a code file: given, and with the content read when the path
/// is a regular file.
pub open spec fn code_fact_ok(f: Option<PathFactsView>) -> bool {
    match f {
        Some(x) => x.resolved == Ok::<bool, AuthoringErrorView>(true) ==> match x.content {
            Some(Ok(b)) => b.len() < usize::MAX,
            Some(Err(_)) => true,
            None => false,
        },
        None => false,
    }
}

/// Whether the facts tell of every path the requirement names, with the
/// content of each code file that is a regular file.
pub open spec fn facts_cover_requirement(r: RequirementView, facts: Seq<PathFactsView>) -> bool {
    &&& r.code matches Some(c) ==> code_fact_ok(fact_for(facts, c.file))
    &&& r.property matches Some(p) ==> fact_for(facts, p.file) is Some
}

/// Whether the facts tell of every path the mapping names.
pub open spec fn facts_cover(m: MappingView, facts: Seq<PathFactsView>) -> bool {
    forall|i: int| 0 <= i < m.requirements.len() ==> facts_cover_requirement(
        #[trigger] m.requirements[i],
        facts,
    )
}

/// Whether a discovered symbol goes by `s`, as its name or its selector.
pub open spec fn symbol_named(x: crate::symbols::DiscoveredSymbolView, s: Seq<char>) -> bool {
    x.name == s || x.symbol == s
}

/// The issues about the symbols of `c` that the file's symbols do not have.
pub open spec fn missing_symbol_issues(
    r: RequirementView,
    file: Seq<char>,
    wanted: Seq<Seq<char>>,
    found: Seq<crate::symbols::DiscoveredSymbolView>,
) -> Seq<AuthoringIssueView>
    decreases wanted.len(),
{
    if wanted.len() == 0 {
        Seq::empty()
    } else {
        let rest = missing_symbol_issues(r, file, wanted.drop_last(), found);
        let s = wanted.last();
        if exists|k: int| 0 <= k < found.len() && #[trigger] symbol_named(found[k], s) {
            rest
        } else {
            rest.push(issue_spec(r, "referenced symbol '"@ + s + "' is missing"@, Some(file)))
        }
    }
}

/// The issue about a requirement's property file, if any.
pub open spec fn property_issues(r: RequirementView, facts: Seq<PathFactsView>) -> Seq<AuthoringIssueView> {
    match r.property {
        Some(p) => match fact_for(facts, p.file) {
            Some(f) => match f.resolved {
                Ok(true) => Seq::empty(),
                Ok(false) => seq![issue_spec(r, "referenced property file is missing"@, Some(p.file))],
                Err(e) => seq![issue_spec(r, e.message, Some(p.file))],
            },
            None => Seq::empty(),
        },
        None => Seq::empty(),
    }
}

/// The issues about one requirement; a code file that does not resolve, or
/// is missing, ends its checks. Discovering the code file's symbols can fail.
#[verifier::opaque]
pub open spec fn requirement_issues(r: RequirementView, facts: Seq<PathFactsView>) -> Result<
    Seq<AuthoringIssueView>,
    AuthoringErrorView,
> {
    match r.code {
        Some(c) => match fact_for(facts, c.file) {
            Some(f) => match f.resolved {
                Err(e) => Ok(seq![issue_spec(r, e.message, Some(c.file))]),
                Ok(false) => Ok(seq![issue_spec(r, "referenced code file is missing"@, Some(c.file))]),
                Ok(true) => match f.content {
                    Some(content) => match crate::discovery::discover_spec(seq![c.file], seq![content]) {
                        Err(e) => Err(e),
                        Ok(out) => Ok(
                            missing_symbol_issues(r, c.file, c.symbols, out.symbols) + property_issues(
                                r,
                                facts,
                            ),
                        ),
                    },
                    None => Ok(property_issues(r, facts)),
                },
            },
            None => Ok(property_issues(r, facts)),
        },
        None => Ok(property_issues(r, facts)),
    }
}

/// The issues about the requirements, in order, or the first failure.
pub open spec fn validate_scan(reqs: Seq<RequirementView>, facts: Seq<PathFactsView>) -> Result<
    Seq<AuthoringIssueView>,
    AuthoringErrorView,
>
    decreases reqs.len(),
{
    if reqs.len() == 0 {
        Ok(Seq::empty())
    } else {
        match validate_scan(reqs.drop_last(), facts) {
            Err(e) => Err(e),
            Ok(issues) => match requirement_issues(reqs.last(), facts) {
                Err(e) => Err(e),
                Ok(more) => Ok(issues + more),
            },
        }
    }
}

/// What validating the mapping gives: an invalid mapping is an error; a
/// repetition of ids or symbols, and each missing file or symbol, is an
/// issue.
pub open spec fn validate_spec(m: MappingView, facts: Seq<PathFactsView>) -> Result<
    (bool, Seq<AuthoringIssueView>),
    AuthoringErrorView,
> {
    match mapping_problem(m) {
        Some(message) => Err(
            AuthoringErrorView {
                code: AuthoringErrorCode::Malformed,
                message: "mapping is invalid: "@ + message,
                path: Some(MAPPING_PATH@),
            },
        ),
        None => {
            let first = match uniqueness_problem(m.requirements) {
                Some(e) => seq![
                    AuthoringIssueView {
                        severity: ValidationSeverity::Error,
                        message: e.message,
                        path: Some(MAPPING_PATH@),
                        requirement_id: None,
                    },
                ],
                None => Seq::empty(),
            };
            match validate_scan(m.requirements, facts) {
                Err(e) => Err(e),
                Ok(issues) => Ok(((first + issues).len() == 0, first + issues)),
            }
        },
    }
}

proof fn lemma_validate_scan_holds(reqs: Seq<RequirementView>, facts: Seq<PathFactsView>, k: int)
    requires
        0 <= k < reqs.len(),
        validate_scan(reqs, facts) is Ok,
    ensures
        requirement_issues(reqs[k], facts) is Ok,
        forall|x: AuthoringIssueView|
            #[trigger] requirement_issues(reqs[k], facts)->Ok_0.contains(x) ==> validate_scan(
                reqs,
                facts,
            )->Ok_0.contains(x),
    decreases reqs.len(),
{
    let d = reqs.drop_last();
    let before = validate_scan(d, facts)->Ok_0;
    let all = validate_scan(reqs, facts)->Ok_0;
    if k < d.len() {
        lemma_validate_scan_holds(d, facts, k);
        assert(d[k] == reqs[k]);
        assert forall|x: AuthoringIssueView|
            #[trigger] requirement_issues(reqs[k], facts)->Ok_0.contains(x) implies all.contains(x) by {
            let i = choose|i: int| 0 <= i < before.len() && before[i] == x;
            assert(all[i] == before[i]);
        }
    } else {
        let more = requirement_issues(reqs.last(), facts)->Ok_0;
        assert forall|x: AuthoringIssueView| #[trigger] more.contains(x) implies all.contains(x) by {
            let i = choose|i: int| 0 <= i < more.len() && more[i] == x;
            assert(all[before.len() + i] == more[i]);
        }
    }
}

/// A requirement whose property file resolves but is not a regular file is
/// reported, with its id and that path, and the mapping is then not valid.
/// This holds whenever the requirement's code checks go on to its property:
/// it names no code file, or its code file is a regular file or not told of.
pub proof fn lemma_missing_property_file_is_reported(
    m: MappingView,
    facts: Seq<PathFactsView>,
    k: int,
)
    requires
        0 <= k < m.requirements.len(),
        validate_spec(m, facts) is Ok,
        m.requirements[k].property is Some,
        fact_for(facts, m.requirements[k].property->Some_0.file) is Some,
        fact_for(facts, m.requirements[k].property->Some_0.file)->Some_0.resolved == Ok::<
            bool,
            AuthoringErrorView,
        >(false),
        m.requirements[k].code is Some ==> (fact_for(facts, m.requirements[k].code->Some_0.file) is Some
            ==> fact_for(facts, m.requirements[k].code->Some_0.file)->Some_0.resolved == Ok::<
            bool,
            AuthoringErrorView,
        >(true)),
    ensures
        !validate_spec(m, facts)->Ok_0.0,
        validate_spec(m, facts)->Ok_0.1.contains(
            AuthoringIssueView {
                severity: ValidationSeverity::Error,
                message: "referenced property file is missing"@,
                path: Some(m.requirements[k].property->Some_0.file),
                requirement_id: Some(m.requirements[k].id),
            },
        ),
{
    let r = m.requirements[k];
    let p = r.property->Some_0;
    let want = AuthoringIssueView {
        severity: ValidationSeverity::Error,
        message: "referenced property file is missing"@,
        path: Some(p.file),
        requirement_id: Some(r.id),
    };
    assert(mapping_problem(m) is None);
    assert(validate_scan(m.requirements, facts) is Ok);
    lemma_validate_scan_holds(m.requirements, facts, k);
    reveal(requirement_issues);
    let more = requirement_issues(r, facts)->Ok_0;
    assert(property_issues(r, facts) == seq![want]);
    assert(more.contains(want)) by {
        match r.code {
            Some(c) => match fact_for(facts, c.file) {
                Some(f) => {
                    let ps = property_issues(r, facts);
                    match f.content {
                        Some(content) => {
                            let ms = more.len() - 1;
                            assert(more[ms] == want);
                        },
                        None => {
                            assert(more[0] == want);
                        },
                    }
                },
                None => {
                    assert(more[0] == want);
                },
            },
            None => {
                assert(more[0] == want);
            },
        }
    }
    let first = match uniqueness_problem(m.requirements) {
        Some(e) => seq![
            AuthoringIssueView {
                severity: ValidationSeverity::Error,
                message: e.message,
                path: Some(MAPPING_PATH@),
                requirement_id: None,
            },
        ],
        None => Seq::empty(),
    };
    let issues = validate_scan(m.requirements, facts)->Ok_0;
    assert(issues.contains(want));
    let i = choose|i: int| 0 <= i < issues.len() && issues[i] == want;
    assert((first + issues)[first.len() + i] == want);
}

/// A requirement whose property file cannot be resolved is reported, with
/// its id, that path and why resolving failed, and the mapping is then not
/// valid.
/// This holds whenever the requirement's code checks go on to its property:
/// it names no code file, or its code file is a regular file or not told of.
pub proof fn lemma_unresolvable_property_file_is_reported(
    m: MappingView,
    facts: Seq<PathFactsView>,
    k: int,
)
    requires
        0 <= k < m.requirements.len(),
        validate_spec(m, facts) is Ok,
        m.requirements[k].property is Some,
        fact_for(facts, m.requirements[k].property->Some_0.file) is Some,
        fact_for(facts, m.requirements[k].property->Some_0.file)->Some_0.resolved is Err,
        m.requirements[k].code is Some ==> (fact_for(facts, m.requirements[k].code->Some_0.file) is Some
            ==> fact_for(facts, m.requirements[k].code->Some_0.file)->Some_0.resolved == Ok::<
            bool,
            AuthoringErrorView,
        >(true)),
    ensures
        !validate_spec(m, facts)->Ok_0.0,
        validate_spec(m, facts)->Ok_0.1.contains(
            AuthoringIssueView {
                severity: ValidationSeverity::Error,
                message: fact_for(facts, m.requirements[k].property->Some_0.file)->Some_0.resolved->Err_0.message,
                path: Some(m.requirements[k].property->Some_0.file),
                requirement_id: Some(m.requirements[k].id),
            },
        ),
{
    let r = m.requirements[k];
    let p = r.property->Some_0;
    let want = AuthoringIssueView {
        severity: ValidationSeverity::Error,
        message: fact_for(facts, p.file)->Some_0.resolved->Err_0.message,
        path: Some(p.file),
        requirement_id: Some(r.id),
    };
    assert(mapping_problem(m) is None);
    assert(validate_scan(m.requirements, facts) is Ok);
    lemma_validate_scan_holds(m.requirements, facts, k);
    reveal(requirement_issues);
    let more = requirement_issues(r, facts)->Ok_0;
    assert(property_issues(r, facts) == seq![want]);
    assert(more.contains(want)) by {
        match r.code {
            Some(c) => match fact_for(facts, c.file) {
                Some(f) => {
                    let ps = property_issues(r, facts);
                    match f.content {
                        Some(content) => {
                            let ms = more.len() - 1;
                            assert(more[ms] == want);
                        },
                        None => {
                            assert(more[0] == want);
                        },
                    }
                },
                None => {
                    assert(more[0] == want);
                },
            },
            None => {
                assert(more[0] == want);
            },
        }
    }
    let first = match uniqueness_problem(m.requirements) {
        Some(e) => seq![
            AuthoringIssueView {
                severity: ValidationSeverity::Error,
                message: e.message,
                path: Some(MAPPING_PATH@),
                requirement_id: None,
            },
        ],
        None => Seq::empty(),
    };
    let issues = validate_scan(m.requirements, facts)->Ok_0;
    assert(issues.contains(want));
    let i = choose|i: int| 0 <= i < issues.len() && issues[i] == want;
    assert((first + issues)[first.len() + i] == want);
}

fn find_fact(facts: &Vec<PathFacts>, path: &str) -> (r: Option<usize>)
    ensures
        match r {
            Some(i) => i < facts@.len() && fact_for(facts_view(facts@), path@) == Some(facts@[i as int]@),
            None => fact_for(facts_view(facts@), path@) is None,
        },
{
    let ghost fv = facts_view(facts@);
    let mut i: usize = 0;
    assert(fv.skip(0) =~= fv);
    while i < facts.len()
        invariant
            i <= facts@.len(),
            fv == facts_view(facts@),
            fact_for(fv, path@) == fact_for(fv.skip(i as int), path@),
        decreases facts.len() - i,
    {
        assert(fv.skip(i as int)[0] == facts@[i as int]@);
        assert(fv.skip(i as int).drop_first() =~= fv.skip(i + 1));
        if same_text(facts[i].path.as_str(), path) {
            return Some(i);
        }
        i = i + 1;
    }
    assert(fv.skip(i as int) =~= Seq::<PathFactsView>::empty());
    None
}

fn missing_symbols(
    req: &Requirement,
    file: &String,
    wanted: &Vec<String>,
    found: &Vec<crate::symbols::DiscoveredSymbol>,
) -> (r: Vec<AuthoringIssue>)
    ensures
        issues_view(r@) == missing_symbol_issues(
            req@,
            file@,
            strings_view(wanted@),
            crate::symbols::symbols_view(found@),
        ),
{
    let ghost wv = strings_view(wanted@);
    let ghost sv = crate::symbols::symbols_view(found@);
    let mut out: Vec<AuthoringIssue> = Vec::new();
    let mut i: usize = 0;
    assert(wv.take(0) =~= Seq::<Seq<char>>::empty());
    assert(issues_view(out@) =~= Seq::<AuthoringIssueView>::empty());
    while i < wanted.len()
        invariant
            i <= wanted@.len(),
            wv == strings_view(wanted@),
            sv == crate::symbols::symbols_view(found@),
            issues_view(out@) == missing_symbol_issues(req@, file@, wv.take(i as int), sv),
        decreases wanted.len() - i,
    {
        let s = wanted[i].as_str();
        assert(wv.take(i + 1).drop_last() =~= wv.take(i as int));
        assert(wv.take(i + 1).last() == s@);
        let mut present = false;
        let mut k: usize = 0;
        while k < found.len()
            invariant
                k <= found@.len(),
                sv == crate::symbols::symbols_view(found@),
                present == exists|j: int| 0 <= j < k && #[trigger] symbol_named(sv[j], s@),
            decreases found.len() - k,
        {
            assert(sv[k as int] == found@[k as int]@);
            if same_text(found[k].name.as_str(), s) || same_text(found[k].symbol.as_str(), s) {
                assert(symbol_named(sv[k as int], s@));
                present = true;
            } else {
                assert(!symbol_named(sv[k as int], s@));
            }
            k = k + 1;
        }
        if !present {
            proof {
                reveal_strlit("referenced symbol '");
                reveal_strlit("' is missing");
            }
            let ghost before = issues_view(out@);
            let item = issue(
                req,
                concat3("referenced symbol '", s, "' is missing"),
                Some(copy_string(file)),
            );
            assert(item@ == issue_spec(req@, "referenced symbol '"@ + s@ + "' is missing"@, Some(file@)));
            out.push(item);
            assert(issues_view(out@) =~= before.push(
                issue_spec(req@, "referenced symbol '"@ + s@ + "' is missing"@, Some(file@)),
            ));
        }
        assert(sv.len() == found@.len());
        i = i + 1;
    }
    assert(wv.take(wanted@.len() as int) =~= wv);
    out
}

fn property_issue_list(req: &Requirement, facts: &Vec<PathFacts>) -> (r: Vec<AuthoringIssue>)
    requires
        req@.property matches Some(p) ==> fact_for(facts_view(facts@), p.file) is Some,
    ensures
        issues_view(r@) == property_issues(req@, facts_view(facts@)),
{
    let mut out: Vec<AuthoringIssue> = Vec::new();
    if let Some(p) = &req.property {
        let i = match find_fact(facts, p.file.as_str()) {
            Some(i) => i,
            None => {
                return out;
            },
        };
        match &facts[i].resolved {
            Ok(true) => {},
            Ok(false) => {
                proof {
                    reveal_strlit("referenced property file is missing");
                }
                out.push(
                    issue(
                        req,
                        owned("referenced property file is missing"),
                        Some(copy_string(&p.file)),
                    ),
                );
            },
            Err(e) => {
                out.push(issue(req, copy_string(&e.message), Some(copy_string(&p.file))));
            },
        }
    }
    assert(issues_view(out@) =~= property_issues(req@, facts_view(facts@)));
    out
}

fn append_issues(out: &mut Vec<AuthoringIssue>, more: Vec<AuthoringIssue>)
    ensures
        issues_view(final(out)@) == issues_view(old(out)@) + issues_view(more@),
{
    let ghost start = issues_view(out@);
    let mut i: usize = 0;
    while i < more.len()
        invariant
            i <= more@.len(),
            issues_view(out@) == start + issues_view(more@).take(i as int),
        decreases more.len() - i,
    {
        let ghost before = issues_view(out@);
        out.push(copy_issue(&more[i]));
        assert(issues_view(out@) =~= before.push(more@[i as int]@));
        assert(issues_view(more@).take(i + 1) =~= issues_view(more@).take(i as int).push(more@[i as int]@));
        assert(start + issues_view(more@).take(i + 1) =~= (start + issues_view(more@).take(i as int)).push(more@[i as int]@));
        i = i + 1;
    }
    assert(issues_view(more@).take(more@.len() as int) =~= issues_view(more@));
}

fn copy_issue(i: &AuthoringIssue) -> (r: AuthoringIssue)
    ensures
        r@ == i@,
{
    AuthoringIssue {
        severity: i.severity,
        message: copy_string(&i.message),
        path: crate::schema::copy_opt_string(&i.path),
        requirement_id: crate::schema::copy_opt_string(&i.requirement_id),
    }
}

fn requirement_issue_list(req: &Requirement, facts: &Vec<PathFacts>) -> (r: AuthoringResult<Vec<AuthoringIssue>>)
    requires
        facts_cover_requirement(req@, facts_view(facts@)),
    ensures
        match requirement_issues(req@, facts_view(facts@)) {
            Err(e) => r matches Err(x) && x@ == e,
            Ok(v) => r matches Ok(x) && issues_view(x@) == v,
        },
{
    reveal(requirement_issues);
    let code = match &req.code {
        None => {
            return Ok(property_issue_list(req, facts));
        },
        Some(c) => c,
    };
    let i = match find_fact(facts, code.file.as_str()) {
        None => {
            return Ok(property_issue_list(req, facts));
        },
        Some(i) => i,
    };
    let fact = &facts[i];
    match &fact.resolved {
        Err(e) => {
            let mut out: Vec<AuthoringIssue> = Vec::new();
            out.push(issue(req, copy_string(&e.message), Some(copy_string(&code.file))));
            assert(issues_view(out@) =~= seq![issue_spec(req@, e@.message, Some(code@.file))]);
            Ok(out)
        },
        Ok(false) => {
            proof {
                reveal_strlit("referenced code file is missing");
            }
            let mut out: Vec<AuthoringIssue> = Vec::new();
            out.push(issue(req, owned("referenced code file is missing"), Some(copy_string(&code.file))));
            assert(issues_view(out@) =~= seq![
                issue_spec(req@, "referenced code file is missing"@, Some(code@.file)),
            ]);
            Ok(out)
        },
        Ok(true) => {
            let content = match &fact.content {
                None => {
                    return Ok(property_issue_list(req, facts));
                },
                Some(c) => match c {
                    Ok(b) => Ok(b.clone()),
                    Err(e) => Err(e.copied()),
                },
            };
            let files = vec![copy_string(&code.file)];
            let contents = vec![content];
            assert(strings_view(files@) =~= seq![code@.file]);
            assert(crate::discovery::contents_view(contents@) =~= seq![fact@.content->Some_0]);
            let found = match crate::discovery::discover_symbols(&files, &contents) {
                Err(e) => {
                    return Err(e);
                },
                Ok(out) => out,
            };
            let mut out = missing_symbols(req, &code.file, &code.symbols, &found.symbols);
            let more = property_issue_list(req, facts);
            append_issues(&mut out, more);
            Ok(out)
        },
    }
}

proof fn lemma_validate_scan_err_extends(reqs: Seq<RequirementView>, facts: Seq<PathFactsView>, k: int)
    requires
        0 <= k <= reqs.len(),
        validate_scan(reqs.take(k), facts) is Err,
    ensures
        validate_scan(reqs, facts) == validate_scan(reqs.take(k), facts),
    decreases reqs.len() - k,
{
    if k < reqs.len() {
        assert(reqs.take(k + 1).drop_last() =~= reqs.take(k));
        lemma_validate_scan_err_extends(reqs, facts, k + 1);
    } else {
        assert(reqs.take(k) =~= reqs);
    }
}

/// Validates the mapping against the project, given what the file system
/// says of every path it names (`facts`): the mapping must be valid; a
/// repeated id or doubly mapped symbol, a code or property file that is
/// missing or does not resolve inside the project, and a mapped symbol the
/// code file does not declare are each reported as an issue.
pub fn validate_authoring(mapping: &Mapping, facts: &Vec<PathFacts>) -> (r: AuthoringResult<
    ValidateAuthoringOutput,
>)
    requires
        facts_cover(mapping@, facts_view(facts@)),
    ensures
        match validate_spec(mapping@, facts_view(facts@)) {
            Err(e) => r matches Err(x) && x@ == e,
            Ok((valid, issues)) => r matches Ok(o) && o.valid == valid && issues_view(o.issues@)
                == issues,
        },
{
    if let Err(message) = validate_mapping(mapping) {
        proof {
            reveal_strlit("mapping is invalid: ");
        }
        return Err(
            path_error(
                AuthoringErrorCode::Malformed,
                owned(MAPPING_PATH),
                concat("mapping is invalid: ", message.as_str()),
            ),
        );
    }
    let mut issues: Vec<AuthoringIssue> = Vec::new();
    if let Err(e) = validate_mapping_uniqueness(mapping) {
        issues.push(
            AuthoringIssue {
                severity: ValidationSeverity::Error,
                message: e.message,
                path: Some(owned(MAPPING_PATH)),
                requirement_id: None,
            },
        );
    }
    let ghost first = issues_view(issues@);
    assert(first == match uniqueness_problem(mapping@.requirements) {
        Some(e) => seq![
            AuthoringIssueView {
                severity: ValidationSeverity::Error,
                message: e.message,
                path: Some(MAPPING_PATH@),
                requirement_id: None,
            },
        ],
        None => Seq::<AuthoringIssueView>::empty(),
    });
    let reqs = &mapping.requirements;
    let ghost rv = requirements_view(reqs@);
    let ghost fv = facts_view(facts@);
    let mut i: usize = 0;
    assert(rv.take(0) =~= Seq::<RequirementView>::empty());
    assert(first + Seq::<AuthoringIssueView>::empty() =~= first);
    while i < reqs.len()
        invariant
            i <= reqs@.len(),
            reqs@ == mapping.requirements@,
            rv == requirements_view(reqs@),
            rv == mapping@.requirements,
            fv == facts_view(facts@),
            facts_cover(mapping@, fv),
            mapping_problem(mapping@) is None,
            first == match uniqueness_problem(mapping@.requirements) {
                Some(e) => seq![
                    AuthoringIssueView {
                        severity: ValidationSeverity::Error,
                        message: e.message,
                        path: Some(MAPPING_PATH@),
                        requirement_id: None,
                    },
                ],
                None => Seq::<AuthoringIssueView>::empty(),
            },
            validate_scan(rv.take(i as int), fv) matches Ok(found) && issues_view(issues@) == first
                + found,
        decreases reqs.len() - i,
    {
        assert(rv.take(i + 1).drop_last() =~= rv.take(i as int));
        assert(rv.take(i + 1).last() == reqs@[i as int]@);
        assert(facts_cover_requirement(rv[i as int], fv));
        let ghost found = validate_scan(rv.take(i as int), fv)->Ok_0;
        match requirement_issue_list(&reqs[i], facts) {
            Err(e) => {
                proof {
                    assert(validate_scan(rv.take(i + 1), fv) == Err::<
                        Seq<AuthoringIssueView>,
                        AuthoringErrorView,
                    >(e@));
                    lemma_validate_scan_err_extends(rv, fv, (i + 1) as int);
                }
                return Err(e);
            },
            Ok(more) => {
                let ghost mv = issues_view(more@);
                append_issues(&mut issues, more);
                assert(first + (found + mv) =~= (first + found) + mv);
            },
        }
        i = i + 1;
    }
    assert(rv.take(reqs@.len() as int) =~= rv);
    let valid = issues.len() == 0;
    Ok(ValidateAuthoringOutput { valid, issues })
}

/// The state of an authoring project: whether its mapping exists, the
/// mapping's fingerprint and size, the languages of its sources, and the
/// symbols the mapping names.
#[derive(Debug, Clone, PartialEq, Eq)]
pub struct ProjectStatus {
    pub initialized: bool,
    pub mapping_path: String,
    pub mapping_sha256: Option<String>,
    pub requirement_count: usize,
    pub languages: Vec<crate::scan::SourceLanguage>,
    pub mapped_symbols: Vec<String>,
    pub warnings: Vec<String>,
}

/// The mathematical model of a [`ProjectStatus`].
pub struct ProjectStatusView {
    pub initialized: bool,
    pub mapping_path: Seq<char>,
    pub mapping_sha256: Option<Seq<char>>,
    pub requirement_count: nat,
    pub languages: Seq<crate::scan::SourceLanguage>,
    pub mapped_symbols: Seq<Seq<char>>,
    pub warnings: Seq<Seq<char>>,
}

impl View for ProjectStatus {
    type V = ProjectStatusView;

    open spec fn view(&self) -> ProjectStatusView {
        ProjectStatusView {
            initialized: self.initialized,
            mapping_path: self.mapping_path@,
            mapping_sha256: crate::schema::opt_view(self.mapping_sha256),
            requirement_count: self.requirement_count as nat,
            languages: self.languages@,
            mapped_symbols: strings_view(self.mapped_symbols@),
            warnings: strings_view(self.warnings@),
        }
    }
}

/// The symbols the requirements map, each written `file::symbol`, in order.
pub open spec fn mapped_symbol_names(reqs: Seq<RequirementView>) -> Seq<Seq<char>>
    decreases reqs.len(),
{
    if reqs.len() == 0 {
        Seq::empty()
    } else {
        mapped_symbol_names(reqs.drop_last()) + match reqs.last().code {
            Some(c) => c.symbols.map_values(|s: Seq<char>| c.file + "::"@ + s),
            None => Seq::empty(),
        }
    }
}

/// The view of what reading and parsing the mapping gave.
pub open spec fn loaded_view(m: Option<AuthoringResult<(Vec<u8>, Mapping)>>) -> Option<
    Result<(Seq<u8>, MappingView), AuthoringErrorView>,
> {
    match m {
        None => None,
        Some(Err(e)) => Some(Err(e@)),
        Some(Ok((b, x))) => Some(Ok((b@, x@))),
    }
}

/// The view of the project's source files, or why they could not be listed.
pub open spec fn sources_view(s: AuthoringResult<Vec<String>>) -> Result<Seq<Seq<char>>, AuthoringErrorView> {
    match s {
        Ok(v) => Ok(strings_view(v@)),
        Err(e) => Err(e@),
    }
}

/// The status of a project, given its mapping (`None` when the file does
/// not exist; its bytes and parsed form, or why it could not be read) and
/// the listing of its sources.
pub open spec fn status_spec(
    mapping: Option<Result<(Seq<u8>, MappingView), AuthoringErrorView>>,
    sources: Result<Seq<Seq<char>>, AuthoringErrorView>,
) -> Result<ProjectStatusView, AuthoringErrorView> {
    match mapping {
        None => match sources {
            Err(e) => Err(e),
            Ok(files) => Ok(
                ProjectStatusView {
                    initialized: false,
                    mapping_path: MAPPING_PATH@,
                    mapping_sha256: None,
                    requirement_count: 0,
                    languages: crate::discovery::languages_present(files),
                    mapped_symbols: Seq::empty(),
                    warnings: Seq::empty(),
                },
            ),
        },
        Some(Err(e)) => Err(e),
        Some(Ok((bytes, m))) => match mapping_problem(m) {
            Some(message) => Err(
                AuthoringErrorView {
                    code: AuthoringErrorCode::Malformed,
                    message: "mapping is invalid: "@ + message,
                    path: Some(MAPPING_PATH@),
                },
            ),
            None => match sources {
                Err(e) => Err(e),
                Ok(files) => Ok(
                    ProjectStatusView {
                        initialized: true,
                        mapping_path: MAPPING_PATH@,
                        mapping_sha256: Some(crate::digest::sha256_hex_of(bytes)),
                        requirement_count: m.requirements.len(),
                        languages: crate::discovery::languages_present(files),
                        mapped_symbols: mapped_symbol_names(m.requirements),
                        warnings: Seq::empty(),
                    },
                ),
            },
        },
    }
}

/// The status of the project, given its mapping (`None` when the mapping
/// file does not exist; otherwise its bytes and parsed form, or why it could
/// not be read or parsed) and the listing of its source files.
pub fn project_status(
    mapping: Option<AuthoringResult<(Vec<u8>, Mapping)>>,
    sources: AuthoringResult<Vec<String>>,
) -> (r: AuthoringResult<ProjectStatus>)
    ensures
        match status_spec(loaded_view(mapping), sources_view(sources)) {
            Err(e) => r matches Err(x) && x@ == e,
            Ok(st) => r matches Ok(x) && x@ == st,
        },
{
    match mapping {
        None => {
            let files = match sources {
                Err(e) => {
                    return Err(e);
                },
                Ok(f) => f,
            };
            let st = ProjectStatus {
                initialized: false,
                mapping_path: owned(MAPPING_PATH),
                mapping_sha256: None,
                requirement_count: 0,
                languages: crate::discovery::detect_languages(&files),
                mapped_symbols: Vec::new(),
                warnings: Vec::new(),
            };
            assert(st@.mapped_symbols =~= Seq::<Seq<char>>::empty());
            assert(st@.warnings =~= Seq::<Seq<char>>::empty());
            Ok(st)
        },
        Some(Err(e)) => Err(e),
        Some(Ok((bytes, m))) => {
            if let Err(message) = validate_mapping(&m) {
                proof {
                    reveal_strlit("mapping is invalid: ");
                }
                return Err(
                    path_error(
                        AuthoringErrorCode::Malformed,
                        owned(MAPPING_PATH),
                        concat("mapping is invalid: ", message.as_str()),
                    ),
                );
            }
            let files = match sources {
                Err(e) => {
                    return Err(e);
                },
                Ok(f) => f,
            };
            let names = mapped_names(&m.requirements);
            let st = ProjectStatus {
                initialized: true,
                mapping_path: owned(MAPPING_PATH),
                mapping_sha256: Some(crate::digest::sha256(bytes.as_slice())),
                requirement_count: m.requirements.len(),
                languages: crate::discovery::detect_languages(&files),
                mapped_symbols: names,
                warnings: Vec::new(),
            };
            assert(st@.warnings =~= Seq::<Seq<char>>::empty());
            Ok(st)
        },
    }
}

fn mapped_names(reqs: &Vec<Requirement>) -> (r: Vec<String>)
    ensures
        strings_view(r@) == mapped_symbol_names(requirements_view(reqs@)),
{
    let ghost rv = requirements_view(reqs@);
    let mut out: Vec<String> = Vec::new();
    let mut i: usize = 0;
    assert(rv.take(0) =~= Seq::<RequirementView>::empty());
    assert(strings_view(out@) =~= Seq::<Seq<char>>::empty());
    proof {
        reveal_strlit("::");
    }
    while i < reqs.len()
        invariant
            i <= reqs@.len(),
            rv == requirements_view(reqs@),
            strings_view(out@) == mapped_symbol_names(rv.take(i as int)),
        decreases reqs.len() - i,
    {
        assert(rv.take(i + 1).drop_last() =~= rv.take(i as int));
        assert(rv.take(i + 1).last() == reqs@[i as int]@);
        let ghost before = strings_view(out@);
        if let Some(code) = &reqs[i].code {
            let ghost added = code@.symbols.map_values(|s: Seq<char>| code@.file + "::"@ + s);
            let mut k: usize = 0;
            assert(added.take(0) =~= Seq::<Seq<char>>::empty());
            assert(before + added.take(0) =~= before);
            while k < code.symbols.len()
                invariant
                    k <= code.symbols@.len(),
                    added == code@.symbols.map_values(|s: Seq<char>| code@.file + "::"@ + s),
                    strings_view(out@) == before + added.take(k as int),
                decreases code.symbols.len() - k,
            {
                let ghost prev = strings_view(out@);
                out.push(concat3(code.file.as_str(), "::", code.symbols[k].as_str()));
                assert(strings_view(out@) =~= prev.push(added[k as int]));
                assert(added.take(k + 1) =~= added.take(k as int).push(added[k as int]));
                assert(before + added.take(k + 1) =~= (before + added.take(k as int)).push(added[k as int]));
                k = k + 1;
            }
            assert(added.take(code.symbols@.len() as int) =~= added);
        } else {
            assert(before + Seq::<Seq<char>>::empty() =~= before);
        }
        i = i + 1;
    }
    assert(rv.take(reqs@.len() as int) =~= rv);
    out
}

} // verus!
