//! Planning file mutations: which files are created, updated or left alone,
//! with their fingerprints, and what may be written. A write is refused when
//! the file changed since the caller read it, or when an existing file would
//! be replaced without the caller naming the content it expects to replace.
use vstd::prelude::*;
use vstd::utf8::{decode_utf8, encode_utf8, valid_utf8};

use crate::bytes::{contains_crlf, has_crlf, range_equals};
use crate::digest::{sha256, sha256_hex_of};
use crate::errors::{path_error, AuthoringError, AuthoringErrorCode, AuthoringErrorView, AuthoringResult};
use crate::schema::{copy_opt_string, opt_view, strings_view};
use crate::text::{copy_string, owned, same_text};

verus! {

broadcast use vstd::string::group_string_axioms;

/// Where the requirement mapping lives, relative to the project root.
pub const MAPPING_PATH: &'static str = ".forall/verify/mapping.yaml";

/// Where the workflow configuration lives.
pub const WORKFLOW_CONFIG_PATH: &'static str = ".forall/workflow/config.yaml";

/// Where the agent guide lives.
pub const AGENTS_GUIDE_PATH: &'static str = ".forall/AGENTS.md";

/// The mapping a new project starts with.
pub const INITIAL_MAPPING: &'static str = "version: 1\nrequirements: []\n";

/// The workflow configuration a new project starts with.
pub const INITIAL_WORKFLOW_CONFIG: &'static str = "schema: forall\ncontext: |\n  This project uses Forall contracts and verification.\nrules:\n  verification:\n    - Keep verified requirements machine-checked before claiming success\n";

/// The agent guide a new project starts with.
pub const INITIAL_AGENTS_GUIDE: &'static str = "# Forall\n\nAuthor requirements and contracts locally, validate them, then run hosted Forall verification.\n";

/// Whether a mutation only reports what it would do or also writes.
#[derive(Debug, Clone, Copy, PartialEq, Eq, Structural)]
pub enum MutationMode {
    Preview,
    Apply,
}

/// How a mutation runs: its mode, and for each file the caller read, the
/// SHA-256 of the content the caller expects to replace.
#[derive(Debug, Clone, PartialEq, Eq)]
pub struct MutationOptions {
    pub mode: MutationMode,
    pub expected_sha256: Vec<(String, String)>,
}

/// The mathematical model of [`MutationOptions`].
pub struct MutationOptionsView {
    pub mode: MutationMode,
    pub expected_sha256: Seq<(Seq<char>, Seq<char>)>,
}

impl View for MutationOptions {
    type V = MutationOptionsView;

    open spec fn view(&self) -> MutationOptionsView {
        MutationOptionsView {
            mode: self.mode,
            expected_sha256: self.expected_sha256@.map_values(|e: (String, String)| (e.0@, e.1@)),
        }
    }
}

impl MutationOptionsView {
    /// The options are well formed when no path has two expected digests:
    /// they map each path to at most one digest.
    pub open spec fn well_formed(self) -> bool {
        forall|i: int, j: int|
            0 <= i < j < self.expected_sha256.len() ==> #[trigger] self.expected_sha256[i].0
                != #[trigger] self.expected_sha256[j].0
    }
}

impl MutationOptions {
    /// Whether no path has two expected digests.
    pub fn is_well_formed(&self) -> (r: bool)
        ensures
            r == self@.well_formed(),
    {
        let ghost ex = self@.expected_sha256;
        let n = self.expected_sha256.len();
        let mut j: usize = 0;
        while j < n
            invariant
                n == self.expected_sha256@.len(),
                ex == self@.expected_sha256,
                j <= n,
                forall|a: int, b: int| 0 <= a < b < j ==> #[trigger] ex[a].0 != #[trigger] ex[b].0,
            decreases n - j,
        {
            let mut i: usize = 0;
            while i < j
                invariant
                    n == self.expected_sha256@.len(),
                    ex == self@.expected_sha256,
                    i <= j < n,
                    forall|a: int| 0 <= a < i ==> #[trigger] ex[a].0 != ex[j as int].0,
                decreases j - i,
            {
                assert(ex[i as int].0 == self.expected_sha256@[i as int].0@);
                assert(ex[j as int].0 == self.expected_sha256@[j as int].0@);
                if same_text(self.expected_sha256[i].0.as_str(), self.expected_sha256[j].0.as_str()) {
                    assert(!self@.well_formed()) by {
                        assert(ex[i as int].0 == ex[j as int].0);
                    }
                    return false;
                }
                i = i + 1;
            }
            j = j + 1;
        }
        true
    }
}

impl Default for MutationOptions {
    fn default() -> (r: Self)
        ensures
            r.mode == MutationMode::Preview,
            r.expected_sha256@.len() == 0,
            r@.well_formed(),
    {
        MutationOptions { mode: MutationMode::Preview, expected_sha256: Vec::new() }
    }
}

/// What a mutation did, or would do, to one file.
#[derive(Debug, Clone, Copy, PartialEq, Eq, Structural)]
pub enum FileMutationAction {
    Created,
    Updated,
    Unchanged,
}

/// One file of a mutation: its action, its fingerprint before and after, and
/// in preview mode the proposed content.
#[derive(Debug, Clone, PartialEq, Eq)]
pub struct FileMutation {
    pub path: String,
    pub action: FileMutationAction,
    pub before_sha256: Option<String>,
    pub after_sha256: String,
    pub proposed_content: Option<String>,
}

/// The mathematical model of a [`FileMutation`].
pub struct FileMutationView {
    pub path: Seq<char>,
    pub action: FileMutationAction,
    pub before_sha256: Option<Seq<char>>,
    pub after_sha256: Seq<char>,
    pub proposed_content: Option<Seq<char>>,
}

impl View for FileMutation {
    type V = FileMutationView;

    open spec fn view(&self) -> FileMutationView {
        FileMutationView {
            path: self.path@,
            action: self.action,
            before_sha256: opt_view(self.before_sha256),
            after_sha256: self.after_sha256@,
            proposed_content: opt_view(self.proposed_content),
        }
    }
}

impl FileMutation {
    /// A field-for-field copy.
    pub fn copied(&self) -> (r: Self)
        ensures
            r@ == self@,
    {
        FileMutation {
            path: copy_string(&self.path),
            action: self.action,
            before_sha256: copy_opt_string(&self.before_sha256),
            after_sha256: copy_string(&self.after_sha256),
            proposed_content: copy_opt_string(&self.proposed_content),
        }
    }
}

/// The report of a mutation: the paths created, updated and left unchanged,
/// warnings, and each file's detail in order.
#[derive(Debug, Clone, PartialEq, Eq)]
pub struct MutationOutput {
    pub created: Vec<String>,
    pub updated: Vec<String>,
    pub unchanged: Vec<String>,
    pub warnings: Vec<String>,
    pub files: Vec<FileMutation>,
}

/// The mathematical model of a [`MutationOutput`].
pub struct MutationOutputView {
    pub created: Seq<Seq<char>>,
    pub updated: Seq<Seq<char>>,
    pub unchanged: Seq<Seq<char>>,
    pub warnings: Seq<Seq<char>>,
    pub files: Seq<FileMutationView>,
}

/// The views of a list of file mutations.
pub open spec fn files_view(v: Seq<FileMutation>) -> Seq<FileMutationView> {
    v.map_values(|f: FileMutation| f@)
}

impl View for MutationOutput {
    type V = MutationOutputView;

    open spec fn view(&self) -> MutationOutputView {
        MutationOutputView {
            created: strings_view(self.created@),
            updated: strings_view(self.updated@),
            unchanged: strings_view(self.unchanged@),
            warnings: strings_view(self.warnings@),
            files: files_view(self.files@),
        }
    }
}

impl Default for MutationOutput {
    fn default() -> (r: Self)
        ensures
            r.created@.len() == 0,
            r.updated@.len() == 0,
            r.unchanged@.len() == 0,
            r.warnings@.len() == 0,
            r.files@.len() == 0,
    {
        MutationOutput {
            created: Vec::new(),
            updated: Vec::new(),
            unchanged: Vec::new(),
            warnings: Vec::new(),
            files: Vec::new(),
        }
    }
}

/// A planned mutation: the report, and the files to write (path and
/// content), in order. In preview mode nothing is to be written.
#[derive(Debug, Clone, PartialEq, Eq)]
pub struct MutationPlan {
    pub output: MutationOutput,
    pub writes: Vec<(String, Vec<u8>)>,
}

/// The view of one write: path and content.
pub open spec fn writes_view(v: Seq<(String, Vec<u8>)>) -> Seq<(Seq<char>, Seq<u8>)> {
    v.map_values(|w: (String, Vec<u8>)| (w.0@, w.1@))
}

/// The view of what reading a file gave: its content, `None` when it does
/// not exist, or the error that stopped the read.
pub open spec fn read_view(r: AuthoringResult<Option<Vec<u8>>>) -> Result<
    Option<Seq<u8>>,
    AuthoringErrorView,
> {
    match r {
        Ok(Some(b)) => Ok(Some(b@)),
        Ok(None) => Ok(None),
        Err(e) => Err(e@),
    }
}

/// The views of a list of read outcomes.
pub open spec fn reads_view(v: Seq<AuthoringResult<Option<Vec<u8>>>>) -> Seq<
    Result<Option<Seq<u8>>, AuthoringErrorView>,
> {
    v.map_values(|r: AuthoringResult<Option<Vec<u8>>>| read_view(r))
}

/// The text `String::from_utf8_lossy` makes of a byte string.
pub uninterp spec fn utf8_lossy(bytes: Seq<u8>) -> Seq<char>;

/// Calls `String::from_utf8_lossy`. The contract claims that the result is
/// the named lossy decoding of `bytes` and, as the documentation says, that
/// valid UTF-8 is decoded unchanged. Which replacement characters stand for
/// invalid sequences is left to the name.
#[verifier::external_body]
fn lossy_text(bytes: &[u8]) -> (r: String)
    ensures
        r@ == utf8_lossy(bytes@),
        valid_utf8(bytes@) ==> r@ == decode_utf8(bytes@),
{
    String::from_utf8_lossy(bytes).into_owned()
}

/// The expected SHA-256 the options give for `path`: the first entry for it.
pub open spec fn expected_for(expected: Seq<(Seq<char>, Seq<char>)>, path: Seq<char>) -> Option<
    Seq<char>,
>
    decreases expected.len(),
{
    if expected.len() == 0 {
        None
    } else if expected[0].0 == path {
        Some(expected[0].1)
    } else {
        expected_for(expected.drop_first(), path)
    }
}

/// The SHA-256 of an optional content.
pub open spec fn opt_sha(content: Option<Seq<u8>>) -> Option<Seq<char>> {
    match content {
        Some(b) => Some(sha256_hex_of(b)),
        None => None,
    }
}

/// Message of a write whose file changed since it was read.
pub open spec fn changed_message() -> Seq<char> {
    "file changed since it was read"@
}

/// Message of a write that would replace a file without an expected SHA-256.
pub open spec fn unguarded_message() -> Seq<char> {
    "expected SHA-256 is required when updating an existing file"@
}

/// The outcome of writing `bytes` to `path` whose current content is
/// `existing`: the refusal, or the file's entry in the report.
pub open spec fn write_outcome(
    path: Seq<char>,
    bytes: Seq<u8>,
    existing: Option<Seq<u8>>,
    options: MutationOptionsView,
) -> Result<FileMutationView, AuthoringErrorView> {
    let stale = match expected_for(options.expected_sha256, path) {
        Some(expected) => if opt_sha(existing) != Some(expected) {
            Some(changed_message())
        } else {
            None
        },
        None => if existing is Some && existing != Some(bytes) {
            Some(unguarded_message())
        } else {
            None
        },
    };
    match stale {
        Some(message) => Err(
            AuthoringErrorView {
                code: AuthoringErrorCode::StaleContent,
                message,
                path: Some(path),
            },
        ),
        None => Ok(
            FileMutationView {
                path,
                action: match existing {
                    None => FileMutationAction::Created,
                    Some(current) => if current == bytes {
                        FileMutationAction::Unchanged
                    } else {
                        FileMutationAction::Updated
                    },
                },
                before_sha256: opt_sha(existing),
                after_sha256: sha256_hex_of(bytes),
                proposed_content: if options.mode == MutationMode::Preview {
                    Some(utf8_lossy(bytes))
                } else {
                    None
                },
            },
        ),
    }
}

/// The report entries of the writes, in order, or the first error: a failed
/// read or a refused write.
pub open spec fn plan_files(
    writes: Seq<(Seq<char>, Seq<u8>)>,
    reads: Seq<Result<Option<Seq<u8>>, AuthoringErrorView>>,
    options: MutationOptionsView,
) -> Result<Seq<FileMutationView>, AuthoringErrorView>
    decreases writes.len(),
{
    if writes.len() == 0 {
        Ok(Seq::empty())
    } else {
        match plan_files(writes.drop_last(), reads.take(writes.len() - 1), options) {
            Err(e) => Err(e),
            Ok(files) => match reads[writes.len() - 1] {
                Err(e) => Err(e),
                Ok(existing) => match write_outcome(
                    writes.last().0,
                    writes.last().1,
                    existing,
                    options,
                ) {
                    Err(e) => Err(e),
                    Ok(f) => Ok(files.push(f)),
                },
            },
        }
    }
}

/// The paths of the entries with `action`, in order.
pub open spec fn paths_with(files: Seq<FileMutationView>, action: FileMutationAction) -> Seq<
    Seq<char>,
>
    decreases files.len(),
{
    if files.len() == 0 {
        Seq::empty()
    } else {
        let r = paths_with(files.drop_last(), action);
        if files.last().action == action {
            r.push(files.last().path)
        } else {
            r
        }
    }
}

/// The writes whose content differs from what the file holds now.
pub open spec fn changed_writes(
    writes: Seq<(Seq<char>, Seq<u8>)>,
    reads: Seq<Result<Option<Seq<u8>>, AuthoringErrorView>>,
) -> Seq<(Seq<char>, Seq<u8>)>
    decreases writes.len(),
{
    if writes.len() == 0 {
        Seq::empty()
    } else {
        let r = changed_writes(writes.drop_last(), reads.take(writes.len() - 1));
        if reads[writes.len() - 1] == Ok::<Option<Seq<u8>>, AuthoringErrorView>(
            Some(writes.last().1),
        ) {
            r
        } else {
            r.push(writes.last())
        }
    }
}

/// The report made of a list of entries.
pub open spec fn output_of(files: Seq<FileMutationView>) -> MutationOutputView {
    MutationOutputView {
        created: paths_with(files, FileMutationAction::Created),
        updated: paths_with(files, FileMutationAction::Updated),
        unchanged: paths_with(files, FileMutationAction::Unchanged),
        warnings: Seq::empty(),
        files,
    }
}

fn bytes_equal(a: &[u8], b: &[u8]) -> (r: bool)
    ensures
        r == (a@ == b@),
{
    let r = range_equals(a, 0, a.len(), b);
    assert(a@.subrange(0, a@.len() as int) =~= a@);
    r
}

fn lookup_expected(expected: &Vec<(String, String)>, path: &str) -> (r: Option<String>)
    ensures
        opt_view(r) == expected_for(
            expected@.map_values(|e: (String, String)| (e.0@, e.1@)),
            path@,
        ),
{
    let ghost all = expected@.map_values(|e: (String, String)| (e.0@, e.1@));
    let mut i: usize = 0;
    assert(all.skip(0) =~= all);
    while i < expected.len()
        invariant
            i <= expected@.len(),
            all == expected@.map_values(|e: (String, String)| (e.0@, e.1@)),
            expected_for(all, path@) == expected_for(all.skip(i as int), path@),
        decreases expected.len() - i,
    {
        assert(all.skip(i as int)[0] == all[i as int]);
        assert(all.skip(i as int).drop_first() =~= all.skip(i + 1));
        if same_text(expected[i].0.as_str(), path) {
            return Some(copy_string(&expected[i].1));
        }
        i = i + 1;
    }
    assert(all.skip(i as int) =~= Seq::<(Seq<char>, Seq<char>)>::empty());
    None
}

fn opt_sha_exec(content: &Option<Vec<u8>>) -> (r: Option<String>)
    ensures
        opt_view(r) == opt_sha(
            match content {
                Some(b) => Some(b@),
                None => None,
            },
        ),
{
    match content {
        Some(b) => Some(sha256(b.as_slice())),
        None => None,
    }
}

/// Plans writing each `(path, content)` of `writes` given what reading each
/// file gave (`reads`, in the same order): every file gets its entry in the
/// report; in apply mode the plan lists the writes that change a file.
/// The first failed read, or the first write refused as stale, is the error.
pub fn plan_writes(
    writes: &Vec<(String, Vec<u8>)>,
    reads: &Vec<AuthoringResult<Option<Vec<u8>>>>,
    options: &MutationOptions,
) -> (r: AuthoringResult<MutationPlan>)
    requires
        writes@.len() == reads@.len(),
        options@.well_formed(),
    ensures
        match plan_files(writes_view(writes@), reads_view(reads@), options@) {
            Err(e) => r matches Err(x) && x@ == e,
            Ok(files) => r matches Ok(plan) && plan.output@ == output_of(files) && writes_view(
                plan.writes@,
            ) == if options.mode == MutationMode::Apply {
                changed_writes(writes_view(writes@), reads_view(reads@))
            } else {
                Seq::empty()
            },
        },
{
    let ghost ws = writes_view(writes@);
    let ghost rs = reads_view(reads@);
    let mut files: Vec<FileMutation> = Vec::new();
    let mut created: Vec<String> = Vec::new();
    let mut updated: Vec<String> = Vec::new();
    let mut unchanged: Vec<String> = Vec::new();
    let mut prepared: Vec<(String, Vec<u8>)> = Vec::new();
    let mut k: usize = 0;
    assert(ws.take(0) =~= Seq::<(Seq<char>, Seq<u8>)>::empty());
    assert(files_view(files@) =~= Seq::<FileMutationView>::empty());
    assert(strings_view(created@) =~= Seq::<Seq<char>>::empty());
    assert(strings_view(updated@) =~= Seq::<Seq<char>>::empty());
    assert(strings_view(unchanged@) =~= Seq::<Seq<char>>::empty());
    assert(writes_view(prepared@) =~= Seq::<(Seq<char>, Seq<u8>)>::empty());
    while k < writes.len()
        invariant
            k <= writes@.len(),
            writes@.len() == reads@.len(),
            ws == writes_view(writes@),
            rs == reads_view(reads@),
            plan_files(ws.take(k as int), rs.take(k as int), options@) == Ok::<
                Seq<FileMutationView>,
                AuthoringErrorView,
            >(files_view(files@)),
            strings_view(created@) == paths_with(files_view(files@), FileMutationAction::Created),
            strings_view(updated@) == paths_with(files_view(files@), FileMutationAction::Updated),
            strings_view(unchanged@) == paths_with(
                files_view(files@),
                FileMutationAction::Unchanged,
            ),
            writes_view(prepared@) == changed_writes(ws.take(k as int), rs.take(k as int)),
        decreases writes.len() - k,
    {
        let path = writes[k].0.as_str();
        let bytes = writes[k].1.as_slice();
        let ghost wk = ws.take(k + 1);
        let ghost rk = rs.take(k + 1);
        assert(wk.drop_last() =~= ws.take(k as int));
        assert(rk.take(k as int) =~= rs.take(k as int));
        assert(wk.last() == (path@, bytes@));
        assert(rk[k as int] == read_view(reads@[k as int]));
        let existing: &Option<Vec<u8>> = match &reads[k] {
            Err(e) => {
                proof {
                    assert(plan_files(wk, rk, options@) == Err::<
                        Seq<FileMutationView>,
                        AuthoringErrorView,
                    >(e@));
                    lemma_plan_files_err_extends(ws, rs, options@, (k + 1) as int);
                }
                return Err(e.copied());
            },
            Ok(x) => x,
        };
        let ghost ex: Option<Seq<u8>> = match existing {
            Some(b) => Some(b@),
            None => None,
        };
        assert(rk[k as int] == Ok::<Option<Seq<u8>>, AuthoringErrorView>(ex));
        let expected = lookup_expected(&options.expected_sha256, path);
        let before = opt_sha_exec(existing);
        let same = match existing {
            Some(current) => bytes_equal(current.as_slice(), bytes),
            None => false,
        };
        let refusal: Option<&'static str> = match &expected {
            Some(exp) => {
                let matches = match &before {
                    Some(b) => same_text(b.as_str(), exp.as_str()),
                    None => false,
                };
                if matches {
                    None
                } else {
                    Some("file changed since it was read")
                }
            },
            None => if existing.is_some() && !same {
                Some("expected SHA-256 is required when updating an existing file")
            } else {
                None
            },
        };
        if let Some(message) = refusal {
            proof {
                reveal_strlit("file changed since it was read");
                reveal_strlit("expected SHA-256 is required when updating an existing file");
                assert(plan_files(wk, rk, options@) is Err);
                lemma_plan_files_err_extends(ws, rs, options@, (k + 1) as int);
            }
            return Err(path_error(AuthoringErrorCode::StaleContent, owned(path), owned(message)));
        }
        let action = match existing {
            None => FileMutationAction::Created,
            Some(_) => if same {
                FileMutationAction::Unchanged
            } else {
                FileMutationAction::Updated
            },
        };
        let proposed = match options.mode {
            MutationMode::Preview => Some(lossy_text(bytes)),
            MutationMode::Apply => None,
        };
        let entry = FileMutation {
            path: owned(path),
            action,
            before_sha256: before,
            after_sha256: sha256(bytes),
            proposed_content: proposed,
        };
        let ghost before_files = files_view(files@);
        let ghost before_created = strings_view(created@);
        let ghost before_updated = strings_view(updated@);
        let ghost before_unchanged = strings_view(unchanged@);
        let ghost before_prepared = writes_view(prepared@);
        assert(write_outcome(path@, bytes@, ex, options@) == Ok::<
            FileMutationView,
            AuthoringErrorView,
        >(entry@));
        files.push(entry);
        assert(files_view(files@) =~= before_files.push(entry@));
        assert(files_view(files@).drop_last() =~= before_files);
        match action {
            FileMutationAction::Created => {
                created.push(owned(path));
                assert(strings_view(created@) =~= before_created.push(path@));
            },
            FileMutationAction::Updated => {
                updated.push(owned(path));
                assert(strings_view(updated@) =~= before_updated.push(path@));
            },
            FileMutationAction::Unchanged => {
                unchanged.push(owned(path));
                assert(strings_view(unchanged@) =~= before_unchanged.push(path@));
            },
        }
        if !same {
            prepared.push((owned(path), writes[k].1.clone()));
            assert(writes_view(prepared@) =~= before_prepared.push((path@, bytes@)));
        }
        k = k + 1;
    }
    assert(ws.take(writes@.len() as int) =~= ws);
    assert(rs.take(writes@.len() as int) =~= rs);
    let output = MutationOutput { created, updated, unchanged, warnings: Vec::new(), files };
    assert(output@.warnings =~= Seq::<Seq<char>>::empty());
    let to_write = match options.mode {
        MutationMode::Apply => prepared,
        MutationMode::Preview => Vec::new(),
    };
    assert(options.mode == MutationMode::Preview ==> writes_view(to_write@) =~= Seq::<
        (Seq<char>, Seq<u8>),
    >::empty());
    Ok(MutationPlan { output, writes: to_write })
}

proof fn lemma_plan_files_err_extends(
    ws: Seq<(Seq<char>, Seq<u8>)>,
    rs: Seq<Result<Option<Seq<u8>>, AuthoringErrorView>>,
    options: MutationOptionsView,
    k: int,
)
    requires
        0 <= k <= ws.len(),
        ws.len() == rs.len(),
        plan_files(ws.take(k), rs.take(k), options) is Err,
    ensures
        plan_files(ws, rs, options) == plan_files(ws.take(k), rs.take(k), options),
    decreases ws.len() - k,
{
    if k < ws.len() {
        let k1 = k + 1;
        assert(ws.take(k1).drop_last() =~= ws.take(k));
        assert(rs.take(k1).take(k) =~= rs.take(k));
        lemma_plan_files_err_extends(ws, rs, options, k1);
    } else {
        assert(ws.take(k) =~= ws);
        assert(rs.take(k) =~= rs);
    }
}

/// Every entry of a plan comes from a write whose read succeeded and which
/// was accepted: a plan exists only when no read failed and no write is
/// stale, and it reports the writes one for one, in order.
pub proof fn lemma_plan_accepts_every_write(
    writes: Seq<(Seq<char>, Seq<u8>)>,
    reads: Seq<Result<Option<Seq<u8>>, AuthoringErrorView>>,
    options: MutationOptionsView,
)
    requires
        writes.len() == reads.len(),
        plan_files(writes, reads, options) is Ok,
    ensures
        plan_files(writes, reads, options)->Ok_0.len() == writes.len(),
        forall|k: int|
            0 <= k < writes.len() ==> (#[trigger] reads[k]) is Ok && write_outcome(
                writes[k].0,
                writes[k].1,
                reads[k]->Ok_0,
                options,
            ) == Ok::<FileMutationView, AuthoringErrorView>(
                plan_files(writes, reads, options)->Ok_0[k],
            ),
    decreases writes.len(),
{
    if writes.len() > 0 {
        let n = writes.len() - 1;
        let w = writes.drop_last();
        let r = reads.take(n);
        lemma_plan_accepts_every_write(w, r, options);
        assert forall|k: int| 0 <= k < writes.len() implies (#[trigger] reads[k]) is Ok
            && write_outcome(writes[k].0, writes[k].1, reads[k]->Ok_0, options) == Ok::<
            FileMutationView,
            AuthoringErrorView,
        >(plan_files(writes, reads, options)->Ok_0[k]) by {
            if k < n {
                assert(r[k] == reads[k]);
                assert(w[k] == writes[k]);
            }
        }
    }
}

/// A write that is stale, or whose file could not be read, blocks the whole
/// plan: nothing is planned for any file.
pub proof fn lemma_refused_write_blocks_plan(
    writes: Seq<(Seq<char>, Seq<u8>)>,
    reads: Seq<Result<Option<Seq<u8>>, AuthoringErrorView>>,
    options: MutationOptionsView,
    k: int,
)
    requires
        writes.len() == reads.len(),
        0 <= k < writes.len(),
        reads[k] is Err || write_outcome(writes[k].0, writes[k].1, reads[k]->Ok_0, options) is Err,
    ensures
        plan_files(writes, reads, options) is Err,
{
    if plan_files(writes, reads, options) is Ok {
        lemma_plan_accepts_every_write(writes, reads, options);
    }
}

/// The files a new project starts with, and their initial contents.
pub open spec fn default_files() -> Seq<(Seq<char>, Seq<u8>)> {
    seq![
        (MAPPING_PATH@, encode_utf8(INITIAL_MAPPING@)),
        (WORKFLOW_CONFIG_PATH@, encode_utf8(INITIAL_WORKFLOW_CONFIG@)),
        (AGENTS_GUIDE_PATH@, encode_utf8(INITIAL_AGENTS_GUIDE@)),
    ]
}

/// The report entry of a file that is already there and is kept.
pub open spec fn kept_entry(path: Seq<char>, current: Seq<u8>) -> FileMutationView {
    FileMutationView {
        path,
        action: FileMutationAction::Unchanged,
        before_sha256: Some(sha256_hex_of(current)),
        after_sha256: sha256_hex_of(current),
        proposed_content: None,
    }
}

/// Going through the initial files in order: the entries of those already
/// there, and the writes for those missing; or the first failed read.
pub open spec fn init_scan(
    defaults: Seq<(Seq<char>, Seq<u8>)>,
    reads: Seq<Result<Option<Seq<u8>>, AuthoringErrorView>>,
) -> Result<(Seq<FileMutationView>, Seq<(Seq<char>, Seq<u8>)>), AuthoringErrorView>
    decreases defaults.len(),
{
    if defaults.len() == 0 {
        Ok((Seq::empty(), Seq::empty()))
    } else {
        let n = defaults.len() - 1;
        match init_scan(defaults.drop_last(), reads.take(n)) {
            Err(e) => Err(e),
            Ok((kept, writes)) => match reads[n] {
                Err(e) => Err(e),
                Ok(Some(current)) => Ok((kept.push(kept_entry(defaults[n].0, current)), writes)),
                Ok(None) => Ok((kept, writes.push(defaults[n]))),
            },
        }
    }
}

/// Reads of files that are not there.
pub open spec fn absent_reads(n: nat) -> Seq<Result<Option<Seq<u8>>, AuthoringErrorView>> {
    Seq::new(n, |i: int| Ok::<Option<Seq<u8>>, AuthoringErrorView>(None))
}

/// What initializing a project does, given what reading each initial file
/// gave: the files already there are kept unchanged, the missing ones are
/// planned as writes of their initial content.
pub open spec fn init_spec(
    reads: Seq<Result<Option<Seq<u8>>, AuthoringErrorView>>,
    options: MutationOptionsView,
) -> Result<(MutationOutputView, Seq<(Seq<char>, Seq<u8>)>), AuthoringErrorView> {
    match init_scan(default_files(), reads) {
        Err(e) => Err(e),
        Ok((kept, writes)) => match plan_files(writes, absent_reads(writes.len()), options) {
            Err(e) => Err(e),
            Ok(files) => Ok(
                (
                    MutationOutputView {
                        created: paths_with(files, FileMutationAction::Created),
                        updated: paths_with(files, FileMutationAction::Updated),
                        unchanged: kept.map_values(|f: FileMutationView| f.path),
                        warnings: Seq::empty(),
                        files: kept + files,
                    },
                    if options.mode == MutationMode::Apply {
                        writes
                    } else {
                        Seq::empty()
                    },
                ),
            ),
        },
    }
}

proof fn lemma_changed_writes_absent(writes: Seq<(Seq<char>, Seq<u8>)>)
    ensures
        changed_writes(writes, absent_reads(writes.len())) == writes,
    decreases writes.len(),
{
    if writes.len() > 0 {
        let n = (writes.len() - 1) as nat;
        assert(absent_reads(writes.len()).take(n as int) =~= absent_reads(n));
        lemma_changed_writes_absent(writes.drop_last());
        assert(writes.drop_last().push(writes.last()) =~= writes);
    }
}

proof fn lemma_init_scan_writes_missing(
    defaults: Seq<(Seq<char>, Seq<u8>)>,
    reads: Seq<Result<Option<Seq<u8>>, AuthoringErrorView>>,
)
    requires
        defaults.len() == reads.len(),
        init_scan(defaults, reads) is Ok,
    ensures
        forall|j: int|
            0 <= j < init_scan(defaults, reads)->Ok_0.1.len() ==> exists|i: int|
                0 <= i < defaults.len() && reads[i] == Ok::<Option<Seq<u8>>, AuthoringErrorView>(
                    None,
                ) && #[trigger] init_scan(defaults, reads)->Ok_0.1[j] == defaults[i],
    decreases defaults.len(),
{
    if defaults.len() > 0 {
        let n = defaults.len() - 1;
        let d = defaults.drop_last();
        let r = reads.take(n);
        lemma_init_scan_writes_missing(d, r);
        let prev = init_scan(d, r)->Ok_0.1;
        let cur = init_scan(defaults, reads)->Ok_0.1;
        assert forall|j: int| 0 <= j < cur.len() implies exists|i: int|
            0 <= i < defaults.len() && reads[i] == Ok::<Option<Seq<u8>>, AuthoringErrorView>(None)
                && #[trigger] cur[j] == defaults[i] by {
            if j < prev.len() {
                let i = choose|i: int|
                    0 <= i < d.len() && r[i] == Ok::<Option<Seq<u8>>, AuthoringErrorView>(None)
                        && #[trigger] prev[j] == d[i];
                assert(reads[i] == r[i]);
                assert(defaults[i] == d[i]);
                assert(cur[j] == prev[j]);
            } else {
                assert(cur[j] == defaults[n]);
            }
        }
    }
}

/// The initial files and their contents.
pub fn default_project_files() -> (r: Vec<(String, Vec<u8>)>)
    ensures
        writes_view(r@) == default_files(),
{
    let mut r: Vec<(String, Vec<u8>)> = Vec::new();
    r.push((owned(MAPPING_PATH), INITIAL_MAPPING.as_bytes_vec()));
    r.push((owned(WORKFLOW_CONFIG_PATH), INITIAL_WORKFLOW_CONFIG.as_bytes_vec()));
    r.push((owned(AGENTS_GUIDE_PATH), INITIAL_AGENTS_GUIDE.as_bytes_vec()));
    assert(writes_view(r@) =~= default_files());
    r
}

/// Initializes a project: given what reading each initial file gave (in the
/// order of [`default_project_files`]; `None` for a file that is not there),
/// keeps the files already there and plans writing the missing ones. An
/// existing file is never written.
pub fn init_project(
    reads: &Vec<AuthoringResult<Option<Vec<u8>>>>,
    options: &MutationOptions,
) -> (r: AuthoringResult<MutationPlan>)
    requires
        reads@.len() == default_files().len(),
        options@.well_formed(),
    ensures
        match init_spec(reads_view(reads@), options@) {
            Err(e) => r matches Err(x) && x@ == e,
            Ok((output, writes)) => r matches Ok(plan) && plan.output@ == output && writes_view(
                plan.writes@,
            ) == writes,
        },
        r matches Ok(plan) ==> forall|j: int|
            0 <= j < plan.writes@.len() ==> exists|i: int|
                0 <= i < default_files().len() && reads_view(reads@)[i] == Ok::<
                    Option<Seq<u8>>,
                    AuthoringErrorView,
                >(None) && #[trigger] writes_view(plan.writes@)[j] == default_files()[i],
{
    let defaults = default_project_files();
    let ghost ds = default_files();
    let ghost rs = reads_view(reads@);
    let mut kept: Vec<FileMutation> = Vec::new();
    let mut kept_paths: Vec<String> = Vec::new();
    let mut writes: Vec<(String, Vec<u8>)> = Vec::new();
    let mut i: usize = 0;
    assert(ds.take(0) =~= Seq::<(Seq<char>, Seq<u8>)>::empty());
    assert(files_view(kept@) =~= Seq::<FileMutationView>::empty());
    assert(writes_view(writes@) =~= Seq::<(Seq<char>, Seq<u8>)>::empty());
    while i < defaults.len()
        invariant
            i <= defaults@.len(),
            writes_view(defaults@) == ds,
            ds == default_files(),
            rs == reads_view(reads@),
            reads@.len() == ds.len(),
            init_scan(ds.take(i as int), rs.take(i as int)) == Ok::<
                (Seq<FileMutationView>, Seq<(Seq<char>, Seq<u8>)>),
                AuthoringErrorView,
            >((files_view(kept@), writes_view(writes@))),
            strings_view(kept_paths@) == files_view(kept@).map_values(|f: FileMutationView| f.path),
        decreases defaults.len() - i,
    {
        let path = defaults[i].0.as_str();
        let ghost dk = ds.take(i + 1);
        let ghost rk = rs.take(i + 1);
        assert(dk.drop_last() =~= ds.take(i as int));
        assert(rk.take(i as int) =~= rs.take(i as int));
        assert(dk[i as int] == ds[i as int]);
        assert(rk[i as int] == read_view(reads@[i as int]));
        match &reads[i] {
            Err(e) => {
                proof {
                    lemma_init_scan_err_extends(ds, rs, (i + 1) as int);
                }
                return Err(e.copied());
            },
            Ok(Some(current)) => {
                let sha = sha256(current.as_slice());
                let entry = FileMutation {
                    path: owned(path),
                    action: FileMutationAction::Unchanged,
                    before_sha256: Some(copy_string(&sha)),
                    after_sha256: sha,
                    proposed_content: None,
                };
                let ghost before = files_view(kept@);
                let ghost before_paths = strings_view(kept_paths@);
                assert(entry@ == kept_entry(ds[i as int].0, current@));
                kept.push(entry);
                kept_paths.push(owned(path));
                assert(files_view(kept@) =~= before.push(entry@));
                assert(strings_view(kept_paths@) =~= before_paths.push(path@));
                assert(files_view(kept@).map_values(|f: FileMutationView| f.path) =~= before.map_values(
                    |f: FileMutationView| f.path,
                ).push(path@));
            },
            Ok(None) => {
                let ghost before = writes_view(writes@);
                writes.push((owned(path), defaults[i].1.clone()));
                assert(writes_view(writes@) =~= before.push(ds[i as int]));
            },
        }
        i = i + 1;
    }
    assert(ds.take(3) =~= ds);
    assert(rs.take(3) =~= rs);
    let mut absent: Vec<AuthoringResult<Option<Vec<u8>>>> = Vec::new();
    let mut j: usize = 0;
    while j < writes.len()
        invariant
            j <= writes@.len(),
            absent@.len() == j,
            forall|m: int| 0 <= m < j ==> #[trigger] absent@[m] matches Ok(None),
        decreases writes.len() - j,
    {
        absent.push(Ok(None));
        j = j + 1;
    }
    assert(reads_view(absent@) =~= absent_reads(writes@.len()));
    let planned = match plan_writes(&writes, &absent, options) {
        Err(e) => {
            return Err(e);
        },
        Ok(p) => p,
    };
    proof {
        lemma_changed_writes_absent(writes_view(writes@));
        lemma_init_scan_writes_missing(ds, rs);
    }
    let MutationPlan { output, writes: to_write } = planned;
    let MutationOutput { created, updated, unchanged: _, warnings: _, files } = output;
    let ghost kept_files = files_view(kept@);
    let ghost plan_files_view = files_view(files@);
    let mut all = kept;
    let mut m: usize = 0;
    while m < files.len()
        invariant
            m <= files@.len(),
            files_view(files@) == plan_files_view,
            files_view(all@) == kept_files + plan_files_view.take(m as int),
        decreases files.len() - m,
    {
        let ghost before = files_view(all@);
        all.push(files[m].copied());
        assert(files_view(all@) =~= before.push(files@[m as int]@));
        assert(plan_files_view.take(m + 1) =~= plan_files_view.take(m as int).push(files@[m as int]@));
        assert(kept_files + plan_files_view.take(m + 1) =~= (kept_files + plan_files_view.take(m as int)).push(files@[m as int]@));
        m = m + 1;
    }
    assert(plan_files_view.take(files@.len() as int) =~= plan_files_view);
    let out = MutationOutput {
        created,
        updated,
        unchanged: kept_paths,
        warnings: Vec::new(),
        files: all,
    };
    assert(out@.warnings =~= Seq::<Seq<char>>::empty());
    Ok(MutationPlan { output: out, writes: to_write })
}

proof fn lemma_init_scan_err_extends(
    ds: Seq<(Seq<char>, Seq<u8>)>,
    rs: Seq<Result<Option<Seq<u8>>, AuthoringErrorView>>,
    k: int,
)
    requires
        0 <= k <= ds.len(),
        ds.len() == rs.len(),
        init_scan(ds.take(k), rs.take(k)) is Err,
    ensures
        init_scan(ds, rs) == init_scan(ds.take(k), rs.take(k)),
    decreases ds.len() - k,
{
    if k < ds.len() {
        assert(ds.take(k + 1).drop_last() =~= ds.take(k));
        assert(rs.take(k + 1).take(k) =~= rs.take(k));
        lemma_init_scan_err_extends(ds, rs, k + 1);
    } else {
        assert(ds.take(k) =~= ds);
        assert(rs.take(k) =~= rs);
    }
}

/// Initializing a project that already has every initial file writes
/// nothing, creates and updates nothing, and reports each initial file as
/// unchanged, in order.
pub proof fn lemma_init_is_idempotent(
    reads: Seq<Result<Option<Seq<u8>>, AuthoringErrorView>>,
    options: MutationOptionsView,
)
    requires
        reads.len() == default_files().len(),
        forall|i: int| 0 <= i < reads.len() ==> #[trigger] reads[i] matches Ok(Some(_)),
    ensures
        init_spec(reads, options) matches Ok((output, writes)) && writes.len() == 0
            && output.created.len() == 0 && output.updated.len() == 0 && output.unchanged
            == default_files().map_values(|d: (Seq<char>, Seq<u8>)| d.0),
{
    let ds = default_files();
    reveal_with_fuel(init_scan, 4);
    assert(reads[0] matches Ok(Some(_)));
    assert(reads[1] matches Ok(Some(_)));
    assert(reads[2] matches Ok(Some(_)));
    assert(ds.drop_last().drop_last().drop_last() =~= Seq::<(Seq<char>, Seq<u8>)>::empty());
    assert(reads.take(2).take(1).take(0) =~= Seq::<Result<Option<Seq<u8>>, AuthoringErrorView>>::empty());
    assert(reads.take(2)[1] == reads[1]);
    assert(reads.take(2).take(1)[0] == reads[0]);
    let scanned = init_scan(ds, reads);
    assert(scanned is Ok);
    let kept = scanned->Ok_0.0;
    assert(scanned->Ok_0.1.len() == 0);
    assert(plan_files(Seq::empty(), absent_reads(0), options) == Ok::<
        Seq<FileMutationView>,
        AuthoringErrorView,
    >(Seq::empty()));
    assert(scanned->Ok_0.1 =~= Seq::<(Seq<char>, Seq<u8>)>::empty());
    assert(kept.map_values(|f: FileMutationView| f.path) =~= ds.map_values(
        |d: (Seq<char>, Seq<u8>)| d.0,
    ));
}

/// `b` with every line feed preceded by a carriage return.
pub open spec fn crlf_endings(b: Seq<u8>) -> Seq<u8>
    decreases b.len(),
{
    if b.len() == 0 {
        b
    } else {
        let r = crlf_endings(b.drop_last());
        if b.last() == 0x0a {
            r + seq![0x0du8, 0x0au8]
        } else {
            r.push(b.last())
        }
    }
}

/// The bytes of `rendered`, with CRLF line endings when `existing` uses them.
pub open spec fn preserve_eol_spec(existing: Seq<u8>, rendered: Seq<char>) -> Seq<u8> {
    if has_crlf(existing) {
        crlf_endings(encode_utf8(rendered))
    } else {
        encode_utf8(rendered)
    }
}

/// The bytes of `rendered`, written with CRLF line endings when the file it
/// replaces (`existing`) uses them anywhere.
pub fn preserve_eol(existing: &[u8], rendered: &str) -> (r: Vec<u8>)
    ensures
        r@ == preserve_eol_spec(existing@, rendered@),
{
    let bytes = rendered.as_bytes();
    if !contains_crlf(existing) {
        return rendered.as_bytes_vec();
    }
    let mut out: Vec<u8> = Vec::new();
    let mut i: usize = 0;
    assert(bytes@.take(0) =~= Seq::<u8>::empty());
    while i < bytes.len()
        invariant
            i <= bytes@.len(),
            out@ == crlf_endings(bytes@.take(i as int)),
        decreases bytes.len() - i,
    {
        assert(bytes@.take(i + 1).drop_last() =~= bytes@.take(i as int));
        if bytes[i] == 0x0a {
            out.push(0x0d);
            out.push(0x0a);
        } else {
            out.push(bytes[i]);
        }
        i = i + 1;
    }
    assert(bytes@.take(bytes@.len() as int) =~= bytes@);
    out
}

} // verus!
