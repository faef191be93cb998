//! The dataset a run is measured against: the cases, the graders each case
//! declares, and the validation every dataset must pass before a model is
//! asked to do anything.

use vstd::prelude::*;
use crate::json::{Json, json_well_formed, well_formed_json};
use crate::text::{ascending, concatenated, is_ascending, same_text, texts, trim, trimmed};

verus! {

/// The schema that a dataset must declare.
pub const DATASET_SCHEMA: &'static str = "singularity.benchmark.dataset.v1";

/// A benchmark dataset.
pub struct Dataset {
    pub schema: String,
    pub id: String,
    pub version: String,
    pub description: String,
    pub cases: Vec<Case>,
}

/// One case: a fixture to copy, a stimulus for the model, and the graders
/// that judge what the model left behind. `allowed_paths` and `tags` are
/// sets, held in ascending order without repetition.
pub struct Case {
    pub id: String,
    pub fixture: String,
    pub stimulus: String,
    pub max_steps: u32,
    pub completion_points: u32,
    pub boundary_points: u32,
    pub completion_hard: bool,
    pub allowed_paths: Vec<String>,
    pub tags: Vec<String>,
    pub graders: Vec<Grader>,
}

/// A case as a parsed dataset holds it: its sets, its allowed paths and its
/// tags, are each held in strictly ascending order, and the JSON values its
/// graders expect are well formed.
pub open spec fn case_well_formed(c: Case) -> bool {
    &&& ascending(texts(c.allowed_paths@))
    &&& ascending(texts(c.tags@))
    &&& forall|i: int| 0 <= i < c.graders.len() ==> grader_well_formed(#[trigger] c.graders@[i])
}

/// The JSON value a grader expects, where it has one, is well formed.
pub open spec fn grader_well_formed(g: Grader) -> bool {
    match g {
        Grader::JsonEquals { expected, .. } => json_well_formed(expected),
        Grader::JsonContains { expected, .. } => json_well_formed(expected),
        _ => true,
    }
}

/// Whether a case is as a parsed dataset holds it (see `case_well_formed`).
pub fn well_formed_case(c: &Case) -> (r: bool)
    ensures
        r == case_well_formed(*c),
{
    if !is_ascending(&c.allowed_paths) || !is_ascending(&c.tags) {
        return false;
    }
    let mut i: usize = 0;
    while i < c.graders.len()
        invariant
            i <= c.graders.len(),
            forall|k: int| 0 <= k < i ==> grader_well_formed(#[trigger] c.graders@[k]),
        decreases c.graders.len() - i,
    {
        let fine = match &c.graders[i] {
            Grader::JsonEquals { expected, .. } => well_formed_json(expected),
            Grader::JsonContains { expected, .. } => well_formed_json(expected),
            _ => true,
        };
        if !fine {
            assert(!grader_well_formed(c.graders@[i as int]));
            return false;
        }
        i = i + 1;
    }
    true
}

/// A check of one file of the workspace.
pub enum Grader {
    FileEquals { id: String, path: String, content: String, points: u32, hard: bool },
    FileContains { id: String, path: String, needle: String, points: u32, hard: bool },
    FileAbsent { id: String, path: String, points: u32, hard: bool },
    JsonEquals { id: String, path: String, expected: Json, points: u32, hard: bool },
    JsonContains { id: String, path: String, expected: Json, points: u32, hard: bool },
}

/// The grader's identifier.
pub open spec fn grader_id(g: Grader) -> Seq<char> {
    match g {
        Grader::FileEquals { id, .. } => id@,
        Grader::FileContains { id, .. } => id@,
        Grader::FileAbsent { id, .. } => id@,
        Grader::JsonEquals { id, .. } => id@,
        Grader::JsonContains { id, .. } => id@,
    }
}

/// The workspace path that the grader reads.
pub open spec fn grader_path(g: Grader) -> Seq<char> {
    match g {
        Grader::FileEquals { path, .. } => path@,
        Grader::FileContains { path, .. } => path@,
        Grader::FileAbsent { path, .. } => path@,
        Grader::JsonEquals { path, .. } => path@,
        Grader::JsonContains { path, .. } => path@,
    }
}

/// The points the grader awards when it passes.
pub open spec fn grader_points(g: Grader) -> u32 {
    match g {
        Grader::FileEquals { points, .. } => points,
        Grader::FileContains { points, .. } => points,
        Grader::FileAbsent { points, .. } => points,
        Grader::JsonEquals { points, .. } => points,
        Grader::JsonContains { points, .. } => points,
    }
}

/// Whether a failure of the grader is a hard failure.
pub open spec fn grader_hard(g: Grader) -> bool {
    match g {
        Grader::FileEquals { hard, .. } => hard,
        Grader::FileContains { hard, .. } => hard,
        Grader::FileAbsent { hard, .. } => hard,
        Grader::JsonEquals { hard, .. } => hard,
        Grader::JsonContains { hard, .. } => hard,
    }
}

impl Grader {
    pub fn id(&self) -> (r: &str)
        ensures
            r@ == grader_id(*self),
    {
        match self {
            Grader::FileEquals { id, .. } | Grader::FileContains { id, .. } | Grader::FileAbsent {
                id,
                ..
            } | Grader::JsonEquals { id, .. } | Grader::JsonContains { id, .. } => id.as_str(),
        }
    }

    pub fn points(&self) -> (r: u32)
        ensures
            r == grader_points(*self),
    {
        match self {
            Grader::FileEquals { points, .. } | Grader::FileContains { points, .. }
            | Grader::FileAbsent { points, .. } | Grader::JsonEquals { points, .. }
            | Grader::JsonContains { points, .. } => *points,
        }
    }

    pub fn hard(&self) -> (r: bool)
        ensures
            r == grader_hard(*self),
    {
        match self {
            Grader::FileEquals { hard, .. } | Grader::FileContains { hard, .. }
            | Grader::FileAbsent { hard, .. } | Grader::JsonEquals { hard, .. }
            | Grader::JsonContains { hard, .. } => *hard,
        }
    }

    /// The workspace path that the grader reads.
    pub fn path(&self) -> (r: &str)
        ensures
            r@ == grader_path(*self),
    {
        match self {
            Grader::FileEquals { path, .. } | Grader::FileContains { path, .. }
            | Grader::FileAbsent { path, .. } | Grader::JsonEquals { path, .. }
            | Grader::JsonContains { path, .. } => path.as_str(),
        }
    }
}

/// Whether `c` separates the components of a path: `/` on every platform,
/// and `\\` as well where paths are Windows paths.
pub open spec fn path_separator(c: char, windows: bool) -> bool {
    c == '/' || (windows && c == '\\')
}

/// A `..` segment of `s` starts at `i`.
pub open spec fn parent_segment_at(s: Seq<char>, i: int, windows: bool) -> bool {
    &&& 0 <= i
    &&& i + 2 <= s.len()
    &&& s[i] == '.' && s[i + 1] == '.'
    &&& i == 0 || path_separator(s[i - 1], windows)
    &&& i + 2 == s.len() || path_separator(s[i + 2], windows)
}

/// `s` begins with a Windows drive prefix: an ASCII letter and `:`.
pub open spec fn drive_prefix(s: Seq<char>) -> bool {
    &&& s.len() >= 2
    &&& s[1] == ':'
    &&& ('a' <= s[0] <= 'z' || 'A' <= s[0] <= 'Z')
}

/// Whether `s`, read as a path, is relative and has only normal components:
/// it is not empty, does not start at a root (a separator) or, on Windows,
/// with a drive prefix, does not start with a `.` component, and has no `..`
/// component. (A `.` elsewhere, and an empty segment, are no components of a
/// path.) `windows` tells whether paths are read as on Windows.
pub open spec fn safe_relative_path(s: Seq<char>, windows: bool) -> bool {
    &&& s.len() > 0
    &&& !path_separator(s[0], windows)
    &&& !(s[0] == '.' && (s.len() == 1 || path_separator(s[1], windows)))
    &&& !(windows && drive_prefix(s))
    &&& forall|i: int| !#[trigger] parent_segment_at(s, i, windows)
}

/// The message with which an unsafe path is refused.
pub open spec fn unsafe_path_message(s: Seq<char>) -> Seq<char> {
    "unsafe relative path: "@ + s
}

/// A path that is safe when read as on Windows is safe on every platform.
pub proof fn lemma_windows_safe_is_safe(s: Seq<char>)
    requires
        safe_relative_path(s, true),
    ensures
        safe_relative_path(s, false),
{
    assert forall|i: int| !#[trigger] parent_segment_at(s, i, false) by {
        assert(!parent_segment_at(s, i, true));
    }
}

/// Whether `\\` separates path components on this machine: std's
/// `std::path::is_separator`, asked of `\\`. Its documentation says it tells
/// whether a character is one of the path separators of the current
/// platform, which `\\` is on Windows alone. The contract states nothing of
/// the result, which depends on the machine.
#[verifier::external_body]
fn is_platform_separator(c: char) -> (r: bool) {
    std::path::is_separator(c)
}

/// Accepts a path that is relative and has only normal components when read
/// as on Windows (`windows`) or elsewhere; refuses any other with a message
/// that names it.
pub fn safe_relative_on(value: &str, windows: bool) -> (r: Result<(), String>)
    ensures
        r is Ok <==> safe_relative_path(value@, windows),
        r matches Err(e) ==> e@ == unsafe_path_message(value@),
{
    let cs = crate::text::chars_of(value);
    let n = cs.len();
    let mut safe = n > 0 && !(cs[0] == '/' || (windows && cs[0] == '\\')) && !(cs[0] == '.' && (
    n == 1 || cs[1] == '/' || (windows && cs[1] == '\\'))) && !(windows && n >= 2 && cs[1] == ':'
        && (('a' <= cs[0] && cs[0] <= 'z') || ('A' <= cs[0] && cs[0] <= 'Z')));
    let mut i: usize = 0;
    while i < n && safe
        invariant
            cs@ == value@,
            n == cs.len(),
            i <= n,
            safe ==> (value@.len() > 0 && !path_separator(value@[0], windows) && !(value@[0] == '.'
                && (value@.len() == 1 || path_separator(value@[1], windows))) && !(windows
                && drive_prefix(value@))),
            safe ==> forall|k: int| 0 <= k < i ==> !#[trigger] parent_segment_at(value@, k, windows),
            !safe ==> !safe_relative_path(value@, windows),
        decreases n - i,
    {
        if n - i >= 2 && cs[i] == '.' && cs[i + 1] == '.' && (i == 0 || cs[i - 1] == '/' || (windows
            && cs[i - 1] == '\\')) && (i + 2 == n || cs[i + 2] == '/' || (windows && cs[i + 2]
            == '\\')) {
            assert(parent_segment_at(value@, i as int, windows));
            safe = false;
        }
        i = i + 1;
    }
    if safe {
        assert forall|k: int| !#[trigger] parent_segment_at(value@, k, windows) by {
            if 0 <= k < n {
            } else {
            }
        }
        Ok(())
    } else {
        Err(concatenated("unsafe relative path: ", value))
    }
}

/// Accepts a path that is relative and has only normal components as this
/// machine reads paths; refuses any other with a message that names it. A
/// path safe on Windows is accepted, and one accepted is safe on every
/// platform.
pub fn safe_relative(value: &str) -> (r: Result<(), String>)
    ensures
        (r is Ok <==> safe_relative_path(value@, false)) || (r is Ok <==> safe_relative_path(
            value@,
            true,
        )),
        safe_relative_path(value@, true) ==> r is Ok,
        r is Ok ==> safe_relative_path(value@, false),
        r matches Err(e) ==> e@ == unsafe_path_message(value@),
{
    let windows = is_platform_separator('\\');
    proof {
        if safe_relative_path(value@, true) {
            lemma_windows_safe_is_safe(value@);
        }
    }
    safe_relative_on(value, windows)
}

/// The first path of `paths` that is not a safe relative path, if any.
pub open spec fn first_unsafe(paths: Seq<Seq<char>>, windows: bool) -> Option<Seq<char>>
    decreases paths.len(),
{
    if paths.len() == 0 {
        None
    } else if !safe_relative_path(paths[0], windows) {
        Some(paths[0])
    } else {
        first_unsafe(paths.drop_first(), windows)
    }
}

/// The paths that a case's graders read.
pub open spec fn grader_paths(graders: Seq<Grader>) -> Seq<Seq<char>> {
    graders.map_values(|g: Grader| grader_path(g))
}

/// What is wrong with case `i` of `cases`, whose fixture is a directory when
/// `fixture_dirs[i]` holds, the cases before it being in order, paths read
/// as on Windows when `windows` holds.
pub open spec fn case_problem(cases: Seq<Case>, fixture_dirs: Seq<bool>, windows: bool, i: int) -> Option<
    Seq<char>,
> {
    let case = cases[i];
    if exists|k: int| 0 <= k < i && #[trigger] cases[k].id@ == case.id@ {
        Some("duplicate case id: "@ + case.id@)
    } else if case.max_steps == 0 || case.graders.len() == 0 {
        Some("case "@ + case.id@ + " has no budget or graders"@)
    } else if !fixture_dirs[i] {
        Some("case "@ + case.id@ + " fixture is not a directory"@)
    } else if first_unsafe(texts(case.allowed_paths@), windows) is Some {
        Some(unsafe_path_message(first_unsafe(texts(case.allowed_paths@), windows)->0))
    } else if first_unsafe(grader_paths(case.graders@), windows) is Some {
        Some(unsafe_path_message(first_unsafe(grader_paths(case.graders@), windows)->0))
    } else {
        None
    }
}

/// The problem of the first of the first `n` cases that has one.
pub open spec fn first_case_problem(cases: Seq<Case>, fixture_dirs: Seq<bool>, windows: bool, n: int) -> Option<
    Seq<char>,
>
    decreases n,
{
    if n <= 0 {
        None
    } else {
        match first_case_problem(cases, fixture_dirs, windows, n - 1) {
            Some(p) => Some(p),
            None => case_problem(cases, fixture_dirs, windows, n - 1),
        }
    }
}

/// What is wrong with a dataset, if anything: its schema, then its id,
/// version and cases, then each case in order.
pub open spec fn dataset_problem(d: Dataset, fixture_dirs: Seq<bool>, windows: bool) -> Option<Seq<char>> {
    if d.schema@ != DATASET_SCHEMA@ {
        Some("unsupported dataset schema: "@ + d.schema@)
    } else if trimmed(d.id@).len() == 0 || trimmed(d.version@).len() == 0 || d.cases.len() == 0 {
        Some("dataset id, version, and cases are required"@)
    } else {
        first_case_problem(d.cases@, fixture_dirs, windows, d.cases.len() as int)
    }
}

/// Once a case has a problem, it is the first problem of every longer prefix.
proof fn lemma_first_case_problem_settles(
    cases: Seq<Case>,
    fixture_dirs: Seq<bool>,
    windows: bool,
    i: int,
    n: int,
)
    requires
        0 <= i < n,
        first_case_problem(cases, fixture_dirs, windows, i) is None,
        case_problem(cases, fixture_dirs, windows, i) is Some,
    ensures
        first_case_problem(cases, fixture_dirs, windows, n) == case_problem(cases, fixture_dirs, windows, i),
    decreases n,
{
    if n > i + 1 {
        lemma_first_case_problem_settles(cases, fixture_dirs, windows, i, n - 1);
    }
}

/// The first path of `paths` that is unsafe, refused as `safe_relative` does.
fn check_paths(paths: &Vec<String>, windows: bool) -> (r: Result<(), String>)
    ensures
        r is Ok <==> first_unsafe(texts(paths@), windows) is None,
        r matches Err(e) ==> e@ == unsafe_path_message(first_unsafe(texts(paths@), windows)->0),
{
    let mut i: usize = 0;
    assert(texts(paths@).skip(0) == texts(paths@));
    while i < paths.len()
        invariant
            i <= paths.len(),
            first_unsafe(texts(paths@), windows) == first_unsafe(texts(paths@).skip(i as int), windows),
        decreases paths.len() - i,
    {
        assert(texts(paths@).skip(i as int)[0] == paths@[i as int]@);
        assert(texts(paths@).skip(i as int).drop_first() == texts(paths@).skip(i + 1));
        match safe_relative_on(paths[i].as_str(), windows) {
            Ok(()) => {},
            Err(e) => {
                return Err(e);
            },
        }
        i = i + 1;
    }
    Ok(())
}

/// The first grader path that is unsafe, refused as `safe_relative` does.
fn check_grader_paths(graders: &Vec<Grader>, windows: bool) -> (r: Result<(), String>)
    ensures
        r is Ok <==> first_unsafe(grader_paths(graders@), windows) is None,
        r matches Err(e) ==> e@ == unsafe_path_message(first_unsafe(grader_paths(graders@), windows)->0),
{
    let mut i: usize = 0;
    assert(grader_paths(graders@).skip(0) == grader_paths(graders@));
    while i < graders.len()
        invariant
            i <= graders.len(),
            first_unsafe(grader_paths(graders@), windows) == first_unsafe(
                grader_paths(graders@).skip(i as int),
                windows,
            ),
        decreases graders.len() - i,
    {
        assert(grader_paths(graders@).skip(i as int)[0] == grader_path(graders@[i as int]));
        assert(grader_paths(graders@).skip(i as int).drop_first() == grader_paths(graders@).skip(
            i + 1,
        ));
        match safe_relative_on(graders[i].path(), windows) {
            Ok(()) => {},
            Err(e) => {
                return Err(e);
            },
        }
        i = i + 1;
    }
    Ok(())
}

/// Checks a dataset before any model is run on it, paths read as on Windows
/// when `windows` holds. `fixture_dirs[i]` tells whether the fixture of case
/// `i` is a directory. The first problem found, in the order of
/// `dataset_problem`, is the error.
pub fn validate_dataset_on(dataset: &Dataset, fixture_dirs: &Vec<bool>, windows: bool) -> (r: Result<
    (),
    String,
>)
    requires
        fixture_dirs.len() == dataset.cases.len(),
        forall|i: int| 0 <= i < dataset.cases.len() ==> case_well_formed(#[trigger] dataset.cases@[i]),
    ensures
        r is Ok <==> dataset_problem(*dataset, fixture_dirs@, windows) is None,
        r matches Err(e) ==> e@ == dataset_problem(*dataset, fixture_dirs@, windows)->0,
        r is Ok <==> dataset_valid(*dataset, fixture_dirs@, windows),
{
    proof {
        lemma_valid_dataset(*dataset, fixture_dirs@, windows);
    }
    if !same_text(dataset.schema.as_str(), DATASET_SCHEMA) {
        return Err(concatenated("unsupported dataset schema: ", dataset.schema.as_str()));
    }
    if trim(dataset.id.as_str()).as_str().is_empty() || trim(dataset.version.as_str()).as_str().is_empty()
        || dataset.cases.len() == 0 {
        return Err("dataset id, version, and cases are required".to_owned());
    }
    let cases = &dataset.cases;
    let ghost problem = dataset_problem(*dataset, fixture_dirs@, windows);
    assert(problem == first_case_problem(cases@, fixture_dirs@, windows, cases.len() as int));
    let mut i: usize = 0;
    while i < cases.len()
        invariant
            problem == dataset_problem(*dataset, fixture_dirs@, windows),
            (problem is None <==> dataset_valid(*dataset, fixture_dirs@, windows)),
            problem == first_case_problem(cases@, fixture_dirs@, windows, cases.len() as int),
            fixture_dirs.len() == cases.len(),
            i <= cases.len(),
            first_case_problem(cases@, fixture_dirs@, windows, i as int) is None,
        decreases cases.len() - i,
    {
        let case = &cases[i];
        let mut k: usize = 0;
        while k < i
            invariant
                problem == dataset_problem(*dataset, fixture_dirs@, windows),
                (problem is None <==> dataset_valid(*dataset, fixture_dirs@, windows)),
                problem == first_case_problem(cases@, fixture_dirs@, windows, cases.len() as int),
                fixture_dirs.len() == cases.len(),
                first_case_problem(cases@, fixture_dirs@, windows, i as int) is None,
                case == cases@[i as int],
                k <= i < cases.len(),
                forall|q: int| 0 <= q < k ==> #[trigger] cases@[q].id@ != case.id@,
            decreases i - k,
        {
            if same_text(cases[k].id.as_str(), case.id.as_str()) {
                assert(cases@[k as int].id@ == case.id@);
                proof {
                    lemma_first_case_problem_settles(cases@, fixture_dirs@, windows, i as int, cases.len() as int);
                }
                return Err(concatenated("duplicate case id: ", case.id.as_str()));
            }
            k = k + 1;
        }
        proof {
            if case_problem(cases@, fixture_dirs@, windows, i as int) is Some {
                lemma_first_case_problem_settles(cases@, fixture_dirs@, windows, i as int, cases.len() as int);
            }
        }
        if case.max_steps == 0 || case.graders.len() == 0 {
            return Err(concatenated(concatenated("case ", case.id.as_str()).as_str(), " has no budget or graders"));
        }
        if !fixture_dirs[i] {
            return Err(
                concatenated(concatenated("case ", case.id.as_str()).as_str(), " fixture is not a directory"),
            );
        }
        match check_paths(&case.allowed_paths, windows) {
            Ok(()) => {},
            Err(e) => {
                return Err(e);
            },
        }
        match check_grader_paths(&case.graders, windows) {
            Ok(()) => {},
            Err(e) => {
                return Err(e);
            },
        }
        i = i + 1;
    }
    Ok(())
}

/// Whether `r` reports `problem`: `Ok` where there is none, else an error
/// that is the problem.
pub open spec fn reports(r: Result<(), String>, problem: Option<Seq<char>>) -> bool {
    match problem {
        None => r is Ok,
        Some(p) => r matches Err(e) && e@ == p,
    }
}

/// Checks a dataset before any model is run on it, paths read as this
/// machine reads them. `fixture_dirs[i]` tells whether the fixture of case
/// `i` is a directory. The error is the first problem found, in the order of
/// `dataset_problem`, with paths read as on Windows or as elsewhere.
pub fn validate_dataset(dataset: &Dataset, fixture_dirs: &Vec<bool>) -> (r: Result<(), String>)
    requires
        fixture_dirs.len() == dataset.cases.len(),
        forall|i: int| 0 <= i < dataset.cases.len() ==> case_well_formed(#[trigger] dataset.cases@[i]),
    ensures
        reports(r, dataset_problem(*dataset, fixture_dirs@, false)) || reports(
            r,
            dataset_problem(*dataset, fixture_dirs@, true),
        ),
        (r is Ok <==> dataset_valid(*dataset, fixture_dirs@, false)) || (r is Ok <==> dataset_valid(
            *dataset,
            fixture_dirs@,
            true,
        )),
        dataset_valid(*dataset, fixture_dirs@, true) ==> r is Ok,
        r is Ok ==> dataset_valid(*dataset, fixture_dirs@, false),
{
    proof {
        lemma_valid_dataset(*dataset, fixture_dirs@, false);
        lemma_valid_dataset(*dataset, fixture_dirs@, true);
        if dataset_valid(*dataset, fixture_dirs@, true) {
            lemma_windows_valid_is_valid(*dataset, fixture_dirs@);
        }
    }
    let windows = is_platform_separator('\\');
    validate_dataset_on(dataset, fixture_dirs, windows)
}

proof fn lemma_no_unsafe_path(paths: Seq<Seq<char>>, windows: bool)
    requires
        first_unsafe(paths, windows) is None,
    ensures
        forall|i: int| 0 <= i < paths.len() ==> safe_relative_path(#[trigger] paths[i], windows),
    decreases paths.len(),
{
    if paths.len() > 0 {
        lemma_no_unsafe_path(paths.drop_first(), windows);
        assert forall|i: int| 0 <= i < paths.len() implies safe_relative_path(#[trigger] paths[i], windows) by {
            if i > 0 {
                assert(paths[i] == paths.drop_first()[i - 1]);
            }
        }
    }
}

proof fn lemma_no_case_problem(cases: Seq<Case>, fixture_dirs: Seq<bool>, windows: bool, n: int, i: int)
    requires
        0 <= i < n,
        first_case_problem(cases, fixture_dirs, windows, n) is None,
    ensures
        case_problem(cases, fixture_dirs, windows, i) is None,
    decreases n,
{
    if n - 1 > i {
        lemma_no_case_problem(cases, fixture_dirs, windows, n - 1, i);
    }
}

/// Case `c` is valid, its fixture being a directory when `fixture_dir`
/// holds: it has a step budget and graders, a fixture directory, and only
/// safe relative paths, allowed or read by its graders.
pub open spec fn case_valid(c: Case, fixture_dir: bool, windows: bool) -> bool {
    &&& c.max_steps > 0
    &&& c.graders.len() > 0
    &&& fixture_dir
    &&& forall|k: int|
        0 <= k < c.allowed_paths.len() ==> safe_relative_path(#[trigger] c.allowed_paths@[k]@, windows)
    &&& forall|k: int|
        0 <= k < c.graders.len() ==> safe_relative_path(grader_path(#[trigger] c.graders@[k]), windows)
}

/// A dataset is valid: it declares the supported schema, has an id, a
/// version and cases, gives each case its own id, and each case is valid.
pub open spec fn dataset_valid(d: Dataset, fixture_dirs: Seq<bool>, windows: bool) -> bool {
    &&& d.schema@ == DATASET_SCHEMA@
    &&& trimmed(d.id@).len() > 0
    &&& trimmed(d.version@).len() > 0
    &&& d.cases.len() > 0
    &&& forall|i: int, j: int|
        0 <= i < j < d.cases.len() ==> #[trigger] d.cases@[i].id@ != #[trigger] d.cases@[j].id@
    &&& forall|i: int|
        0 <= i < d.cases.len() ==> case_valid(#[trigger] d.cases@[i], fixture_dirs[i], windows)
}

/// A dataset valid when paths are read as on Windows is valid on every
/// platform.
pub proof fn lemma_windows_valid_is_valid(d: Dataset, fixture_dirs: Seq<bool>)
    requires
        dataset_valid(d, fixture_dirs, true),
    ensures
        dataset_valid(d, fixture_dirs, false),
{
    assert forall|i: int| 0 <= i < d.cases.len() implies case_valid(
        #[trigger] d.cases@[i],
        fixture_dirs[i],
        false,
    ) by {
        let c = d.cases@[i];
        assert(case_valid(c, fixture_dirs[i], true));
        assert forall|k: int| 0 <= k < c.allowed_paths.len() implies safe_relative_path(
            #[trigger] c.allowed_paths@[k]@,
            false,
        ) by {
            lemma_windows_safe_is_safe(c.allowed_paths@[k]@);
        }
        assert forall|k: int| 0 <= k < c.graders.len() implies safe_relative_path(
            grader_path(#[trigger] c.graders@[k]),
            false,
        ) by {
            lemma_windows_safe_is_safe(grader_path(c.graders@[k]));
        }
    }
}

proof fn lemma_all_safe(paths: Seq<Seq<char>>, windows: bool)
    requires
        forall|i: int| 0 <= i < paths.len() ==> safe_relative_path(#[trigger] paths[i], windows),
    ensures
        first_unsafe(paths, windows) is None,
    decreases paths.len(),
{
    if paths.len() > 0 {
        assert(safe_relative_path(paths[0], windows));
        assert forall|i: int| 0 <= i < paths.drop_first().len() implies safe_relative_path(
            #[trigger] paths.drop_first()[i],
            windows,
        ) by {
            assert(paths.drop_first()[i] == paths[i + 1]);
        }
        lemma_all_safe(paths.drop_first(), windows);
    }
}

proof fn lemma_no_problem_before(cases: Seq<Case>, fixture_dirs: Seq<bool>, windows: bool, n: int)
    requires
        0 <= n <= cases.len(),
        forall|i: int| 0 <= i < n ==> #[trigger] case_problem(cases, fixture_dirs, windows, i) is None,
    ensures
        first_case_problem(cases, fixture_dirs, windows, n) is None,
    decreases n,
{
    if n > 0 {
        lemma_no_problem_before(cases, fixture_dirs, windows, n - 1);
        assert(case_problem(cases, fixture_dirs, windows, n - 1) is None);
    }
}

/// Validation finds no problem exactly when the dataset is valid: it
/// declares the supported schema, has an id, a version and cases, gives each
/// case its own id, a step budget and graders, a fixture directory, and only
/// safe relative paths.
pub proof fn lemma_valid_dataset(d: Dataset, fixture_dirs: Seq<bool>, windows: bool)
    requires
        fixture_dirs.len() == d.cases.len(),
    ensures
        dataset_problem(d, fixture_dirs, windows) is None <==> dataset_valid(d, fixture_dirs, windows),
{
    let cases = d.cases@;
    let n = cases.len() as int;
    if dataset_problem(d, fixture_dirs, windows) is None {
        assert forall|i: int, j: int|
            0 <= i < j < d.cases.len() implies #[trigger] d.cases@[i].id@ != #[trigger] d.cases@[j].id@ by {
            lemma_no_case_problem(cases, fixture_dirs, windows, n, j);
            if cases[i].id@ == cases[j].id@ {
                assert(exists|k: int| 0 <= k < j && #[trigger] cases[k].id@ == cases[j].id@);
            }
        }
        assert forall|i: int| 0 <= i < d.cases.len() implies case_valid(
            #[trigger] d.cases@[i],
            fixture_dirs[i],
            windows,
        ) by {
            lemma_no_case_problem(cases, fixture_dirs, windows, n, i);
            let c = cases[i];
            lemma_no_unsafe_path(texts(c.allowed_paths@), windows);
            lemma_no_unsafe_path(grader_paths(c.graders@), windows);
            assert forall|k: int| 0 <= k < c.allowed_paths.len() implies safe_relative_path(
                #[trigger] c.allowed_paths@[k]@,
                windows,
            ) by {
                assert(texts(c.allowed_paths@)[k] == c.allowed_paths@[k]@);
            }
            assert forall|k: int| 0 <= k < c.graders.len() implies safe_relative_path(
                grader_path(#[trigger] c.graders@[k]),
                windows,
            ) by {
                assert(grader_paths(c.graders@)[k] == grader_path(c.graders@[k]));
            }
        }
    }
    if dataset_valid(d, fixture_dirs, windows) {
        assert forall|i: int| 0 <= i < n implies #[trigger] case_problem(
            cases,
            fixture_dirs,
            windows,
            i,
        ) is None by {
            let c = cases[i];
            assert(case_valid(d.cases@[i], fixture_dirs[i], windows));
            if exists|k: int| 0 <= k < i && #[trigger] cases[k].id@ == c.id@ {
                let k = choose|k: int| 0 <= k < i && #[trigger] cases[k].id@ == c.id@;
                assert(d.cases@[k].id@ != d.cases@[i].id@);
            }
            assert forall|k: int| 0 <= k < texts(c.allowed_paths@).len() implies safe_relative_path(
                #[trigger] texts(c.allowed_paths@)[k],
                windows,
            ) by {
                assert(texts(c.allowed_paths@)[k] == c.allowed_paths@[k]@);
            }
            assert forall|k: int| 0 <= k < grader_paths(c.graders@).len() implies safe_relative_path(
                #[trigger] grader_paths(c.graders@)[k],
                windows,
            ) by {
                assert(grader_paths(c.graders@)[k] == grader_path(c.graders@[k]));
            }
            lemma_all_safe(texts(c.allowed_paths@), windows);
            lemma_all_safe(grader_paths(c.graders@), windows);
        }
        lemma_no_problem_before(cases, fixture_dirs, windows, n);
    }
}

} // verus!
