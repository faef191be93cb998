//! The model catalogue: finding the one jeden publishes, and choosing which
//! of its models this run measures.

use vstd::prelude::*;
use crate::text::{chars_of, concatenated, same_text, texts};

verus! {

pub struct Catalog {
    pub catalog_revision: String,
    pub degraded: bool,
    pub models: Vec<Model>,
}

pub struct Model {
    pub id: String,
    pub available: bool,
    pub tools: bool,
    pub unavailable_reason: Option<String>,
}

/// The value a model's `available` takes when the catalogue omits it.
pub fn default_true() -> (r: bool)
    ensures
        r,
{
    true
}

/// The prefix of the file names of cached catalogues.
pub const CACHE_PREFIX: &'static str = "brama-models-";

/// The extension of the file names of cached catalogues, with its dot.
pub const CACHE_SUFFIX: &'static str = ".json";

/// Whether a file name is that of a cached catalogue: it starts with
/// `brama-models-` and its extension is `json`.
pub open spec fn is_cache_name(name: Seq<char>) -> bool {
    &&& CACHE_PREFIX@.is_prefix_of(name)
    &&& CACHE_SUFFIX@.is_suffix_of(name)
}

/// Whether `name` is the file name of a cached catalogue.
pub fn is_catalog_cache(name: &str) -> (r: bool)
    ensures
        r == is_cache_name(name@),
{
    let cs = chars_of(name);
    let prefix = chars_of(CACHE_PREFIX);
    let suffix = chars_of(CACHE_SUFFIX);
    if cs.len() < prefix.len() || cs.len() < suffix.len() {
        return false;
    }
    let mut i: usize = 0;
    while i < prefix.len()
        invariant
            cs@ == name@,
            prefix@ == CACHE_PREFIX@,
            prefix.len() <= cs.len(),
            i <= prefix.len(),
            forall|k: int| 0 <= k < i ==> #[trigger] prefix@[k] == cs@[k],
        decreases prefix.len() - i,
    {
        if prefix[i] != cs[i] {
            return false;
        }
        i = i + 1;
    }
    assert(CACHE_PREFIX@.is_prefix_of(name@)) by {
        assert(name@.subrange(0, prefix@.len() as int) =~= prefix@);
    }
    let offset = cs.len() - suffix.len();
    let mut j: usize = 0;
    while j < suffix.len()
        invariant
            cs@ == name@,
            suffix@ == CACHE_SUFFIX@,
            offset + suffix.len() == cs.len(),
            j <= suffix.len(),
            forall|k: int| 0 <= k < j ==> #[trigger] suffix@[k] == cs@[offset + k],
        decreases suffix.len() - j,
    {
        if suffix[j] != cs[offset + j] {
            assert(!CACHE_SUFFIX@.is_suffix_of(name@)) by {
                if CACHE_SUFFIX@.is_suffix_of(name@) {
                    assert(name@.subrange(offset as int, name@.len() as int)[j as int] == cs@[offset + j]);
                }
            }
            return false;
        }
        j = j + 1;
    }
    assert(name@.subrange(offset as int, name@.len() as int) =~= suffix@);
    true
}

/// The order of modification times, where an unknown time comes first.
pub open spec fn time_le(a: Option<i128>, b: Option<i128>) -> bool {
    match (a, b) {
        (None, _) => true,
        (Some(_), None) => false,
        (Some(x), Some(y)) => x <= y,
    }
}

/// Entry `k` of `entries` (file names with modification times) is the
/// catalogue to read: a cache file, modified no earlier than any other, and
/// later in the listing than every other one modified at the same time.
pub open spec fn latest_cache(entries: Seq<(String, Option<i128>)>, k: int) -> bool {
    &&& 0 <= k < entries.len()
    &&& is_cache_name(entries[k].0@)
    &&& forall|i: int|
        #![trigger entries[i]]
        0 <= i < entries.len() && is_cache_name(entries[i].0@) ==> time_le(entries[i].1, entries[k].1)
    &&& forall|i: int|
        #![trigger entries[i]]
        k < i < entries.len() && is_cache_name(entries[i].0@) ==> !time_le(entries[k].1, entries[i].1)
}

fn time_at_most(a: Option<i128>, b: Option<i128>) -> (r: bool)
    ensures
        r == time_le(a, b),
{
    match (a, b) {
        (None, _) => true,
        (Some(_), None) => false,
        (Some(x), Some(y)) => x <= y,
    }
}

/// The position of the cached catalogue to read among the entries of the
/// cache directory, if there is one: the last modified cache file, the last
/// listed of those modified last.
pub fn latest_catalog_cache(entries: &Vec<(String, Option<i128>)>) -> (r: Option<usize>)
    ensures
        r matches Some(k) ==> latest_cache(entries@, k as int),
        r is None <==> forall|i: int|
            0 <= i < entries.len() ==> !is_cache_name(#[trigger] entries@[i].0@),
{
    let mut best: Option<usize> = None;
    let mut i: usize = 0;
    while i < entries.len()
        invariant
            i <= entries.len(),
            best is None ==> forall|q: int|
                0 <= q < i ==> !is_cache_name(#[trigger] entries@[q].0@),
            best matches Some(k) ==> {
                &&& k < i
                &&& is_cache_name(entries@[k as int].0@)
                &&& forall|q: int|
                    #![trigger entries@[q]]
                    0 <= q < i && is_cache_name(entries@[q].0@) ==> time_le(
                        entries@[q].1,
                        entries@[k as int].1,
                    )
                &&& forall|q: int|
                    #![trigger entries@[q]]
                    k < q < i && is_cache_name(entries@[q].0@) ==> !time_le(
                        entries@[k as int].1,
                        entries@[q].1,
                    )
            },
        decreases entries.len() - i,
    {
        if is_catalog_cache(entries[i].0.as_str()) {
            match best {
                None => {
                    best = Some(i);
                },
                Some(k) => {
                    if time_at_most(entries[k].1, entries[i].1) {
                        best = Some(i);
                    }
                },
            }
        }
        i = i + 1;
    }
    best
}

/// Entry `k` is the last model of `models` named `id`, the one that a map
/// from ids to models keeps.
pub open spec fn last_named(models: Seq<Model>, id: Seq<char>, k: int) -> bool {
    &&& 0 <= k < models.len()
    &&& models[k].id@ == id
    &&& forall|i: int| k < i < models.len() ==> #[trigger] models[i].id@ != id
}

/// Whether the model is one this run can measure.
pub open spec fn eligible(m: Model) -> bool {
    m.available && m.tools
}

/// The ids of the eligible models among the first `n`, in catalogue order.
pub open spec fn eligible_ids(models: Seq<Model>, n: int) -> Seq<Seq<char>>
    decreases n,
{
    if n <= 0 {
        Seq::empty()
    } else if eligible(models[n - 1]) {
        eligible_ids(models, n - 1).push(models[n - 1].id@)
    } else {
        eligible_ids(models, n - 1)
    }
}

/// Why the model requested as `id` cannot be measured, if it cannot.
pub open spec fn request_problem(models: Seq<Model>, id: Seq<char>) -> Option<Seq<char>> {
    if !exists|k: int| #[trigger] last_named(models, id, k) {
        Some("requested model is absent from the catalog: "@ + id)
    } else {
        let m = models[choose|k: int| #[trigger] last_named(models, id, k)];
        if !m.available {
            Some(
                "requested model is unavailable: "@ + id + ": "@ + match m.unavailable_reason {
                    Some(reason) => reason@,
                    None => "no reason"@,
                },
            )
        } else if !m.tools {
            Some("requested model does not support tools: "@ + id)
        } else {
            None
        }
    }
}

/// The problem of the first of the first `n` requests that has one.
pub open spec fn first_request_problem(models: Seq<Model>, requested: Seq<Seq<char>>, n: int) -> Option<Seq<char>>
    decreases n,
{
    if n <= 0 {
        None
    } else {
        match first_request_problem(models, requested, n - 1) {
            Some(p) => Some(p),
            None => request_problem(models, requested[n - 1]),
        }
    }
}

/// The first `n` requests, each once, in the order of first request.
pub open spec fn distinct_requests(requested: Seq<Seq<char>>, n: int) -> Seq<Seq<char>>
    decreases n,
{
    if n <= 0 {
        Seq::empty()
    } else if distinct_requests(requested, n - 1).contains(requested[n - 1]) {
        distinct_requests(requested, n - 1)
    } else {
        distinct_requests(requested, n - 1).push(requested[n - 1])
    }
}

/// What `select_models` answers: with no request, every eligible model of
/// the catalogue; otherwise the requests, each once, or the problem of the
/// first request that cannot be measured.
pub open spec fn selection(models: Seq<Model>, requested: Seq<Seq<char>>) -> Result<Seq<Seq<char>>, Seq<char>> {
    if requested.len() == 0 {
        Ok(eligible_ids(models, models.len() as int))
    } else {
        match first_request_problem(models, requested, requested.len() as int) {
            Some(p) => Err(p),
            None => Ok(distinct_requests(requested, requested.len() as int)),
        }
    }
}

/// The position of the last model named `id`, if any.
fn find_last_named(models: &Vec<Model>, id: &String) -> (r: Option<usize>)
    ensures
        r matches Some(k) ==> last_named(models@, id@, k as int),
        r is None ==> !exists|k: int| #[trigger] last_named(models@, id@, k),
{
    let mut i: usize = models.len();
    while i > 0
        invariant
            i <= models.len(),
            forall|q: int| i <= q < models.len() ==> #[trigger] models@[q].id@ != id@,
        decreases i,
    {
        if same_text(models[i - 1].id.as_str(), id.as_str()) {
            return Some(i - 1);
        }
        i = i - 1;
    }
    None
}

/// Whether `v` holds `id`.
fn contains_text_in(v: &Vec<String>, id: &String) -> (r: bool)
    ensures
        r == texts(v@).contains(id@),
{
    let mut i: usize = 0;
    while i < v.len()
        invariant
            i <= v.len(),
            forall|q: int| 0 <= q < i ==> #[trigger] v@[q]@ != id@,
        decreases v.len() - i,
    {
        if same_text(v[i].as_str(), id.as_str()) {
            assert(texts(v@)[i as int] == id@);
            return true;
        }
        i = i + 1;
    }
    assert(!texts(v@).contains(id@)) by {
        if texts(v@).contains(id@) {
            let q = choose|q: int| 0 <= q < texts(v@).len() && texts(v@)[q] == id@;
            assert(v@[q]@ == id@);
        }
    }
    false
}

/// Chooses the models that this run measures: with no request, every
/// available model of the catalogue that supports tools; otherwise the
/// requested ones, each once, refusing any that is absent, unavailable or
/// without tools.
pub fn select_models(catalog: &Catalog, requested: &[String]) -> (r: Result<Vec<String>, String>)
    ensures
        selection(catalog.models@, texts(requested@)) matches Ok(ids) ==> (r matches Ok(v) && texts(v@) == ids),
        selection(catalog.models@, texts(requested@)) matches Err(p) ==> (r matches Err(e) && e@ == p),
{
    let models = &catalog.models;
    if requested.len() == 0 {
        let mut out: Vec<String> = Vec::new();
        let mut i: usize = 0;
        while i < models.len()
            invariant
                i <= models.len(),
                texts(out@) == eligible_ids(models@, i as int),
            decreases models.len() - i,
        {
            if models[i].available && models[i].tools {
                out.push(models[i].id.clone());
                assert(texts(out@) == eligible_ids(models@, i as int).push(models@[i as int].id@));
            }
            i = i + 1;
        }
        return Ok(out);
    }
    let ghost req = texts(requested@);
    let mut selected: Vec<String> = Vec::new();
    let mut i: usize = 0;
    while i < requested.len()
        invariant
            req == texts(requested@),
            models@ == catalog.models@,
            requested.len() > 0,
            i <= requested.len(),
            first_request_problem(models@, req, i as int) is None,
            texts(selected@) == distinct_requests(req, i as int),
        decreases requested.len() - i,
    {
        let id = &requested[i];
        assert(req[i as int] == id@);
        match find_last_named(models, id) {
            None => {
                assert(!exists|k: int| #[trigger] last_named(models@, req[i as int], k));
                assert(request_problem(models@, req[i as int]) == Some(
                    "requested model is absent from the catalog: "@ + id@,
                ));
                proof {
                    lemma_first_request_problem_settles(models@, req, i as int, req.len() as int);
                }
                assert(first_request_problem(models@, req, req.len() as int) == Some(
                    "requested model is absent from the catalog: "@ + id@,
                ));
                return Err(concatenated("requested model is absent from the catalog: ", id.as_str()));
            },
            Some(k) => {
                let model = &models[k];
                assert(last_named(models@, id@, k as int));
                let ghost chosen = choose|q: int| #[trigger] last_named(models@, id@, q);
                assert(chosen == k as int) by {
                    assert(last_named(models@, id@, chosen));
                    if chosen < k {
                        assert(models@[k as int].id@ != id@);
                    } else if chosen > k {
                        assert(models@[chosen].id@ != id@);
                    }
                }
                if !model.available {
                    let reason: &str = match &model.unavailable_reason {
                        Some(reason) => reason.as_str(),
                        None => "no reason",
                    };
                    proof {
                        lemma_first_request_problem_settles(models@, req, i as int, req.len() as int);
                    }
                    let head = concatenated(concatenated("requested model is unavailable: ", id.as_str()).as_str(), ": ");
                    return Err(concatenated(head.as_str(), reason));
                }
                if !model.tools {
                    proof {
                        lemma_first_request_problem_settles(models@, req, i as int, req.len() as int);
                    }
                    return Err(concatenated("requested model does not support tools: ", id.as_str()));
                }
            },
        }
        if !contains_text_in(&selected, id) {
            selected.push(id.clone());
            assert(texts(selected@) == distinct_requests(req, i as int).push(req[i as int]));
        }
        i = i + 1;
    }
    Ok(selected)
}

/// Once a request has a problem, it is the first problem of every longer
/// prefix of the requests.
proof fn lemma_first_request_problem_settles(models: Seq<Model>, requested: Seq<Seq<char>>, i: int, n: int)
    requires
        0 <= i < n,
        first_request_problem(models, requested, i) is None,
        request_problem(models, requested[i]) is Some,
    ensures
        first_request_problem(models, requested, n) == request_problem(models, requested[i]),
    decreases n,
{
    if n > i + 1 {
        lemma_first_request_problem_settles(models, requested, i, n - 1);
    }
}

/// Some model of `models` is named `id` and can be measured.
pub open spec fn measurable(models: Seq<Model>, id: Seq<char>) -> bool {
    exists|k: int| 0 <= k < models.len() && #[trigger] models[k].id@ == id && eligible(models[k])
}

proof fn lemma_eligible_ids_measurable(models: Seq<Model>, n: int)
    requires
        0 <= n <= models.len(),
    ensures
        forall|i: int|
            0 <= i < eligible_ids(models, n).len() ==> measurable(models, #[trigger] eligible_ids(models, n)[i]),
    decreases n,
{
    if n > 0 {
        lemma_eligible_ids_measurable(models, n - 1);
        let prev = eligible_ids(models, n - 1);
        if eligible(models[n - 1]) {
            assert forall|i: int| 0 <= i < eligible_ids(models, n).len() implies measurable(
                models,
                #[trigger] eligible_ids(models, n)[i],
            ) by {
                if i < prev.len() {
                    assert(eligible_ids(models, n)[i] == prev[i]);
                } else {
                    assert(models[n - 1].id@ == eligible_ids(models, n)[i]);
                }
            }
        }
    }
}

proof fn lemma_no_request_problem(models: Seq<Model>, requested: Seq<Seq<char>>, n: int, i: int)
    requires
        0 <= i < n,
        first_request_problem(models, requested, n) is None,
    ensures
        request_problem(models, requested[i]) is None,
    decreases n,
{
    if n - 1 > i {
        lemma_no_request_problem(models, requested, n - 1, i);
    }
}

proof fn lemma_distinct_requests(requested: Seq<Seq<char>>, n: int)
    requires
        0 <= n <= requested.len(),
    ensures
        distinct_requests(requested, n).no_duplicates(),
        forall|i: int|
            0 <= i < distinct_requests(requested, n).len() ==> exists|j: int|
                0 <= j < n && requested[j] == #[trigger] distinct_requests(requested, n)[i],
        forall|j: int| 0 <= j < n ==> distinct_requests(requested, n).contains(#[trigger] requested[j]),
    decreases n,
{
    if n > 0 {
        lemma_distinct_requests(requested, n - 1);
        let prev = distinct_requests(requested, n - 1);
        let cur = distinct_requests(requested, n);
        if !prev.contains(requested[n - 1]) {
            assert(cur == prev.push(requested[n - 1]));
            assert forall|i: int| 0 <= i < cur.len() implies exists|j: int|
                0 <= j < n && requested[j] == #[trigger] cur[i] by {
                if i < prev.len() {
                    assert(cur[i] == prev[i]);
                    let j = choose|j: int| 0 <= j < n - 1 && requested[j] == #[trigger] prev[i];
                    assert(requested[j] == cur[i]);
                } else {
                    assert(requested[n - 1] == cur[i]);
                }
            }
            assert forall|j: int| 0 <= j < n implies cur.contains(#[trigger] requested[j]) by {
                if j < n - 1 {
                    assert(prev.contains(requested[j]));
                    let k = choose|k: int| 0 <= k < prev.len() && prev[k] == requested[j];
                    assert(cur[k] == requested[j]);
                } else {
                    assert(cur[prev.len() as int] == requested[j]);
                }
            }
        }
    }
}

/// What `select_models` selects can be measured: every selected id names an
/// available model of the catalogue that supports tools. Selected from
/// requests, each id is one that was requested, each request is selected,
/// and none twice.
pub proof fn lemma_selected_models_are_measurable(models: Seq<Model>, requested: Seq<Seq<char>>)
    requires
        selection(models, requested) is Ok,
    ensures
        forall|i: int|
            0 <= i < selection(models, requested)->Ok_0.len() ==> measurable(
                models,
                #[trigger] selection(models, requested)->Ok_0[i],
            ),
        requested.len() > 0 ==> selection(models, requested)->Ok_0.no_duplicates(),
        requested.len() > 0 ==> forall|i: int|
            0 <= i < selection(models, requested)->Ok_0.len() ==> requested.contains(
                #[trigger] selection(models, requested)->Ok_0[i],
            ),
        requested.len() > 0 ==> forall|j: int|
            0 <= j < requested.len() ==> selection(models, requested)->Ok_0.contains(
                #[trigger] requested[j],
            ),
{
    if requested.len() == 0 {
        lemma_eligible_ids_measurable(models, models.len() as int);
    } else {
        let n = requested.len() as int;
        let ids = distinct_requests(requested, n);
        lemma_distinct_requests(requested, n);
        assert forall|i: int| 0 <= i < ids.len() implies measurable(models, #[trigger] ids[i])
            && requested.contains(ids[i]) by {
            let j = choose|j: int| 0 <= j < n && requested[j] == #[trigger] ids[i];
            lemma_no_request_problem(models, requested, n, j);
            let k = choose|k: int| #[trigger] last_named(models, requested[j], k);
            assert(last_named(models, requested[j], k));
            assert(models[k].id@ == ids[i]);
        }
    }
}

} // verus!
