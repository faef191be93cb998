//! How a run shares its models among workers: the models of one provider
//! form one queue, so that no provider is asked for two models at once, and
//! the queues are taken in the order of the providers' names.

use vstd::prelude::*;
use crate::report::ModelResult;
use crate::text::{chars_of, less_text, same_text, string_of, text_less, texts, lemma_text_less_total, lemma_text_less_transitive};

verus! {

/// `k` is the position of the first `/` in `s`.
pub open spec fn first_slash(s: Seq<char>, k: int) -> bool {
    &&& 0 <= k < s.len()
    &&& s[k] == '/'
    &&& forall|j: int| 0 <= j < k ==> #[trigger] s[j] != '/'
}

/// The provider of a model: its name up to the first `/`, or all of it.
pub open spec fn provider_name(model: Seq<char>) -> Seq<char> {
    if exists|k: int| #[trigger] first_slash(model, k) {
        model.take(choose|k: int| #[trigger] first_slash(model, k))
    } else {
        model
    }
}

/// The provider of a model.
pub fn provider_of(model: &str) -> (r: String)
    ensures
        r@ == provider_name(model@),
{
    let cs = chars_of(model);
    let mut i: usize = 0;
    while i < cs.len()
        invariant
            cs@ == model@,
            i <= cs.len(),
            forall|j: int| 0 <= j < i ==> #[trigger] cs@[j] != '/',
        decreases cs.len() - i,
    {
        if cs[i] == '/' {
            assert(first_slash(model@, i as int));
            let ghost k = choose|k: int| #[trigger] first_slash(model@, k);
            assert(k == i) by {
                if k < i {
                    assert(cs@[k] != '/');
                } else if k > i {
                    assert(model@[i as int] != '/');
                }
            }
            return string_of(&cs, 0, i);
        }
        i = i + 1;
    }
    assert(!exists|k: int| #[trigger] first_slash(model@, k));
    string_of(&cs, 0, cs.len())
}

/// The providers of the models, in order.
pub open spec fn providers(models: Seq<Seq<char>>) -> Seq<Seq<char>> {
    models.map_values(|m: Seq<char>| provider_name(m))
}

/// The positions among the first `n` of `provs` that hold `p`, ascending.
pub open spec fn positions_of(provs: Seq<Seq<char>>, p: Seq<char>, n: int) -> Seq<usize>
    decreases n,
{
    if n <= 0 {
        Seq::empty()
    } else if provs[n - 1] == p {
        positions_of(provs, p, n - 1).push((n - 1) as usize)
    } else {
        positions_of(provs, p, n - 1)
    }
}

/// `queues` groups the models by provider: one queue per provider, in the
/// order of the providers' names, each holding the positions of that
/// provider's models in ascending order.
pub open spec fn is_provider_queues(models: Seq<Seq<char>>, queues: Seq<(String, Vec<usize>)>) -> bool {
    &&& forall|a: int, b: int|
        #![trigger queues[a], queues[b]]
        0 <= a < b < queues.len() ==> text_less(queues[a].0@, queues[b].0@)
    &&& forall|a: int|
        #![trigger queues[a]]
        0 <= a < queues.len() ==> queues[a].1@ == positions_of(
            providers(models),
            queues[a].0@,
            models.len() as int,
        ) && queues[a].1.len() > 0
    &&& forall|i: int|
        0 <= i < models.len() ==> queue_names(queues).contains(provider_name(#[trigger] models[i]))
}

/// The providers of the queues, in order.
pub open spec fn queue_names(queues: Seq<(String, Vec<usize>)>) -> Seq<Seq<char>> {
    queues.map_values(|q: (String, Vec<usize>)| q.0@)
}

proof fn lemma_positions_nonempty(provs: Seq<Seq<char>>, p: Seq<char>, n: int, i: int)
    requires
        0 <= i < n <= provs.len(),
        provs[i] == p,
    ensures
        positions_of(provs, p, n).len() > 0,
    decreases n,
{
    if n - 1 > i {
        lemma_positions_nonempty(provs, p, n - 1, i);
    }
}

/// The strings of `v`, each once, in ascending order.
pub fn sorted_distinct(v: &Vec<String>) -> (r: Vec<String>)
    ensures
        forall|a: int, b: int|
            #![trigger r@[a], r@[b]]
            0 <= a < b < r.len() ==> text_less(r@[a]@, r@[b]@),
        forall|a: int| 0 <= a < r.len() ==> texts(v@).contains(#[trigger] r@[a]@),
        forall|j: int| 0 <= j < v.len() ==> texts(r@).contains(#[trigger] texts(v@)[j]),
{
    let ghost tv = texts(v@);
    let mut names: Vec<String> = Vec::new();
    let mut i: usize = 0;
    while i < v.len()
        invariant
            tv == texts(v@),
            i <= v.len(),
            forall|a: int, b: int|
                #![trigger names@[a], names@[b]]
                0 <= a < b < names.len() ==> text_less(names@[a]@, names@[b]@),
            forall|a: int| 0 <= a < names.len() ==> tv.contains(#[trigger] names@[a]@),
            forall|j: int| 0 <= j < i ==> texts(names@).contains(#[trigger] tv[j]),
        decreases v.len() - i,
    {
        let p = &v[i];
        assert(tv[i as int] == p@);
        let mut q: usize = 0;
        while q < names.len() && less_text(names[q].as_str(), p.as_str())
            invariant
                q <= names.len(),
                forall|a: int| 0 <= a < q ==> text_less(#[trigger] names@[a]@, p@),
            decreases names.len() - q,
        {
            q = q + 1;
        }
        if q < names.len() && same_text(names[q].as_str(), p.as_str()) {
            assert(texts(names@)[q as int] == tv[i as int]);
        } else {
            let ghost old_names = names@;
            proof {
                if q < old_names.len() {
                    lemma_text_less_total(old_names[q as int]@, p@);
                }
            }
            let copy = p.clone();
            names.insert(q, copy);
            proof {
                assert(names@ == old_names.insert(q as int, copy));
                assert forall|a: int, b: int|
                    #![trigger names@[a], names@[b]]
                    0 <= a < b < names.len() implies text_less(names@[a]@, names@[b]@) by {
                    if a < q && b == q {
                        assert(names@[a] == old_names[a]);
                    } else if a == q {
                        assert(names@[b] == old_names[b - 1]);
                        if b - 1 > q {
                            assert(text_less(old_names[q as int]@, old_names[b - 1]@));
                            lemma_text_less_transitive(p@, old_names[q as int]@, old_names[b - 1]@);
                        }
                    } else if b < q {
                        assert(names@[a] == old_names[a] && names@[b] == old_names[b]);
                    } else if a < q {
                        assert(names@[a] == old_names[a] && names@[b] == old_names[b - 1]);
                        assert(text_less(old_names[a]@, old_names[b - 1]@));
                    } else {
                        assert(names@[a] == old_names[a - 1] && names@[b] == old_names[b - 1]);
                        assert(text_less(old_names[a - 1]@, old_names[b - 1]@));
                    }
                }
                assert forall|a: int| 0 <= a < names.len() implies tv.contains(#[trigger] names@[a]@) by {
                    if a == q {
                        assert(tv[i as int] == names@[a]@);
                    } else if a < q {
                        assert(names@[a] == old_names[a]);
                    } else {
                        assert(names@[a] == old_names[a - 1]);
                    }
                }
                assert forall|j: int| 0 <= j < i + 1 implies texts(names@).contains(#[trigger] tv[j]) by {
                    if j == i {
                        assert(texts(names@)[q as int] == tv[j]);
                    } else {
                        assert(texts(old_names).contains(tv[j]));
                        let a = choose|a: int| 0 <= a < texts(old_names).len() && texts(old_names)[a] == tv[j];
                        if a < q {
                            assert(texts(names@)[a] == tv[j]);
                        } else {
                            assert(texts(names@)[a + 1] == tv[j]);
                        }
                    }
                }
            }
        }
        i = i + 1;
    }
    names
}

/// Groups the models by provider, as `is_provider_queues` says.
pub fn provider_queues(models: &Vec<String>) -> (r: Vec<(String, Vec<usize>)>)
    ensures
        is_provider_queues(texts(models@), r@),
{
    let n = models.len();
    let ghost ms = texts(models@);
    let ghost provs = providers(ms);
    let mut own: Vec<String> = Vec::new();
    let mut i: usize = 0;
    while i < n
        invariant
            n == models.len(),
            ms == texts(models@),
            provs == providers(ms),
            i <= n,
            texts(own@) == provs.take(i as int),
        decreases n - i,
    {
        let p = provider_of(models[i].as_str());
        let ghost before = own@;
        own.push(p);
        assert(own@ == before.push(p));
        assert(texts(own@) =~= texts(before).push(p@));
        assert(provs.take(i + 1) =~= provs.take(i as int).push(provs[i as int]));
        i = i + 1;
    }
    assert(provs.take(n as int) =~= provs);
    let names = sorted_distinct(&own);
    let mut queues: Vec<(String, Vec<usize>)> = Vec::new();
    let mut a: usize = 0;
    while a < names.len()
        invariant
            n == models.len() == own.len(),
            texts(own@) == provs,
            provs == providers(ms),
            ms == texts(models@),
            provs.len() == n,
            a <= names.len(),
            queues.len() == a,
            forall|x: int, y: int|
                #![trigger names@[x], names@[y]]
                0 <= x < y < names.len() ==> text_less(names@[x]@, names@[y]@),
            forall|x: int| 0 <= x < names.len() ==> provs.contains(#[trigger] names@[x]@),
            forall|j: int| 0 <= j < n ==> texts(names@).contains(#[trigger] provs[j]),
            forall|x: int| 0 <= x < a ==> #[trigger] queues@[x].0@ == names@[x]@,
            forall|x: int|
                #![trigger queues@[x]]
                0 <= x < a ==> queues@[x].1@ == positions_of(provs, queues@[x].0@, n as int)
                    && queues@[x].1.len() > 0,
        decreases names.len() - a,
    {
        let name = &names[a];
        let mut positions: Vec<usize> = Vec::new();
        let mut j: usize = 0;
        while j < n
            invariant
                n == own.len(),
                texts(own@) == provs,
                provs.len() == n,
                j <= n,
                positions@ == positions_of(provs, name@, j as int),
            decreases n - j,
        {
            assert(own@[j as int]@ == provs[j as int]);
            if same_text(own[j].as_str(), name.as_str()) {
                positions.push(j);
            }
            j = j + 1;
        }
        proof {
            assert(provs.contains(names@[a as int]@));
            let w = choose|w: int| 0 <= w < provs.len() && provs[w] == names@[a as int]@;
            lemma_positions_nonempty(provs, name@, n as int, w);
        }
        queues.push((name.clone(), positions));
        a = a + 1;
    }
    assert forall|x: int, y: int|
        #![trigger queues@[x], queues@[y]]
        0 <= x < y < queues.len() implies text_less(queues@[x].0@, queues@[y].0@) by {
        assert(queues@[x].0@ == names@[x]@ && queues@[y].0@ == names@[y]@);
    }
    assert(queue_names(queues@) =~= texts(names@));
    assert forall|i: int| 0 <= i < ms.len() implies queue_names(queues@).contains(
        provider_name(#[trigger] ms[i]),
    ) by {
        assert(provs[i] == provider_name(ms[i]));
        assert(texts(names@).contains(provs[i]));
    }
    queues
}

/// The number of workers of a run: as many as asked for, but no more than
/// there are queues; a run asked for no worker is refused.
pub fn plan_workers(jobs: usize, queues: usize) -> (r: Result<usize, String>)
    ensures
        jobs == 0 <==> r is Err,
        r matches Err(e) ==> e@ == "--jobs must be greater than zero"@,
        r matches Ok(w) ==> w == if jobs < queues { jobs } else { queues },
{
    if jobs == 0 {
        return Err("--jobs must be greater than zero".to_owned());
    }
    Ok(if jobs < queues { jobs } else { queues })
}

/// Refuses a run with no model to measure.
pub fn check_selection(selected: &Vec<String>) -> (r: Result<(), String>)
    ensures
        r is Ok <==> selected.len() > 0,
        r matches Err(e) ==> e@ == "the current Jeden catalog has no eligible tool-capable models"@,
{
    if selected.len() == 0 {
        return Err("the current Jeden catalog has no eligible tool-capable models".to_owned());
    }
    Ok(())
}

/// Slot `k` holds an error.
pub open spec fn failed_at(slots: Seq<Option<Result<ModelResult, String>>>, k: int) -> bool {
    slots[k] matches Some(Err(_))
}

/// What a run makes of its models' outcomes, slot `i` holding that of the
/// `i`-th model selected: the error of the first model that failed, if one
/// did; else every model's result, in the order of selection.
pub fn gather_results(slots: Vec<Option<Result<ModelResult, String>>>) -> (r: Result<
    Vec<ModelResult>,
    String,
>)
    requires
        forall|i: int| 0 <= i < slots.len() ==> #[trigger] slots@[i] is Some,
    ensures
        r is Err <==> exists|k: int| 0 <= k < slots.len() && #[trigger] failed_at(slots@, k),
        r matches Err(e) ==> exists|k: int|
            0 <= k < slots.len() && slots@[k] == Some(Err::<ModelResult, String>(e)) && forall|j: int|
                0 <= j < k ==> !#[trigger] failed_at(slots@, j),
        r matches Ok(v) ==> v.len() == slots.len() && forall|i: int|
            0 <= i < slots.len() ==> slots@[i] == Some(Ok::<ModelResult, String>(#[trigger] v@[i])),
{
    let ghost all = slots@;
    let n = slots.len();
    let mut slots = slots;
    let mut error: Option<String> = None;
    let mut out: Vec<ModelResult> = Vec::new();
    while slots.len() > 0
        invariant
            n == all.len(),
            slots.len() <= n,
            slots@ == all.take(slots.len() as int),
            forall|i: int| 0 <= i < n ==> #[trigger] all[i] is Some,
            error is None ==> forall|j: int| slots.len() <= j < n ==> !#[trigger] failed_at(all, j),
            error is None ==> out.len() == n - slots.len(),
            error is None ==> forall|q: int|
                0 <= q < out.len() ==> all[slots.len() + q] == Some(Ok::<ModelResult, String>(#[trigger] out@[q])),
            error matches Some(e) ==> exists|k: int|
                slots.len() <= k < n && all[k] == Some(Err::<ModelResult, String>(e)) && forall|j: int|
                    slots.len() <= j < k ==> !#[trigger] failed_at(all, j),
        decreases slots.len(),
    {
        let m: usize = slots.len() - 1;
        let last = slots.pop();
        assert(last == Some(all[m as int]));
        assert(slots@ == all.take(m as int));
        match last {
            Some(Some(Err(e))) => {
                assert(failed_at(all, m as int));
                error = Some(e);
            },
            Some(Some(Ok(result))) => {
                assert(!failed_at(all, m as int));
                let ghost before = out@;
                out.insert(0, result);
                proof {
                    if error is None {
                        assert forall|q: int| 0 <= q < out.len() implies all[m + q] == Some(
                            Ok::<ModelResult, String>(#[trigger] out@[q]),
                        ) by {
                            if q > 0 {
                                assert(out@[q] == before[q - 1]);
                                assert(all[(m + 1) + (q - 1)] == Some(Ok::<ModelResult, String>(before[q - 1])));
                            }
                        }
                    }
                }
            },
            _ => {
                assert(all[m as int] is Some);
            },
        }
    }
    match error {
        Some(e) => {
            proof {
                let k = choose|k: int|
                    0 <= k < n && all[k] == Some(Err::<ModelResult, String>(e)) && forall|j: int|
                        0 <= j < k ==> !#[trigger] failed_at(all, j);
                assert(failed_at(all, k));
            }
            Err(e)
        },
        None => {
            assert forall|i: int| 0 <= i < n implies all[i] == Some(Ok::<ModelResult, String>(#[trigger] out@[i])) by {
                assert(all[0 + i] == Some(Ok::<ModelResult, String>(out@[i])));
            }
            Ok(out)
        },
    }
}

} // verus!
