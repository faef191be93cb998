use singularity_benchmark::catalog::{
    default_true, is_catalog_cache, latest_catalog_cache, select_models, Catalog, Model,
};

fn model(id: &str, available: bool, tools: bool, reason: Option<&str>) -> Model {
    Model { id: id.to_string(), available, tools, unavailable_reason: reason.map(String::from) }
}

fn catalog() -> Catalog {
    Catalog {
        catalog_revision: "r1".to_string(),
        degraded: false,
        models: vec![
            model("a/one", true, true, None),
            model("a/two", false, true, Some("maintenance")),
            model("b/three", true, false, None),
            model("b/four", true, true, None),
            model("c/five", false, false, None),
        ],
    }
}

fn strings(v: &[&str]) -> Vec<String> {
    v.iter().map(|s| s.to_string()).collect()
}

#[test]
fn default_true_is_true() {
    assert!(default_true());
}

#[test]
fn no_request_selects_every_eligible_model() {
    assert_eq!(select_models(&catalog(), &vec![]), Ok(strings(&["a/one", "b/four"])));
}

#[test]
fn requests_are_selected_once_in_order() {
    assert_eq!(
        select_models(&catalog(), &strings(&["b/four", "a/one", "b/four"])),
        Ok(strings(&["b/four", "a/one"]))
    );
}

#[test]
fn refused_requests() {
    assert_eq!(
        select_models(&catalog(), &strings(&["a/one", "x/none"])),
        Err("requested model is absent from the catalog: x/none".to_string())
    );
    assert_eq!(
        select_models(&catalog(), &strings(&["a/two"])),
        Err("requested model is unavailable: a/two: maintenance".to_string())
    );
    assert_eq!(
        select_models(&catalog(), &strings(&["c/five"])),
        Err("requested model is unavailable: c/five: no reason".to_string())
    );
    assert_eq!(
        select_models(&catalog(), &strings(&["b/three"])),
        Err("requested model does not support tools: b/three".to_string())
    );
}

#[test]
fn the_last_model_of_an_id_decides() {
    let mut c = catalog();
    c.models.push(model("a/one", false, true, Some("retired")));
    assert_eq!(
        select_models(&c, &strings(&["a/one"])),
        Err("requested model is unavailable: a/one: retired".to_string())
    );
}

#[test]
fn cache_names() {
    assert!(is_catalog_cache("brama-models-2024.json"));
    assert!(is_catalog_cache("brama-models-.json"));
    assert!(!is_catalog_cache("brama-models-2024.json.tmp"));
    assert!(!is_catalog_cache("other-2024.json"));
    assert!(!is_catalog_cache("brama-models-2024"));
    assert!(!is_catalog_cache(".json"));
}

#[test]
fn latest_cache_is_last_modified_then_last_listed() {
    let entries = vec![
        ("brama-models-a.json".to_string(), Some(5i128)),
        ("notes.txt".to_string(), Some(100)),
        ("brama-models-b.json".to_string(), Some(9)),
        ("brama-models-c.json".to_string(), None),
        ("brama-models-d.json".to_string(), Some(9)),
        ("brama-models-e.json".to_string(), Some(-3)),
    ];
    assert_eq!(latest_catalog_cache(&entries), Some(4));
    let only_unknown = vec![
        ("brama-models-a.json".to_string(), None),
        ("brama-models-b.json".to_string(), None),
    ];
    assert_eq!(latest_catalog_cache(&only_unknown), Some(1));
    assert_eq!(latest_catalog_cache(&vec![("x.json".to_string(), Some(1))]), None);
}
