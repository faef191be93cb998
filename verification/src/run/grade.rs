//! Grading one case: the graders a case declares, applied to what was read
//! of the workspace the model left behind.

use vstd::prelude::*;
use crate::dataset::{Grader, grader_hard, grader_id, grader_points, grader_well_formed};
use crate::json::{
    Json, json_contains, json_eq, json_equal, json_holds, json_well_formed, lemma_json_eq_containers,
    well_formed_json,
};
use crate::report::GraderResult;
use crate::text::{concatenated, contains_text, has_substring, same_text};

verus! {

/// What was read of the workspace for one grader: a file's text or the
/// error that reading it gave, whether a path exists, or a JSON document or
/// the error that reading or parsing it gave.
pub enum Observation {
    Text(Result<String, String>),
    Presence(bool),
    Document(Result<Json, String>),
}

/// The observation is the one the grader needs, and a document read is well
/// formed, as every parsed JSON document is.
pub open spec fn observes(g: Grader, o: Observation) -> bool {
    &&& match g {
        Grader::FileEquals { .. } | Grader::FileContains { .. } => o is Text,
        Grader::FileAbsent { .. } => o is Presence,
        Grader::JsonEquals { .. } | Grader::JsonContains { .. } => o is Document,
    }
    &&& o matches Observation::Document(Ok(actual)) ==> json_well_formed(actual)
}

/// Whether the observation is one that grader `g` can be applied to (see
/// `observes`).
pub fn fits(g: &Grader, o: &Observation) -> (r: bool)
    ensures
        r == observes(*g, *o),
{
    let kind = match (g, o) {
        (Grader::FileEquals { .. }, Observation::Text(_)) => true,
        (Grader::FileContains { .. }, Observation::Text(_)) => true,
        (Grader::FileAbsent { .. }, Observation::Presence(_)) => true,
        (Grader::JsonEquals { .. }, Observation::Document(_)) => true,
        (Grader::JsonContains { .. }, Observation::Document(_)) => true,
        _ => false,
    };
    match o {
        Observation::Document(Ok(actual)) => kind && well_formed_json(actual),
        _ => kind,
    }
}

/// Whether the grader passes on the observation, and the detail it reports.
pub open spec fn verdict_detail(g: Grader, o: Observation) -> (bool, Seq<char>) {
    match (g, o) {
        (Grader::FileEquals { content, .. }, Observation::Text(read)) => match read {
            Ok(actual) => if actual@ == content@ {
                (true, "file matches exactly"@)
            } else {
                (false, "file content differs"@)
            },
            Err(error) => (false, "cannot read file: "@ + error@),
        },
        (Grader::FileContains { needle, .. }, Observation::Text(read)) => match read {
            Ok(actual) => if has_substring(actual@, needle@) {
                (true, "required text is present"@)
            } else {
                (false, "required text is absent"@)
            },
            Err(error) => (false, "cannot read file: "@ + error@),
        },
        (Grader::FileAbsent { .. }, Observation::Presence(exists)) => if !exists {
            (true, "path is absent"@)
        } else {
            (false, "path exists"@)
        },
        (Grader::JsonEquals { expected, .. }, Observation::Document(read)) => match read {
            Ok(actual) => if json_eq(actual, expected) {
                (true, "JSON matches structurally"@)
            } else {
                (false, "JSON structure differs"@)
            },
            Err(error) => (false, error@),
        },
        (Grader::JsonContains { expected, .. }, Observation::Document(read)) => match read {
            Ok(actual) => if json_holds(actual, expected) {
                (true, "JSON contains the required structure"@)
            } else {
                (false, "JSON lacks the required structure"@)
            },
            Err(error) => (false, error@),
        },
        _ => (false, Seq::empty()),
    }
}

/// `r` is what grader `g` reports on observation `o`: its id, whether it
/// passed, all its points when it passed and none otherwise, its maximum,
/// whether it is hard, and the detail.
pub open spec fn graded(r: GraderResult, g: Grader, o: Observation) -> bool {
    let (passed, detail) = verdict_detail(g, o);
    &&& r.id@ == grader_id(g)
    &&& r.passed == passed
    &&& r.points == (if passed { grader_points(g) } else { 0 })
    &&& r.maximum_points == grader_points(g)
    &&& r.hard == grader_hard(g)
    &&& r.detail@ == detail
}

/// Applies a grader to what was read of the workspace for it.
pub fn grade(grader: &Grader, observation: &Observation) -> (r: GraderResult)
    requires
        observes(*grader, *observation),
        grader_well_formed(*grader),
    ensures
        graded(r, *grader, *observation),
{
    let (passed, detail): (bool, String) = match (grader, observation) {
        (Grader::FileEquals { content, .. }, Observation::Text(read)) => match read {
            Ok(actual) => if same_text(actual.as_str(), content.as_str()) {
                (true, "file matches exactly".to_owned())
            } else {
                (false, "file content differs".to_owned())
            },
            Err(error) => (false, concatenated("cannot read file: ", error.as_str())),
        },
        (Grader::FileContains { needle, .. }, Observation::Text(read)) => match read {
            Ok(actual) => if contains_text(actual.as_str(), needle.as_str()) {
                (true, "required text is present".to_owned())
            } else {
                (false, "required text is absent".to_owned())
            },
            Err(error) => (false, concatenated("cannot read file: ", error.as_str())),
        },
        (Grader::FileAbsent { .. }, Observation::Presence(exists)) => if !*exists {
            (true, "path is absent".to_owned())
        } else {
            (false, "path exists".to_owned())
        },
        (Grader::JsonEquals { expected, .. }, Observation::Document(read)) => match read {
            Ok(actual) => if json_equal(actual, expected) {
                (true, "JSON matches structurally".to_owned())
            } else {
                (false, "JSON structure differs".to_owned())
            },
            Err(error) => (false, error.clone()),
        },
        (Grader::JsonContains { expected, .. }, Observation::Document(read)) => match read {
            Ok(actual) => if json_contains(actual, expected) {
                (true, "JSON contains the required structure".to_owned())
            } else {
                (false, "JSON lacks the required structure".to_owned())
            },
            Err(error) => (false, error.clone()),
        },
        _ => (false, String::new()),
    };
    let points = grader.points();
    GraderResult {
        id: grader.id().to_owned(),
        passed,
        points: if passed {
            points
        } else {
            0
        },
        maximum_points: points,
        hard: grader.hard(),
        detail,
    }
}

/// What a grader reports, by the kind of grader and what was read: a
/// `fileEquals` grader passes when the file's text is its content, a
/// `fileContains` grader when its needle occurs in the text, a `fileAbsent`
/// grader when the path does not exist, a `jsonEquals` grader when the
/// document is equal to the expected value (a document with a member the
/// expected object lacks fails it), and a `jsonContains` grader when the
/// document holds the expected value; a file or document that could not be
/// read fails. A grader that passes awards all its points, one that fails
/// none; the result carries the grader's id, points and hardness.
pub proof fn lemma_grade_outcome(r: GraderResult, g: Grader, o: Observation)
    requires
        graded(r, g, o),
        observes(g, o),
    ensures
        g matches Grader::FileEquals { content, .. } ==> o matches Observation::Text(read) ==> (
        read matches Ok(actual) ==> (r.passed <==> actual@ == content@)),
        g matches Grader::FileContains { needle, .. } ==> o matches Observation::Text(read) ==> (
        read matches Ok(actual) ==> (r.passed <==> exists|i: int|
            0 <= i && i + needle@.len() <= actual@.len() && #[trigger] actual@.subrange(
                i,
                i + needle@.len(),
            ) == needle@)),
        g is FileAbsent ==> (o matches Observation::Presence(present) ==> (r.passed <==> !present)),
        g matches Grader::JsonEquals { expected, .. } ==> o matches Observation::Document(read) ==> (
        read matches Ok(actual) ==> (r.passed <==> json_eq(actual, expected))),
        g matches Grader::JsonContains { expected, .. } ==> o matches Observation::Document(read) ==> (
        read matches Ok(actual) ==> (r.passed <==> json_holds(actual, expected))),
        o matches Observation::Text(read) ==> (read is Err ==> !r.passed),
        o matches Observation::Document(read) ==> (read is Err ==> !r.passed),
        r.passed ==> r.points == r.maximum_points,
        !r.passed ==> r.points == 0,
        g matches Grader::FileEquals { id, points, hard, .. } ==> r.id@ == id@ && r.maximum_points
            == points && r.hard == hard,
        g matches Grader::FileContains { id, points, hard, .. } ==> r.id@ == id@ && r.maximum_points
            == points && r.hard == hard,
        g matches Grader::FileAbsent { id, points, hard, .. } ==> r.id@ == id@ && r.maximum_points
            == points && r.hard == hard,
        g matches Grader::JsonEquals { id, points, hard, .. } ==> r.id@ == id@ && r.maximum_points
            == points && r.hard == hard,
        g matches Grader::JsonContains { id, points, hard, .. } ==> r.id@ == id@ && r.maximum_points
            == points && r.hard == hard,
{
}

/// A `jsonEquals` grader fails on an object document whose member count
/// differs from the expected object's, such as one with an extra member.
pub proof fn lemma_json_equals_rejects_extra_members(r: GraderResult, g: Grader, o: Observation)
    requires
        graded(r, g, o),
        observes(g, o),
        g matches Grader::JsonEquals { expected, .. } && expected matches Json::Object(es) && o matches Observation::Document(
            Ok(Json::Object(xs)),
        ) && xs@.len() != es@.len(),
    ensures
        !r.passed,
{
    match (g, o) {
        (Grader::JsonEquals { expected, .. }, Observation::Document(Ok(actual))) => {
            lemma_json_eq_containers(actual, expected, 0);
        },
        _ => {},
    }
}

} // verus!
