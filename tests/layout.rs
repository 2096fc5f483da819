use rsbids::bidspath::BidsPath;
use rsbids::builder::BidsPathBuilder;
use rsbids::layout::{Layout, QueryErr, QueryTerms};
use rsbids::layout_builder::{LayoutBuilder, LocatedRoot};
use rsbids::metadata::MetaValue;
use rsbids::roots::RootLabel;
use rsbids::template::BidsPathErr;

fn text(p: &BidsPath, r: Option<rsbids::primitives::Span>) -> Option<String> {
    r.map(|s| p.as_str()[s.start..s.end].to_string())
}

fn pairs(p: &BidsPath) -> Vec<(String, String)> {
    p.get_entities()
        .into_iter()
        .map(|(k, v)| (String::from_utf8(k).unwrap(), String::from_utf8(v).unwrap()))
        .collect()
}

fn layout_of(root: &str, paths: &[&str]) -> Layout {
    let mut b = LayoutBuilder::new();
    b.register_root(
        Some(LocatedRoot { len: root.len(), path: root.to_string(), description: None }),
        RootLabel::Raw,
    );
    for p in paths {
        b.add_path(p.to_string(), root.len(), false).unwrap();
    }
    b.finalize()
}

fn view_paths(l: &Layout) -> Vec<String> {
    l.get_paths().iter().map(|p| p.as_str().to_string()).collect()
}

fn q(key: &str, terms: Vec<QueryTerms>) -> Option<Vec<(String, Vec<QueryTerms>)>> {
    Some(vec![(key.to_string(), terms)])
}

#[test]
fn it_works() {
    let result = 2 + 2;
    assert_eq!(result, 4)
}

#[test]
fn generic_parse_of_anatomical_path() {
    let l = layout_of("/ds", &["/ds/sub-01/ses-pre/anat/sub-01_ses-pre_T1w.nii.gz"]);
    let p = l.get_path(0).unwrap();
    let e = pairs(&p);
    assert!(e.contains(&("sub".to_string(), "01".to_string())));
    assert!(e.contains(&("ses".to_string(), "pre".to_string())));
    assert_eq!(text(&p, p.datatype), Some("anat".to_string()));
    assert_eq!(text(&p, p.suffix), Some("T1w".to_string()));
    assert_eq!(text(&p, p.extension), Some(".nii.gz".to_string()));
    let parents: Vec<String> = p
        .parents
        .iter()
        .map(|kv| p.as_str()[kv.slice.start..kv.slice.end].to_string())
        .collect();
    assert_eq!(parents, vec!["sub-01".to_string(), "ses-pre".to_string()]);
    assert_eq!(p.head, 3);
    assert_eq!(p.root, 3);
}

#[test]
fn generic_parse_of_code_file() {
    let l = layout_of("/ds", &["/ds/code/runall.sh"]);
    let p = l.get_path(0).unwrap();
    assert_eq!(p.head, "/ds/code".len());
    assert!(p.parents.is_empty());
    assert!(p.entities.is_empty());
    assert_eq!(text(&p, p.suffix), Some("runall".to_string()));
    assert_eq!(text(&p, p.extension), Some(".sh".to_string()));
}

#[test]
fn strict_parse_rejects_code_file() {
    let b = BidsPathBuilder::new("/ds/code/runall.sh".to_string(), 3);
    match b.spec_parse() {
        Err(BidsPathErr::Validation(p)) => {
            assert_eq!(p.as_str(), "/ds/code/runall.sh");
            assert!(p.suffix.is_none());
        }
        _ => panic!("expected a validation failure"),
    }
}

#[test]
fn strict_parse_accepts_anatomical_path() {
    let b = BidsPathBuilder::new("/ds/sub-01/anat/sub-01_T1w.nii.gz".to_string(), 3);
    let p = b.spec_parse().unwrap();
    let e = pairs(&p);
    assert_eq!(p.parents.len(), 1);
    assert_eq!(p.entities.len(), 1);
    assert!(e.contains(&("sub".to_string(), "01".to_string())));
    assert_eq!(text(&p, p.suffix), Some("T1w".to_string()));
    assert_eq!(text(&p, p.extension), Some(".nii.gz".to_string()));
    assert_eq!(text(&p, p.datatype), Some("anat".to_string()));
    assert_eq!(p.head, 3);
}

fn run_layout() -> Layout {
    layout_of(
        "/ds",
        &[
            "/ds/sub-01/func/sub-01_task-rest_run-01_bold.nii.gz",
            "/ds/sub-01/func/sub-01_task-rest_run-02_bold.nii.gz",
        ],
    )
}

#[test]
fn query_by_number() {
    let l = run_layout();
    let r = l.query(q("run", vec![QueryTerms::Number(1)]), None, None).unwrap();
    assert_eq!(view_paths(&r), vec!["/ds/sub-01/func/sub-01_task-rest_run-01_bold.nii.gz".to_string()]);
}

#[test]
fn query_by_bool() {
    let l = run_layout();
    let all = l.query(q("run", vec![QueryTerms::Bool(true)]), None, None).unwrap();
    assert_eq!(all.len(), 2);
    let none = l.query(q("run", vec![QueryTerms::Bool(false)]), None, None).unwrap();
    assert_eq!(none.len(), 0);
}

#[test]
fn query_missing_value() {
    let l = run_layout();
    match l.query(q("run", vec![QueryTerms::Number(3)]), None, None) {
        Err(QueryErr::MissingVal(k, missing)) => {
            assert_eq!(k, "run");
            assert_eq!(missing, vec!["3".to_string()]);
        }
        other => panic!("expected a missing value, got {:?}", other.is_ok()),
    }
}

#[test]
fn query_missing_entity() {
    let l = run_layout();
    match l.query(q("nosuchkey", vec![QueryTerms::Bool(true)]), None, None) {
        Err(QueryErr::MissingEntity(keys)) => assert_eq!(keys, vec!["nosuchkey".to_string()]),
        _ => panic!("expected a missing entity"),
    }
}

#[test]
fn query_ambiguous_number() {
    let l = layout_of(
        "/ds",
        &["/ds/sub-1/anat/sub-1_T1w.nii.gz", "/ds/sub-01/anat/sub-01_T1w.nii.gz"],
    );
    match l.query(q("sub", vec![QueryTerms::Number(1)]), None, None) {
        Err(QueryErr::AmbiguousQuery(k, n, mut vals)) => {
            assert_eq!(k, "sub");
            assert_eq!(n, 1);
            vals.sort();
            assert_eq!(vals, vec!["01".to_string(), "1".to_string()]);
        }
        _ => panic!("expected an ambiguous query"),
    }
}

#[test]
fn query_long_key_and_union() {
    let l = run_layout();
    let r = l
        .query(
            q("run", vec![QueryTerms::String("01".to_string()), QueryTerms::String("02".to_string())]),
            None,
            None,
        )
        .unwrap();
    assert_eq!(r.len(), 2);
    let s = l.query(q("subject", vec![QueryTerms::String("01".to_string())]), None, None).unwrap();
    assert_eq!(s.len(), 2);
}

#[test]
fn empty_query_keeps_everything() {
    let l = run_layout();
    let r = l.query(None, None, None).unwrap();
    assert_eq!(r.len(), 2);
    assert_eq!(r.get_view(), vec![0, 1]);
}

#[test]
fn query_is_idempotent_on_example() {
    let l = run_layout();
    let a = l.query(q("run", vec![QueryTerms::Number(2)]), None, None).unwrap();
    let b = a.query(q("run", vec![QueryTerms::Number(2)]), None, None).unwrap();
    assert_eq!(a.get_view(), b.get_view());
}

#[test]
fn derivative_roots_and_scopes() {
    let mut b = LayoutBuilder::new();
    b.register_root(Some(LocatedRoot { len: 3, path: "/ds".to_string(), description: None }), RootLabel::Raw);
    b.add_path("/ds/sub-01/anat/sub-01_T1w.nii.gz".to_string(), 3, false).unwrap();
    let d = "/ds/derivatives/fmriprep";
    b.register_root(
        Some(LocatedRoot { len: d.len(), path: d.to_string(), description: None }),
        RootLabel::DerivativeUnlabelled,
    );
    b.add_path(format!("{}/sub-01/anat/sub-01_desc-preproc_T1w.nii.gz", d), d.len(), false).unwrap();
    let l = b.finalize();
    assert_eq!(l.get_raw_roots(), vec!["/ds".to_string()]);
    assert!(l.get_derivative_roots().contains(&d.to_string()));
    let scoped = l.get_scopes(vec!["derivatives".to_string()]).unwrap().unwrap();
    let r = l.query(None, Some(scoped), None).unwrap();
    assert_eq!(r.len(), 1);
    assert!(view_paths(&r)[0].starts_with(d));
}

#[test]
fn sidecar_inheritance_deepest_first() {
    let mut l = layout_of(
        "/ds",
        &[
            "/ds/sub-01/ses-pre/anat/sub-01_ses-pre_T1w.json",
            "/ds/sub-01/ses-pre/anat/sub-01_ses-pre_T1w.nii.gz",
            "/ds/T1w.json",
        ],
    );
    let order = rsbids::metadata::MetadataIndexBuilder::sidecar_order(&l);
    assert_eq!(order, vec![0, 2]);
    let sidecars = vec![
        (0usize, vec![("RepetitionTime".to_string(), MetaValue::Number("2.0".to_string()))]),
        (2usize, vec![("RepetitionTime".to_string(), MetaValue::Number("3.0".to_string()))]),
    ];
    l.index_metadata_with(&sidecars);
    let r = l
        .query(q("RepetitionTime", vec![QueryTerms::String("2.0".to_string())]), None, None)
        .unwrap();
    assert!(view_paths(&r).contains(&"/ds/sub-01/ses-pre/anat/sub-01_ses-pre_T1w.nii.gz".to_string()));
    let r3 = l
        .query(q("RepetitionTime", vec![QueryTerms::String("3.0".to_string())]), None, None)
        .unwrap();
    assert!(!view_paths(&r3).contains(&"/ds/sub-01/ses-pre/anat/sub-01_ses-pre_T1w.nii.gz".to_string()));
}

#[test]
fn main() {
    let _ = Layout::create(vec![], false);
}

#[test]
fn query_stays_within_view() {
    let l = run_layout();
    let a = l.query(q("run", vec![QueryTerms::Number(1)]), None, None).unwrap();
    let mask = vec![0usize, 1usize];
    let b = a.query(None, None, Some(&mask)).unwrap();
    assert_eq!(b.get_view(), a.get_view());
    assert_eq!(a.get_raw_roots(), vec!["/ds".to_string()]);
}

#[test]
fn sidecar_order_lists_each_sidecar_once() {
    let l = layout_of(
        "/ds",
        &["/ds/a.json", "/ds/sub-01/sub-01_T1w.json", "/ds/sub-01/sub-01_T1w.nii.gz"],
    );
    let order = rsbids::metadata::MetadataIndexBuilder::sidecar_order(&l);
    assert_eq!(order, vec![1, 0]);
}
