use rsbids::cache::{frame_cache, unframe_cache, CacheErr};
use rsbids::layout::{normalize_query, parse_u64, Layout, QueryErr, QueryTerms};
use rsbids::multirange::MultiRange;
use rsbids::primitives::{Primitive, Span};
use rsbids::segments::{get_components, group_primitives, parse_path_segment};
use rsbids::standards::{check_datatype, check_entity, deref_key_alias, get_key_alias};
use rsbids::layout_builder::is_subpath_of;
use rsbids::layout_builder::{LayoutBuilder, LocatedRoot, RootListing};
use rsbids::roots::RootLabel;

fn span(a: usize, b: usize) -> Span {
    Span { start: a, end: b }
}

fn ids(m: &MultiRange) -> Vec<usize> {
    m.ids()
}

#[test]
fn multirange_insert_then_contains() {
    let mut m = MultiRange::new();
    m.insert(span(0, 3));
    m.insert(span(3, 5));
    m.insert(span(8, 10));
    m.insert(span(4, 9));
    assert_eq!(m.ranges, vec![span(0, 10)]);
    for i in 0..10 {
        assert!(m.contains(i));
    }
    assert!(!m.contains(10));
    assert_eq!(m.len(), 10);
}

#[test]
fn multirange_merge_commutes() {
    let mut a = MultiRange::new();
    a.insert(span(0, 2));
    a.insert(span(5, 7));
    let mut b = MultiRange::new();
    b.insert(span(2, 3));
    b.insert(span(9, 11));
    let ab = a.merge(&b);
    let ba = b.merge(&a);
    assert_eq!(ids(&ab), ids(&ba));
    assert_eq!(ab.ranges, vec![span(0, 3), span(5, 7), span(9, 11)]);
    let aa = a.merge(&a);
    assert_eq!(ids(&aa), ids(&a));
}

#[test]
fn segment_tokens_of_filename() {
    let t = b"sub-01_T1w";
    let prims = parse_path_segment(span(0, t.len()), t);
    assert_eq!(prims, vec![Primitive::Suffix(7, 10), Primitive::Value(4, 6), Primitive::Key(0, 3)]);
    let elems = group_primitives(prims);
    assert_eq!(elems.len(), 2);
}

#[test]
fn components_of_path() {
    let t = b"/ds//sub-01/./anat/f.nii";
    assert_eq!(get_components(t), vec![span(1, 3), span(5, 11), span(14, 18), span(19, 24)]);
}

#[test]
fn aliases() {
    assert_eq!(get_key_alias(b"sub"), b"subject".to_vec());
    assert_eq!(get_key_alias(b"foo"), b"foo".to_vec());
    assert_eq!(deref_key_alias(b"session"), Some(b"ses".to_vec()));
    assert_eq!(deref_key_alias(b"ses"), None);
    assert!(check_entity(b"desc"));
    assert!(!check_entity(b"description"));
    assert!(check_datatype(b"anat"));
    assert!(!check_datatype(b"code"));
}

#[test]
fn numbers() {
    assert_eq!(parse_u64(b"01"), Some(1));
    assert_eq!(parse_u64(b"+7"), Some(7));
    assert_eq!(parse_u64(b""), None);
    assert_eq!(parse_u64(b"1a"), None);
    assert_eq!(parse_u64(b"18446744073709551615"), Some(u64::MAX));
    assert_eq!(parse_u64(b"18446744073709551616"), None);
}

#[test]
fn query_keys_normalized() {
    let q = vec![
        ("subject".to_string(), vec![QueryTerms::Any]),
        ("run_".to_string(), vec![QueryTerms::Bool(true)]),
        ("task".to_string(), vec![]),
    ];
    let n = normalize_query(&q);
    assert_eq!(n.len(), 2);
    assert_eq!(n[0].0, b"sub".to_vec());
    assert_eq!(n[1].0, b"run".to_vec());
}

#[test]
fn cache_round_trip_and_rejection() {
    let body = vec![1u8, 2, 3];
    let framed = frame_cache(&body);
    assert!(framed.starts_with(b"<?rsbids version=\"1.0\">\n"));
    assert_eq!(unframe_cache(&framed).unwrap(), body);
    let mut bad = framed.clone();
    bad[0] = b'x';
    assert!(matches!(unframe_cache(&bad), Err(CacheErr::NotACache)));
}

#[test]
fn glob_and_exact_roots() {
    let mut b = LayoutBuilder::new();
    b.register_root(Some(LocatedRoot { len: 3, path: "/ds".to_string(), description: None }), RootLabel::Raw);
    b.add_path("/ds/sub-01/anat/sub-01_T1w.nii.gz".to_string(), 3, false).unwrap();
    b.register_root(Some(LocatedRoot { len: 3, path: "/xy".to_string(), description: None }), RootLabel::Raw);
    b.add_path("/xy/sub-02/anat/sub-02_T1w.nii.gz".to_string(), 3, false).unwrap();
    let l = b.finalize();
    let g = l.roots.glob_roots(&vec!["/d*".to_string()]).unwrap();
    assert_eq!(g.keys(), vec!["/ds".to_string()]);
    let e = l.roots.glob_roots(&vec!["/xy".to_string()]).unwrap();
    assert_eq!(e.keys(), vec!["/xy".to_string()]);
    let r = l.query(None, Some(vec!["/x*".to_string()]), None).unwrap();
    assert_eq!(r.get_view(), vec![1]);
}

#[test]
fn invalid_glob_is_an_error() {
    let l = Layout::create(
        vec![RootListing {
            root: LocatedRoot { len: 3, path: "/ds".to_string(), description: None },
            label: RootLabel::Raw,
            paths: vec!["/ds/sub-01/anat/sub-01_T1w.nii.gz".to_string()],
        }],
        false,
    );
    assert!(matches!(l.query(None, Some(vec!["/d[".to_string()]), None), Err(QueryErr::GlobErr(_))));
}

#[test]
fn subpaths_are_cleaned() {
    assert!(is_subpath_of("/a/b/", "/a/b/c/../c"));
    assert!(is_subpath_of("/a/./b", "/a/b/c"));
    assert!(!is_subpath_of("/a/b", "/a/bc"));
    assert!(!is_subpath_of("/a/b/c", "/a/b"));
}

#[test]
fn roots_move_down_to_heads() {
    let mut b = LayoutBuilder::new();
    b.register_root(Some(LocatedRoot { len: 5, path: "/data".to_string(), description: None }), RootLabel::Raw);
    b.add_path("/data/ds/sub-01/anat/sub-01_T1w.nii.gz".to_string(), 5, false).unwrap();
    let l = b.finalize();
    assert_eq!(l.get_raw_roots(), vec!["/data/ds".to_string()]);
}

#[test]
fn strict_mode_in_builder() {
    let mut b = LayoutBuilder::new();
    b.register_root(Some(LocatedRoot { len: 3, path: "/ds".to_string(), description: None }), RootLabel::Raw);
    assert!(b.add_path("/ds/code/runall.sh".to_string(), 3, true).is_err());
    assert!(b.add_path("/ds/sub-01/anat/sub-01_T1w.nii.gz".to_string(), 3, true).is_ok());
    let l = b.finalize();
    assert_eq!(l.num_paths(), 1);
}

#[test]
fn uncertain_parent_confirmed_later() {
    let mut b = LayoutBuilder::new();
    b.register_root(Some(LocatedRoot { len: 3, path: "/ds".to_string(), description: None }), RootLabel::Raw);
    b.add_path("/ds/foo-a/x/foo-a_bar.txt".to_string(), 3, false).unwrap();
    b.add_path("/ds/foo-b/x/foo-b_bar.txt".to_string(), 3, false).unwrap();
    let l = b.finalize();
    let p = l.get_path(0).unwrap();
    assert!(p.uncertain_parents.is_none());
    assert_eq!(p.parents.len(), 1);
    assert_eq!(text_of_dt(&p), Some("x".to_string()));
    let vals = l.entity_vals(b"foo").unwrap();
    assert_eq!(vals.len(), 2);
}

fn text_of_dt(p: &rsbids::bidspath::BidsPath) -> Option<String> {
    p.datatype.map(|s| p.as_str()[s.start..s.end].to_string())
}

#[test]
fn iterator_walks_the_view() {
    let l = Layout::create(
        vec![RootListing {
            root: LocatedRoot { len: 3, path: "/ds".to_string(), description: None },
            label: RootLabel::Raw,
            paths: vec![
                "/ds/sub-01/anat/sub-01_T1w.nii.gz".to_string(),
                "/ds/sub-02/anat/sub-02_T1w.nii.gz".to_string(),
            ],
        }],
        false,
    );
    let r = l.query(Some(vec![("sub".to_string(), vec![QueryTerms::String("02".to_string())])]), None, None).unwrap();
    let mut it = r.iter_paths();
    let first = it.next().unwrap();
    assert_eq!(first.as_str(), "/ds/sub-02/anat/sub-02_T1w.nii.gz");
    assert!(it.next().is_none());
}
