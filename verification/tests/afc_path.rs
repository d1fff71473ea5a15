use idevice::afc_path::{
    afc_path_from_components, normalize_afc_path_components, AfcPathError, PathResolver,
    ResolveStep,
};

fn normalize(base: &[&str], path: &str) -> String {
    let base = base
        .iter()
        .map(|part| (*part).to_string())
        .collect::<Vec<_>>();
    let components = normalize_afc_path_components(&base, path).unwrap();
    afc_path_from_components(&Vec::from(components))
}

#[test]
fn normalizes_absolute_afc_paths() {
    assert_eq!(
        normalize(&["ignored"], "/private//var/./mobile"),
        "/private/var/mobile"
    );
    assert_eq!(normalize(&[], "/../../var"), "/var");
}

#[test]
fn resolves_relative_targets_against_the_link_parent() {
    assert_eq!(normalize(&["private", "var"], "../etc"), "/private/etc");
    assert_eq!(normalize(&["a"], r"directory\name"), r"/a/directory\name");
}

#[test]
fn rejects_nul_bytes() {
    assert!(normalize_afc_path_components(&[], "bad\0path").is_err());
}

#[test]
fn normalizing_the_empty_path_gives_the_root() {
    assert_eq!(normalize(&[], ""), "/");
    assert_eq!(normalize(&["a", "b"], ""), "/a/b");
    assert_eq!(normalize(&["a"], ".."), "/");
    assert_eq!(normalize(&[], "a/"), "/a");
}

#[test]
fn joins_components_with_slashes() {
    assert_eq!(afc_path_from_components(&[]), "/");
    assert_eq!(
        afc_path_from_components(&["x".to_string(), "y z".to_string()]),
        "/x/y z"
    );
}

fn query(step: ResolveStep) -> String {
    match step {
        ResolveStep::Query(p) => p,
        ResolveStep::Done(p) => panic!("resolution ended early at {p}"),
    }
}

#[test]
fn resolver_follows_a_relative_link() {
    let mut r = PathResolver::new("/var/mobile").unwrap();
    assert_eq!(query(r.next_step()), "/var");
    r.on_file_info("S_IFLNK", Some("private/var".to_string())).unwrap();
    assert_eq!(query(r.next_step()), "/private");
    r.on_file_info("S_IFDIR", None).unwrap();
    assert_eq!(query(r.next_step()), "/private/var");
    r.on_file_info("S_IFDIR", None).unwrap();
    assert_eq!(query(r.next_step()), "/private/var/mobile");
    r.on_file_info("S_IFDIR", None).unwrap();
    assert_eq!(r.next_step(), ResolveStep::Done("/private/var/mobile".to_string()));
}

#[test]
fn resolver_detects_a_cycle() {
    let mut r = PathResolver::new("/loop").unwrap();
    assert_eq!(query(r.next_step()), "/loop");
    r.on_file_info("S_IFLNK", Some("/loop".to_string())).unwrap();
    assert_eq!(query(r.next_step()), "/loop");
    assert_eq!(
        r.on_file_info("S_IFLNK", Some("/loop".to_string())),
        Err(AfcPathError::SymlinkCycle("/loop".to_string()))
    );
}

#[test]
fn resolver_refuses_a_link_without_target() {
    let mut r = PathResolver::new("/a").unwrap();
    let _ = query(r.next_step());
    assert_eq!(
        r.on_file_info("S_IFLNK", None),
        Err(AfcPathError::MissingLinkTarget("/a".to_string()))
    );
}

#[test]
fn resolver_stops_after_the_link_limit() {
    let mut r = PathResolver::new("/l0").unwrap();
    for i in 0..40 {
        assert_eq!(query(r.next_step()), format!("/l{i}"));
        r.on_file_info("S_IFLNK", Some(format!("/l{}", i + 1))).unwrap();
    }
    assert_eq!(query(r.next_step()), "/l40");
    assert_eq!(
        r.on_file_info("S_IFLNK", Some("/l41".to_string())),
        Err(AfcPathError::TooManySymlinks("/l0".to_string()))
    );
}

#[test]
fn resolver_refuses_nul_bytes() {
    assert_eq!(PathResolver::new("a\0b").err(), Some(AfcPathError::NulByte));
}

#[test]
fn normalising_twice_changes_nothing() {
    let base = vec!["private".to_string(), "var".to_string()];
    let once = normalize_afc_path_components(&base, "../a//./b/../c/.").unwrap();
    let parts: Vec<String> = once.iter().cloned().collect();
    let joined = afc_path_from_components(&parts);
    assert_eq!(joined, "/private/a/c");
    let twice = normalize_afc_path_components(&["x".to_string()], &joined).unwrap();
    assert_eq!(twice, once);
}
