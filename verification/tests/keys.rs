//! The identity of configured targets, labels and visibility.

use razel_analysis::error::Error;
use razel_analysis::key::{decode_ct_key, ConfiguredTargetKey, NodeKey, CONFIGURED_TARGET};
use razel_analysis::label::{
    render_label, repo_context_of, resolve_dep, resolve_deps, ExternalRepo, ExternalRepos,
};
use razel_analysis::seqs::Same;
use razel_analysis::visibility::{check_visibility, target_visibility};
use razel_analysis::decl::TargetDecl;
use razel_analysis::value::BzlValue;

fn ckey(pkg: &str, name: &str, cfg: Option<&str>) -> ConfiguredTargetKey {
    ConfiguredTargetKey {
        package: pkg.into(),
        name: name.into(),
        configuration: cfg.map(|s| s.into()),
        exec_platform: None,
        rule_transition: None,
    }
}

fn shape() -> ExternalRepos {
    ExternalRepos::from_pairs(vec![(
        "shape".to_string(),
        ExternalRepo {
            root: "/ext/shape".to_string(),
            build_file: Some("third-party/shape/BUILD.bazel".to_string()),
        },
    )])
}

fn detail(e: Error) -> String {
    match e {
        Error::Invalid { detail, .. } => detail,
        Error::NotFound { detail, .. } => detail,
        Error::Conflict { detail, .. } => detail,
        Error::Unsupported { detail, .. } => detail,
    }
}

#[test]
fn ct_key_round_trips() {
    let k = ckey("pkg/sub", "lib", Some("opt"));
    assert_eq!(decode_ct_key(&k.encode()).unwrap(), k, "the key must survive encode → decode");
}

#[test]
fn config_dimension_is_in_the_key() {
    let a = ckey("pkg", "t", Some("a"));
    let b = ckey("pkg", "t", Some("b"));
    let none = ckey("pkg", "t", None);
    assert_ne!(a.encode(), b.encode(), "configs 'a' vs 'b' must be distinct keys");
    assert_ne!(a.encode(), none.encode(), "a config vs no config must be distinct keys");
}

#[test]
fn cross_package_visibility_enforced() {
    assert!(check_visibility("a", "a", "//a:t", "//a:dep", &[]).is_ok(), "same-package edge is always visible");
    assert!(
        check_visibility("a", "b", "//a:t", "//b:dep", &["//visibility:public".into()]).is_ok(),
        "a public cross-package edge is visible"
    );
    assert!(
        matches!(check_visibility("a", "b", "//a:t", "//b:dep", &[]), Err(Error::Invalid { .. })),
        "a PRIVATE (default) cross-package dep is a typed error"
    );
    assert!(
        check_visibility("a", "b", "//a:t", "//b:dep", &["//visibility:private".into()]).is_err(),
        "an explicitly-private cross-package dep also fails closed"
    );
    assert!(
        matches!(check_visibility("a", "b", "//a:t", "//b:dep", &["//c:__pkg__".into()]), Err(Error::Unsupported { .. })),
        "an unknown visibility form (package group / __pkg__) fails closed"
    );
}

#[test]
fn dep_key_threads_parent_config() {
    let parent = ckey("pkg", "root", Some("cfg-1"));
    let dep = resolve_dep(&parent, ":leaf", &ExternalRepos::empty()).expect("same-package dep resolves");
    let child = decode_ct_key(dep.canonical()).unwrap();
    assert_eq!(child.package, "pkg");
    assert_eq!(child.name, "leaf");
    assert_eq!(child.configuration, Some("cfg-1".to_string()), "the dependency inherits the parent's configuration");
}

#[test]
fn dep_label_forms_fail_closed() {
    let parent = ckey("pkg", "t", None);
    let none = ExternalRepos::empty();
    assert!(resolve_dep(&parent, ":a", &none).is_ok(), "':name' resolves (same package)");
    assert!(resolve_dep(&parent, "//other:b", &none).is_ok(), "'//pkg:name' resolves (absolute)");
    assert!(resolve_dep(&parent, "bare", &none).is_err(), "a bare name must fail closed");
    assert!(
        resolve_dep(&parent, "@shape//x:y", &none).is_err(),
        "an UNDECLARED repo label must fail closed (no workspace fallback)"
    );
    let declared = shape();
    let dep = resolve_dep(&parent, "@shape//x:y", &declared).expect("a DECLARED repo label resolves");
    let ct = decode_ct_key(dep.canonical()).unwrap();
    assert_eq!(ct.package, "@shape//x", "the package text carries the repo marker");
    assert_eq!(ct.name, "y");
}

#[test]
fn external_and_internal_same_suffix_packages_are_distinct_cts() {
    let parent = ckey("razel-core", "root", None);
    let repos = shape();
    let ext = decode_ct_key(resolve_dep(&parent, "@shape//foo:t", &repos).unwrap().canonical()).unwrap();
    let int = decode_ct_key(resolve_dep(&parent, "//foo:t", &repos).unwrap().canonical()).unwrap();
    assert_eq!(int.package, "foo", "internal package is the bare pkg-rel");
    assert_ne!(ext.package, int.package, "external and internal same-suffix packages are DISTINCT (not collapsed)");
    assert_ne!(
        ext.encode(),
        int.encode(),
        "distinct CT identities → distinct encoded keys (distinct artifacts)"
    );
}

#[test]
fn key_bytes_are_length_prefixed() {
    let k = ckey("p", "né", Some("c"));
    assert_eq!(
        k.encode(),
        vec![
            0, 0, 0, 1, b'p', 0, 0, 0, 3, b'n', 0xc3, 0xa9, 1, 0, 0, 0, 1, b'c', 0, 0,
        ]
    );
    assert_eq!(k.kind(), CONFIGURED_TARGET);
    assert_eq!(CONFIGURED_TARGET, 40);
    let node = NodeKey::from_key(&k);
    assert_eq!(node.kind, 40);
    assert_eq!(node.canonical(), &k.encode()[..]);
    assert_eq!(node.clone(), node);
}

#[test]
fn bytes_behind_a_key_are_not_read() {
    let k = ckey("p", "n", None);
    let mut b = k.encode();
    b.push(7);
    assert_eq!(decode_ct_key(&b).unwrap(), k);
}

#[test]
fn malformed_keys_are_typed_errors() {
    let what = "CONFIGURED_TARGET key".to_string();
    for (bytes, detail) in [
        (vec![], "truncated"),
        (vec![0, 0, 0], "truncated"),
        (vec![0, 0, 0, 5, b'a'], "truncated"),
        (vec![0xff, 0xff, 0xff, 0xff], "truncated"),
        (vec![0, 0, 0, 1, 0xff], "non-utf8"),
        (vec![0, 0, 0, 0, 0, 0, 0, 0, 2], "bad option tag 2"),
        (vec![0, 0, 0, 0, 0, 0, 0, 0, 0, 217], "bad option tag 217"),
        (vec![0, 0, 0, 0, 0, 0, 0, 0, 0, 0], "truncated"),
    ] {
        assert_eq!(
            decode_ct_key(&bytes),
            Err(Error::Invalid { what: what.clone(), detail: detail.to_string() })
        );
    }
}

#[test]
fn keys_compare_in_every_dimension() {
    let k = ckey("p", "n", Some("c"));
    assert!(k.same(&k.clone()));
    let mut other = k.clone();
    other.exec_platform = Some("x".to_string());
    assert!(!k.same(&other));
    assert_ne!(k.encode(), other.encode());
    let mut other = k.clone();
    other.rule_transition = Some("x".to_string());
    assert!(!k.same(&other));
    assert_ne!(k.encode(), other.encode());
}

#[test]
fn labels_that_stand_for_nothing() {
    let parent = ckey("pkg", "t", None);
    let repos = shape();
    let form = |lbl: &str| match resolve_dep(&parent, lbl, &repos) {
        Err(Error::Unsupported { what, detail }) => {
            assert_eq!(what, "dep label form");
            detail
        }
        other => panic!("{other:?}"),
    };
    for lbl in ["@", "@shape", "@//x:y", "@shape//x", "@shape//x:", "@shape:x"] {
        assert_eq!(form(lbl), format!("expected '@repo//pkg:name', got '{lbl}'"));
    }
    for lbl in ["//", "//x", "//x:"] {
        assert_eq!(form(lbl), format!("expected //pkg:name, got '{lbl}'"));
    }
    assert_eq!(form(":"), "empty target name");
    for lbl in ["", "bare", "/x:y"] {
        assert_eq!(form(lbl), format!("expected ':name', '//pkg:name', or '@repo//pkg:name', got '{lbl}'"));
    }
    assert_eq!(
        resolve_dep(&parent, "@ship//x:y", &repos),
        Err(Error::NotFound {
            what: "external repository".to_string(),
            detail: "undeclared repository '@ship' in dep label '@ship//x:y' (fail-closed — no workspace fallback)".to_string(),
        })
    );
}

#[test]
fn labels_are_cut_at_the_first_mark() {
    let parent = ckey("pkg", "t", Some("c"));
    let repos = shape();
    let parts = |lbl: &str| {
        let k = decode_ct_key(resolve_dep(&parent, lbl, &repos).unwrap().canonical()).unwrap();
        assert_eq!(k.configuration, Some("c".to_string()));
        (k.package, k.name)
    };
    assert_eq!(parts("//a:b:c"), ("a".to_string(), "b:c".to_string()));
    assert_eq!(parts("//:b"), ("".to_string(), "b".to_string()));
    assert_eq!(parts("@shape//:b"), ("@shape//".to_string(), "b".to_string()));
    assert_eq!(parts("@shape//x//y:b"), ("@shape//x//y".to_string(), "b".to_string()));
    assert_eq!(parts("://x"), ("pkg".to_string(), "//x".to_string()));
}

#[test]
fn absolute_labels_render_back_to_themselves() {
    let parent = ckey("pkg", "t", None);
    let repos = shape();
    for lbl in ["//a/b:c", "//:c", "@shape//x:y", "@shape//:y"] {
        let k = decode_ct_key(resolve_dep(&parent, lbl, &repos).unwrap().canonical()).unwrap();
        assert_eq!(render_label(&k.package, &k.name), lbl);
    }
    // And the label of a target stands for it.
    for (package, name) in [("a/b", "c"), ("", "c:d"), ("@shape//x", "y"), ("@shape//", "y"), ("@shape//x//z", "y")] {
        let lbl = render_label(package, name);
        let k = decode_ct_key(resolve_dep(&parent, &lbl, &repos).unwrap().canonical()).unwrap();
        assert_eq!((k.package.as_str(), k.name.as_str()), (package, name));
    }
}

#[test]
fn external_packages_do_not_stand_behind_slashes() {
    let parent = ckey("pkg", "t", None);
    for repos in [shape(), ExternalRepos::empty()] {
        for lbl in ["//@shape//x:y", "//@shape//:y", "//@r//x//z:y"] {
            assert_eq!(
                resolve_dep(&parent, lbl, &repos),
                Err(Error::Unsupported { what: "dep label form", detail: format!("expected //pkg:name, got '{lbl}'") })
            );
        }
        // An `@` alone does not make a package external.
        for (lbl, package) in [("//@foo:bar", "@foo"), ("//@:bar", "@"), ("//@//x:bar", "@//x"), ("//x/@y:bar", "x/@y")] {
            let k = decode_ct_key(resolve_dep(&parent, lbl, &repos).unwrap().canonical()).unwrap();
            assert_eq!((k.package.as_str(), k.name.as_str()), (package, "bar"));
        }
    }
    // In a target of an external package, `:name` stays in that package.
    let external = ckey("@shape//x", "t", None);
    let k = decode_ct_key(resolve_dep(&external, ":y", &ExternalRepos::empty()).unwrap().canonical()).unwrap();
    assert_eq!((k.package.as_str(), k.name.as_str()), ("@shape//x", "y"));
}

#[test]
fn groups_of_labels_fail_at_the_first() {
    let parent = ckey("pkg", "t", None);
    let repos = ExternalRepos::empty();
    let good = vec![":a".to_string(), "//b:c".to_string()];
    let keys = resolve_deps(&parent, &good, &repos).unwrap();
    assert_eq!(keys.len(), 2);
    assert_eq!(keys[1], resolve_dep(&parent, "//b:c", &repos).unwrap());
    let bad = vec![":a".to_string(), ":".to_string(), "x".to_string()];
    assert_eq!(detail(resolve_deps(&parent, &bad, &repos).unwrap_err()), "empty target name");
}

#[test]
fn later_declarations_of_a_repository_count() {
    let repo = |root: &str| ExternalRepo { root: root.to_string(), build_file: None };
    let repos = ExternalRepos::from_pairs(vec![
        ("a".to_string(), repo("/1")),
        ("b".to_string(), repo("/2")),
        ("a".to_string(), repo("/3")),
    ]);
    assert!(repos.contains("a") && repos.contains("b") && !repos.contains("c"));
    assert_eq!(repos.get("a"), Some(&repo("/3")));
    assert_eq!(repos.get("b"), Some(&repo("/2")));
    assert_eq!(repos.get("c"), None);
    assert!(!ExternalRepos::empty().contains(""));
}

#[test]
fn paths_belong_to_repositories() {
    assert_eq!(repo_context_of("external/rules_rust/rust/rust.bzl"), Some("rules_rust".to_string()));
    assert_eq!(repo_context_of("external/rules_rust"), Some("rules_rust".to_string()));
    assert_eq!(repo_context_of("external/"), Some("".to_string()));
    assert_eq!(repo_context_of("external//x"), Some("".to_string()));
    assert_eq!(repo_context_of("rules/rust.bzl"), None);
    assert_eq!(repo_context_of("externals/x"), None);
}

#[test]
fn visibility_failures_name_both_sides() {
    assert_eq!(
        check_visibility("a", "b", "//a:t", "//b:dep", &[]),
        Err(Error::Invalid {
            what: "visibility".to_string(),
            detail: "target '//b:dep' is not visible to '//a:t' (default private; add visibility = [\"//visibility:public\"])".to_string(),
        })
    );
    assert_eq!(
        check_visibility("a", "b", "//a:t", "//b:dep", &["//visibility:public".into(), "//c:__pkg__".into(), "//d".into()]),
        Err(Error::Unsupported {
            what: "visibility form",
            detail: "unsupported visibility '//c:__pkg__' on '//b:dep' (v1: //visibility:public|private only)".to_string(),
        })
    );
    assert!(check_visibility("a", "b", "//a:t", "//b:dep", &["//visibility:private".into(), "//visibility:public".into()]).is_ok());
    assert!(check_visibility("a", "a", "//a:t", "//a:dep", &["//c:__pkg__".into()]).is_ok());
}

#[test]
fn visibility_is_read_of_the_declaration() {
    let decl = |attrs: Vec<(String, BzlValue)>| TargetDecl {
        kind: "k".to_string(),
        name: "n".to_string(),
        attrs,
        origin: None,
    };
    let s = |x: &str| BzlValue::Str(x.to_string());
    assert_eq!(target_visibility(&decl(vec![])), Vec::<String>::new());
    assert_eq!(
        target_visibility(&decl(vec![("visibility".to_string(), s("//visibility:public"))])),
        vec!["//visibility:public".to_string()]
    );
    assert_eq!(
        target_visibility(&decl(vec![
            ("deps".to_string(), s(":x")),
            ("visibility".to_string(), BzlValue::List(vec![s("a"), BzlValue::Bool(true), s("b")])),
            ("visibility".to_string(), s("c")),
        ])),
        vec!["a".to_string(), "b".to_string()]
    );
    assert_eq!(
        target_visibility(&decl(vec![("visibility".to_string(), BzlValue::Bool(true))])),
        Vec::<String>::new()
    );
}
