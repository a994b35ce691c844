use tidy::{check_crate_whitelist, check_whitelist_graph, find_node, whitelist, whitelist_crates, Crate, Resolve, ResolveNode};

fn node(id: &str, deps: &[&str]) -> ResolveNode {
    ResolveNode { id: id.to_string(), dependencies: deps.iter().map(|d| d.to_string()).collect() }
}

fn names(v: &[Crate]) -> Vec<String> {
    v.iter().map(|c| c.0.to_string()).collect()
}

fn chain() -> Resolve {
    Resolve {
        nodes: vec![
            node("a 0.1.0 (path+file:///a)", &["b 1.0.0 (registry+https://example.org/index)"]),
            node("b 1.0.0 (registry+https://example.org/index)", &["c 2.3.4 (registry+https://example.org/index)"]),
            node("c 2.3.4 (registry+https://example.org/index)", &[]),
        ],
    }
}

fn diamond() -> Resolve {
    Resolve {
        nodes: vec![
            node("a 0.1.0", &["c 0.3.0"]),
            node("b 0.2.0", &["c 0.3.0"]),
            node("c 0.3.0", &["d 0.4.0"]),
            node("d 0.4.0", &[]),
        ],
    }
}

#[test]
fn from_str_takes_name() {
    assert_eq!(Crate::from_str("libc 0.2.30 (registry+https://github.com/rust-lang/crates.io-index)").0, "libc");
    assert_eq!(Crate::from_str("libc").0, "libc");
    assert_eq!(Crate::from_str("").0, "");
    assert_eq!(Crate::from_str(" x").0, "");
}

#[test]
fn id_str_adds_separator() {
    assert_eq!(Crate("rustc").id_str(), "rustc ");
    assert_eq!(Crate("").id_str(), " ");
}

#[test]
fn find_node_needs_exact_name() {
    let g = Resolve { nodes: vec![node("foobar 1.0.0", &[]), node("foo 1.0.0", &[])] };
    assert_eq!(find_node(&g, Crate("foo")), Some(1));
    assert_eq!(find_node(&g, Crate("foobar")), Some(0));
    assert_eq!(find_node(&g, Crate("fo")), None);
}

#[test]
fn chain_reports_unapproved_leaf() {
    let g = chain();
    let r = check_whitelist_graph(&vec![Crate("a"), Crate("b")], &g, &vec![Crate("a")]);
    assert_eq!(names(&r.unwrap()), vec!["c"]);
}

#[test]
fn two_roots_share_expansion() {
    let g = diamond();
    let allow = vec![Crate("a"), Crate("b")];
    let r = check_whitelist_graph(&allow, &g, &vec![Crate("a"), Crate("b")]);
    assert_eq!(names(&r.unwrap()), vec!["c", "d"]);

    let mut visited = Vec::new();
    let first = check_crate_whitelist(&allow, &g, &mut visited, Crate("a"));
    let second = check_crate_whitelist(&allow, &g, &mut visited, Crate("b"));
    assert_eq!(names(&first.unapproved), vec!["c", "d"]);
    assert!(second.unapproved.is_empty());
    let mut seen = names(&visited);
    assert_eq!(seen.len(), 4);
    assert_eq!(seen.iter().filter(|n| n.as_str() == "c").count(), 1);
    seen.sort();
    assert_eq!(seen, vec!["a", "b", "c", "d"]);
}

#[test]
fn two_roots_one_shared_dependency() {
    let g = Resolve { nodes: vec![node("a 0.1.0", &["c 0.3.0"]), node("b 0.2.0", &["c 0.3.0"]), node("c 0.3.0", &[])] };
    let allow = vec![Crate("a"), Crate("b")];
    let r = check_whitelist_graph(&allow, &g, &vec![Crate("a"), Crate("b")]);
    assert_eq!(names(&r.unwrap()), vec!["c"]);

    let mut visited = Vec::new();
    check_crate_whitelist(&allow, &g, &mut visited, Crate("a"));
    check_crate_whitelist(&allow, &g, &mut visited, Crate("b"));
    assert_eq!(names(&visited).iter().filter(|n| n.as_str() == "c").count(), 1);
    assert_eq!(visited.len(), 3);
}

#[test]
fn diamond_from_one_root_expands_once() {
    let g = Resolve {
        nodes: vec![
            node("top 1.0.0", &["left 1.0.0", "right 1.0.0"]),
            node("left 1.0.0", &["bottom 1.0.0"]),
            node("right 1.0.0", &["bottom 1.0.0"]),
            node("bottom 1.0.0", &[]),
        ],
    };
    let mut visited = Vec::new();
    let found = check_crate_whitelist(&vec![], &g, &mut visited, Crate("top"));
    assert_eq!(visited.len(), 4);
    assert_eq!(names(&found.unapproved), vec!["bottom", "left", "right", "top"]);
    assert!(found.missing.is_empty());
}

#[test]
fn cycle_terminates() {
    let g = Resolve { nodes: vec![node("x 1.0.0", &["y 1.0.0"]), node("y 1.0.0", &["x 1.0.0"])] };
    let r = check_whitelist_graph(&vec![Crate("x")], &g, &vec![Crate("x")]);
    assert_eq!(names(&r.unwrap()), vec!["y"]);
}

#[test]
fn full_allow_set_gives_no_violations() {
    let g = chain();
    let r = check_whitelist_graph(&vec![Crate("c"), Crate("b"), Crate("a")], &g, &vec![Crate("a")]);
    assert!(r.unwrap().is_empty());
}

#[test]
fn unreachable_packages_not_reported() {
    let g = diamond();
    let r = check_whitelist_graph(&vec![], &g, &vec![Crate("c")]);
    assert_eq!(names(&r.unwrap()), vec!["c", "d"]);
}

#[test]
fn violations_are_sorted_and_repeatable() {
    let g = Resolve {
        nodes: vec![
            node("root 1.0.0", &["zeta 1.0.0", "alpha 1.0.0", "mid 1.0.0"]),
            node("zeta 1.0.0", &["alpha 1.0.0"]),
            node("alpha 1.0.0", &[]),
            node("mid 1.0.0", &["zeta 1.0.0"]),
        ],
    };
    let allow = vec![Crate("root")];
    let first = names(&check_whitelist_graph(&allow, &g, &vec![Crate("root")]).unwrap());
    let second = names(&check_whitelist_graph(&allow, &g, &vec![Crate("root")]).unwrap());
    assert_eq!(first, vec!["alpha", "mid", "zeta"]);
    assert_eq!(first, second);
}

#[test]
fn missing_root_is_an_error() {
    let g = chain();
    let r = check_whitelist_graph(&vec![], &g, &vec![Crate("nope")]);
    assert_eq!(names(&r.unwrap_err()), vec!["nope"]);
}

#[test]
fn missing_dependency_is_an_error() {
    let g = Resolve {
        nodes: vec![node("a 0.1.0", &["gone 1.0.0", "b 0.1.0"]), node("b 0.1.0", &["lost 2.0.0"])],
    };
    let r = check_whitelist_graph(&vec![Crate("a"), Crate("b"), Crate("gone"), Crate("lost")], &g, &vec![Crate("a")]);
    assert_eq!(names(&r.unwrap_err()), vec!["gone", "lost"]);
}

#[test]
fn configured_lists() {
    let roots = whitelist_crates();
    assert_eq!(names(&roots), vec!["rustc", "rustc_trans"]);
    let allow = whitelist();
    assert_eq!(allow.len(), 55);
    assert!(allow.iter().any(|c| c.0 == "libc"));
    assert!(allow.iter().all(|c| !c.0.ends_with(' ')));
}
