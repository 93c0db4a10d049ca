use module_manager_rs::config_node::{ConfigKey, ConfigNode};
use module_manager_rs::document::{HasBlock, HasPredicate, Index, ModClause, OrClause};
use module_manager_rs::key_patch::KeyPatch;
use module_manager_rs::module_manager::operator::has::{
    all_satisfied, evaluate_predicate, is_satisfied as has_is_satisfied, name_matches, NameFilter,
};
use module_manager_rs::module_manager::operator::needs::{
    declares, evaluate_mod_need, is_satisfied, prune_list, prune_node_recurse,
};
use module_manager_rs::module_manager::selector::Selector;
use module_manager_rs::node_patch::NodePatch;
use module_manager_rs::operation::Op;
use module_manager_rs::PatchingError;

fn need(name: &str) -> ModClause {
    ModClause { negated: false, name: name.to_string() }
}

fn not(name: &str) -> ModClause {
    ModClause { negated: true, name: name.to_string() }
}

fn any_of(needs: Vec<ModClause>) -> OrClause {
    OrClause { mod_clauses: needs }
}

fn declared(names: &[&str]) -> Vec<String> {
    names.iter().map(|n| n.to_string()).collect()
}

fn patch(ident: &str, needs: Vec<OrClause>) -> NodePatch {
    NodePatch {
        is_top_level: false,
        operation: Op::Edit,
        ident: ident.to_string(),
        target_name: None,
        has: vec![],
        needs,
        index: None,
        node_patches: vec![],
        key_patches: vec![],
    }
}

fn key_patch(ident: &str, needs: Vec<OrClause>) -> KeyPatch {
    KeyPatch {
        operation: Op::Insert,
        ident: ident.to_string(),
        needs,
        edit: None,
        index: None,
        array_index: None,
        value: "1".to_string(),
    }
}

fn node(ident: &str, keys: Vec<(&str, &str)>, children: Vec<ConfigNode>) -> ConfigNode {
    ConfigNode {
        file_path: None,
        ident: ident.to_string(),
        nodes: children.into_iter().map(Some).collect(),
        keys: keys.into_iter().map(|(k, v)| ConfigKey::new(k, v)).collect(),
    }
}

#[test]
fn declares_looks_the_name_up() {
    assert!(declares(&declared(&["A", "B"]), "B"));
    assert!(!declares(&declared(&["A", "B"]), "C"));
    assert!(!declares(&declared(&[]), "A"));
    assert!(!declares(&declared(&["A"]), "a"));
}

#[test]
fn mod_need_is_met_by_a_declared_mod() {
    assert_eq!(evaluate_mod_need(&need("A"), &declared(&["A"])), Ok(true));
    assert_eq!(evaluate_mod_need(&need("A"), &declared(&["B"])), Ok(false));
    assert_eq!(evaluate_mod_need(&not("A"), &declared(&["A"])), Ok(false));
    assert_eq!(evaluate_mod_need(&not("A"), &declared(&["B"])), Ok(true));
}

#[test]
fn mod_need_in_a_subfolder_is_an_internal_error() {
    assert!(matches!(evaluate_mod_need(&need("A/B"), &declared(&["A"])), Err(PatchingError::Internal(_))));
    assert!(matches!(evaluate_mod_need(&not("/"), &declared(&[])), Err(PatchingError::Internal(_))));
}

#[test]
fn needs_are_an_and_of_ors() {
    let there = declared(&["A", "B"]);
    assert_eq!(is_satisfied(&vec![], &there), Ok(true));
    assert_eq!(is_satisfied(&vec![any_of(vec![])], &there), Ok(false));
    assert_eq!(is_satisfied(&vec![any_of(vec![need("A")]), any_of(vec![need("B")])], &there), Ok(true));
    assert_eq!(is_satisfied(&vec![any_of(vec![need("A")]), any_of(vec![need("C")])], &there), Ok(false));
    assert_eq!(is_satisfied(&vec![any_of(vec![need("C"), need("B")])], &there), Ok(true));
    assert_eq!(is_satisfied(&vec![any_of(vec![need("C"), not("D")])], &there), Ok(true));
    assert_eq!(is_satisfied(&vec![any_of(vec![need("C"), not("A")])], &there), Ok(false));
}

#[test]
fn needs_with_a_subfolder_fail_wherever_it_stands() {
    let there = declared(&["A"]);
    assert!(matches!(
        is_satisfied(&vec![any_of(vec![need("A"), need("X/Y")])], &there),
        Err(PatchingError::Internal(_))
    ));
    assert!(matches!(
        is_satisfied(&vec![any_of(vec![need("B")]), any_of(vec![need("X/Y")])], &there),
        Err(PatchingError::Internal(_))
    ));
}

#[test]
fn prune_drops_a_parent_with_all_below_it() {
    let mut parent = patch("PART", vec![any_of(vec![need("Missing")])]);
    parent.node_patches.push(patch("MODULE", vec![]));
    parent.node_patches.push(patch("RESOURCE", vec![any_of(vec![need("Bad/Name")])]));
    parent.key_patches.push(key_patch("mass", vec![]));
    assert_eq!(prune_node_recurse(&mut parent, &declared(&["A"])), Ok(false));
    assert_eq!(parent.node_patches.len(), 2);
    assert_eq!(parent.key_patches.len(), 1);
}

#[test]
fn prune_filters_the_children_of_a_parent_that_stays() {
    let mut parent = patch("PART", vec![any_of(vec![need("A")])]);
    let mut kept = patch("MODULE", vec![]);
    kept.node_patches.push(patch("INNER", vec![any_of(vec![need("Missing")])]));
    kept.node_patches.push(patch("OTHER", vec![any_of(vec![not("Missing")])]));
    parent.node_patches.push(patch("FIRST", vec![any_of(vec![need("Missing")])]));
    parent.node_patches.push(kept);
    parent.node_patches.push(patch("LAST", vec![any_of(vec![need("A")])]));
    parent.key_patches.push(key_patch("a", vec![]));
    parent.key_patches.push(key_patch("b", vec![any_of(vec![need("Missing")])]));
    parent.key_patches.push(key_patch("c", vec![any_of(vec![need("A")])]));
    assert_eq!(prune_node_recurse(&mut parent, &declared(&["A"])), Ok(true));
    let idents: Vec<&str> = parent.node_patches.iter().map(|p| p.ident.as_str()).collect();
    assert_eq!(idents, vec!["MODULE", "LAST"]);
    let inner: Vec<&str> = parent.node_patches[0].node_patches.iter().map(|p| p.ident.as_str()).collect();
    assert_eq!(inner, vec!["OTHER"]);
    let keys: Vec<&str> = parent.key_patches.iter().map(|p| p.ident.as_str()).collect();
    assert_eq!(keys, vec!["a", "c"]);
}

#[test]
fn prune_fails_on_a_subfolder_that_it_has_to_test() {
    let mut parent = patch("PART", vec![]);
    parent.node_patches.push(patch("MODULE", vec![any_of(vec![need("X/Y")])]));
    assert!(matches!(prune_node_recurse(&mut parent, &declared(&[])), Err(PatchingError::Internal(_))));
    let mut parent = patch("PART", vec![]);
    parent.key_patches.push(key_patch("mass", vec![any_of(vec![need("X/Y")])]));
    assert!(matches!(prune_node_recurse(&mut parent, &declared(&[])), Err(PatchingError::Internal(_))));
}

#[test]
fn prune_that_fails_changes_nothing() {
    let mut parent = patch("PART", vec![]);
    parent.node_patches.push(patch("GOES", vec![any_of(vec![need("Missing")])]));
    parent.node_patches.push(patch("STAYS", vec![]));
    parent.node_patches.push(patch("BAD", vec![any_of(vec![need("X/Y")])]));
    parent.key_patches.push(key_patch("gone", vec![any_of(vec![need("Missing")])]));
    let before = format!("{:?}", parent.clone());
    assert!(matches!(prune_node_recurse(&mut parent, &declared(&[])), Err(PatchingError::Internal(_))));
    assert_eq!(format!("{parent:?}"), before);
    let mut patches = vec![patch("GOES", vec![any_of(vec![need("Missing")])]), parent];
    let before = format!("{patches:?}");
    assert!(matches!(prune_list(&mut patches, &declared(&[])), Err(PatchingError::Internal(_))));
    assert_eq!(format!("{patches:?}"), before);
}

#[test]
fn prune_list_keeps_the_order() {
    let mut patches = vec![
        patch("A", vec![]),
        patch("B", vec![any_of(vec![need("Missing")])]),
        patch("C", vec![]),
    ];
    assert_eq!(prune_list(&mut patches, &declared(&[])), Ok(()));
    let idents: Vec<&str> = patches.iter().map(|p| p.ident.as_str()).collect();
    assert_eq!(idents, vec!["A", "C"]);
}

#[test]
fn name_filter_is_made_of_the_target_name() {
    assert_eq!(NameFilter::new(&None), NameFilter::Any);
    assert_eq!(NameFilter::new(&Some("*".to_string())), NameFilter::Any);
    assert_eq!(NameFilter::new(&Some("Probe".to_string())), NameFilter::OneOf(vec!["Probe".to_string()]));
    assert_eq!(
        NameFilter::new(&Some("A|B".to_string())),
        NameFilter::OneOf(vec!["A".to_string(), "B".to_string()])
    );
}

#[test]
fn name_filter_admits_its_names() {
    let filter = NameFilter::new(&Some("A|B".to_string()));
    assert!(filter.admits(Some("A")));
    assert!(filter.admits(Some("B")));
    assert!(!filter.admits(Some("C")));
    assert!(!filter.admits(Some("A|B")));
    assert!(!filter.admits(None));
    assert!(NameFilter::Any.admits(None));
    assert!(NameFilter::Any.admits(Some("whatever")));
}

#[test]
fn name_matches_the_name_key() {
    let probe = node("PART", vec![("name", "Probe")], vec![]);
    let nameless = node("PART", vec![], vec![]);
    let mut wanted = patch("PART", vec![]);
    assert!(name_matches(&probe, &wanted));
    assert!(name_matches(&nameless, &wanted));
    wanted.target_name = Some("Probe".to_string());
    assert!(name_matches(&probe, &wanted));
    assert!(!name_matches(&nameless, &wanted));
    wanted.target_name = Some("Other|Probe".to_string());
    assert!(name_matches(&probe, &wanted));
    wanted.target_name = Some("Other".to_string());
    assert!(!name_matches(&probe, &wanted));
    wanted.target_name = Some("*".to_string());
    assert!(name_matches(&probe, &wanted));
    assert!(name_matches(&nameless, &wanted));
}

#[test]
fn key_predicate_asks_for_a_key() {
    let probe = node("PART", vec![("name", "Probe"), ("mass", "5")], vec![]);
    let has_mass = HasPredicate::KeyPredicate { negated: false, key: "mass".to_string(), value: None };
    let mass_is_5 =
        HasPredicate::KeyPredicate { negated: false, key: "mass".to_string(), value: Some("5".to_string()) };
    let mass_is_6 =
        HasPredicate::KeyPredicate { negated: false, key: "mass".to_string(), value: Some("6".to_string()) };
    let no_cost = HasPredicate::KeyPredicate { negated: true, key: "cost".to_string(), value: None };
    let no_mass = HasPredicate::KeyPredicate { negated: true, key: "mass".to_string(), value: None };
    assert!(evaluate_predicate(&probe, &has_mass));
    assert!(evaluate_predicate(&probe, &mass_is_5));
    assert!(!evaluate_predicate(&probe, &mass_is_6));
    assert!(evaluate_predicate(&probe, &no_cost));
    assert!(!evaluate_predicate(&probe, &no_mass));
}

#[test]
fn node_predicate_asks_for_a_child() {
    let engine = node("MODULE", vec![("name", "Engine"), ("thrust", "9")], vec![]);
    let tank = node("RESOURCE", vec![("name", "Fuel")], vec![]);
    let probe = node("PART", vec![("name", "Probe")], vec![engine, tank]);
    let module = |name: Option<&str>, nested: Option<HasBlock>, negated: bool| HasPredicate::NodePredicate {
        negated,
        node_type: "MODULE".to_string(),
        name: name.map(|n| n.to_string()),
        has_block: nested,
    };
    assert!(evaluate_predicate(&probe, &module(None, None, false)));
    assert!(evaluate_predicate(&probe, &module(Some("Engine"), None, false)));
    assert!(!evaluate_predicate(&probe, &module(Some("Wheel"), None, false)));
    assert!(evaluate_predicate(&probe, &module(Some("Wheel"), None, true)));
    assert!(!evaluate_predicate(&probe, &module(None, None, true)));
    let thrust = HasBlock {
        predicates: vec![HasPredicate::KeyPredicate { negated: false, key: "thrust".to_string(), value: None }],
    };
    let torque = HasBlock {
        predicates: vec![HasPredicate::KeyPredicate { negated: false, key: "torque".to_string(), value: None }],
    };
    assert!(evaluate_predicate(&probe, &module(Some("Engine"), Some(thrust), false)));
    assert!(!evaluate_predicate(&probe, &module(Some("Engine"), Some(torque), false)));
    let grandchild = HasPredicate::NodePredicate {
        negated: false,
        node_type: "PART".to_string(),
        name: None,
        has_block: None,
    };
    assert!(!evaluate_predicate(&probe, &grandchild));
}

#[test]
fn every_predicate_has_to_hold() {
    let probe = node("PART", vec![("mass", "5")], vec![]);
    let has_mass = || HasPredicate::KeyPredicate { negated: false, key: "mass".to_string(), value: None };
    let has_cost = || HasPredicate::KeyPredicate { negated: false, key: "cost".to_string(), value: None };
    assert!(all_satisfied(&probe, &vec![]));
    assert!(all_satisfied(&probe, &vec![has_mass()]));
    assert!(!all_satisfied(&probe, &vec![has_mass(), has_cost()]));
    let mut wanted = patch("PART", vec![]);
    assert!(has_is_satisfied(&probe, &wanted));
    wanted.has = vec![has_cost()];
    assert!(!has_is_satisfied(&probe, &wanted));
}

#[test]
fn selector_accepts_by_identifier_name_and_capabilities() {
    let probe = node("PART", vec![("name", "Probe"), ("mass", "5")], vec![]);
    let mut wanted = patch("PART", vec![]);
    assert!(Selector::new(&wanted).accepts(&probe));
    wanted.ident = "part".to_string();
    assert!(!Selector::new(&wanted).accepts(&probe));
    wanted.ident = "PART".to_string();
    wanted.target_name = Some("Rover".to_string());
    assert!(!Selector::new(&wanted).accepts(&probe));
    wanted.target_name = Some("Rover|Probe".to_string());
    assert!(Selector::new(&wanted).accepts(&probe));
    wanted.has = vec![HasPredicate::KeyPredicate { negated: true, key: "mass".to_string(), value: None }];
    assert!(!Selector::new(&wanted).accepts(&probe));
}

#[test]
fn selector_counts_from_zero() {
    let mut wanted = patch("PART", vec![]);
    assert!(Selector::new(&wanted).selects(0));
    assert!(Selector::new(&wanted).selects(7));
    wanted.index = Some(Index::All);
    assert!(Selector::new(&wanted).selects(3));
    wanted.index = Some(Index::Number(2));
    assert!(!Selector::new(&wanted).selects(0));
    assert!(Selector::new(&wanted).selects(2));
    assert!(!Selector::new(&wanted).selects(3));
    wanted.index = Some(Index::Number(-1));
    assert!(!Selector::new(&wanted).selects(0));
    assert!(!Selector::new(&wanted).selects(usize::MAX));
}
