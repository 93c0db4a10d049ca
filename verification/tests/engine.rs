use module_manager_rs::config_node::{ConfigKey, ConfigNode};
use module_manager_rs::document::{
    AssignmentOperator, Document, KeyVal, ModClause, NeedsBlock, Node, NodeItem, Operator, OrClause, Pass,
};
use module_manager_rs::file::File;
use module_manager_rs::module_manager::ModuleManager;
use module_manager_rs::pass;
use module_manager_rs::patch_set::PatchSet;
use module_manager_rs::raw_patch::RawPatches;
use module_manager_rs::{PatchingError, RuntimeError};

fn key(operator: Option<Operator>, name: &str, value: &str) -> NodeItem {
    NodeItem::KeyVal(KeyVal {
        path: None,
        operator,
        key: name.to_string(),
        needs: None,
        index: None,
        array_index: None,
        assignment_operator: AssignmentOperator::Assign,
        val: value.to_string(),
    })
}

fn node(operator: Option<Operator>, ident: &str, name: Option<&str>, pass: Pass, block: Vec<NodeItem>) -> Node {
    Node {
        path: None,
        operator,
        identifier: ident.to_string(),
        name: name.map(|n| n.to_string()),
        has: None,
        needs: None,
        pass,
        index: None,
        block,
    }
}

fn needs(name: &str) -> Option<NeedsBlock> {
    Some(NeedsBlock {
        or_clauses: vec![OrClause { mod_clauses: vec![ModClause { negated: false, name: name.to_string() }] }],
    })
}

fn file(path: &str, nodes: Vec<Node>) -> File<Document> {
    File::new(path.to_string(), Document { statements: nodes.into_iter().map(NodeItem::Node).collect() })
}

fn probe() -> Node {
    node(None, "PART", None, Pass::Default, vec![key(None, "name", "Probe")])
}

fn config(file: &str, ident: &str, keys: Vec<(&str, &str)>) -> ConfigNode {
    ConfigNode {
        file_path: Some(file.to_string()),
        ident: ident.to_string(),
        nodes: vec![],
        keys: keys.into_iter().map(|(k, v)| ConfigKey::new(k, v)).collect(),
    }
}

fn execute(files: Vec<File<Document>>, dlls: &[&str]) -> Result<Vec<Option<ConfigNode>>, PatchingError> {
    let manager = ModuleManager::new(RawPatches { files }, dlls.iter().map(|d| d.to_string()).collect())?;
    manager.execute().map(|database| database.0)
}

fn shape(set: &PatchSet) -> Vec<(String, Vec<(String, Vec<String>)>)> {
    set.iter()
        .iter()
        .map(|(pass, files)| {
            let files = files
                .iter()
                .map(|f| (f.path.clone(), f.contents.iter().map(|p| p.ident.clone()).collect()))
                .collect();
            (pass.render(), files)
        })
        .collect()
}

#[test]
fn an_edit_keeps_the_file_of_the_insertion() {
    let edit = node(
        Some(Operator::Edit),
        "PART",
        Some("Probe"),
        Pass::Default,
        vec![key(Some(Operator::EditOrCreate), "mass", "5")],
    );
    let result = execute(vec![file("a.cfg", vec![probe()]), file("b.cfg", vec![edit])], &[]);
    assert_eq!(result, Ok(vec![Some(config("a.cfg", "PART", vec![("name", "Probe"), ("mass", "5")]))]));
    let nodes = result.unwrap();
    assert_eq!(nodes[0].as_ref().unwrap().file_path, Some("a.cfg".to_string()));
    assert_eq!(nodes[0].as_ref().unwrap().name_key(), Some("Probe"));
}

#[test]
fn a_patch_that_needs_an_absent_mod_is_pruned() {
    let mut edit = node(
        Some(Operator::Edit),
        "PART",
        Some("Probe"),
        Pass::Default,
        vec![key(Some(Operator::EditOrCreate), "mass", "5")],
    );
    edit.needs = needs("ModX");
    let result = execute(vec![file("a.cfg", vec![probe()]), file("b.cfg", vec![edit])], &[]);
    assert_eq!(result, Ok(vec![Some(config("a.cfg", "PART", vec![("name", "Probe")]))]));
}

#[test]
fn a_patch_that_needs_a_known_mod_is_applied() {
    let edit = || {
        let mut edit = node(
            Some(Operator::Edit),
            "PART",
            Some("Probe"),
            Pass::Default,
            vec![key(Some(Operator::EditOrCreate), "mass", "5")],
        );
        edit.needs = needs("ModX");
        edit
    };
    let edited = Ok(vec![Some(config("a.cfg", "PART", vec![("name", "Probe"), ("mass", "5")]))]);
    assert_eq!(execute(vec![file("a.cfg", vec![probe()]), file("b.cfg", vec![edit()])], &["ModX"]), edited);
    let declaring = node(Some(Operator::Edit), "NOTHING", None, Pass::For("ModX".to_string()), vec![]);
    assert_eq!(
        execute(vec![file("a.cfg", vec![probe()]), file("b.cfg", vec![edit(), declaring])], &[]),
        edited
    );
}

#[test]
fn a_deletion_empties_the_database() {
    let delete = node(Some(Operator::Delete), "PART", Some("Probe"), Pass::Default, vec![]);
    let result = execute(vec![file("a.cfg", vec![probe()]), file("b.cfg", vec![delete])], &[]);
    assert_eq!(result, Ok(vec![]));
}

#[test]
fn passes_run_in_their_order_whatever_the_order_of_the_files() {
    let tag = |pass: Pass, value: &str| {
        node(Some(Operator::Edit), "PART", None, pass, vec![key(None, "seen", value)])
    };
    let files = vec![
        file(
            "z.cfg",
            vec![
                tag(Pass::Final, "final"),
                tag(Pass::Last("a".to_string()), "last"),
                tag(Pass::After("m".to_string()), "after m"),
                tag(Pass::For("m".to_string()), "for m"),
                tag(Pass::Before("m".to_string()), "before m"),
                tag(Pass::First, "first"),
                tag(Pass::After("b".to_string()), "after b"),
                tag(Pass::For("b".to_string()), "for b"),
            ],
        ),
        file("a.cfg", vec![probe()]),
    ];
    let result = execute(files, &[]).unwrap();
    let seen: Vec<&str> = result[0].as_ref().unwrap().keys.iter().skip(1).map(|k| k.value.as_str()).collect();
    assert_eq!(seen, vec!["first", "for b", "after b", "before m", "for m", "after m", "last", "final"]);
}

#[test]
fn files_of_a_pass_run_in_the_order_of_their_paths() {
    let tag = |value: &str| node(Some(Operator::Edit), "PART", None, Pass::First, vec![key(None, "seen", value)]);
    let files = vec![
        file("c.cfg", vec![tag("c1"), tag("c2")]),
        file("a.cfg", vec![probe(), tag("a")]),
        file("b.cfg", vec![tag("b")]),
        file("c.cfg", vec![tag("c3")]),
    ];
    let result = execute(files, &[]).unwrap();
    let seen: Vec<&str> = result[0].as_ref().unwrap().keys.iter().skip(1).map(|k| k.value.as_str()).collect();
    assert_eq!(seen, vec!["a", "b", "c1", "c2", "c3"]);
}

#[test]
fn a_directory_runs_before_one_whose_name_begins_with_its_name() {
    let tag = |value: &str| node(Some(Operator::Edit), "PART", None, Pass::First, vec![key(None, "seen", value)]);
    let files = vec![
        file("GameData/Foo-Bar/x.cfg", vec![tag("foo-bar")]),
        file("GameData/Foo.cfg", vec![tag("foo.cfg")]),
        file("GameData/Foo/x.cfg", vec![tag("foo")]),
        file("GameData/A/a.cfg", vec![probe()]),
    ];
    let result = execute(files, &[]).unwrap();
    let seen: Vec<&str> = result[0].as_ref().unwrap().keys.iter().skip(1).map(|k| k.value.as_str()).collect();
    assert_eq!(seen, vec!["foo", "foo-bar", "foo.cfg"]);
}

#[test]
fn before_and_after_are_pruned_without_their_mod() {
    let tag = |pass: Pass, value: &str| {
        node(Some(Operator::Edit), "PART", None, pass, vec![key(None, "seen", value)])
    };
    let files = || {
        vec![file(
            "a.cfg",
            vec![
                probe(),
                tag(Pass::Before("gone".to_string()), "before gone"),
                tag(Pass::After("gone".to_string()), "after gone"),
                tag(Pass::Before("dll".to_string()), "before dll"),
                tag(Pass::After("made".to_string()), "after made"),
                tag(Pass::For("made".to_string()), "for made"),
                tag(Pass::For("lonely".to_string()), "for lonely"),
                tag(Pass::Last("gone".to_string()), "last gone"),
            ],
        )]
    };
    let result = execute(files(), &["dll"]).unwrap();
    let seen: Vec<&str> = result[0].as_ref().unwrap().keys.iter().skip(1).map(|k| k.value.as_str()).collect();
    assert_eq!(seen, vec!["before dll", "for lonely", "for made", "after made", "last gone"]);
    let result = execute(files(), &[]).unwrap();
    let seen: Vec<&str> = result[0].as_ref().unwrap().keys.iter().skip(1).map(|k| k.value.as_str()).collect();
    assert_eq!(seen, vec!["for lonely", "for made", "after made", "last gone"]);
}

#[test]
fn needs_prune_children_on_their_own() {
    let mut kept_child = node(None, "MODULE", None, Pass::Default, vec![key(None, "name", "Kept")]);
    kept_child.needs = needs("There");
    let mut dropped_child = node(None, "MODULE", None, Pass::Default, vec![key(None, "name", "Dropped")]);
    dropped_child.needs = needs("Gone");
    let mut dropped_key = match key(None, "cost", "1") {
        NodeItem::KeyVal(key) => key,
        _ => unreachable!(),
    };
    dropped_key.needs = needs("Gone");
    let mut parent = node(
        None,
        "PART",
        None,
        Pass::Default,
        vec![
            key(None, "name", "Probe"),
            NodeItem::KeyVal(dropped_key),
            NodeItem::Node(dropped_child),
            NodeItem::Node(kept_child),
        ],
    );
    parent.needs = needs("There");
    let mut gone = node(None, "PART", None, Pass::Default, vec![key(None, "name", "Gone")]);
    gone.needs = needs("Gone");
    let result = execute(vec![file("a.cfg", vec![gone, parent])], &["There"]).unwrap();
    assert_eq!(result.len(), 1);
    let part = result[0].as_ref().unwrap();
    assert_eq!(part.keys, vec![ConfigKey::new("name", "Probe")]);
    assert_eq!(part.nodes.len(), 1);
    assert_eq!(part.nodes[0].as_ref().unwrap().name_key(), Some("Kept"));
}

#[test]
fn needs_in_a_subfolder_stop_the_engine() {
    let mut edit = node(Some(Operator::Edit), "PART", None, Pass::Default, vec![]);
    edit.needs = needs("Mod/Sub");
    let result = execute(vec![file("a.cfg", vec![probe(), edit])], &[]);
    assert!(matches!(result, Err(PatchingError::Internal(_))));
}

#[test]
fn a_top_level_key_is_an_internal_error() {
    let document = Document { statements: vec![NodeItem::Node(probe()), key(None, "stray", "1")] };
    let raw = RawPatches { files: vec![File::new("a.cfg".to_string(), document)] };
    assert!(matches!(raw.extract(), Err(PatchingError::Internal(_))));
    let document = Document { statements: vec![key(None, "stray", "1")] };
    let raw = RawPatches { files: vec![File::new("a.cfg".to_string(), document)] };
    assert!(matches!(ModuleManager::new(raw, vec![]), Err(PatchingError::Internal(_))));
}

#[test]
fn a_refused_patch_names_its_file() {
    let rename = node(Some(Operator::Rename), "PART", None, Pass::Default, vec![]);
    let result = execute(vec![file("a.cfg", vec![probe()]), file("b.cfg", vec![rename])], &[]);
    assert_eq!(
        result,
        Err(PatchingError::Runtime { path: "b.cfg".to_string(), kind: RuntimeError::CannotRenameNode })
    );
    let mut copy_from = node(None, "PART", None, Pass::Final, vec![]);
    copy_from.path = Some("@PART[x]".to_string());
    let result = execute(vec![file("c.cfg", vec![copy_from]), file("a.cfg", vec![probe()])], &[]);
    assert_eq!(
        result,
        Err(PatchingError::Runtime { path: "c.cfg".to_string(), kind: RuntimeError::CannotCopyFromTopLevel })
    );
    let bad_insert = node(None, "PART", None, Pass::Default, vec![key(Some(Operator::Edit), "mass", "5")]);
    let result = execute(vec![file("d.cfg", vec![bad_insert])], &[]);
    assert_eq!(
        result,
        Err(PatchingError::Runtime { path: "d.cfg".to_string(), kind: RuntimeError::PatchInNonPatchNode })
    );
}

#[test]
fn extract_groups_by_pass_and_file() {
    let tagged = |ident: &str, pass: Pass| node(None, ident, None, pass, vec![]);
    let raw = RawPatches {
        files: vec![
            File::new(
                "b.cfg".to_string(),
                Document {
                    statements: vec![
                        NodeItem::Comment("// header".to_string()),
                        NodeItem::Node(tagged("B1", Pass::Final)),
                        NodeItem::EmptyLine,
                        NodeItem::Node(tagged("B2", Pass::For("m".to_string()))),
                        NodeItem::Node(tagged("B3", Pass::Final)),
                    ],
                },
            ),
            file("a.cfg", vec![tagged("A1", Pass::Final), tagged("A2", Pass::First)]),
        ],
    };
    let set = raw.extract().unwrap();
    let text = |items: &[&str]| -> Vec<String> { items.iter().map(|i| i.to_string()).collect() };
    assert_eq!(
        shape(&set),
        vec![
            (":<DEFAULT>".to_string(), vec![]),
            (":FIRST".to_string(), vec![("a.cfg".to_string(), text(&["A2"]))]),
            (":FOR[m]".to_string(), vec![("b.cfg".to_string(), text(&["B2"]))]),
            (
                ":FINAL".to_string(),
                vec![("a.cfg".to_string(), text(&["A1"])), ("b.cfg".to_string(), text(&["B1", "B3"]))]
            ),
        ]
    );
    assert!(set.iter().iter().all(|(_, files)| files.iter().all(|f| f.contents.iter().all(|p| p.is_top_level))));
}

#[test]
fn extract_of_nothing_holds_the_default_pass() {
    let set = RawPatches::default().extract().unwrap();
    assert_eq!(shape(&set), vec![(":<DEFAULT>".to_string(), vec![])]);
    assert_eq!(execute(vec![], &[]), Ok(vec![]));
}

#[test]
fn patch_set_add_keeps_the_order() {
    let patch = |ident: &str| {
        module_manager_rs::node_patch::NodePatch::from_cst(node(None, ident, None, Pass::Default, vec![]), true)
            .unwrap()
    };
    let mut set = PatchSet::default();
    set.add(pass::Pass::Final, "b.cfg", patch("one"));
    set.add(pass::Pass::Default, "b.cfg", patch("two"));
    set.add(pass::Pass::Final, "a.cfg", patch("three"));
    set.add(pass::Pass::Final, "b.cfg", patch("four"));
    assert_eq!(set.touch(pass::Pass::First), 1);
    assert_eq!(set.touch(pass::Pass::Final), 2);
    let text = |items: &[&str]| -> Vec<String> { items.iter().map(|i| i.to_string()).collect() };
    assert_eq!(
        shape(&set),
        vec![
            (":<DEFAULT>".to_string(), vec![("b.cfg".to_string(), text(&["two"]))]),
            (":FIRST".to_string(), vec![]),
            (
                ":FINAL".to_string(),
                vec![("a.cfg".to_string(), text(&["three"])), ("b.cfg".to_string(), text(&["one", "four"]))]
            ),
        ]
    );
    set.iter_mut().remove(1);
    assert_eq!(set.iter().len(), 2);
}

#[test]
fn later_patches_see_what_earlier_ones_inserted() {
    let insert_late = node(None, "PART", None, Pass::First, vec![key(None, "name", "Late")]);
    let edit_all = node(Some(Operator::Edit), "PART", None, Pass::Final, vec![key(None, "done", "1")]);
    let copy = node(
        Some(Operator::Copy),
        "PART",
        Some("Probe"),
        Pass::For("m".to_string()),
        vec![key(Some(Operator::Edit), "name", "Twin")],
    );
    let result = execute(vec![file("a.cfg", vec![edit_all, probe(), copy, insert_late])], &[]).unwrap();
    let names: Vec<Option<&str>> = result.iter().map(|n| n.as_ref().unwrap().name_key()).collect();
    assert_eq!(names, vec![Some("Probe"), Some("Late"), Some("Twin")]);
    assert!(result.iter().all(|n| n.as_ref().unwrap().keys.last().unwrap().ident == "done"));
    assert!(result.iter().all(|n| n.as_ref().unwrap().file_path == Some("a.cfg".to_string())));
}

#[test]
fn extract_passes_lists_each_pass_once_in_order() {
    let tagged = |ident: &str, pass: Pass| node(None, ident, None, pass, vec![]);
    let raw = RawPatches {
        files: vec![
            file(
                "b.cfg",
                vec![
                    tagged("B1", Pass::Final),
                    tagged("B2", Pass::For("m".to_string())),
                    tagged("B3", Pass::Final),
                ],
            ),
            file("a.cfg", vec![tagged("A1", Pass::First), tagged("A2", Pass::For("m".to_string()))]),
        ],
    };
    assert_eq!(
        raw.extract_passes(),
        Ok(vec![pass::Pass::First, pass::Pass::For("m".into()), pass::Pass::Final])
    );
    assert_eq!(RawPatches::default().extract_passes(), Ok(vec![]));
    let document = Document { statements: vec![key(None, "stray", "1")] };
    let raw = RawPatches { files: vec![File::new("a.cfg".to_string(), document)] };
    assert!(matches!(raw.extract_passes(), Err(PatchingError::Internal(_))));
}

fn tagged_set() -> PatchSet {
    let tag = |ident: &str, pass: Pass| node(Some(Operator::Edit), ident, None, pass, vec![]);
    let mut gone = tag("NEEDS_GONE", Pass::For("made".to_string()));
    gone.needs = needs("Gone");
    RawPatches {
        files: vec![file(
            "a.cfg",
            vec![
                tag("D", Pass::Default),
                tag("BG", Pass::Before("gone".to_string())),
                tag("AG", Pass::After("gone".to_string())),
                tag("BD", Pass::Before("dll".to_string())),
                tag("AM", Pass::After("made".to_string())),
                tag("FM", Pass::For("made".to_string())),
                gone,
                tag("FL", Pass::For("lonely".to_string())),
                tag("LG", Pass::Last("gone".to_string())),
                tag("F", Pass::Final),
            ],
        )],
    }
    .extract()
    .unwrap()
}

#[test]
fn scan_declared_passes_lists_the_for_passes() {
    let mut declared = ModuleManager::scan_declared_passes(&tagged_set());
    declared.sort();
    assert_eq!(declared, vec!["lonely".to_string(), "made".to_string()]);
    assert!(ModuleManager::scan_declared_passes(&PatchSet::default()).is_empty());
}

#[test]
fn prune_before_after_drops_the_passes_without_their_mod() {
    let passes = |set: &PatchSet| -> Vec<String> { set.iter().iter().map(|(pass, _)| pass.render()).collect() };
    let mut set = tagged_set();
    let before = shape(&set);
    ModuleManager::prune_before_after(&mut set, &vec!["made".to_string(), "dll".to_string()]);
    assert_eq!(
        passes(&set),
        vec![":<DEFAULT>", ":BEFORE[dll]", ":FOR[lonely]", ":FOR[made]", ":AFTER[made]", ":LAST[gone]", ":FINAL"]
    );
    let kept: Vec<_> = before.into_iter().filter(|(pass, _)| !pass.contains("[gone]") || pass.starts_with(":LAST")).collect();
    assert_eq!(shape(&set), kept);
    let mut set = tagged_set();
    ModuleManager::prune_before_after(&mut set, &vec![]);
    assert_eq!(passes(&set), vec![":<DEFAULT>", ":FOR[lonely]", ":FOR[made]", ":LAST[gone]", ":FINAL"]);
    let mut set = tagged_set();
    ModuleManager::prune_before_after(&mut set, &vec!["gone".to_string()]);
    assert_eq!(
        passes(&set),
        vec![":<DEFAULT>", ":BEFORE[gone]", ":AFTER[gone]", ":FOR[lonely]", ":FOR[made]", ":LAST[gone]", ":FINAL"]
    );
}

#[test]
fn prune_needs_drops_the_patches_whose_needs_fail() {
    let mut set = tagged_set();
    assert_eq!(ModuleManager::prune_needs(&mut set, &vec![]), Ok(()));
    let for_made: Vec<String> = set
        .iter()
        .iter()
        .filter(|(pass, _)| pass.render() == ":FOR[made]")
        .flat_map(|(_, files)| files.iter().flat_map(|f| f.contents.iter().map(|p| p.ident.clone())))
        .collect();
    assert_eq!(for_made, vec!["FM".to_string()]);
    assert_eq!(set.iter().len(), 10 - 1);
    let mut set = tagged_set();
    assert_eq!(ModuleManager::prune_needs(&mut set, &vec!["Gone".to_string()]), Ok(()));
    assert_eq!(shape(&set), shape(&tagged_set()));
}

#[test]
fn prune_needs_that_fails_changes_nothing() {
    let mut bad = node(Some(Operator::Edit), "BAD", None, Pass::Final, vec![]);
    bad.needs = needs("Mod/Sub");
    let mut gone = node(Some(Operator::Edit), "GONE", None, Pass::First, vec![]);
    gone.needs = needs("Gone");
    let mut set = RawPatches { files: vec![file("a.cfg", vec![gone, bad])] }.extract().unwrap();
    let before = shape(&set);
    assert!(matches!(ModuleManager::prune_needs(&mut set, &vec![]), Err(PatchingError::Internal(_))));
    assert_eq!(shape(&set), before);
}
