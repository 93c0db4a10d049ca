use module_manager_rs::config_node::{ConfigKey, ConfigNode};
use module_manager_rs::database::Database;
use module_manager_rs::document::Index;
use module_manager_rs::key_patch::KeyPatch;
use module_manager_rs::module_manager::patcher::{
    evaluate_node_as_pure_data, evaluate_recurse, sweep_nodes, Patcher,
};
use module_manager_rs::node_patch::NodePatch;
use module_manager_rs::operation::Op;
use module_manager_rs::{PatchingError, RuntimeError};

fn patch(operation: Op, ident: &str, name: Option<&str>) -> NodePatch {
    NodePatch {
        is_top_level: false,
        operation,
        ident: ident.to_string(),
        target_name: name.map(|n| n.to_string()),
        has: vec![],
        needs: vec![],
        index: None,
        node_patches: vec![],
        key_patches: vec![],
    }
}

fn key_patch(operation: Op, ident: &str, value: &str) -> KeyPatch {
    KeyPatch {
        operation,
        ident: ident.to_string(),
        needs: vec![],
        edit: None,
        index: None,
        array_index: None,
        value: value.to_string(),
    }
}

fn node(file: Option<&str>, ident: &str, keys: Vec<(&str, &str)>, children: Vec<ConfigNode>) -> ConfigNode {
    ConfigNode {
        file_path: file.map(|f| f.to_string()),
        ident: ident.to_string(),
        nodes: children.into_iter().map(Some).collect(),
        keys: keys.into_iter().map(|(k, v)| ConfigKey::new(k, v)).collect(),
    }
}

fn part(name: &str) -> ConfigNode {
    node(Some("a.cfg"), "PART", vec![("name", name)], vec![])
}

fn run(database: &mut Database, file: &str, patch: &NodePatch) -> Result<(), PatchingError> {
    Patcher::new(database, file.to_string(), patch).evaluate()
}

fn refused(file: &str, kind: RuntimeError) -> PatchingError {
    PatchingError::Runtime { path: file.to_string(), kind }
}

#[test]
fn pure_data_mirrors_the_patch() {
    let mut inner = patch(Op::Insert, "MODULE", None);
    inner.key_patches.push(key_patch(Op::Insert, "name", " Engine "));
    inner.node_patches.push(patch(Op::Insert, "CURVE", None));
    let mut outer = patch(Op::Insert, "PART", Some("ignored"));
    outer.key_patches.push(key_patch(Op::Insert, "name", "Probe"));
    outer.key_patches.push(key_patch(Op::Insert, "mass", "\t5\n"));
    outer.node_patches.push(inner);
    outer.node_patches.push(patch(Op::Insert, "RESOURCE", None));
    let made = evaluate_node_as_pure_data("a.cfg", &outer).unwrap();
    let expected = node(
        None,
        "PART",
        vec![("name", "Probe"), ("mass", "5")],
        vec![
            node(None, "MODULE", vec![("name", "Engine")], vec![node(None, "CURVE", vec![], vec![])]),
            node(None, "RESOURCE", vec![], vec![]),
        ],
    );
    assert_eq!(made, expected);
}

#[test]
fn pure_data_trims_unicode_white_space() {
    let mut outer = patch(Op::Insert, "PART", None);
    outer.key_patches.push(key_patch(Op::Insert, "a", "\u{a0}\u{3000} x y \u{2003}\u{85}"));
    outer.key_patches.push(key_patch(Op::Insert, "b", "   "));
    outer.key_patches.push(key_patch(Op::Insert, "c", "\u{200b}z"));
    let made = evaluate_node_as_pure_data("a.cfg", &outer).unwrap();
    assert_eq!(made.keys[0].value, "x y");
    assert_eq!(made.keys[1].value, "");
    assert_eq!(made.keys[2].value, "\u{200b}z");
}

#[test]
fn pure_data_may_not_hold_patches() {
    let error = Err(refused("a.cfg", RuntimeError::PatchInNonPatchNode));
    assert_eq!(evaluate_node_as_pure_data("a.cfg", &patch(Op::Edit, "PART", None)), error);
    let mut with_key = patch(Op::Insert, "PART", None);
    with_key.key_patches.push(key_patch(Op::Edit, "mass", "5"));
    assert_eq!(evaluate_node_as_pure_data("a.cfg", &with_key), error);
    let mut with_node = patch(Op::Insert, "PART", None);
    with_node.node_patches.push(patch(Op::Delete, "MODULE", None));
    assert_eq!(evaluate_node_as_pure_data("a.cfg", &with_node), error);
    let mut deep = patch(Op::Insert, "PART", None);
    let mut middle = patch(Op::Insert, "MODULE", None);
    middle.key_patches.push(key_patch(Op::Delete, "x", ""));
    deep.node_patches.push(middle);
    assert_eq!(evaluate_node_as_pure_data("a.cfg", &deep), error);
}

#[test]
fn insert_appends_a_top_level_node_with_its_file() {
    let mut database = Database::default();
    let mut insert = patch(Op::Insert, "PART", None);
    insert.key_patches.push(key_patch(Op::Insert, "name", "Probe"));
    assert_eq!(run(&mut database, "a.cfg", &insert), Ok(()));
    assert_eq!(run(&mut database, "b.cfg", &insert), Ok(()));
    assert_eq!(
        database.0,
        vec![
            Some(node(Some("a.cfg"), "PART", vec![("name", "Probe")], vec![])),
            Some(node(Some("b.cfg"), "PART", vec![("name", "Probe")], vec![])),
        ]
    );
}

#[test]
fn insert_of_a_patch_is_refused() {
    let mut database = Database(vec![Some(part("Probe"))]);
    let mut insert = patch(Op::Insert, "PART", None);
    insert.node_patches.push(patch(Op::Edit, "MODULE", None));
    assert_eq!(run(&mut database, "b.cfg", &insert), Err(refused("b.cfg", RuntimeError::PatchInNonPatchNode)));
    assert_eq!(database.0, vec![Some(part("Probe"))]);
}

#[test]
fn rename_and_copy_from_are_refused_at_the_top_level() {
    let mut database = Database(vec![Some(part("Probe"))]);
    assert_eq!(
        run(&mut database, "b.cfg", &patch(Op::Rename, "PART", None)),
        Err(refused("b.cfg", RuntimeError::CannotRenameNode))
    );
    let copy_from = Op::CopyFrom { path: "@PART[x]".to_string(), target: "PART".to_string() };
    assert_eq!(
        run(&mut database, "b.cfg", &patch(copy_from, "PART", None)),
        Err(refused("b.cfg", RuntimeError::CannotCopyFromTopLevel))
    );
    assert_eq!(database.0, vec![Some(part("Probe"))]);
}

#[test]
fn edit_changes_every_target_and_keeps_its_file() {
    let mut database = Database(vec![Some(part("Probe")), Some(part("Rover")), Some(part("Probe"))]);
    let mut edit = patch(Op::Edit, "PART", Some("Probe"));
    edit.key_patches.push(key_patch(Op::EditOrCreate, "mass", "5"));
    assert_eq!(run(&mut database, "b.cfg", &edit), Ok(()));
    let edited = node(Some("a.cfg"), "PART", vec![("name", "Probe"), ("mass", "5")], vec![]);
    assert_eq!(database.0, vec![Some(edited.clone()), Some(part("Rover")), Some(edited)]);
}

#[test]
fn edit_without_target_changes_nothing() {
    let mut database = Database(vec![Some(part("Rover"))]);
    let mut edit = patch(Op::Edit, "PART", Some("Probe"));
    edit.key_patches.push(key_patch(Op::Insert, "mass", "5"));
    assert_eq!(run(&mut database, "b.cfg", &edit), Ok(()));
    assert_eq!(database.0, vec![Some(part("Rover"))]);
}

#[test]
fn edit_with_an_ordinal_changes_one_target() {
    let mut database = Database(vec![Some(part("A")), Some(part("B")), Some(part("C"))]);
    let mut edit = patch(Op::Edit, "PART", None);
    edit.index = Some(Index::Number(1));
    edit.key_patches.push(key_patch(Op::Insert, "hit", "yes"));
    assert_eq!(run(&mut database, "b.cfg", &edit), Ok(()));
    let hit = node(Some("a.cfg"), "PART", vec![("name", "B"), ("hit", "yes")], vec![]);
    assert_eq!(database.0, vec![Some(part("A")), Some(hit), Some(part("C"))]);
    let mut out_of_range = patch(Op::Edit, "PART", None);
    out_of_range.index = Some(Index::Number(3));
    out_of_range.key_patches.push(key_patch(Op::Insert, "hit", "again"));
    let before = database.clone();
    assert_eq!(run(&mut database, "b.cfg", &out_of_range), Ok(()));
    assert_eq!(database, before);
}

#[test]
fn delete_removes_every_target() {
    let mut database =
        Database(vec![Some(part("Probe")), Some(part("Probe")), Some(part("Rover")), Some(part("Probe"))]);
    assert_eq!(run(&mut database, "b.cfg", &patch(Op::Delete, "PART", Some("Probe"))), Ok(()));
    assert_eq!(database.0, vec![Some(part("Rover"))]);
    assert_eq!(run(&mut database, "b.cfg", &patch(Op::Delete, "PART", None)), Ok(()));
    assert_eq!(database.0, vec![]);
}

#[test]
fn delete_with_an_ordinal_removes_one_target() {
    let mut database = Database(vec![Some(part("A")), Some(part("B")), Some(part("C"))]);
    let mut delete = patch(Op::Delete, "PART", None);
    delete.index = Some(Index::Number(0));
    assert_eq!(run(&mut database, "b.cfg", &delete), Ok(()));
    assert_eq!(database.0, vec![Some(part("B")), Some(part("C"))]);
}

#[test]
fn copy_appends_an_edited_duplicate_of_every_target() {
    let mut database = Database(vec![Some(part("Probe")), Some(part("Rover")), Some(part("Probe"))]);
    let mut copy = patch(Op::Copy, "PART", Some("Probe"));
    copy.key_patches.push(key_patch(Op::Edit, "name", "Probe2"));
    assert_eq!(run(&mut database, "b.cfg", &copy), Ok(()));
    assert_eq!(
        database.0,
        vec![
            Some(part("Probe")),
            Some(part("Rover")),
            Some(part("Probe")),
            Some(part("Probe2")),
            Some(part("Probe2")),
        ]
    );
}

#[test]
fn copy_that_still_matches_is_made_once() {
    let mut database = Database(vec![Some(part("Probe"))]);
    assert_eq!(run(&mut database, "b.cfg", &patch(Op::Copy, "PART", None)), Ok(()));
    assert_eq!(database.0, vec![Some(part("Probe")), Some(part("Probe"))]);
}

#[test]
fn edit_or_create_edits_every_target() {
    let mut database = Database(vec![Some(part("Probe")), Some(part("Probe"))]);
    let mut upsert = patch(Op::EditOrCreate, "PART", Some("Probe"));
    upsert.key_patches.push(key_patch(Op::Insert, "mass", "5"));
    assert_eq!(run(&mut database, "b.cfg", &upsert), Ok(()));
    let edited = node(Some("a.cfg"), "PART", vec![("name", "Probe"), ("mass", "5")], vec![]);
    assert_eq!(database.0, vec![Some(edited.clone()), Some(edited)]);
}

#[test]
fn edit_or_create_inserts_once_without_target() {
    let mut database = Database(vec![Some(part("Rover"))]);
    let mut upsert = patch(Op::EditOrCreate, "PART", Some("Probe"));
    upsert.key_patches.push(key_patch(Op::Insert, "mass", " 5 "));
    assert_eq!(run(&mut database, "b.cfg", &upsert), Ok(()));
    let created = node(Some("b.cfg"), "PART", vec![("mass", "5")], vec![]);
    assert_eq!(database.0, vec![Some(part("Rover")), Some(created)]);
}

#[test]
fn edit_or_create_cannot_create_a_patch() {
    let mut database = Database(vec![Some(part("Rover"))]);
    let mut upsert = patch(Op::EditOrCreate, "PART", Some("Probe"));
    upsert.key_patches.push(key_patch(Op::Edit, "mass", "5"));
    assert_eq!(run(&mut database, "b.cfg", &upsert), Err(refused("b.cfg", RuntimeError::PatchInNonPatchNode)));
}

#[test]
fn default_value_leaves_a_target_alone() {
    let mut database = Database(vec![Some(part("Probe"))]);
    let mut default = patch(Op::DefaultValue, "PART", Some("Probe"));
    default.key_patches.push(key_patch(Op::Insert, "mass", "5"));
    assert_eq!(run(&mut database, "b.cfg", &default), Ok(()));
    assert_eq!(database.0, vec![Some(part("Probe"))]);
}

#[test]
fn default_value_inserts_once_without_target() {
    let mut database = Database(vec![Some(part("Rover"))]);
    let mut default = patch(Op::DefaultValue, "PART", Some("Probe"));
    default.key_patches.push(key_patch(Op::Insert, "mass", "5"));
    assert_eq!(run(&mut database, "b.cfg", &default), Ok(()));
    let created = node(Some("b.cfg"), "PART", vec![("mass", "5")], vec![]);
    assert_eq!(database.0, vec![Some(part("Rover")), Some(created)]);
}

#[test]
fn key_patches_work_on_the_first_key() {
    let start = node(Some("a.cfg"), "PART", vec![("name", "Probe"), ("x", "1"), ("x", "2")], vec![]);
    let apply = |operation: Op, ident: &str, value: &str| {
        let mut database = Database(vec![Some(start.clone())]);
        let mut edit = patch(Op::Edit, "PART", None);
        edit.key_patches.push(key_patch(operation, ident, value));
        run(&mut database, "b.cfg", &edit).unwrap();
        let keys: Vec<(String, String)> =
            database.0[0].as_ref().unwrap().keys.iter().map(|k| (k.ident.clone(), k.value.clone())).collect();
        (database.0[0].as_ref().unwrap().ident.clone(), keys)
    };
    let keys = |items: &[(&str, &str)]| -> Vec<(String, String)> {
        items.iter().map(|(k, v)| (k.to_string(), v.to_string())).collect()
    };
    let part = "PART".to_string();
    assert_eq!(apply(Op::Insert, "x", " 3"), (part.clone(), keys(&[("name", "Probe"), ("x", "1"), ("x", "2"), ("x", " 3")])));
    assert_eq!(apply(Op::Edit, "x", "9"), (part.clone(), keys(&[("name", "Probe"), ("x", "9"), ("x", "2")])));
    assert_eq!(apply(Op::Edit, "y", "9"), (part.clone(), keys(&[("name", "Probe"), ("x", "1"), ("x", "2")])));
    assert_eq!(apply(Op::EditOrCreate, "x", "9"), (part.clone(), keys(&[("name", "Probe"), ("x", "9"), ("x", "2")])));
    assert_eq!(
        apply(Op::EditOrCreate, "y", "9"),
        (part.clone(), keys(&[("name", "Probe"), ("x", "1"), ("x", "2"), ("y", "9")]))
    );
    assert_eq!(apply(Op::DefaultValue, "x", "9"), (part.clone(), keys(&[("name", "Probe"), ("x", "1"), ("x", "2")])));
    assert_eq!(
        apply(Op::DefaultValue, "y", "9"),
        (part.clone(), keys(&[("name", "Probe"), ("x", "1"), ("x", "2"), ("y", "9")]))
    );
    assert_eq!(apply(Op::Delete, "x", ""), (part.clone(), keys(&[("name", "Probe"), ("x", "2")])));
    assert_eq!(apply(Op::Delete, "y", ""), (part.clone(), keys(&[("name", "Probe"), ("x", "1"), ("x", "2")])));
    assert_eq!(apply(Op::Copy, "x", "9"), (part.clone(), keys(&[("name", "Probe"), ("x", "1"), ("x", "2")])));
    assert_eq!(
        apply(Op::Rename, "ignored", "ROVER"),
        ("ROVER".to_string(), keys(&[("name", "Probe"), ("x", "1"), ("x", "2")]))
    );
}

#[test]
fn node_patches_work_on_the_children() {
    let engine = node(None, "MODULE", vec![("name", "Engine")], vec![]);
    let wheel = node(None, "MODULE", vec![("name", "Wheel")], vec![]);
    let start = node(Some("a.cfg"), "PART", vec![("name", "Probe")], vec![engine.clone(), wheel.clone()]);
    let apply = |child: NodePatch| {
        let mut database = Database(vec![Some(start.clone())]);
        let mut edit = patch(Op::Edit, "PART", None);
        edit.node_patches.push(child);
        run(&mut database, "b.cfg", &edit).map(|_| {
            let children: Vec<ConfigNode> =
                database.0[0].as_ref().unwrap().nodes.iter().map(|c| c.clone().unwrap()).collect();
            children
        })
    };
    let mut insert = patch(Op::Insert, "RESOURCE", None);
    insert.key_patches.push(key_patch(Op::Insert, "name", " Fuel "));
    let fuel = node(None, "RESOURCE", vec![("name", "Fuel")], vec![]);
    assert_eq!(apply(insert), Ok(vec![engine.clone(), wheel.clone(), fuel.clone()]));

    let mut edit = patch(Op::Edit, "MODULE", Some("Wheel"));
    edit.key_patches.push(key_patch(Op::Insert, "size", "2"));
    let big_wheel = node(None, "MODULE", vec![("name", "Wheel"), ("size", "2")], vec![]);
    assert_eq!(apply(edit), Ok(vec![engine.clone(), big_wheel.clone()]));

    assert_eq!(apply(patch(Op::Delete, "MODULE", Some("Engine"))), Ok(vec![wheel.clone()]));
    assert_eq!(apply(patch(Op::Delete, "MODULE", None)), Ok(vec![]));

    let mut copy = patch(Op::Copy, "MODULE", Some("Wheel"));
    copy.key_patches.push(key_patch(Op::Edit, "name", "Wheel2"));
    let wheel2 = node(None, "MODULE", vec![("name", "Wheel2")], vec![]);
    assert_eq!(apply(copy), Ok(vec![engine.clone(), wheel.clone(), wheel2]));

    let mut upsert = patch(Op::EditOrCreate, "RESOURCE", None);
    upsert.key_patches.push(key_patch(Op::Insert, "name", "Fuel"));
    assert_eq!(apply(upsert), Ok(vec![engine.clone(), wheel.clone(), fuel.clone()]));

    let mut upsert = patch(Op::EditOrCreate, "MODULE", None);
    upsert.key_patches.push(key_patch(Op::Insert, "seen", "1"));
    let seen_engine = node(None, "MODULE", vec![("name", "Engine"), ("seen", "1")], vec![]);
    let seen_wheel = node(None, "MODULE", vec![("name", "Wheel"), ("seen", "1")], vec![]);
    assert_eq!(apply(upsert), Ok(vec![seen_engine, seen_wheel]));

    let mut default = patch(Op::DefaultValue, "MODULE", None);
    default.key_patches.push(key_patch(Op::Insert, "seen", "1"));
    assert_eq!(apply(default), Ok(vec![engine.clone(), wheel.clone()]));

    let mut default = patch(Op::DefaultValue, "RESOURCE", None);
    default.key_patches.push(key_patch(Op::Insert, "name", "Fuel"));
    assert_eq!(apply(default), Ok(vec![engine.clone(), wheel.clone(), fuel]));

    let copy_from = Op::CopyFrom { path: "@PART[x]".to_string(), target: "MODULE".to_string() };
    assert_eq!(apply(patch(copy_from, "MODULE", None)), Ok(vec![engine.clone(), wheel.clone()]));
}

#[test]
fn node_patches_fail_loudly() {
    let engine = node(None, "MODULE", vec![("name", "Engine")], vec![]);
    let start = node(Some("a.cfg"), "PART", vec![("name", "Probe")], vec![engine]);
    let apply = |child: NodePatch| {
        let mut database = Database(vec![Some(start.clone())]);
        let mut edit = patch(Op::Edit, "PART", None);
        edit.node_patches.push(child);
        run(&mut database, "b.cfg", &edit)
    };
    assert!(matches!(apply(patch(Op::Rename, "MODULE", None)), Err(PatchingError::Internal(_))));
    assert!(matches!(apply(patch(Op::Rename, "NOTHING", None)), Err(PatchingError::Internal(_))));
    let mut insert = patch(Op::Insert, "RESOURCE", None);
    insert.key_patches.push(key_patch(Op::Edit, "name", "Fuel"));
    assert_eq!(apply(insert), Err(refused("b.cfg", RuntimeError::PatchInNonPatchNode)));
    let mut nested = patch(Op::Edit, "MODULE", None);
    nested.node_patches.push(patch(Op::Rename, "CURVE", None));
    assert!(matches!(apply(nested), Err(PatchingError::Internal(_))));
}

#[test]
fn patches_nest() {
    let curve = node(None, "CURVE", vec![("key", "0 1")], vec![]);
    let engine = node(None, "MODULE", vec![("name", "Engine")], vec![curve]);
    let mut database = Database(vec![Some(node(Some("a.cfg"), "PART", vec![("name", "Probe")], vec![engine]))]);
    let mut innermost = patch(Op::Edit, "CURVE", None);
    innermost.key_patches.push(key_patch(Op::Edit, "key", "0 2"));
    innermost.key_patches.push(key_patch(Op::Insert, "key", "1 3"));
    let mut inner = patch(Op::Edit, "MODULE", Some("Engine"));
    inner.node_patches.push(innermost);
    let mut outer = patch(Op::Edit, "PART", Some("Probe"));
    outer.node_patches.push(inner);
    outer.key_patches.push(key_patch(Op::Delete, "name", ""));
    assert_eq!(run(&mut database, "b.cfg", &outer), Ok(()));
    let curve = node(None, "CURVE", vec![("key", "0 2"), ("key", "1 3")], vec![]);
    let engine = node(None, "MODULE", vec![("name", "Engine")], vec![curve]);
    assert_eq!(database.0, vec![Some(node(Some("a.cfg"), "PART", vec![], vec![engine]))]);
}

#[test]
fn pure_data_trims_exactly_the_white_space_characters() {
    let white: Vec<u32> = vec![
        0x9, 0xa, 0xb, 0xc, 0xd, 0x20, 0x85, 0xa0, 0x1680, 0x2000, 0x2001, 0x2002, 0x2003, 0x2004, 0x2005,
        0x2006, 0x2007, 0x2008, 0x2009, 0x200a, 0x2028, 0x2029, 0x202f, 0x205f, 0x3000,
    ];
    let mut outer = patch(Op::Insert, "PART", None);
    outer.key_patches.push(key_patch(Op::Insert, "k", ""));
    for code in 0..0x3_0000u32 {
        let Some(c) = char::from_u32(code) else { continue };
        outer.key_patches[0].value = format!("{c}x{c}");
        let made = evaluate_node_as_pure_data("a.cfg", &outer).unwrap();
        if white.contains(&code) {
            assert_eq!(made.keys[0].value, "x", "U+{code:04X}");
        } else {
            assert_eq!(made.keys[0].value, format!("{c}x{c}"), "U+{code:04X}");
        }
    }
}

#[test]
fn a_failed_edit_leaves_no_empty_slot() {
    let mut database = Database(vec![Some(part("A")), Some(part("B")), Some(part("C"))]);
    let mut edit = patch(Op::Edit, "PART", Some("B|C"));
    edit.key_patches.push(key_patch(Op::Insert, "seen", "1"));
    edit.node_patches.push(patch(Op::Rename, "MODULE", None));
    assert!(matches!(run(&mut database, "b.cfg", &edit), Err(PatchingError::Internal(_))));
    assert!(database.0.iter().all(|slot| slot.is_some()));
    assert_eq!(database.0, vec![Some(part("A")), Some(part("C"))]);
    let mut copy = patch(Op::Copy, "PART", None);
    copy.node_patches.push(patch(Op::Rename, "MODULE", None));
    assert!(matches!(run(&mut database, "b.cfg", &copy), Err(PatchingError::Internal(_))));
    assert_eq!(database.0, vec![Some(part("A")), Some(part("C"))]);
}

#[test]
fn a_patch_that_is_refused_as_a_whole_changes_nothing() {
    let start = vec![Some(part("A")), Some(part("B"))];
    let mut database = Database(start.clone());
    let copy_from = Op::CopyFrom { path: "@PART[x]".to_string(), target: "PART".to_string() };
    assert!(run(&mut database, "b.cfg", &patch(copy_from, "PART", None)).is_err());
    assert_eq!(database.0, start);
    let mut insert = patch(Op::Insert, "PART", None);
    insert.key_patches.push(key_patch(Op::Insert, "name", "C"));
    insert.node_patches.push(patch(Op::Delete, "MODULE", None));
    assert_eq!(run(&mut database, "b.cfg", &insert), Err(refused("b.cfg", RuntimeError::PatchInNonPatchNode)));
    assert_eq!(database.0, start);
    assert!(run(&mut database, "b.cfg", &patch(Op::Rename, "PART", None)).is_err());
    assert_eq!(database.0, start);
    let mut default = patch(Op::DefaultValue, "RESOURCE", None);
    default.key_patches.push(key_patch(Op::Edit, "name", "C"));
    assert_eq!(run(&mut database, "b.cfg", &default), Err(refused("b.cfg", RuntimeError::PatchInNonPatchNode)));
    assert_eq!(database.0, start);
    let mut upsert = patch(Op::EditOrCreate, "RESOURCE", None);
    upsert.key_patches.push(key_patch(Op::Edit, "name", "C"));
    assert_eq!(run(&mut database, "b.cfg", &upsert), Err(refused("b.cfg", RuntimeError::PatchInNonPatchNode)));
    assert_eq!(database.0, start);
}

#[test]
fn an_edit_that_fails_keeps_what_it_has_done() {
    let with_module = |name: &str| {
        node(Some("a.cfg"), "PART", vec![("name", name)], vec![node(None, "MODULE", vec![], vec![])])
    };
    let mut database = Database(vec![Some(part("A")), Some(with_module("B")), Some(part("C"))]);
    let mut inner = patch(Op::Edit, "MODULE", None);
    inner.node_patches.push(patch(Op::Rename, "CURVE", None));
    let mut edit = patch(Op::Edit, "PART", None);
    edit.node_patches.push(patch(Op::DefaultValue, "SEEN", None));
    edit.node_patches.push(inner);
    assert!(matches!(run(&mut database, "b.cfg", &edit), Err(PatchingError::Internal(_))));
    let seen = node(Some("a.cfg"), "PART", vec![("name", "A")], vec![node(None, "SEEN", vec![], vec![])]);
    assert_eq!(database.0, vec![Some(seen), Some(part("C"))]);
}

#[test]
fn sweep_nodes_lets_one_patch_work_on_a_list() {
    let engine = node(None, "MODULE", vec![("name", "Engine")], vec![]);
    let wheel = node(None, "MODULE", vec![("name", "Wheel")], vec![]);
    let start = vec![Some(engine.clone()), Some(wheel.clone())];

    let mut nodes = start.clone();
    let mut default = patch(Op::DefaultValue, "MODULE", Some("Wheel"));
    default.key_patches.push(key_patch(Op::Insert, "size", "2"));
    assert_eq!(sweep_nodes("b.cfg", &default, &mut nodes), Ok(()));
    assert_eq!(nodes, start);

    let mut default = patch(Op::DefaultValue, "MODULE", Some("Leg"));
    default.key_patches.push(key_patch(Op::Insert, "size", " 2 "));
    assert_eq!(sweep_nodes("b.cfg", &default, &mut nodes), Ok(()));
    let leg = node(None, "MODULE", vec![("size", "2")], vec![]);
    assert_eq!(nodes, vec![Some(engine.clone()), Some(wheel.clone()), Some(leg.clone())]);

    let mut upsert = patch(Op::EditOrCreate, "MODULE", None);
    upsert.key_patches.push(key_patch(Op::EditOrCreate, "size", "3"));
    assert_eq!(sweep_nodes("b.cfg", &upsert, &mut nodes), Ok(()));
    let sized = |name: Option<&str>| match name {
        Some(name) => node(None, "MODULE", vec![("name", name), ("size", "3")], vec![]),
        None => node(None, "MODULE", vec![("size", "3")], vec![]),
    };
    assert_eq!(nodes, vec![Some(sized(Some("Engine"))), Some(sized(Some("Wheel"))), Some(sized(None))]);

    let mut nodes = start.clone();
    assert!(matches!(
        sweep_nodes("b.cfg", &patch(Op::Rename, "MODULE", None), &mut nodes),
        Err(PatchingError::Internal(_))
    ));
    assert_eq!(nodes, start);
    let mut bad = patch(Op::Insert, "RESOURCE", None);
    bad.key_patches.push(key_patch(Op::Delete, "x", ""));
    assert_eq!(sweep_nodes("b.cfg", &bad, &mut nodes), Err(refused("b.cfg", RuntimeError::PatchInNonPatchNode)));
    assert_eq!(nodes, start);
}

#[test]
fn evaluate_recurse_applies_node_patches_before_key_patches() {
    let engine = node(None, "MODULE", vec![("name", "Engine")], vec![]);
    let target = node(Some("a.cfg"), "PART", vec![("name", "Probe")], vec![engine.clone(), engine.clone()]);
    let mut edit = patch(Op::Edit, "PART", None);
    let mut upsert = patch(Op::EditOrCreate, "MODULE", Some("Engine"));
    upsert.key_patches.push(key_patch(Op::Insert, "seen", "1"));
    edit.node_patches.push(upsert);
    edit.key_patches.push(key_patch(Op::Rename, "", "ROVER"));
    let seen = node(None, "MODULE", vec![("name", "Engine"), ("seen", "1")], vec![]);
    assert_eq!(
        evaluate_recurse("b.cfg", &edit, target.clone()),
        Ok(node(Some("a.cfg"), "ROVER", vec![("name", "Probe")], vec![seen.clone(), seen]))
    );
    let mut failing = patch(Op::Edit, "PART", None);
    failing.node_patches.push(patch(Op::Rename, "MODULE", None));
    assert!(matches!(evaluate_recurse("b.cfg", &failing, target), Err(PatchingError::Internal(_))));
}
