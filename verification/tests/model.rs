use argon_write::meta::{Context, Meta, Source, SourceEntry};
use argon_write::node::{NodePath, ProjectNode};
use argon_write::path::{custom_path, get_name};
use argon_write::properties::{serialize_properties, validate_properties};
use argon_write::snapshot::Snapshot;
use argon_write::table::Table;
use argon_write::tree::Tree;
use argon_write::value::{Properties, UnresolvedValue};
use argon_write::write::files::{find_match, find_place};
use rbx_dom_weak::types::{Ref, Variant};

fn text(value: &str) -> String {
    value.to_string()
}

fn way(names: &[&str]) -> NodePath {
    NodePath { names: names.iter().map(|name| text(name)).collect() }
}

#[test]
fn the_last_name_of_a_path() {
    assert_eq!(get_name("src/Main.luau"), "Main.luau");
    assert_eq!(get_name(""), "");
    assert_eq!(get_name(".."), "");
}

#[test]
fn a_custom_path_is_beside_the_project_and_clean() {
    assert_eq!(custom_path("game/default.project.json", "src"), "game/src");
    assert_eq!(custom_path("game/default.project.json", "../lib//a/./b"), "lib/a/b");
    assert_eq!(custom_path("default.project.json", "a/.."), ".");
    assert_eq!(custom_path("game/default.project.json", "/abs/x"), "/abs/x");
}

#[test]
fn the_first_rule_that_matches() {
    assert_eq!(find_match(&vec![3, 4, 5], &vec![false, true, true]), Some(4));
    assert_eq!(find_match(&vec![3, 4], &vec![false, false]), None);
    assert_eq!(find_match(&vec![3, 4], &vec![false]), None);
}

#[test]
fn the_first_place_that_was_found() {
    assert_eq!(find_place(&vec![None, Some(text("a")), Some(text("b"))]), Some(text("a")));
    assert_eq!(find_place(&vec![None, None]), None);
}

#[test]
fn a_node_that_was_replaced_is_found_again() {
    let mut top = ProjectNode::default();
    let mut services = ProjectNode::default();
    services.insert_child(text("Inner"), ProjectNode::default());
    top.insert_child(text("Services"), services);
    let path = way(&["Services", "Inner"]);
    let new = ProjectNode::new(Some(text("Part")), None, Table::new(), None, vec![], None);
    top.replace(&path, new);
    assert_eq!(top.find(&path).unwrap().class_name().as_deref(), Some("Part"));
    assert!(top.find(&way(&["Services", "Other"])).is_none());
    assert!(top.find(&way(&[])).is_some());
}

#[test]
fn a_node_that_was_added_can_be_removed_again() {
    let mut top = ProjectNode::default();
    top.insert_child(text("A"), ProjectNode::default());
    top.insert_child(text("B"), ProjectNode::default());
    assert!(top.remove_child(&text("B")).is_some());
    assert!(top.remove_child(&text("B")).is_none());
    assert_eq!(top.names(), vec!["A"]);
}

#[test]
fn a_node_that_is_inserted_twice_is_there_once() {
    let mut top = ProjectNode::default();
    top.insert_child(text("A"), ProjectNode::default());
    let second = ProjectNode::new(Some(text("Part")), None, Table::new(), None, vec![], None);
    top.insert_child(text("A"), second);
    assert_eq!(top.names(), vec!["A"]);
    assert_eq!(top.child(&text("A")).unwrap().class_name().as_deref(), Some("Part"));
}

#[test]
fn the_path_above_the_top_is_the_top() {
    assert_eq!(way(&["A", "B"]).parent().names, vec!["A"]);
    assert!(way(&[]).parent().names.is_empty());
    assert_eq!(way(&["A"]).join("B").names, vec!["A", "B"]);
}

#[test]
fn the_data_file_that_was_set_is_the_only_one() {
    let mut source = Source::file("a.luau");
    source.add_data("one.json");
    source.add_data("two.json");
    source.set_data(Some(text("three.json")));
    assert_eq!(source.get_data().map(|path| path.as_str()), Some("three.json"));
    assert_eq!(source.relevants.len(), 2);
    assert_eq!(source.get_file().map(|path| path.as_str()), Some("a.luau"));
    source.set_data(None);
    assert!(source.get_data().is_none());
    assert_eq!(source.relevants.len(), 1);
}

#[test]
fn entries_have_paths() {
    assert_eq!(SourceEntry::Folder(text("src")).path(), "src");
    assert_eq!(SourceEntry::Project(text("p.json")).path(), "p.json");
}

fn properties(names: &[&str]) -> Properties {
    let mut table = Table::new();
    for name in names {
        table.insert(text(name), Variant::Bool(true));
    }
    table
}

#[test]
fn marked_properties_mean_none() {
    assert!(validate_properties(properties(&["ArgonEmpty", "Size"])).is_empty());
    assert_eq!(validate_properties(properties(&["Size"])).names(), vec!["Size"]);
    let once = validate_properties(properties(&["Size"]));
    assert_eq!(validate_properties(once).names(), vec!["Size"]);
}

#[test]
fn serialized_properties_name_class_and_property() {
    let table = serialize_properties("Part", properties(&["Size", "Color"]));
    assert_eq!(table.names(), vec!["Size", "Color"]);
    match table.get(&text("Color")) {
        Some(UnresolvedValue::Typed { value, class, property }) => {
            assert!(matches!(value, Variant::Bool(true)));
            assert_eq!(class, "Part");
            assert_eq!(property, "Color");
        }
        _ => panic!("wrong value"),
    }
}

#[test]
fn properties_are_serialized_together_as_they_are_apart() {
    let both = serialize_properties("Part", properties(&["Size", "Color"]));
    for name in ["Size", "Color"] {
        let alone = serialize_properties("Part", properties(&[name]));
        assert_eq!(alone.names(), vec![name]);
        let together = both.get(&text(name)).map(|value| format!("{value:?}"));
        assert_eq!(together, alone.get(&text(name)).map(|value| format!("{value:?}")));
    }
}

fn snapshot(id: Ref) -> Snapshot {
    Snapshot {
        id,
        name: text("X"),
        class: text("Folder"),
        properties: Table::new(),
        meta: Meta {
            source: Source::directory("src"),
            context: Context { rules: vec![] },
            keep_unknowns: false,
        },
        children: vec![],
    }
}

#[test]
fn a_removed_instance_takes_what_is_below_it_along() {
    let (root, a, b) = (Ref::new(), Ref::new(), Ref::new());
    let mut tree = Tree::new();
    tree.insert_root(&snapshot(root));
    let first = snapshot(a);
    tree.insert_instance_with_ref(&first, first.meta.clone(), root);
    let second = snapshot(b);
    tree.insert_instance_with_ref(&second, second.meta.clone(), a);
    tree.set_name(b, text("Y"));
    assert_eq!(tree.get_instance(b).unwrap().name, "Y");
    tree.set_properties(b, properties(&["Size"]));
    assert!(tree.get_instance(b).unwrap().properties.contains_key(&text("Size")));
    tree.remove_instance(a);
    assert!(tree.contains(root));
    assert!(!tree.contains(a));
    assert!(!tree.contains(b));
    assert!(tree.get_instance(root).unwrap().children.is_empty());
    tree.remove_instance(a);
    assert!(tree.contains(root));
}

#[test]
fn an_unknown_instance_is_not_changed() {
    let (root, other) = (Ref::new(), Ref::new());
    let mut tree = Tree::new();
    let top = snapshot(root);
    tree.insert_root(&top);
    tree.set_name(other, text("Y"));
    tree.set_properties(other, properties(&["Size"]));
    tree.update_meta(other, top.meta.clone());
    assert!(!tree.contains(other));
    assert_eq!(tree.get_instance(root).unwrap().name, "X");
    assert!(tree.get_instance(root).unwrap().properties.is_empty());
}

#[test]
fn a_table_keeps_one_value_for_each_name() {
    let mut table: Table<u8> = Table::new();
    table.insert(text("a"), 1);
    table.insert(text("b"), 2);
    table.insert(text("a"), 3);
    assert_eq!(table.get(&text("a")), Some(&3));
    assert_eq!(table.remove(&text("b")), Some(2));
    assert_eq!(table.remove(&text("b")), None);
    assert_eq!(table.names(), vec!["a"]);
}
