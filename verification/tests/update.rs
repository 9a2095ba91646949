use argon_write::exchange::{Notice, Reply, Request, Step, WriteError};
use argon_write::meta::{
    Context, Meta, Middleware, Source, SourceEntry, SourceKind, SyncRule,
};
use argon_write::node::{NodePath, Project, ProjectNode};
use argon_write::snapshot::{Snapshot, UpdatedSnapshot};
use argon_write::table::Table;
use argon_write::tree::Tree;
use argon_write::value::{Properties, UnresolvedValue};
use argon_write::write::update::{apply_update, rename, Update};
use rbx_dom_weak::types::{Ref, Variant};

const SCRIPT: u64 = 7;
const DATA: u64 = 8;

fn text(value: &str) -> String {
    value.to_string()
}

fn props(list: &[(&str, Variant)]) -> Properties {
    let mut table = Table::new();
    for (name, value) in list {
        table.insert(name.to_string(), value.clone());
    }
    table
}

fn tree_with(id: Ref, name: &str, source: Source) -> Tree {
    let mut tree = Tree::new();
    tree.insert_root(&Snapshot {
        id,
        name: text(name),
        class: text("Script"),
        properties: props(&[("Old", Variant::Bool(true))]),
        meta: Meta {
            source,
            context: Context {
                rules: vec![
                    SyncRule { number: SCRIPT, middleware: Middleware::Kind(1) },
                    SyncRule { number: DATA, middleware: Middleware::InstanceData },
                ],
            },
            keep_unknowns: true,
        },
        children: vec![],
    });
    tree
}

fn updated(id: Ref, name: Option<&str>, properties: Option<Properties>) -> UpdatedSnapshot {
    UpdatedSnapshot { id, meta: None, name: name.map(text), class: None, properties }
}

fn changed() -> Properties {
    props(&[("New", Variant::Bool(true))])
}

fn ask(step: Step<Update>) -> (Request, Update) {
    match step {
        Step::Ask(request, update) => (request, update),
        Step::Stop(_, _, _) => panic!("it stopped"),
    }
}

fn stop(step: Step<Update>) -> (Result<(), WriteError>, Tree) {
    match step {
        Step::Ask(_, _) => panic!("it asked"),
        Step::Stop(result, tree, _) => (result, tree),
    }
}

fn entries(source: &Source) -> Vec<(&'static str, String)> {
    source
        .relevants
        .iter()
        .map(|entry| match entry {
            SourceEntry::Project(path) => ("project", path.clone()),
            SourceEntry::File(path) => ("file", path.clone()),
            SourceEntry::Folder(path) => ("folder", path.clone()),
            SourceEntry::Data(path) => ("data", path.clone()),
        })
        .collect()
}

fn path_of(source: &Source) -> String {
    match source.get() {
        SourceKind::Path(path) => path.clone(),
        _ => panic!("no path"),
    }
}

#[test]
fn a_path_is_renamed_in_its_last_name_only() {
    assert_eq!(rename("src/Main/Main.server.luau", "Main", "App"), "src/Main/App.server.luau");
    assert_eq!(rename("src/init.luau", "Main", "App"), "src/init.luau");
}

#[test]
fn updating_an_unknown_instance_does_nothing() {
    let id = Ref::new();
    let tree = tree_with(id, "Main", Source::file("src/Main.luau"));
    let other = Ref::new();
    let tree = match apply_update(updated(other, Some("A"), None), tree) {
        Step::Stop(Ok(()), tree, Some(Notice::NoInstance(missing))) => {
            assert_eq!(missing, other);
            tree
        }
        _ => panic!("wrong end"),
    };
    assert_eq!(tree.get_instance(id).unwrap().name, "Main");
    assert!(!tree.contains(other));
}

#[test]
fn an_update_without_changes_asks_nothing() {
    let id = Ref::new();
    let tree = tree_with(id, "Main", Source::file("src/Main.luau"));
    let (result, tree) = stop(apply_update(updated(id, None, None), tree));
    assert!(result.is_ok());
    assert_eq!(tree.get_instance(id).unwrap().name, "Main");
    assert!(tree.get_instance(id).unwrap().properties.contains_key(&text("Old")));
}

#[test]
fn a_new_name_moves_all_files_but_project_files() {
    let id = Ref::new();
    let mut source = Source::child_file("src/Main", "src/Main/init.Main.luau");
    source.relevants.push(SourceEntry::Project(text("Main.project.json")));
    source.add_data("src/Main.data.json");
    let tree = tree_with(id, "Main", source);
    let (request, update) = ask(apply_update(updated(id, Some("App"), None), tree));
    assert!(matches!(request, Request::Rename(from, to) if from == "src/Main" && to == "src/App"));
    let (request, update) = ask(update.resume(Reply::Done));
    assert!(matches!(request, Request::Rename(from, to)
        if from == "src/Main/init.Main.luau" && to == "src/Main/init.App.luau"));
    let (request, update) = ask(update.resume(Reply::Done));
    assert!(matches!(request, Request::Rename(from, to)
        if from == "src/Main.data.json" && to == "src/App.data.json"));
    let (result, tree) = stop(update.resume(Reply::Done));
    assert!(result.is_ok());
    let instance = tree.get_instance(id).unwrap();
    assert_eq!(instance.name, "App");
    assert_eq!(path_of(&instance.meta.source), "src/App");
    assert_eq!(
        entries(&instance.meta.source),
        vec![
            ("folder", text("src/App")),
            ("file", text("src/Main/init.App.luau")),
            ("project", text("Main.project.json")),
            ("data", text("src/App.data.json")),
        ]
    );
    assert!(instance.properties.contains_key(&text("Old")));
}

#[test]
fn a_move_that_fails_changes_nothing() {
    let id = Ref::new();
    let tree = tree_with(id, "Main", Source::file("src/Main.luau"));
    let (_, update) = ask(apply_update(updated(id, Some("App"), None), tree));
    let (result, tree) = stop(update.resume(Reply::Failed(text("busy"))));
    assert!(matches!(result, Err(WriteError::Failed(reason)) if reason == "busy"));
    assert_eq!(tree.get_instance(id).unwrap().name, "Main");
    assert_eq!(path_of(&tree.get_meta(id).unwrap().source), "src/Main.luau");
}

#[test]
fn properties_go_to_the_known_file_and_the_rest_to_the_known_data_file() {
    let id = Ref::new();
    let mut source = Source::file("src/Main.luau");
    source.add_data("src/Main.data.json");
    let tree = tree_with(id, "Main", source);
    let (request, update) = ask(apply_update(updated(id, None, Some(changed())), tree));
    assert!(matches!(request, Request::Middleware(class) if class == "Script"));
    let (request, update) = ask(update.resume(Reply::Kind(Some(Middleware::Kind(1)))));
    match request {
        Request::Write { properties, path, .. } => {
            assert!(properties.contains_key(&text("New")));
            assert_eq!(path, "src/Main.luau");
        }
        _ => panic!("wrong request"),
    }
    let (request, update) = ask(update.resume(Reply::Rest(Table::new())));
    match request {
        Request::WriteData { has_file, class, properties, path, .. } => {
            assert!(has_file);
            assert_eq!(class, "Script");
            assert!(properties.is_empty());
            assert_eq!(path, "src/Main.data.json");
        }
        _ => panic!("wrong request"),
    }
    let (result, tree) = stop(update.resume(Reply::Data(None)));
    assert!(result.is_ok());
    let instance = tree.get_instance(id).unwrap();
    assert!(instance.properties.contains_key(&text("New")));
    assert!(!instance.properties.contains_key(&text("Old")));
    assert_eq!(entries(&instance.meta.source), vec![("file", text("src/Main.luau"))]);
}

#[test]
fn files_that_are_not_known_are_looked_for() {
    let id = Ref::new();
    let tree = tree_with(id, "Main", Source::directory("src/Main"));
    let (_, update) = ask(apply_update(updated(id, None, Some(changed())), tree));
    let (request, update) = ask(update.resume(Reply::Kind(Some(Middleware::Kind(1)))));
    assert!(matches!(request, Request::IsDir(path) if path == "src/Main"));
    let (request, update) = ask(update.resume(Reply::Flag(true)));
    match request {
        Request::LocateEach { rules, path, name, is_dir } => {
            assert_eq!(rules, vec![SCRIPT]);
            assert_eq!(path, "src/Main");
            assert_eq!(name, "Main");
            assert!(is_dir);
        }
        _ => panic!("wrong request"),
    }
    let (request, update) =
        ask(update.resume(Reply::Places(vec![Some(text("src/Main/init.luau"))])));
    assert!(matches!(request, Request::Write { path, .. } if path == "src/Main/init.luau"));
    let (request, update) = ask(update.resume(Reply::Rest(changed())));
    assert!(matches!(request, Request::IsDir(_)));
    let (request, update) = ask(update.resume(Reply::Flag(true)));
    assert!(matches!(request, Request::LocateEach { rules, .. } if rules == vec![DATA]));
    let (request, update) =
        ask(update.resume(Reply::Places(vec![Some(text("src/Main/init.data.json"))])));
    match request {
        Request::WriteData { has_file, meta, .. } => {
            assert!(has_file);
            assert_eq!(
                entries(&meta.source),
                vec![("folder", text("src/Main")), ("file", text("src/Main/init.luau"))]
            );
        }
        _ => panic!("wrong request"),
    }
    let (result, tree) = stop(update.resume(Reply::Data(Some(text("src/Main/init.data.json")))));
    assert!(result.is_ok());
    assert_eq!(
        entries(&tree.get_meta(id).unwrap().source),
        vec![
            ("folder", text("src/Main")),
            ("file", text("src/Main/init.luau")),
            ("data", text("src/Main/init.data.json")),
        ]
    );
}

#[test]
fn properties_change_in_the_tree_though_no_file_is_found() {
    let id = Ref::new();
    let tree = tree_with(id, "Main", Source::directory("src/Main"));
    let (_, update) = ask(apply_update(updated(id, None, Some(changed())), tree));
    let (_, update) = ask(update.resume(Reply::Kind(Some(Middleware::Kind(1)))));
    let (_, update) = ask(update.resume(Reply::Flag(true)));
    let tree = match update.resume(Reply::Places(vec![None])) {
        Step::Stop(Ok(()), tree, Some(Notice::NoFilePlace(path))) => {
            assert_eq!(path, "src/Main");
            tree
        }
        _ => panic!("wrong end"),
    };
    let instance = tree.get_instance(id).unwrap();
    assert!(instance.properties.contains_key(&text("New")));
    assert_eq!(entries(&instance.meta.source), vec![("folder", text("src/Main"))]);
}

#[test]
fn a_data_file_without_a_place_is_left_unwritten_and_said_so() {
    let id = Ref::new();
    let tree = tree_with(id, "Main", Source::file("src/Main.luau"));
    let (_, update) = ask(apply_update(updated(id, None, Some(changed())), tree));
    let (_, update) = ask(update.resume(Reply::Kind(Some(Middleware::Kind(1)))));
    let (_, update) = ask(update.resume(Reply::Rest(changed())));
    let (_, update) = ask(update.resume(Reply::Flag(false)));
    match update.resume(Reply::Places(vec![])) {
        Step::Stop(Ok(()), tree, Some(Notice::NoDataPlace(path))) => {
            assert_eq!(path, "src/Main.luau");
            assert!(tree.get_instance(id).unwrap().properties.contains_key(&text("New")));
        }
        _ => panic!("wrong end"),
    }
}

#[test]
fn what_was_left_unwritten_is_said_when_the_project_cannot_be_saved() {
    let id = Ref::new();
    let tree = tree_with(id, "Lighting", lighting(Some("src")));
    let (_, update) = ask(apply_update(updated(id, None, Some(changed())), tree));
    let (_, update) = ask(update.resume(Reply::Project(project(Some("src")))));
    let (_, update) = ask(update.resume(Reply::Kind(None)));
    let (_, update) = ask(update.resume(Reply::Flag(true)));
    let (request, update) = ask(update.resume(Reply::Places(vec![None])));
    assert!(matches!(request, Request::Save { .. }));
    match update.resume(Reply::Failed(text("read-only"))) {
        Step::Stop(Err(WriteError::Failed(_)), _, Some(Notice::NoDataPlace(path))) => {
            assert_eq!(path, "game/src");
        }
        _ => panic!("wrong end"),
    }
}

#[test]
fn an_update_that_writes_all_leaves_nothing_to_say() {
    let id = Ref::new();
    let tree = tree_with(id, "Main", Source::file("src/Main.luau"));
    assert!(matches!(
        apply_update(updated(id, None, None), tree),
        Step::Stop(Ok(()), _, None)
    ));
}

#[test]
fn a_class_without_a_kind_of_file_keeps_all_in_the_data_file() {
    let id = Ref::new();
    let tree = tree_with(id, "Main", Source::directory("src/Main"));
    let (_, update) = ask(apply_update(updated(id, None, Some(changed())), tree));
    let (_, update) = ask(update.resume(Reply::Kind(None)));
    let (_, update) = ask(update.resume(Reply::Flag(true)));
    let (request, update) = ask(update.resume(Reply::Places(vec![Some(text("d.json"))])));
    match request {
        Request::WriteData { has_file, properties, path, .. } => {
            assert!(!has_file);
            assert!(properties.contains_key(&text("New")));
            assert_eq!(path, "d.json");
        }
        _ => panic!("wrong request"),
    }
    let (result, _) = stop(update.resume(Reply::Data(Some(text("d.json")))));
    assert!(result.is_ok());
}

#[test]
fn a_name_that_was_changed_stays_when_properties_cannot_be_written() {
    let id = Ref::new();
    let tree = tree_with(id, "Main", Source::file("src/Main.luau"));
    let (_, update) = ask(apply_update(updated(id, Some("App"), Some(changed())), tree));
    let (_, update) = ask(update.resume(Reply::Done));
    let (request, update) = ask(update.resume(Reply::Kind(Some(Middleware::Kind(1)))));
    assert!(matches!(request, Request::Write { path, .. } if path == "src/App.luau"));
    let (result, tree) = stop(update.resume(Reply::Failed(text("read-only"))));
    assert!(result.is_err());
    let instance = tree.get_instance(id).unwrap();
    assert_eq!(instance.name, "App");
    assert!(instance.properties.contains_key(&text("Old")));
    assert_eq!(path_of(&instance.meta.source), "src/Main.luau");
}

#[test]
fn the_mark_for_no_properties_is_understood() {
    let id = Ref::new();
    let tree = tree_with(id, "Main", Source::file("src/Main.luau"));
    let mark = props(&[("ArgonEmpty", Variant::Bool(true))]);
    let (_, update) = ask(apply_update(updated(id, None, Some(mark)), tree));
    let (request, _) = ask(update.resume(Reply::Kind(Some(Middleware::Kind(1)))));
    assert!(matches!(request, Request::Write { properties, .. } if properties.is_empty()));
}

fn node(class: Option<&str>, path: Option<&str>) -> ProjectNode {
    let mut properties = Table::new();
    properties.insert(text("Old"), UnresolvedValue::Written(text("true")));
    ProjectNode::new(
        class.map(text),
        path.map(text),
        properties,
        Some(UnresolvedValue::Written(text("{}"))),
        vec![text("tag")],
        Some(true),
    )
}

fn project(path: Option<&str>) -> Project {
    let mut top = node(Some("DataModel"), None);
    top.insert_child(text("Lighting"), node(None, path));
    Project { node: top }
}

fn lighting(path: Option<&str>) -> Source {
    Source::project(
        "Lighting",
        "game/default.project.json",
        node(None, path),
        NodePath { names: vec![text("Lighting")] },
    )
}

fn way(names: &[&str]) -> NodePath {
    NodePath { names: names.iter().map(|name| text(name)).collect() }
}

#[test]
fn properties_of_a_project_node_are_written_to_the_node() {
    let id = Ref::new();
    let tree = tree_with(id, "Lighting", lighting(None));
    let (request, update) = ask(apply_update(updated(id, None, Some(changed())), tree));
    assert!(matches!(request, Request::Load(path) if path == "game/default.project.json"));
    let (request, update) = ask(update.resume(Reply::Project(project(None))));
    match request {
        Request::Save { path, project } => {
            assert_eq!(path, "game/default.project.json");
            let node = project.node.find(&way(&["Lighting"])).unwrap();
            assert_eq!(node.properties().names(), vec!["New"]);
            match node.properties().get(&text("New")) {
                Some(UnresolvedValue::Typed { class, property, .. }) => {
                    assert_eq!(class, "Lighting");
                    assert_eq!(property, "New");
                }
                _ => panic!("wrong value"),
            }
            assert!(node.attributes().is_some());
            assert!(node.tags().is_empty());
            assert_eq!(node.keep_unknowns(), None);
        }
        _ => panic!("wrong request"),
    }
    let (result, tree) = stop(update.resume(Reply::Done));
    assert!(result.is_ok());
    assert!(tree.get_instance(id).unwrap().properties.contains_key(&text("New")));
}

#[test]
fn properties_of_a_node_with_a_path_are_written_to_files() {
    let id = Ref::new();
    let tree = tree_with(id, "Lighting", lighting(Some("src/./light")));
    let (_, update) = ask(apply_update(updated(id, None, Some(changed())), tree));
    let (_, update) = ask(update.resume(Reply::Project(project(Some("src/./light")))));
    let (request, update) = ask(update.resume(Reply::Kind(None)));
    assert!(matches!(request, Request::IsDir(path) if path == "game/src/light"));
    let (_, update) = ask(update.resume(Reply::Flag(true)));
    let (_, update) = ask(update.resume(Reply::Places(vec![Some(text("l.data.json"))])));
    let (request, update) = ask(update.resume(Reply::Data(Some(text("l.data.json")))));
    match request {
        Request::Save { project, .. } => {
            let node = project.node.find(&way(&["Lighting"])).unwrap();
            assert!(node.properties().is_empty());
            assert!(node.attributes().is_none());
            assert!(node.tags().is_empty());
            assert_eq!(node.keep_unknowns(), None);
            assert_eq!(node.path().as_deref(), Some("src/./light"));
        }
        _ => panic!("wrong request"),
    }
    let (result, tree) = stop(update.resume(Reply::Done));
    assert!(result.is_ok());
    assert_eq!(
        entries(&tree.get_meta(id).unwrap().source),
        vec![("project", text("game/default.project.json")), ("data", text("l.data.json"))]
    );
}

#[test]
fn a_new_name_renames_the_node() {
    let id = Ref::new();
    let tree = tree_with(id, "Lighting", lighting(None));
    let (_, update) = ask(apply_update(updated(id, Some("Sky"), None), tree));
    let (request, update) = ask(update.resume(Reply::Project(project(None))));
    match request {
        Request::Save { project, .. } => {
            assert!(project.node.child(&text("Lighting")).is_none());
            assert_eq!(project.node.child(&text("Sky")).unwrap().tags(), &vec![text("tag")]);
        }
        _ => panic!("wrong request"),
    }
    let (result, tree) = stop(update.resume(Reply::Done));
    assert!(result.is_ok());
    assert_eq!(tree.get_instance(id).unwrap().name, "Sky");
    match tree.get_meta(id).unwrap().source.get() {
        SourceKind::Project(name, path, _, node_path) => {
            assert_eq!(name, "Sky");
            assert_eq!(path, "game/default.project.json");
            assert_eq!(node_path.names, vec!["Sky"]);
        }
        _ => panic!("wrong source"),
    }
}

#[test]
fn a_missing_node_is_an_error() {
    let id = Ref::new();
    let tree = tree_with(id, "Lighting", lighting(None));
    let (_, update) = ask(apply_update(updated(id, None, Some(changed())), tree));
    let empty = Project { node: node(None, None) };
    let (result, tree) = stop(update.resume(Reply::Project(empty)));
    assert!(matches!(result, Err(WriteError::NoNode(path)) if path.names == vec!["Lighting"]));
    assert!(tree.get_instance(id).unwrap().properties.contains_key(&text("Old")));
}

#[test]
fn a_missing_parent_node_is_an_error() {
    let id = Ref::new();
    let source = Source::project(
        "Sun",
        "game/default.project.json",
        node(None, None),
        way(&["Gone", "Sun"]),
    );
    let tree = tree_with(id, "Sun", source);
    let (_, update) = ask(apply_update(updated(id, Some("Moon"), None), tree));
    let (result, tree) = stop(update.resume(Reply::Project(project(None))));
    assert!(matches!(result, Err(WriteError::NoParentNode(path)) if path.names == vec!["Gone"]));
    assert_eq!(tree.get_instance(id).unwrap().name, "Sun");
}

#[test]
fn a_node_that_is_not_below_its_parent_is_an_error() {
    let id = Ref::new();
    let source = Source::project(
        "Sun",
        "game/default.project.json",
        node(None, None),
        way(&["Lighting", "Sun"]),
    );
    let tree = tree_with(id, "Sun", source);
    let (_, update) = ask(apply_update(updated(id, Some("Moon"), None), tree));
    let (result, _) = stop(update.resume(Reply::Project(project(None))));
    assert!(matches!(result, Err(WriteError::NotBelowParent(path))
        if path.names == vec!["Lighting", "Sun"]));
}

#[test]
fn a_project_that_cannot_be_saved_is_an_error_with_the_tree_changed() {
    let id = Ref::new();
    let tree = tree_with(id, "Lighting", lighting(None));
    let (_, update) = ask(apply_update(updated(id, Some("Sky"), Some(changed())), tree));
    let (_, update) = ask(update.resume(Reply::Project(project(None))));
    let (result, tree) = stop(update.resume(Reply::Failed(text("read-only"))));
    assert!(result.is_err());
    let instance = tree.get_instance(id).unwrap();
    assert_eq!(instance.name, "Sky");
    assert!(instance.properties.contains_key(&text("New")));
}

#[test]
fn a_wrong_reply_ends_the_update() {
    let id = Ref::new();
    let tree = tree_with(id, "Lighting", lighting(None));
    let (_, update) = ask(apply_update(updated(id, Some("Sky"), None), tree));
    let (result, _) = stop(update.resume(Reply::Done));
    assert!(matches!(result, Err(WriteError::Mismatch)));
}
