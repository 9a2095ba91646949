use argon_write::exchange::{Notice, Reply, Request, Step, WriteError};
use argon_write::meta::{
    Context, Meta, Middleware, Source, SourceEntry, SourceKind, SyncRule,
};
use argon_write::node::{NodePath, Project, ProjectNode};
use argon_write::snapshot::{AddedSnapshot, Snapshot};
use argon_write::table::Table;
use argon_write::tree::Tree;
use argon_write::value::{Properties, UnresolvedValue};
use argon_write::write::addition::{apply_addition, Addition};
use rbx_dom_weak::types::{Ref, Variant};

const SCRIPT: u64 = 7;
const DATA: u64 = 8;

fn rules() -> Context {
    Context {
        rules: vec![
            SyncRule { number: SCRIPT, middleware: Middleware::Kind(1) },
            SyncRule { number: DATA, middleware: Middleware::InstanceData },
        ],
    }
}

fn meta(source: Source) -> Meta {
    Meta { source, context: rules(), keep_unknowns: false }
}

fn bare() -> Meta {
    Meta {
        source: Source { inner: SourceKind::Nowhere, relevants: vec![] },
        context: Context { rules: vec![] },
        keep_unknowns: false,
    }
}

fn props(list: &[(&str, Variant)]) -> Properties {
    let mut table = Table::new();
    for (name, value) in list {
        table.insert(name.to_string(), value.clone());
    }
    table
}

fn tree_with(id: Ref, source: Source) -> Tree {
    let mut tree = Tree::new();
    tree.insert_root(&Snapshot {
        id,
        name: "Root".to_string(),
        class: "Folder".to_string(),
        properties: Table::new(),
        meta: meta(source),
        children: vec![],
    });
    tree
}

fn added(id: Ref, parent: Ref, name: &str, class: &str) -> AddedSnapshot {
    AddedSnapshot {
        id,
        parent,
        name: name.to_string(),
        class: class.to_string(),
        properties: props(&[("Value", Variant::Bool(true))]),
        meta: bare(),
        children: vec![],
    }
}

fn child(id: Ref, name: &str, class: &str, children: Vec<Snapshot>) -> Snapshot {
    Snapshot {
        id,
        name: name.to_string(),
        class: class.to_string(),
        properties: Table::new(),
        meta: bare(),
        children,
    }
}

fn ask(step: Step<Addition>) -> (Request, Addition) {
    match step {
        Step::Ask(request, addition) => (request, addition),
        Step::Stop(_, _, _) => panic!("it stopped"),
    }
}

fn stop(step: Step<Addition>) -> (Result<(), WriteError>, Tree) {
    match step {
        Step::Ask(_, _) => panic!("it asked"),
        Step::Stop(result, tree, _) => (result, tree),
    }
}

fn text(value: &str) -> String {
    value.to_string()
}

fn is_file(request: Request, path: &str) {
    assert!(matches!(request, Request::IsFile(asked) if asked == path));
}

fn entries(source: &Source) -> Vec<(&'static str, String)> {
    source
        .relevants
        .iter()
        .map(|entry| match entry {
            SourceEntry::Project(path) => ("project", path.clone()),
            SourceEntry::File(path) => ("file", path.clone()),
            SourceEntry::Folder(path) => ("folder", path.clone()),
            SourceEntry::Data(path) => ("data", path.clone()),
        })
        .collect()
}

fn path_of(source: &Source) -> String {
    match source.get() {
        SourceKind::Path(path) => path.clone(),
        _ => panic!("no path"),
    }
}

#[test]
fn adding_below_an_unknown_instance_does_nothing() {
    let root = Ref::new();
    let id = Ref::new();
    let tree = tree_with(root, Source::directory("src"));
    let other = Ref::new();
    let tree = match apply_addition(added(id, other, "A", "Script"), tree) {
        Step::Stop(Ok(()), tree, Some(Notice::NoInstance(missing))) => {
            assert_eq!(missing, other);
            tree
        }
        _ => panic!("wrong end"),
    };
    assert!(!tree.contains(id));
    assert!(tree.get_instance(root).unwrap().children.is_empty());
}

#[test]
fn a_script_gets_a_file_below_the_folder_of_its_parent() {
    let root = Ref::new();
    let id = Ref::new();
    let tree = tree_with(root, Source::directory("src"));
    let (request, addition) = ask(apply_addition(added(id, root, "Main", "Script"), tree));
    is_file(request, "src");
    let (request, addition) = ask(addition.resume(Reply::Flag(false)));
    assert!(matches!(request, Request::Middleware(class) if class == "Script"));
    let (request, addition) = ask(addition.resume(Reply::Kind(Some(Middleware::Kind(1)))));
    match request {
        Request::LocateEach { rules, path, name, is_dir } => {
            assert_eq!(rules, vec![SCRIPT]);
            assert_eq!(path, "src/Main");
            assert_eq!(name, "Main");
            assert!(!is_dir);
        }
        _ => panic!("wrong request"),
    }
    let (request, addition) =
        ask(addition.resume(Reply::Places(vec![None, Some(text("src/Main.luau"))])));
    match request {
        Request::Write { middleware, properties, path } => {
            assert!(middleware == Middleware::Kind(1));
            assert!(matches!(properties.get(&text("Value")), Some(Variant::Bool(true))));
            assert_eq!(path, "src/Main.luau");
        }
        _ => panic!("wrong request"),
    }
    let (result, tree) = stop(addition.resume(Reply::Rest(Table::new())));
    assert!(result.is_ok());
    let new = tree.get_instance(id).unwrap();
    assert_eq!(new.name, "Main");
    assert_eq!(new.class, "Script");
    assert_eq!(new.parent, Some(root));
    assert!(matches!(new.properties.get(&text("Value")), Some(Variant::Bool(true))));
    assert_eq!(path_of(&new.meta.source), "src/Main.luau");
    assert_eq!(entries(&new.meta.source), vec![("file", text("src/Main.luau"))]);
    assert_eq!(new.meta.context.rules.len(), 2);
    let above = tree.get_instance(root).unwrap();
    assert_eq!(above.children, vec![id]);
    assert_eq!(entries(&above.meta.source), vec![("folder", text("src"))]);
}

#[test]
fn what_the_file_does_not_hold_goes_to_a_data_file() {
    let root = Ref::new();
    let id = Ref::new();
    let tree = tree_with(root, Source::directory("src"));
    let (_, addition) = ask(apply_addition(added(id, root, "Main", "Script"), tree));
    let (_, addition) = ask(addition.resume(Reply::Flag(false)));
    let (_, addition) = ask(addition.resume(Reply::Kind(Some(Middleware::Kind(1)))));
    let (_, addition) = ask(addition.resume(Reply::Places(vec![Some(text("src/Main.luau"))])));
    let rest = props(&[("Disabled", Variant::Bool(true))]);
    let (request, addition) = ask(addition.resume(Reply::Rest(rest)));
    match request {
        Request::LocateEach { rules, path, name, is_dir } => {
            assert_eq!(rules, vec![DATA]);
            assert_eq!(path, "src/Main");
            assert_eq!(name, "Main");
            assert!(!is_dir);
        }
        _ => panic!("wrong request"),
    }
    let (request, addition) =
        ask(addition.resume(Reply::Places(vec![Some(text("src/Main.data.json"))])));
    match request {
        Request::WriteData { has_file, class, properties, path, meta } => {
            assert!(has_file);
            assert_eq!(class, "Script");
            assert!(properties.contains_key(&text("Disabled")));
            assert!(!properties.contains_key(&text("Value")));
            assert_eq!(path, "src/Main.data.json");
            assert_eq!(entries(&meta.source), vec![("file", text("src/Main.luau"))]);
        }
        _ => panic!("wrong request"),
    }
    let (result, tree) = stop(addition.resume(Reply::Data(Some(text("src/Main.data.json")))));
    assert!(result.is_ok());
    assert_eq!(
        entries(&tree.get_meta(id).unwrap().source),
        vec![("file", text("src/Main.luau")), ("data", text("src/Main.data.json"))]
    );
}

#[test]
fn a_class_without_a_kind_of_file_gets_a_folder() {
    let root = Ref::new();
    let id = Ref::new();
    let tree = tree_with(root, Source::directory("src"));
    let (_, addition) = ask(apply_addition(added(id, root, "Parts", "Model"), tree));
    let (_, addition) = ask(addition.resume(Reply::Flag(false)));
    let (request, addition) = ask(addition.resume(Reply::Kind(None)));
    assert!(matches!(request, Request::WriteDir(path) if path == "src/Parts"));
    let (request, addition) = ask(addition.resume(Reply::Done));
    match request {
        Request::LocateEach { rules, path, is_dir, .. } => {
            assert_eq!(rules, vec![DATA]);
            assert_eq!(path, "src/Parts");
            assert!(is_dir);
        }
        _ => panic!("wrong request"),
    }
    let (request, addition) =
        ask(addition.resume(Reply::Places(vec![Some(text("src/Parts/init.data.json"))])));
    assert!(matches!(request, Request::WriteData { has_file: false, .. }));
    let (result, tree) = stop(addition.resume(Reply::Data(None)));
    assert!(result.is_ok());
    let source = &tree.get_meta(id).unwrap().source;
    assert_eq!(path_of(source), "src/Parts");
    assert_eq!(entries(source), vec![("folder", text("src/Parts"))]);
}

#[test]
fn a_single_file_becomes_a_folder_for_its_first_child() {
    let root = Ref::new();
    let id = Ref::new();
    let mut source = Source::file("src/Main.luau");
    source.add_data("src/Main.data.json");
    let tree = tree_with(root, source);
    let (request, addition) = ask(apply_addition(added(id, root, "Sub", "Script"), tree));
    is_file(request, "src/Main.luau");
    let (request, addition) = ask(addition.resume(Reply::Flag(true)));
    match request {
        Request::Matches { rules, path } => {
            assert_eq!(rules, vec![SCRIPT, DATA]);
            assert_eq!(path, "src/Main.luau");
        }
        _ => panic!("wrong request"),
    }
    let (request, addition) = ask(addition.resume(Reply::Flags(vec![true, false])));
    assert!(matches!(request, Request::NameBy { rule: SCRIPT, path } if path == "src/Main.luau"));
    let (request, addition) = ask(addition.resume(Reply::Name(text("Main"))));
    match request {
        Request::Locate { rule, path, name, is_dir } => {
            assert_eq!(rule, SCRIPT);
            assert_eq!(path, "src/Main");
            assert_eq!(name, "Main");
            assert!(is_dir);
        }
        _ => panic!("wrong request"),
    }
    let (request, addition) =
        ask(addition.resume(Reply::Place(Some(text("src/Main/init.luau")))));
    match request {
        Request::LocateEach { rules, path, is_dir, .. } => {
            assert_eq!(rules, vec![DATA]);
            assert_eq!(path, "src/Main");
            assert!(is_dir);
        }
        _ => panic!("wrong request"),
    }
    let (request, addition) =
        ask(addition.resume(Reply::Places(vec![Some(text("src/Main/init.data.json"))])));
    assert!(matches!(request, Request::WriteDir(path) if path == "src/Main"));
    let (request, addition) = ask(addition.resume(Reply::Done));
    assert!(matches!(request, Request::Rename(from, to)
        if from == "src/Main.luau" && to == "src/Main/init.luau"));
    let (request, addition) = ask(addition.resume(Reply::Done));
    assert!(matches!(request, Request::Rename(from, to)
        if from == "src/Main.data.json" && to == "src/Main/init.data.json"));
    let (request, addition) = ask(addition.resume(Reply::Done));
    assert!(matches!(request, Request::Middleware(_)));
    let (request, addition) = ask(addition.resume(Reply::Kind(Some(Middleware::Kind(1)))));
    assert!(matches!(request, Request::LocateEach { path, .. } if path == "src/Main/Sub"));
    let (_, addition) =
        ask(addition.resume(Reply::Places(vec![Some(text("src/Main/Sub.luau"))])));
    let (result, tree) = stop(addition.resume(Reply::Rest(Table::new())));
    assert!(result.is_ok());
    let source = &tree.get_meta(root).unwrap().source;
    assert_eq!(path_of(source), "src/Main");
    assert_eq!(
        entries(source),
        vec![
            ("folder", text("src/Main")),
            ("file", text("src/Main/init.luau")),
            ("data", text("src/Main/init.data.json")),
        ]
    );
}

#[test]
fn a_file_that_no_rule_matches_is_an_error() {
    let root = Ref::new();
    let tree = tree_with(root, Source::file("src/odd.bin"));
    let (_, addition) = ask(apply_addition(added(Ref::new(), root, "A", "Script"), tree));
    let (_, addition) = ask(addition.resume(Reply::Flag(true)));
    let (result, tree) = stop(addition.resume(Reply::Flags(vec![false, false])));
    assert!(matches!(result, Err(WriteError::NoSyncRule(path)) if path == "src/odd.bin"));
    assert!(tree.get_instance(root).unwrap().children.is_empty());
}

#[test]
fn a_file_without_a_place_in_the_folder_is_an_error() {
    let root = Ref::new();
    let tree = tree_with(root, Source::file("src/Main.luau"));
    let (_, addition) = ask(apply_addition(added(Ref::new(), root, "A", "Script"), tree));
    let (_, addition) = ask(addition.resume(Reply::Flag(true)));
    let (_, addition) = ask(addition.resume(Reply::Flags(vec![true])));
    let (_, addition) = ask(addition.resume(Reply::Name(text("Main"))));
    let (result, _) = stop(addition.resume(Reply::Place(None)));
    assert!(matches!(result, Err(WriteError::NoFilePath(path)) if path == "src/Main"));
}

#[test]
fn a_new_instance_without_a_place_is_an_error() {
    let root = Ref::new();
    let tree = tree_with(root, Source::directory("src"));
    let (_, addition) = ask(apply_addition(added(Ref::new(), root, "A", "Script"), tree));
    let (_, addition) = ask(addition.resume(Reply::Flag(false)));
    let (_, addition) = ask(addition.resume(Reply::Kind(Some(Middleware::Kind(1)))));
    let (result, tree) = stop(addition.resume(Reply::Places(vec![None])));
    assert!(matches!(result, Err(WriteError::NoFilePath(path)) if path == "src/A"));
    assert!(tree.get_instance(root).unwrap().children.is_empty());
}

#[test]
fn a_data_file_without_a_place_is_an_error() {
    let root = Ref::new();
    let tree = tree_with(root, Source::directory("src"));
    let (_, addition) = ask(apply_addition(added(Ref::new(), root, "A", "Model"), tree));
    let (_, addition) = ask(addition.resume(Reply::Flag(false)));
    let (_, addition) = ask(addition.resume(Reply::Kind(None)));
    let (_, addition) = ask(addition.resume(Reply::Done));
    let (result, _) = stop(addition.resume(Reply::Places(vec![])));
    assert!(matches!(result, Err(WriteError::NoDataPath(path)) if path == "src/A"));
}

#[test]
fn a_request_that_fails_ends_the_addition() {
    let root = Ref::new();
    let tree = tree_with(root, Source::directory("src"));
    let (_, addition) = ask(apply_addition(added(Ref::new(), root, "A", "Model"), tree));
    let (result, _) = stop(addition.resume(Reply::Failed(text("disk is full"))));
    assert!(matches!(result, Err(WriteError::Failed(reason)) if reason == "disk is full"));
}

#[test]
fn a_reply_of_the_wrong_kind_ends_the_addition() {
    let root = Ref::new();
    let tree = tree_with(root, Source::directory("src"));
    let (_, addition) = ask(apply_addition(added(Ref::new(), root, "A", "Model"), tree));
    let (result, _) = stop(addition.resume(Reply::Done));
    assert!(matches!(result, Err(WriteError::Mismatch)));
}

fn folder_written(step: Step<Addition>, path: &str, below: &str) -> Step<Addition> {
    let (request, addition) = ask(step);
    is_file(request, path);
    let (_, addition) = ask(addition.resume(Reply::Flag(false)));
    let (request, addition) = ask(addition.resume(Reply::Kind(None)));
    assert!(matches!(request, Request::WriteDir(asked) if asked == below));
    let (_, addition) = ask(addition.resume(Reply::Done));
    let (_, addition) = ask(addition.resume(Reply::Places(vec![Some(text("data"))])));
    addition.resume(Reply::Data(None))
}

#[test]
fn all_that_is_below_a_new_instance_is_added_in_order() {
    let root = Ref::new();
    let (a, b, c, d) = (Ref::new(), Ref::new(), Ref::new(), Ref::new());
    let tree = tree_with(root, Source::directory("src"));
    let mut new = added(a, root, "A", "Model");
    new.children = vec![
        child(b, "B", "Model", vec![child(c, "C", "Model", vec![])]),
        child(d, "D", "Model", vec![]),
    ];
    let step = apply_addition(new, tree);
    let step = folder_written(step, "src", "src/A");
    let step = folder_written(step, "src/A", "src/A/B");
    let step = folder_written(step, "src/A/B", "src/A/B/C");
    let step = folder_written(step, "src/A", "src/A/D");
    let (result, tree) = stop(step);
    assert!(result.is_ok());
    assert_eq!(tree.get_instance(root).unwrap().children, vec![a]);
    assert_eq!(tree.get_instance(a).unwrap().children, vec![b, d]);
    assert_eq!(tree.get_instance(b).unwrap().children, vec![c]);
    assert_eq!(tree.get_instance(c).unwrap().parent, Some(b));
    assert_eq!(path_of(&tree.get_meta(c).unwrap().source), "src/A/B/C");
}

#[test]
fn what_was_added_before_a_failure_stays() {
    let root = Ref::new();
    let (a, b) = (Ref::new(), Ref::new());
    let tree = tree_with(root, Source::directory("src"));
    let mut new = added(a, root, "A", "Model");
    new.children = vec![child(b, "B", "Model", vec![])];
    let step = folder_written(apply_addition(new, tree), "src", "src/A");
    let (_, addition) = ask(step);
    let (result, tree) = stop(addition.resume(Reply::Failed(text("gone"))));
    assert!(result.is_err());
    assert!(tree.contains(a));
    assert!(!tree.contains(b));
}

#[test]
fn a_client_that_marks_properties_as_empty_means_none() {
    let root = Ref::new();
    let id = Ref::new();
    let tree = tree_with(root, Source::directory("src"));
    let mut new = added(id, root, "A", "Model");
    new.properties = props(&[("ArgonEmpty", Variant::Bool(true)), ("X", Variant::Bool(true))]);
    let (result, tree) = stop(folder_written(apply_addition(new, tree), "src", "src/A"));
    assert!(result.is_ok());
    assert!(tree.get_instance(id).unwrap().properties.is_empty());
}

fn node(class: Option<&str>, path: Option<&str>) -> ProjectNode {
    ProjectNode::new(
        class.map(text),
        path.map(text),
        Table::new(),
        None,
        vec![],
        None,
    )
}

fn project() -> Project {
    let mut top = node(Some("DataModel"), None);
    top.insert_child(text("Workspace"), node(Some("Workspace"), None));
    Project { node: top }
}

fn workspace(path: Option<&str>) -> Source {
    Source::project(
        "Workspace",
        "game/default.project.json",
        node(Some("Workspace"), path),
        NodePath { names: vec![text("Workspace")] },
    )
}

fn way(names: &[&str]) -> NodePath {
    NodePath { names: names.iter().map(|name| text(name)).collect() }
}

#[test]
fn a_child_of_a_project_node_becomes_a_node() {
    let root = Ref::new();
    let (a, b) = (Ref::new(), Ref::new());
    let tree = tree_with(root, workspace(None));
    let mut new = added(a, root, "Lamp", "Part");
    new.meta.keep_unknowns = true;
    new.children = vec![child(b, "Bulb", "PointLight", vec![])];
    let (request, addition) = ask(apply_addition(new, tree));
    assert!(matches!(request, Request::Load(path) if path == "game/default.project.json"));
    let (request, addition) = ask(addition.resume(Reply::Project(project())));
    match request {
        Request::Save { path, project } => {
            assert_eq!(path, "game/default.project.json");
            let lamp = project.node.find(&way(&["Workspace", "Lamp"])).unwrap();
            assert_eq!(lamp.class_name().as_deref(), Some("Part"));
            assert_eq!(lamp.keep_unknowns(), Some(true));
            match lamp.properties().get(&text("Value")) {
                Some(UnresolvedValue::Typed { value, class, property }) => {
                    assert!(matches!(value, Variant::Bool(true)));
                    assert_eq!(class, "Part");
                    assert_eq!(property, "Value");
                }
                _ => panic!("wrong value"),
            }
            let bulb = project.node.find(&way(&["Workspace", "Lamp", "Bulb"])).unwrap();
            assert_eq!(bulb.class_name().as_deref(), Some("PointLight"));
            assert_eq!(bulb.keep_unknowns(), None);
        }
        _ => panic!("wrong request"),
    }
    let (result, tree) = stop(addition.resume(Reply::Done));
    assert!(result.is_ok());
    assert_eq!(tree.get_instance(root).unwrap().children, vec![a, b]);
    assert_eq!(tree.get_instance(b).unwrap().parent, Some(root));
    match tree.get_meta(b).unwrap().source.get() {
        SourceKind::Project(name, path, node, node_path) => {
            assert_eq!(name, "Bulb");
            assert_eq!(path, "game/default.project.json");
            assert_eq!(node.class_name().as_deref(), Some("PointLight"));
            assert_eq!(node_path.names, vec!["Workspace", "Lamp", "Bulb"]);
        }
        _ => panic!("wrong source"),
    }
}

#[test]
fn a_node_that_the_project_no_longer_has_is_an_error() {
    let root = Ref::new();
    let tree = tree_with(root, workspace(None));
    let (_, addition) = ask(apply_addition(added(Ref::new(), root, "A", "Part"), tree));
    let empty = Project { node: node(None, None) };
    let (result, tree) = stop(addition.resume(Reply::Project(empty)));
    assert!(matches!(result, Err(WriteError::NoNode(path)) if path.names == vec!["Workspace"]));
    assert!(tree.get_instance(root).unwrap().children.is_empty());
}

#[test]
fn new_nodes_stay_in_the_tree_when_the_project_cannot_be_saved() {
    let root = Ref::new();
    let id = Ref::new();
    let tree = tree_with(root, workspace(None));
    let (_, addition) = ask(apply_addition(added(id, root, "A", "Part"), tree));
    let (_, addition) = ask(addition.resume(Reply::Project(project())));
    let (result, tree) = stop(addition.resume(Reply::Failed(text("read-only"))));
    assert!(matches!(result, Err(WriteError::Failed(reason)) if reason == "read-only"));
    assert!(tree.contains(id));
}

#[test]
fn a_project_that_cannot_be_loaded_ends_the_addition() {
    let root = Ref::new();
    let tree = tree_with(root, workspace(None));
    let (_, addition) = ask(apply_addition(added(Ref::new(), root, "A", "Part"), tree));
    let (result, _) = stop(addition.resume(Reply::Failed(text("no such file"))));
    assert!(matches!(result, Err(WriteError::Failed(_))));
}

#[test]
fn a_project_node_with_a_path_keeps_its_children_there() {
    let root = Ref::new();
    let tree = tree_with(root, workspace(Some("./src/../lib")));
    let step = apply_addition(added(Ref::new(), root, "A", "Model"), tree);
    let (result, tree) = stop(folder_written(step, "game/lib", "game/lib/A"));
    assert!(result.is_ok());
    let source = &tree.get_meta(root).unwrap().source;
    assert!(matches!(source.get(), SourceKind::Project(name, ..) if name == "Workspace"));
    assert_eq!(entries(source), vec![("project", text("game/default.project.json"))]);
}
