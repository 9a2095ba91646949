use argon_write::exchange::{Notice, Reply, Request, Step, WriteError};
use argon_write::meta::{
    Context, Meta, Middleware, Source, SourceEntry, SourceKind, SyncRule,
};
use argon_write::node::{NodePath, Project, ProjectNode};
use argon_write::snapshot::Snapshot;
use argon_write::table::Table;
use argon_write::tree::Tree;
use argon_write::write::removal::{apply_removal, Removal};
use rbx_dom_weak::types::Ref;

const SCRIPT: u64 = 7;
const DATA: u64 = 8;

fn text(value: &str) -> String {
    value.to_string()
}

fn meta(source: Source) -> Meta {
    Meta {
        source,
        context: Context {
            rules: vec![
                SyncRule { number: SCRIPT, middleware: Middleware::Kind(1) },
                SyncRule { number: DATA, middleware: Middleware::InstanceData },
            ],
        },
        keep_unknowns: false,
    }
}

fn snapshot(id: Ref, name: &str, source: Source) -> Snapshot {
    Snapshot {
        id,
        name: text(name),
        class: text("Script"),
        properties: Table::new(),
        meta: meta(source),
        children: vec![],
    }
}

fn tree_of(root: Ref, above: Source, id: Ref, own: Source) -> Tree {
    let mut tree = Tree::new();
    tree.insert_root(&snapshot(root, "Root", above));
    let child = snapshot(id, "Child", own);
    tree.insert_instance_with_ref(&child, child.meta.clone(), root);
    tree
}

fn ask(step: Step<Removal>) -> (Request, Removal) {
    match step {
        Step::Ask(request, removal) => (request, removal),
        Step::Stop(_, _, _) => panic!("it stopped"),
    }
}

fn stop(step: Step<Removal>) -> (Result<(), WriteError>, Tree) {
    match step {
        Step::Ask(_, _) => panic!("it asked"),
        Step::Stop(result, tree, _) => (result, tree),
    }
}

fn entries(source: &Source) -> Vec<(&'static str, String)> {
    source
        .relevants
        .iter()
        .map(|entry| match entry {
            SourceEntry::Project(path) => ("project", path.clone()),
            SourceEntry::File(path) => ("file", path.clone()),
            SourceEntry::Folder(path) => ("folder", path.clone()),
            SourceEntry::Data(path) => ("data", path.clone()),
        })
        .collect()
}

#[test]
fn a_second_removal_does_nothing_and_says_so() {
    let root = Ref::new();
    let id = Ref::new();
    let tree = tree_of(root, Source::directory("src"), id, Source::directory("src/Child"));
    let (_, removal) = ask(apply_removal(id, tree));
    let (_, tree) = stop(removal.resume(Reply::Done));
    match apply_removal(id, tree) {
        Step::Stop(Ok(()), tree, Some(Notice::NoInstance(other))) => {
            assert_eq!(other, id);
            assert!(tree.contains(root));
        }
        _ => panic!("wrong end"),
    }
}

#[test]
fn removing_an_unknown_instance_does_nothing() {
    let root = Ref::new();
    let id = Ref::new();
    let tree = tree_of(root, Source::directory("src"), id, Source::file("src/Child.luau"));
    let (result, tree) = stop(apply_removal(Ref::new(), tree));
    assert!(result.is_ok());
    assert!(tree.contains(root) && tree.contains(id));
}

#[test]
fn files_are_removed_where_they_are_and_project_files_stay() {
    let root = Ref::new();
    let id = Ref::new();
    let mut source = Source::child_file("src/Child", "src/Child/init.luau");
    source.relevants.push(SourceEntry::Project(text("child.project.json")));
    source.add_data("src/Child/init.data.json");
    let tree = tree_of(root, Source::directory("src"), id, source);
    let (request, removal) = ask(apply_removal(id, tree));
    assert!(matches!(request, Request::Remove(path) if path == "src/Child"));
    let (request, removal) = ask(removal.resume(Reply::Done));
    assert!(matches!(request, Request::Exists(path) if path == "src/Child/init.luau"));
    let (request, removal) = ask(removal.resume(Reply::Flag(false)));
    assert!(matches!(request, Request::Exists(path) if path == "src/Child/init.data.json"));
    let (request, removal) = ask(removal.resume(Reply::Flag(true)));
    assert!(matches!(request, Request::Remove(path) if path == "src/Child/init.data.json"));
    let (result, tree) = stop(removal.resume(Reply::Done));
    assert!(result.is_ok());
    assert!(!tree.contains(id));
    assert!(tree.get_instance(root).unwrap().children.is_empty());
}

#[test]
fn all_that_is_below_is_removed_with_the_instance() {
    let root = Ref::new();
    let (a, b, c) = (Ref::new(), Ref::new(), Ref::new());
    let mut tree = tree_of(root, Source::directory("src"), a, Source::directory("src/A"));
    let below = snapshot(b, "B", Source::file("src/A/B.luau"));
    tree.insert_instance_with_ref(&below, below.meta.clone(), a);
    let other = snapshot(c, "C", Source::file("src/C.luau"));
    tree.insert_instance_with_ref(&other, other.meta.clone(), root);
    let (_, removal) = ask(apply_removal(a, tree));
    let (result, tree) = stop(removal.resume(Reply::Done));
    assert!(result.is_ok());
    assert!(!tree.contains(a));
    assert!(!tree.contains(b));
    assert!(tree.contains(c));
    assert_eq!(tree.get_instance(root).unwrap().children, vec![c]);
}

#[test]
fn a_removal_that_fails_removes_no_instance() {
    let root = Ref::new();
    let id = Ref::new();
    let tree = tree_of(root, Source::directory("src"), id, Source::directory("src/Child"));
    let (_, removal) = ask(apply_removal(id, tree));
    let (result, tree) = stop(removal.resume(Reply::Failed(text("busy"))));
    assert!(matches!(result, Err(WriteError::Failed(reason)) if reason == "busy"));
    assert!(tree.contains(id));
    assert_eq!(tree.get_instance(root).unwrap().children, vec![id]);
}

#[test]
fn a_folder_that_loses_its_last_child_becomes_a_file() {
    let root = Ref::new();
    let id = Ref::new();
    let mut above = Source::child_file("src/Main", "src/Main/init.luau");
    above.add_data("src/Main/init.data.json");
    let tree = tree_of(root, above, id, Source::file("src/Main/Child.luau"));
    let (request, removal) = ask(apply_removal(id, tree));
    assert!(matches!(request, Request::Exists(path) if path == "src/Main/Child.luau"));
    let (request, removal) = ask(removal.resume(Reply::Flag(false)));
    match request {
        Request::MatchesChild { rules, path } => {
            assert_eq!(rules, vec![SCRIPT, DATA]);
            assert_eq!(path, "src/Main/init.luau");
        }
        _ => panic!("wrong request"),
    }
    let (request, removal) = ask(removal.resume(Reply::Flags(vec![true, true])));
    match request {
        Request::Locate { rule, path, name, is_dir } => {
            assert_eq!(rule, SCRIPT);
            assert_eq!(path, "src/Main");
            assert_eq!(name, "Main");
            assert!(!is_dir);
        }
        _ => panic!("wrong request"),
    }
    let (request, removal) = ask(removal.resume(Reply::Place(Some(text("src/Main.luau")))));
    assert!(matches!(request, Request::Rename(from, to)
        if from == "src/Main/init.luau" && to == "src/Main.luau"));
    let (request, removal) = ask(removal.resume(Reply::Done));
    match request {
        Request::LocateEach { rules, path, name, is_dir } => {
            assert_eq!(rules, vec![DATA]);
            assert_eq!(path, "src/Main");
            assert_eq!(name, "Main");
            assert!(!is_dir);
        }
        _ => panic!("wrong request"),
    }
    let (request, removal) =
        ask(removal.resume(Reply::Places(vec![Some(text("src/Main.data.json"))])));
    assert!(matches!(request, Request::Rename(from, to)
        if from == "src/Main/init.data.json" && to == "src/Main.data.json"));
    let (request, removal) = ask(removal.resume(Reply::Done));
    assert!(matches!(request, Request::Remove(path) if path == "src/Main"));
    let (result, tree) = stop(removal.resume(Reply::Done));
    assert!(result.is_ok());
    let source = &tree.get_meta(root).unwrap().source;
    assert!(matches!(source.get(), SourceKind::Path(path) if path == "src/Main.luau"));
    assert_eq!(
        entries(source),
        vec![("file", text("src/Main.luau")), ("data", text("src/Main.data.json"))]
    );
}

#[test]
fn a_data_file_without_a_place_goes_with_the_folder() {
    let root = Ref::new();
    let id = Ref::new();
    let mut above = Source::child_file("src/Main", "src/Main/init.luau");
    above.add_data("src/Main/init.data.json");
    let tree = tree_of(root, above, id, Source::file("src/Main/Child.luau"));
    let (_, removal) = ask(apply_removal(id, tree));
    let (_, removal) = ask(removal.resume(Reply::Flag(false)));
    let (_, removal) = ask(removal.resume(Reply::Flags(vec![true])));
    let (_, removal) = ask(removal.resume(Reply::Place(Some(text("src/Main.luau")))));
    let (_, removal) = ask(removal.resume(Reply::Done));
    let (request, removal) = ask(removal.resume(Reply::Places(vec![None])));
    assert!(matches!(request, Request::Remove(path) if path == "src/Main"));
    let (_, tree) = stop(removal.resume(Reply::Done));
    assert_eq!(
        entries(&tree.get_meta(root).unwrap().source),
        vec![("file", text("src/Main.luau"))]
    );
}

#[test]
fn a_folder_stays_where_no_rule_matches_its_file_or_gives_a_place() {
    for matched in [false, true] {
        let root = Ref::new();
        let id = Ref::new();
        let above = Source::child_file("src/Main", "src/Main/init.luau");
        let tree = tree_of(root, above, id, Source::file("src/Main/Child.luau"));
        let (_, removal) = ask(apply_removal(id, tree));
        let (_, removal) = ask(removal.resume(Reply::Flag(false)));
        let step = removal.resume(Reply::Flags(vec![matched, false]));
        let step = if matched {
            let (_, removal) = ask(step);
            removal.resume(Reply::Place(None))
        } else {
            step
        };
        let (result, tree) = stop(step);
        assert!(result.is_ok());
        assert!(!tree.contains(id));
        assert_eq!(entries(&tree.get_meta(root).unwrap().source).len(), 2);
    }
}

fn node(path: Option<&str>) -> ProjectNode {
    ProjectNode::new(None, path.map(text), Table::new(), None, vec![], None)
}

fn project() -> Project {
    let mut top = node(None);
    top.insert_child(text("Child"), node(None));
    Project { node: top }
}

fn child_node(path: Option<&str>) -> Source {
    Source::project(
        "Child",
        "game/default.project.json",
        node(path),
        NodePath { names: vec![text("Child")] },
    )
}

#[test]
fn a_project_node_is_taken_from_the_project() {
    let root = Ref::new();
    let id = Ref::new();
    let tree = tree_of(root, Source::directory("src"), id, child_node(None));
    let (request, removal) = ask(apply_removal(id, tree));
    assert!(matches!(request, Request::Load(path) if path == "game/default.project.json"));
    let (request, removal) = ask(removal.resume(Reply::Project(project())));
    match request {
        Request::Save { path, project } => {
            assert_eq!(path, "game/default.project.json");
            assert!(project.node.names().is_empty());
        }
        _ => panic!("wrong request"),
    }
    let (result, tree) = stop(removal.resume(Reply::Done));
    assert!(result.is_ok());
    assert!(!tree.contains(id));
}

#[test]
fn a_node_that_is_not_in_the_project_is_an_error() {
    let root = Ref::new();
    let id = Ref::new();
    let tree = tree_of(root, Source::directory("src"), id, child_node(None));
    let (_, removal) = ask(apply_removal(id, tree));
    let mut loaded = Project { node: node(None) };
    loaded.node.insert_child(text("Other"), node(None));
    let (result, tree) = stop(removal.resume(Reply::Project(loaded)));
    match result {
        Err(WriteError::NotInProject(other, project)) => {
            assert_eq!(other, id);
            assert_eq!(project.node.names(), vec!["Other"]);
            assert!(format!("{project:?}").contains("Other"));
        }
        _ => panic!("wrong result"),
    }
    assert!(tree.contains(id));
}

#[test]
fn files_of_a_project_node_with_a_path_are_removed_before_the_project_is_saved() {
    let root = Ref::new();
    let id = Ref::new();
    let mut source = child_node(Some("src"));
    source.relevants.push(SourceEntry::Folder(text("game/src")));
    let above = Source::child_file("m", "m/init.luau");
    let tree = tree_of(root, above, id, source);
    let (_, removal) = ask(apply_removal(id, tree));
    let (request, removal) = ask(removal.resume(Reply::Project(project())));
    assert!(matches!(request, Request::Remove(path) if path == "game/src"));
    let (request, removal) = ask(removal.resume(Reply::Done));
    assert!(matches!(request, Request::MatchesChild { .. }));
    let (_, removal) = ask(removal.resume(Reply::Flags(vec![true])));
    let (_, removal) = ask(removal.resume(Reply::Place(Some(text("m.luau")))));
    let (request, removal) = ask(removal.resume(Reply::Done));
    assert!(matches!(request, Request::Remove(path) if path == "m"));
    let (request, removal) = ask(removal.resume(Reply::Done));
    assert!(matches!(request, Request::Save { .. }));
    let (result, tree) = stop(removal.resume(Reply::Failed(text("read-only"))));
    assert!(result.is_err());
    assert!(tree.contains(id));
    assert_eq!(entries(&tree.get_meta(root).unwrap().source), vec![("file", text("m.luau"))]);
}

#[test]
fn a_wrong_reply_ends_the_removal() {
    let root = Ref::new();
    let id = Ref::new();
    let tree = tree_of(root, Source::directory("src"), id, Source::directory("src/Child"));
    let (_, removal) = ask(apply_removal(id, tree));
    let (result, tree) = stop(removal.resume(Reply::Flag(true)));
    assert!(matches!(result, Err(WriteError::Mismatch)));
    assert!(tree.contains(id));
}

fn root_node(path: Option<&str>) -> (Ref, Tree) {
    let id = Ref::new();
    let mut source = child_node(path);
    source.relevants.push(SourceEntry::Folder(text("game/src")));
    let mut tree = Tree::new();
    tree.insert_root(&snapshot(id, "Child", source));
    (id, tree)
}

#[test]
fn a_root_with_files_fails_as_others_do_where_its_project_does_not_load() {
    let (id, tree) = root_node(Some("src"));
    let (_, removal) = ask(apply_removal(id, tree));
    let (result, tree) = stop(removal.resume(Reply::Failed(text("no such file"))));
    assert!(matches!(result, Err(WriteError::Failed(reason)) if reason == "no such file"));
    assert!(tree.contains(id));
}

#[test]
fn a_root_with_files_fails_as_others_do_where_its_project_lacks_the_node() {
    let (id, tree) = root_node(Some("src"));
    let (_, removal) = ask(apply_removal(id, tree));
    let (result, tree) = stop(removal.resume(Reply::Project(Project { node: node(None) })));
    assert!(matches!(result, Err(WriteError::NotInProject(other, _)) if other == id));
    assert!(tree.contains(id));
}

#[test]
fn a_root_with_files_fails_as_others_do_where_a_file_cannot_be_removed() {
    let (id, tree) = root_node(Some("src"));
    let (_, removal) = ask(apply_removal(id, tree));
    let (request, removal) = ask(removal.resume(Reply::Project(project())));
    assert!(matches!(request, Request::Remove(path) if path == "game/src"));
    let (result, tree) = stop(removal.resume(Reply::Failed(text("busy"))));
    assert!(matches!(result, Err(WriteError::Failed(reason)) if reason == "busy"));
    assert!(tree.contains(id));
}

#[test]
fn a_root_whose_files_are_gone_is_not_removed() {
    let (id, tree) = root_node(Some("src"));
    let (_, removal) = ask(apply_removal(id, tree));
    let (_, removal) = ask(removal.resume(Reply::Project(project())));
    let (result, tree) = stop(removal.resume(Reply::Done));
    assert!(matches!(result, Err(WriteError::NoParent)));
    assert!(tree.contains(id));
}

#[test]
fn a_root_without_files_is_removed() {
    let (id, tree) = root_node(None);
    let (_, removal) = ask(apply_removal(id, tree));
    let (request, removal) = ask(removal.resume(Reply::Project(project())));
    assert!(matches!(request, Request::Save { .. }));
    let (result, tree) = stop(removal.resume(Reply::Done));
    assert!(result.is_ok());
    assert!(!tree.contains(id));
}
