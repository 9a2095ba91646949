use argon_write::exchange::{Reply, Request, Step};
use argon_write::meta::{
    Context, Meta, Middleware, Source, SourceEntry, SourceKind, SyncRule,
};
use argon_write::node::{NodePath, Project, ProjectNode};
use argon_write::snapshot::{AddedSnapshot, Snapshot, UpdatedSnapshot};
use argon_write::table::Table;
use argon_write::tree::Tree;
use argon_write::write::addition::{apply_addition, Addition};
use argon_write::write::removal::apply_removal;
use argon_write::write::update::{apply_update, Update};
use rbx_dom_weak::types::Ref;

fn text(value: &str) -> String {
    value.to_string()
}

fn meta(source: Source) -> Meta {
    Meta {
        source,
        context: Context {
            rules: vec![
                SyncRule { number: 1, middleware: Middleware::Kind(1) },
                SyncRule { number: 2, middleware: Middleware::InstanceData },
            ],
        },
        keep_unknowns: false,
    }
}

fn tree_with(id: Ref, name: &str, source: Source) -> Tree {
    let mut tree = Tree::new();
    tree.insert_root(&Snapshot {
        id,
        name: text(name),
        class: text("Script"),
        properties: Table::new(),
        meta: meta(source),
        children: vec![],
    });
    tree
}

fn added(id: Ref, parent: Ref, name: &str) -> AddedSnapshot {
    AddedSnapshot {
        id,
        parent,
        name: text(name),
        class: text("Script"),
        properties: Table::new(),
        meta: meta(Source::directory("none")),
        children: vec![],
    }
}

fn grow(step: Step<Addition>) -> (Request, Addition) {
    match step {
        Step::Ask(request, addition) => (request, addition),
        Step::Stop(_, _, _) => panic!("it stopped"),
    }
}

fn coherent(tree: &Tree, ids: &[Ref]) {
    for id in ids {
        if let Some(instance) = tree.get_instance(*id) {
            for child in &instance.children {
                assert_eq!(tree.get_instance(*child).unwrap().parent, Some(*id));
            }
            if let Some(parent) = instance.parent {
                assert!(tree.get_instance(parent).unwrap().children.contains(id));
            }
        }
    }
}

#[test]
fn a_file_that_became_a_folder_becomes_the_file_again() {
    let (root, id) = (Ref::new(), Ref::new());
    let tree = tree_with(root, "Main", Source::file("src/Main.luau"));
    let (_, addition) = grow(apply_addition(added(id, root, "Sub"), tree));
    let (_, addition) = grow(addition.resume(Reply::Flag(true)));
    let (_, addition) = grow(addition.resume(Reply::Flags(vec![true, false])));
    let (_, addition) = grow(addition.resume(Reply::Name(text("Main"))));
    let (_, addition) = grow(addition.resume(Reply::Place(Some(text("src/Main/init.luau")))));
    let (_, addition) = grow(addition.resume(Reply::Done));
    let (_, addition) = grow(addition.resume(Reply::Done));
    let (_, addition) = grow(addition.resume(Reply::Kind(Some(Middleware::Kind(1)))));
    let (_, addition) = grow(addition.resume(Reply::Places(vec![Some(text("src/Main/Sub.luau"))])));
    let tree = match addition.resume(Reply::Rest(Table::new())) {
        Step::Stop(Ok(()), tree, _) => tree,
        _ => panic!("not added"),
    };
    coherent(&tree, &[root, id]);
    assert_eq!(tree.get_meta(root).unwrap().source.relevants.len(), 2);
    let mut step = apply_removal(id, tree);
    let replies = vec![
        Reply::Flag(true),
        Reply::Done,
        Reply::Flags(vec![true]),
        Reply::Place(Some(text("src/Main.luau"))),
        Reply::Done,
        Reply::Done,
    ];
    for reply in replies {
        step = match step {
            Step::Ask(_, removal) => removal.resume(reply),
            Step::Stop(_, _, _) => panic!("it stopped"),
        };
    }
    match step {
        Step::Stop(Ok(()), tree, _) => {
            coherent(&tree, &[root, id]);
            assert!(!tree.contains(id));
            let source = &tree.get_meta(root).unwrap().source;
            assert!(matches!(source.get(), SourceKind::Path(path) if path == "src/Main.luau"));
            assert_eq!(source.get_file().map(|path| path.as_str()), Some("src/Main.luau"));
            assert_eq!(source.relevants.len(), 1);
        }
        _ => panic!("not removed"),
    }
}

fn project() -> Project {
    let mut top = ProjectNode::default();
    top.insert_child(text("Workspace"), ProjectNode::default());
    Project { node: top }
}

fn workspace() -> Source {
    Source::project(
        "Workspace",
        "p.json",
        ProjectNode::default(),
        NodePath { names: vec![text("Workspace")] },
    )
}

#[test]
fn a_node_that_was_added_to_a_project_is_found_and_removed_again() {
    let (root, id) = (Ref::new(), Ref::new());
    let tree = tree_with(root, "Workspace", workspace());
    let (_, addition) = grow(apply_addition(added(id, root, "Lamp"), tree));
    let (request, addition) = grow(addition.resume(Reply::Project(project())));
    let saved = match request {
        Request::Save { project, .. } => project,
        _ => panic!("wrong request"),
    };
    let tree = match addition.resume(Reply::Done) {
        Step::Stop(Ok(()), tree, _) => tree,
        _ => panic!("not added"),
    };
    coherent(&tree, &[root, id]);
    let removal = match apply_removal(id, tree) {
        Step::Ask(Request::Load(path), removal) => {
            assert_eq!(path, "p.json");
            removal
        }
        _ => panic!("wrong request"),
    };
    match removal.resume(Reply::Project(saved)) {
        Step::Ask(Request::Save { project, .. }, removal) => {
            assert_eq!(project.node.names(), vec!["Workspace"]);
            assert!(project.node.child(&text("Workspace")).unwrap().names().is_empty());
            assert!(matches!(removal.resume(Reply::Done), Step::Stop(Ok(()), _, _)));
        }
        _ => panic!("wrong request"),
    }
}

fn renamed(id: Ref, tree: Tree, name: &str, project: Project) -> (Project, Tree) {
    let snapshot =
        UpdatedSnapshot { id, meta: None, name: Some(text(name)), class: None, properties: None };
    let update: Update = match apply_update(snapshot, tree) {
        Step::Ask(Request::Load(_), update) => update,
        _ => panic!("wrong request"),
    };
    match update.resume(Reply::Project(project)) {
        Step::Ask(Request::Save { project, .. }, update) => match update.resume(Reply::Done) {
            Step::Stop(Ok(()), tree, _) => (project, tree),
            _ => panic!("not renamed"),
        },
        _ => panic!("wrong request"),
    }
}

#[test]
fn a_node_can_be_renamed_and_renamed_back() {
    let root = Ref::new();
    let tree = tree_with(root, "Workspace", workspace());
    let (saved, tree) = renamed(root, tree, "World", project());
    assert_eq!(saved.node.names(), vec!["World"]);
    match tree.get_meta(root).unwrap().source.get() {
        SourceKind::Project(_, _, _, way) => assert!(saved.node.find(way).is_some()),
        _ => panic!("wrong source"),
    }
    let (saved, tree) = renamed(root, tree, "Workspace", saved);
    assert_eq!(saved.node.names(), vec!["Workspace"]);
    assert_eq!(tree.get_instance(root).unwrap().name, "Workspace");
}

#[test]
fn an_instance_with_a_file_becomes_a_single_file_whatever_else_it_had() {
    let (root, id) = (Ref::new(), Ref::new());
    let mut source = Source::file("src/Main.luau");
    source.relevants.push(SourceEntry::Project(text("main.project.json")));
    let tree = tree_with(root, "Main", source);
    let (_, addition) = grow(apply_addition(added(id, root, "Sub"), tree));
    let (_, addition) = grow(addition.resume(Reply::Flag(true)));
    let (_, addition) = grow(addition.resume(Reply::Flags(vec![true])));
    let (_, addition) = grow(addition.resume(Reply::Name(text("Main"))));
    let (_, addition) = grow(addition.resume(Reply::Place(Some(text("src/Main/init.luau")))));
    let (_, addition) = grow(addition.resume(Reply::Done));
    let (_, addition) = grow(addition.resume(Reply::Done));
    let (_, addition) = grow(addition.resume(Reply::Kind(Some(Middleware::Kind(1)))));
    let (_, addition) = grow(addition.resume(Reply::Places(vec![Some(text("src/Main/Sub.luau"))])));
    let tree = match addition.resume(Reply::Rest(Table::new())) {
        Step::Stop(Ok(()), tree, _) => tree,
        _ => panic!("not added"),
    };
    let tree = removed_with(
        id,
        tree,
        vec![
            Reply::Flag(false),
            Reply::Flags(vec![true]),
            Reply::Place(Some(text("src/Main.luau"))),
            Reply::Done,
            Reply::Done,
        ],
    );
    let source = &tree.get_meta(root).unwrap().source;
    assert!(matches!(source.get(), SourceKind::Path(path) if path == "src/Main.luau"));
    assert_eq!(source.relevants.len(), 1);
    assert!(tree.get_instance(root).unwrap().children.is_empty());
}

#[test]
fn a_folder_without_a_file_is_what_it_was_after_its_only_child_is_gone() {
    let (root, id) = (Ref::new(), Ref::new());
    let tree = tree_with(root, "Main", Source::directory("src"));
    let (_, addition) = grow(apply_addition(added(id, root, "Sub"), tree));
    let (_, addition) = grow(addition.resume(Reply::Flag(false)));
    let (_, addition) = grow(addition.resume(Reply::Kind(Some(Middleware::Kind(1)))));
    let (_, addition) = grow(addition.resume(Reply::Places(vec![Some(text("src/Sub.luau"))])));
    let tree = match addition.resume(Reply::Rest(Table::new())) {
        Step::Stop(Ok(()), tree, _) => tree,
        _ => panic!("not added"),
    };
    let tree = removed_with(id, tree, vec![Reply::Flag(true), Reply::Done]);
    let source = &tree.get_meta(root).unwrap().source;
    assert!(matches!(source.get(), SourceKind::Path(path) if path == "src"));
    assert!(matches!(&source.relevants[..], [SourceEntry::Folder(path)] if path == "src"));
    assert!(tree.get_instance(root).unwrap().children.is_empty());
    assert!(!tree.contains(id));
}

fn removed_with(id: Ref, tree: Tree, replies: Vec<Reply>) -> Tree {
    let mut step = apply_removal(id, tree);
    for reply in replies {
        step = match step {
            Step::Ask(_, removal) => removal.resume(reply),
            Step::Stop(_, _, _) => panic!("it stopped"),
        };
    }
    match step {
        Step::Stop(Ok(()), tree, _) => tree,
        _ => panic!("not removed"),
    }
}
