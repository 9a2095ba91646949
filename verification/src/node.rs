//! Project files: a tree of nodes, each under its name.
use crate::table::{
    contents, distinct_names, entry_names, find_entry, insert_entry, lemma_entry,
    lemma_like_contents, named, place, remove_entry, Table,
};
use crate::value::{UnresolvedValue, UnresolvedView};
use vstd::prelude::*;

verus! {

/// A node of a project file.
#[derive(Debug)]
pub struct ProjectNode {
    /// The class of the node's instance.
    pub(crate) class_name: Option<String>,
    /// A path, from the project file on, where the node's instance is kept.
    pub(crate) path: Option<String>,
    /// The properties of the node's instance.
    pub(crate) properties: Table<UnresolvedValue>,
    /// The attributes of the node's instance.
    pub(crate) attributes: Option<UnresolvedValue>,
    /// The tags of the node's instance.
    pub(crate) tags: Vec<String>,
    /// Whether children that the project does not know stay.
    pub(crate) keep_unknowns: Option<bool>,
    /// The nodes below, by name.
    pub(crate) tree: Vec<(String, ProjectNode)>,
}

/// What a [`ProjectNode`] is.
#[verifier::ext_equal]
pub struct NodeView {
    pub class_name: Option<Seq<char>>,
    pub path: Option<Seq<char>>,
    pub properties: Map<Seq<char>, UnresolvedView>,
    pub attributes: Option<UnresolvedView>,
    pub tags: Seq<Seq<char>>,
    pub keep_unknowns: Option<bool>,
    pub tree: Map<Seq<char>, NodeView>,
}

impl ProjectNode {
    /// No two nodes below have the same name.
    #[verifier::type_invariant]
    pub(crate) closed spec fn distinct(self) -> bool {
        distinct_names(self.tree@)
    }

    closed spec fn model(self) -> NodeView
        decreases self,
    {
        NodeView {
            class_name: self.class_name.deep_view(),
            path: self.path.deep_view(),
            properties: self.properties.deep_view(),
            attributes: self.attributes.deep_view(),
            tags: self.tags.deep_view(),
            keep_unknowns: self.keep_unknowns,
            tree: Map::new(
                |name: Seq<char>| named(self.tree@, name),
                |name: Seq<char>|
                    {
                        let i = place(self.tree@, name);
                        if 0 <= i < self.tree@.len() {
                            self.tree@[i].1.model()
                        } else {
                            arbitrary()
                        }
                    },
            ),
        }
    }
}

impl DeepView for ProjectNode {
    type V = NodeView;

    closed spec fn deep_view(&self) -> NodeView {
        self.model()
    }
}

/// The view of a node, field by field.
proof fn lemma_node_view(node: &ProjectNode)
    ensures
        node.deep_view() == (NodeView {
            class_name: node.class_name.deep_view(),
            path: node.path.deep_view(),
            properties: node.properties.deep_view(),
            attributes: node.attributes.deep_view(),
            tags: node.tags.deep_view(),
            keep_unknowns: node.keep_unknowns,
            tree: contents(node.tree@).map_values(|n: ProjectNode| n.deep_view()),
        }),
{
    assert(node.deep_view().tree =~= contents(node.tree@).map_values(
        |n: ProjectNode| n.deep_view(),
    ));
}

/// Copies a list of strings.
pub(crate) fn copy_strings(list: &Vec<String>) -> (copy: Vec<String>)
    ensures
        copy.deep_view() == list.deep_view(),
{
    let copy = list.clone();
    assert(copy.deep_view() =~= list.deep_view());
    copy
}

impl Clone for ProjectNode {
    fn clone(&self) -> (copy: Self)
        ensures
            copy.deep_view() == self.deep_view(),
        decreases self,
    {
        proof {
            use_type_invariant(self);
        }
        let mut tree: Vec<(String, ProjectNode)> = Vec::new();
        let mut i: usize = 0;
        while i < self.tree.len()
            invariant
                i <= self.tree@.len(),
                tree@.len() == i,
                forall|j: int|
                    0 <= j < i ==> (#[trigger] tree@[j]).0@ == self.tree@[j].0@
                        && tree@[j].1.deep_view() == self.tree@[j].1.deep_view(),
            decreases self.tree@.len() - i,
        {
            assert(decreases_to!(self => self.tree@[i as int].1));
            let name: String = self.tree[i].0.clone();
            let node: ProjectNode = self.tree[i].1.clone();
            tree.push((name, node));
            i = i + 1;
        }
        proof {
            lemma_like_contents(self.tree@, tree@);
        }
        let copy = ProjectNode {
            class_name: self.class_name.clone(),
            path: self.path.clone(),
            properties: self.properties.clone(),
            attributes: self.attributes.clone(),
            tags: copy_strings(&self.tags),
            keep_unknowns: self.keep_unknowns,
            tree,
        };
        proof {
            lemma_node_view(self);
            lemma_node_view(&copy);
        }
        copy
    }
}

impl ProjectNode {
    /// A node with no nodes below it.
    pub fn new(
        class_name: Option<String>,
        path: Option<String>,
        properties: Table<UnresolvedValue>,
        attributes: Option<UnresolvedValue>,
        tags: Vec<String>,
        keep_unknowns: Option<bool>,
    ) -> (node: Self)
        ensures
            node.deep_view() == (NodeView {
                class_name: class_name.deep_view(),
                path: path.deep_view(),
                properties: properties.deep_view(),
                attributes: attributes.deep_view(),
                tags: tags.deep_view(),
                keep_unknowns,
                tree: Map::empty(),
            }),
    {
        let node = ProjectNode {
            class_name,
            path,
            properties,
            attributes,
            tags,
            keep_unknowns,
            tree: Vec::new(),
        };
        proof {
            lemma_node_view(&node);
            assert(node.deep_view().tree =~= Map::empty());
        }
        node
    }

    /// The class of the node's instance.
    pub fn class_name(&self) -> (class_name: &Option<String>)
        ensures
            class_name.deep_view() == self.deep_view().class_name,
    {
        &self.class_name
    }

    /// A path, from the project file on, where the node's instance is kept.
    pub fn path(&self) -> (path: &Option<String>)
        ensures
            path.deep_view() == self.deep_view().path,
    {
        &self.path
    }

    /// The properties of the node's instance.
    pub fn properties(&self) -> (properties: &Table<UnresolvedValue>)
        ensures
            properties.deep_view() == self.deep_view().properties,
    {
        &self.properties
    }

    /// The attributes of the node's instance.
    pub fn attributes(&self) -> (attributes: &Option<UnresolvedValue>)
        ensures
            attributes.deep_view() == self.deep_view().attributes,
    {
        &self.attributes
    }

    /// The tags of the node's instance.
    pub fn tags(&self) -> (tags: &Vec<String>)
        ensures
            tags.deep_view() == self.deep_view().tags,
    {
        &self.tags
    }

    /// Whether children that the project does not know stay.
    pub fn keep_unknowns(&self) -> (keep_unknowns: Option<bool>)
        ensures
            keep_unknowns == self.deep_view().keep_unknowns,
    {
        self.keep_unknowns
    }

    /// The names of the nodes below, each once.
    pub fn names(&self) -> (names: Vec<String>)
        ensures
            names.deep_view().no_duplicates(),
            names.deep_view().to_set() == self.deep_view().tree.dom(),
    {
        proof {
            use_type_invariant(self);
            lemma_node_view(self);
        }
        let names = entry_names(&self.tree);
        assert(names.deep_view().to_set() =~= self.deep_view().tree.dom());
        names
    }

    /// Replaces the properties of the node's instance.
    pub fn set_properties(&mut self, properties: Table<UnresolvedValue>)
        ensures
            final(self).deep_view() == (NodeView {
                properties: properties.deep_view(),
                ..old(self).deep_view()
            }),
    {
        proof {
            use_type_invariant(&*self);
            lemma_node_view(&*self);
        }
        self.properties = properties;
        proof {
            lemma_node_view(&*self);
        }
    }

    /// Replaces the attributes of the node's instance.
    pub fn set_attributes(&mut self, attributes: Option<UnresolvedValue>)
        ensures
            final(self).deep_view() == (NodeView {
                attributes: attributes.deep_view(),
                ..old(self).deep_view()
            }),
    {
        proof {
            use_type_invariant(&*self);
            lemma_node_view(&*self);
        }
        self.attributes = attributes;
        proof {
            lemma_node_view(&*self);
        }
    }

    /// Replaces the tags of the node's instance.
    pub fn set_tags(&mut self, tags: Vec<String>)
        ensures
            final(self).deep_view() == (NodeView {
                tags: tags.deep_view(),
                ..old(self).deep_view()
            }),
    {
        proof {
            use_type_invariant(&*self);
            lemma_node_view(&*self);
        }
        self.tags = tags;
        proof {
            lemma_node_view(&*self);
        }
    }

    /// Replaces what becomes of children that the project does not know.
    pub fn set_keep_unknowns(&mut self, keep_unknowns: Option<bool>)
        ensures
            final(self).deep_view() == (NodeView { keep_unknowns, ..old(self).deep_view() }),
    {
        proof {
            use_type_invariant(&*self);
            lemma_node_view(&*self);
        }
        self.keep_unknowns = keep_unknowns;
        proof {
            lemma_node_view(&*self);
        }
    }
}

impl Default for ProjectNode {
    fn default() -> (node: Self)
        ensures
            node.deep_view() == empty_node(),
    {
        let node = ProjectNode::new(None, None, Table::new(), None, Vec::new(), None);
        assert(node.deep_view() =~= empty_node());
        node
    }
}

/// A node that says nothing.
pub open spec fn empty_node() -> NodeView {
    NodeView {
        class_name: None,
        path: None,
        properties: Map::empty(),
        attributes: None,
        tags: Seq::empty(),
        keep_unknowns: None,
        tree: Map::empty(),
    }
}

impl ProjectNode {
    /// The node below with this name.
    pub fn child(&self, name: &String) -> (node: Option<&ProjectNode>)
        ensures
            match node {
                Some(n) => self.deep_view().tree.contains_key(name@)
                    && self.deep_view().tree[name@] == n.deep_view(),
                None => !self.deep_view().tree.contains_key(name@),
            },
    {
        proof {
            use_type_invariant(self);
            lemma_node_view(self);
        }
        match find_entry(&self.tree, name) {
            Some(i) => Some(&self.tree[i].1),
            None => None,
        }
    }

    /// Puts a node below this one, in place of the node that had the name.
    pub fn insert_child(&mut self, name: String, node: ProjectNode)
        ensures
            final(self).deep_view() == (NodeView {
                tree: old(self).deep_view().tree.insert(name@, node.deep_view()),
                ..old(self).deep_view()
            }),
    {
        proof {
            use_type_invariant(&*self);
            lemma_node_view(&*self);
        }
        let ghost before = *self;
        let mut tree: Vec<(String, ProjectNode)> = Vec::new();
        std::mem::swap(&mut tree, &mut self.tree);
        insert_entry(&mut tree, name, node);
        self.tree = tree;
        proof {
            lemma_node_view(&*self);
            assert(self.deep_view().tree =~= before.deep_view().tree.insert(
                name@,
                node.deep_view(),
            ));
        }
    }

    /// Takes the node with this name from below this one.
    pub fn remove_child(&mut self, name: &String) -> (node: Option<ProjectNode>)
        ensures
            final(self).deep_view() == (NodeView {
                tree: old(self).deep_view().tree.remove(name@),
                ..old(self).deep_view()
            }),
            match node {
                Some(n) => old(self).deep_view().tree.contains_key(name@)
                    && old(self).deep_view().tree[name@] == n.deep_view(),
                None => !old(self).deep_view().tree.contains_key(name@),
            },
    {
        proof {
            use_type_invariant(&*self);
            lemma_node_view(&*self);
        }
        let ghost before = *self;
        let mut tree: Vec<(String, ProjectNode)> = Vec::new();
        std::mem::swap(&mut tree, &mut self.tree);
        let node = remove_entry(&mut tree, name);
        self.tree = tree;
        proof {
            lemma_node_view(&*self);
            assert(self.deep_view().tree =~= before.deep_view().tree.remove(name@));
        }
        node
    }
}

/// The names that lead from the top of a project to one of its nodes.
pub struct NodePath {
    pub names: Vec<String>,
}

impl DeepView for NodePath {
    type V = Seq<Seq<char>>;

    open spec fn deep_view(&self) -> Seq<Seq<char>> {
        self.names.deep_view()
    }
}

impl Clone for NodePath {
    fn clone(&self) -> (copy: Self)
        ensures
            copy.deep_view() == self.deep_view(),
    {
        NodePath { names: copy_strings(&self.names) }
    }
}

/// The path to the node above; the top of a project is above itself.
pub open spec fn parent_path(path: Seq<Seq<char>>) -> Seq<Seq<char>> {
    if path.len() == 0 {
        path
    } else {
        path.drop_last()
    }
}

impl NodePath {
    /// The path to the node with this name below.
    pub fn join(&self, name: &str) -> (path: Self)
        ensures
            path.deep_view() == self.deep_view().push(name@),
    {
        let mut names: Vec<String> = copy_strings(&self.names);
        let ghost before = names.deep_view();
        names.push(name.to_owned());
        assert(names.deep_view() =~= before.push(name@));
        NodePath { names }
    }

    /// The path to the node above.
    pub fn parent(&self) -> (path: Self)
        ensures
            path.deep_view() == parent_path(self.deep_view()),
    {
        let mut names: Vec<String> = copy_strings(&self.names);
        let ghost before = names.deep_view();
        let _ = names.pop();
        assert(names.deep_view() =~= parent_path(before));
        NodePath { names }
    }
}

/// The node that a path leads to.
pub open spec fn node_at(node: NodeView, path: Seq<Seq<char>>) -> Option<NodeView>
    decreases path.len(),
{
    if path.len() == 0 {
        Some(node)
    } else if node.tree.contains_key(path[0]) {
        node_at(node.tree[path[0]], path.skip(1))
    } else {
        None
    }
}

/// `node` with the node that a path leads to replaced.
pub open spec fn with_node_at(node: NodeView, path: Seq<Seq<char>>, new: NodeView) -> NodeView
    decreases path.len(),
{
    if path.len() == 0 {
        new
    } else if node.tree.contains_key(path[0]) {
        NodeView {
            tree: node.tree.insert(
                path[0],
                with_node_at(node.tree[path[0]], path.skip(1), new),
            ),
            ..node
        }
    } else {
        node
    }
}

impl ProjectNode {
    /// The node that a path leads to.
    pub fn find(&self, path: &NodePath) -> (found: Option<&ProjectNode>)
        ensures
            match found {
                Some(node) => node_at(self.deep_view(), path.deep_view()) == Some(node.deep_view()),
                None => node_at(self.deep_view(), path.deep_view()) is None,
            },
    {
        let mut node: &ProjectNode = self;
        let mut at: usize = 0;
        assert(path.deep_view().skip(0) == path.deep_view());
        while at < path.names.len()
            invariant
                at <= path.names@.len(),
                node_at(node.deep_view(), path.deep_view().skip(at as int)) == node_at(
                    self.deep_view(),
                    path.deep_view(),
                ),
            decreases path.names@.len() - at,
        {
            let ghost rest = path.deep_view().skip(at as int);
            assert(rest[0] == path.names@[at as int]@);
            assert(rest.skip(1) == path.deep_view().skip(at + 1));
            match node.child(&path.names[at]) {
                Some(below) => {
                    node = below;
                },
                None => {
                    return None;
                },
            }
            at = at + 1;
        }
        assert(path.deep_view().skip(at as int).len() == 0);
        Some(node)
    }

    /// Replaces the node that a path leads to, if there is one.
    pub fn replace(&mut self, path: &NodePath, node: ProjectNode)
        ensures
            final(self).deep_view() == with_node_at(
                old(self).deep_view(),
                path.deep_view(),
                node.deep_view(),
            ),
    {
        assert(path.deep_view().skip(0) == path.deep_view());
        self.replace_from(path, 0, node)
    }

    /// Replaces the node that the names from `from` on lead to, if there is one.
    fn replace_from(&mut self, path: &NodePath, from: usize, node: ProjectNode)
        requires
            from <= path.names@.len(),
        ensures
            final(self).deep_view() == with_node_at(
                old(self).deep_view(),
                path.deep_view().skip(from as int),
                node.deep_view(),
            ),
        decreases path.names@.len() - from,
    {
        let ghost rest = path.deep_view().skip(from as int);
        if from == path.names.len() {
            *self = node;
            return;
        }
        proof {
            use_type_invariant(&*self);
            lemma_node_view(&*self);
            assert(rest[0] == path.names@[from as int]@);
            assert(rest.skip(1) == path.deep_view().skip(from + 1));
        }
        let ghost before = *self;
        let mut tree: Vec<(String, ProjectNode)> = Vec::new();
        std::mem::swap(&mut tree, &mut self.tree);
        let ghost entries = tree@;
        match find_entry(&tree, &path.names[from]) {
            Some(i) => {
                tree[i].1.replace_from(path, from + 1, node);
                proof {
                    lemma_entry_changed(entries, tree@, i as int);
                }
                self.tree = tree;
                proof {
                    lemma_node_view(&*self);
                    assert(self.deep_view().tree =~= before.deep_view().tree.insert(
                        rest[0],
                        with_node_at(
                            before.deep_view().tree[rest[0]],
                            rest.skip(1),
                            node.deep_view(),
                        ),
                    ));
                }
            },
            None => {
                self.tree = tree;
                proof {
                    lemma_node_view(&*self);
                }
            },
        }
    }
}

/// Changing one value changes what its name stands for, and nothing else.
proof fn lemma_entry_changed(
    before: Seq<(String, ProjectNode)>,
    after: Seq<(String, ProjectNode)>,
    i: int,
)
    requires
        distinct_names(before),
        0 <= i < before.len(),
        after == before.update(i, after[i]),
        after[i].0 == before[i].0,
    ensures
        distinct_names(after),
        contents(after) == contents(before).insert(before[i].0@, after[i].1),
{
    assert forall|a: int, b: int|
        0 <= a < after.len() && 0 <= b < after.len() && (#[trigger] after[a]).0@ == (
        #[trigger] after[b]).0@ implies a == b by {
        assert(before[a].0 == after[a].0);
        assert(before[b].0 == after[b].0);
    }
    assert forall|k: Seq<char>| named(before, k) == named(after, k) by {
        if named(before, k) {
            assert(after[place(before, k)].0@ == k);
        }
        if named(after, k) {
            assert(before[place(after, k)].0@ == k);
        }
    }
    assert forall|k: Seq<char>| named(after, k) implies contents(after)[k] == contents(
        before,
    ).insert(before[i].0@, after[i].1)[k] by {
        let j = place(after, k);
        assert(before[j].0@ == k);
        lemma_entry(before, j);
        lemma_entry(after, j);
    }
    lemma_entry(before, i);
    assert(contents(after) =~= contents(before).insert(before[i].0@, after[i].1));
}

/// A project: the node at its top.
#[derive(Debug)]
pub struct Project {
    pub node: ProjectNode,
}

impl DeepView for Project {
    type V = NodeView;

    open spec fn deep_view(&self) -> NodeView {
        self.node.deep_view()
    }
}

} // verus!
