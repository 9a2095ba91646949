//! The tree of instances.
use crate::meta::{Meta, MetaView};
use crate::snapshot::{Snapshot, SnapshotView};
use crate::value::{same_ref, Properties};
use rbx_dom_weak::types::{Ref, Variant};
use vstd::prelude::*;

verus! {

/// An instance of the tree.
pub struct Instance {
    pub id: Ref,
    pub parent: Option<Ref>,
    pub children: Vec<Ref>,
    pub name: String,
    pub class: String,
    pub properties: Properties,
    pub meta: Meta,
}

/// What an [`Instance`] is, but for its identity.
#[verifier::ext_equal]
pub struct InstanceView {
    pub parent: Option<Ref>,
    pub children: Seq<Ref>,
    pub name: Seq<char>,
    pub class: Seq<char>,
    pub properties: Map<Seq<char>, Variant>,
    pub meta: MetaView,
}

impl DeepView for Instance {
    type V = InstanceView;

    open spec fn deep_view(&self) -> InstanceView {
        InstanceView {
            parent: self.parent,
            children: self.children@,
            name: self.name@,
            class: self.class@,
            properties: self.properties@,
            meta: self.meta.deep_view(),
        }
    }
}

/// Instances by identity.
pub type TreeView = Map<Ref, InstanceView>;

/// The instances, each under its own identity.
pub struct Tree {
    pub(crate) instances: Vec<Instance>,
}

spec fn distinct_ids(instances: Seq<Instance>) -> bool {
    forall|i: int, j: int|
        0 <= i < instances.len() && 0 <= j < instances.len() && (#[trigger] instances[i]).id == (
        #[trigger] instances[j]).id ==> i == j
}

spec fn held(instances: Seq<Instance>, id: Ref) -> bool {
    exists|i: int| 0 <= i < instances.len() && (#[trigger] instances[i]).id == id
}

spec fn place(instances: Seq<Instance>, id: Ref) -> int {
    choose|i: int| 0 <= i < instances.len() && (#[trigger] instances[i]).id == id
}

spec fn by_id(instances: Seq<Instance>) -> TreeView {
    Map::new(
        |id: Ref| held(instances, id),
        |id: Ref| instances[place(instances, id)].deep_view(),
    )
}

impl Tree {
    /// No identity occurs twice.
    #[verifier::type_invariant]
    closed spec fn distinct(self) -> bool {
        distinct_ids(self.instances@)
    }
}

impl DeepView for Tree {
    type V = TreeView;

    closed spec fn deep_view(&self) -> TreeView {
        by_id(self.instances@)
    }
}

proof fn lemma_held(instances: Seq<Instance>, i: int)
    requires
        distinct_ids(instances),
        0 <= i < instances.len(),
    ensures
        held(instances, instances[i].id),
        by_id(instances).contains_key(instances[i].id),
        by_id(instances)[instances[i].id] == instances[i].deep_view(),
{
}

/// Changing one instance changes what its identity stands for, and nothing else.
proof fn lemma_changed(before: Seq<Instance>, after: Seq<Instance>, i: int)
    requires
        distinct_ids(before),
        0 <= i < before.len(),
        after == before.update(i, after[i]),
        after[i].id == before[i].id,
    ensures
        distinct_ids(after),
        by_id(after) == by_id(before).insert(before[i].id, after[i].deep_view()),
{
    assert forall|a: int, b: int|
        0 <= a < after.len() && 0 <= b < after.len() && (#[trigger] after[a]).id == (
        #[trigger] after[b]).id implies a == b by {
        assert(before[a].id == after[a].id);
        assert(before[b].id == after[b].id);
    }
    assert forall|id: Ref| held(before, id) == held(after, id) by {
        if held(before, id) {
            assert(after[place(before, id)].id == id);
        }
        if held(after, id) {
            assert(before[place(after, id)].id == id);
        }
    }
    assert forall|id: Ref| held(after, id) implies by_id(after)[id] == by_id(before).insert(
        before[i].id,
        after[i].deep_view(),
    )[id] by {
        let j = place(after, id);
        assert(before[j].id == id);
        lemma_held(before, j);
        lemma_held(after, j);
    }
    lemma_held(before, i);
    assert(by_id(after) =~= by_id(before).insert(before[i].id, after[i].deep_view()));
}

/// Adding an instance with a new identity.
proof fn lemma_pushed(before: Seq<Instance>, new: Instance)
    requires
        distinct_ids(before),
        !by_id(before).contains_key(new.id),
    ensures
        distinct_ids(before.push(new)),
        by_id(before.push(new)) == by_id(before).insert(new.id, new.deep_view()),
{
    let after = before.push(new);
    assert forall|a: int, b: int|
        0 <= a < after.len() && 0 <= b < after.len() && (#[trigger] after[a]).id == (
        #[trigger] after[b]).id implies a == b by {
        if a < before.len() {
            assert(before[a].id == after[a].id);
        }
        if b < before.len() {
            assert(before[b].id == after[b].id);
        }
    }
    assert forall|id: Ref| held(after, id) == (held(before, id) || id == new.id) by {
        if held(before, id) {
            assert(after[place(before, id)].id == id);
        }
        if held(after, id) && id != new.id {
            assert(before[place(after, id)].id == id);
        }
        assert(after[before.len() as int].id == new.id);
    }
    assert forall|id: Ref| held(after, id) implies by_id(after)[id] == by_id(before).insert(
        new.id,
        new.deep_view(),
    )[id] by {
        let j = place(after, id);
        lemma_held(after, j);
        if j < before.len() {
            assert(before[j].id == id);
            lemma_held(before, j);
        }
    }
    assert(by_id(after) =~= by_id(before).insert(new.id, new.deep_view()));
}

/// Taking one instance out.
proof fn lemma_taken(before: Seq<Instance>, i: int)
    requires
        distinct_ids(before),
        0 <= i < before.len(),
    ensures
        distinct_ids(before.remove(i)),
        by_id(before.remove(i)) == by_id(before).remove(before[i].id),
{
    let after = before.remove(i);
    assert forall|a: int, b: int|
        0 <= a < after.len() && 0 <= b < after.len() && (#[trigger] after[a]).id == (
        #[trigger] after[b]).id implies a == b by {
        let p = if a < i { a } else { a + 1 };
        let q = if b < i { b } else { b + 1 };
        assert(before[p] == after[a]);
        assert(before[q] == after[b]);
    }
    assert forall|id: Ref| held(after, id) == (held(before, id) && id != before[i].id) by {
        if held(after, id) {
            let a = place(after, id);
            let p = if a < i { a } else { a + 1 };
            assert(before[p] == after[a]);
        }
        if held(before, id) && id != before[i].id {
            let p = place(before, id);
            let a = if p < i { p } else { p - 1 };
            assert(before[p] == after[a]);
        }
    }
    assert forall|id: Ref| held(after, id) implies by_id(after)[id] == by_id(before)[id] by {
        let a = place(after, id);
        let p = if a < i { a } else { a + 1 };
        assert(before[p] == after[a]);
        lemma_held(before, p);
        lemma_held(after, a);
    }
    assert(by_id(after) =~= by_id(before).remove(before[i].id));
}

/// Where the instance with this identity stands.
fn find_instance(instances: &Vec<Instance>, id: Ref) -> (found: Option<usize>)
    requires
        distinct_ids(instances@),
    ensures
        match found {
            Some(i) => i < instances@.len() && instances@[i as int].id == id && by_id(
                instances@,
            ).contains_key(id) && by_id(instances@)[id] == instances@[i as int].deep_view(),
            None => !by_id(instances@).contains_key(id),
        },
{
    let mut i: usize = 0;
    while i < instances.len()
        invariant
            i <= instances@.len(),
            distinct_ids(instances@),
            forall|j: int| 0 <= j < i ==> (#[trigger] instances@[j]).id != id,
        decreases instances@.len() - i,
    {
        if same_ref(instances[i].id, id) {
            proof {
                lemma_held(instances@, i as int);
            }
            return Some(i);
        }
        i = i + 1;
    }
    None
}

/// A snapshot as an instance without children.
pub open spec fn planted(snapshot: SnapshotView, parent: Option<Ref>) -> InstanceView {
    InstanceView {
        parent,
        children: Seq::empty(),
        name: snapshot.name,
        class: snapshot.class,
        properties: snapshot.properties,
        meta: snapshot.meta,
    }
}

/// The tree with a snapshot, without what is below it, as the last child of an instance.
pub open spec fn inserted(tree: TreeView, snapshot: SnapshotView, parent: Ref) -> TreeView {
    let grown = tree.insert(snapshot.id, planted(snapshot, Some(parent)));
    grown.insert(
        parent,
        InstanceView { children: grown[parent].children.push(snapshot.id), ..grown[parent] },
    )
}

/// The list without an identity.
pub open spec fn without(list: Seq<Ref>, id: Ref) -> Seq<Ref>
    decreases list.len(),
{
    if list.len() == 0 {
        Seq::empty()
    } else if list.last() == id {
        without(list.drop_last(), id)
    } else {
        without(list.drop_last(), id).push(list.last())
    }
}

/// The tree in which the parent of an instance no longer lists it.
pub open spec fn detached(tree: TreeView, id: Ref) -> TreeView {
    match tree[id].parent {
        Some(parent) if tree.contains_key(parent) => tree.insert(
            parent,
            InstanceView { children: without(tree[parent].children, id), ..tree[parent] },
        ),
        _ => tree,
    }
}

/// Each instance on the way lists the next among its children.
pub open spec fn is_way(tree: TreeView, way: Seq<Ref>) -> bool {
    &&& way.len() > 0
    &&& forall|i: int|
        0 <= i < way.len() - 1 ==> tree.contains_key(#[trigger] way[i])
            && tree[way[i]].children.contains(way[i + 1])
}

/// A way leads from `top` down to `id`.
pub open spec fn is_below(tree: TreeView, top: Ref, id: Ref) -> bool {
    exists|way: Seq<Ref>| #[trigger] is_way(tree, way) && way[0] == top && way.last() == id
}

/// The tree without an instance and all that is below it.
pub open spec fn removed(tree: TreeView, id: Ref) -> TreeView {
    if tree.contains_key(id) {
        let rest = detached(tree, id);
        rest.remove_keys(Set::new(|other: Ref| is_below(rest, id, other)))
    } else {
        tree
    }
}

impl Tree {
    /// A tree without instances.
    pub fn new() -> (tree: Self)
        ensures
            tree.deep_view() == Map::<Ref, InstanceView>::empty(),
    {
        let tree = Tree { instances: Vec::new() };
        assert(tree.deep_view() =~= Map::<Ref, InstanceView>::empty());
        tree
    }

    /// Whether the tree has an instance with this identity.
    pub fn contains(&self, id: Ref) -> (found: bool)
        ensures
            found == self.deep_view().contains_key(id),
    {
        self.get_instance(id).is_some()
    }

    /// The instance with this identity.
    pub fn get_instance(&self, id: Ref) -> (instance: Option<&Instance>)
        ensures
            match instance {
                Some(instance) => self.deep_view().contains_key(id) && self.deep_view()[id]
                    == instance.deep_view() && instance.id == id,
                None => !self.deep_view().contains_key(id),
            },
    {
        proof {
            use_type_invariant(self);
        }
        match find_instance(&self.instances, id) {
            Some(i) => Some(&self.instances[i]),
            None => None,
        }
    }

    /// What is known of the instance with this identity.
    pub fn get_meta(&self, id: Ref) -> (meta: Option<&Meta>)
        ensures
            match meta {
                Some(meta) => self.deep_view().contains_key(id) && self.deep_view()[id].meta
                    == meta.deep_view(),
                None => !self.deep_view().contains_key(id),
            },
    {
        match self.get_instance(id) {
            Some(instance) => Some(&instance.meta),
            None => None,
        }
    }

    /// Replaces what is known of an instance, if the tree has it.
    pub fn update_meta(&mut self, id: Ref, meta: Meta)
        ensures
            final(self).deep_view() == (if old(self).deep_view().contains_key(id) {
                old(self).deep_view().insert(
                    id,
                    InstanceView { meta: meta.deep_view(), ..old(self).deep_view()[id] },
                )
            } else {
                old(self).deep_view()
            }),
    {
        proof {
            use_type_invariant(&*self);
        }
        let mut instances: Vec<Instance> = Vec::new();
        std::mem::swap(&mut instances, &mut self.instances);
        let ghost before = instances@;
        match find_instance(&instances, id) {
            Some(i) => {
                instances[i].meta = meta;
                proof {
                    lemma_changed(before, instances@, i as int);
                }
            },
            None => {},
        }
        self.instances = instances;
    }

    /// Renames an instance, if the tree has it.
    pub fn set_name(&mut self, id: Ref, name: String)
        ensures
            final(self).deep_view() == (if old(self).deep_view().contains_key(id) {
                old(self).deep_view().insert(
                    id,
                    InstanceView { name: name@, ..old(self).deep_view()[id] },
                )
            } else {
                old(self).deep_view()
            }),
    {
        proof {
            use_type_invariant(&*self);
        }
        let mut instances: Vec<Instance> = Vec::new();
        std::mem::swap(&mut instances, &mut self.instances);
        let ghost before = instances@;
        match find_instance(&instances, id) {
            Some(i) => {
                instances[i].name = name;
                proof {
                    lemma_changed(before, instances@, i as int);
                }
            },
            None => {},
        }
        self.instances = instances;
    }

    /// Replaces the properties of an instance, if the tree has it.
    pub fn set_properties(&mut self, id: Ref, properties: Properties)
        ensures
            final(self).deep_view() == (if old(self).deep_view().contains_key(id) {
                old(self).deep_view().insert(
                    id,
                    InstanceView { properties: properties@, ..old(self).deep_view()[id] },
                )
            } else {
                old(self).deep_view()
            }),
    {
        proof {
            use_type_invariant(&*self);
        }
        let mut instances: Vec<Instance> = Vec::new();
        std::mem::swap(&mut instances, &mut self.instances);
        let ghost before = instances@;
        match find_instance(&instances, id) {
            Some(i) => {
                instances[i].properties = properties;
                proof {
                    lemma_changed(before, instances@, i as int);
                }
            },
            None => {},
        }
        self.instances = instances;
    }

    /// Puts a snapshot, without what is below it, into the tree, in place of an instance with its
    /// identity. No instance lists it as a child.
    fn put(&mut self, snapshot: &Snapshot, meta: Meta, parent: Option<Ref>)
        ensures
            final(self).deep_view() == old(self).deep_view().insert(
                snapshot.id,
                planted(
                    SnapshotView { meta: meta.deep_view(), ..snapshot.deep_view() },
                    parent,
                ),
            ),
    {
        proof {
            use_type_invariant(&*self);
        }
        let new = Instance {
            id: snapshot.id,
            parent,
            children: Vec::new(),
            name: snapshot.name.clone(),
            class: snapshot.class.clone(),
            properties: snapshot.properties.clone(),
            meta,
        };
        assert(new.deep_view() =~= planted(
            SnapshotView { meta: meta.deep_view(), ..snapshot.deep_view() },
            parent,
        ));
        let mut instances: Vec<Instance> = Vec::new();
        std::mem::swap(&mut instances, &mut self.instances);
        let ghost before = instances@;
        match find_instance(&instances, snapshot.id) {
            Some(i) => {
                instances.set(i, new);
                proof {
                    lemma_changed(before, instances@, i as int);
                }
            },
            None => {
                proof {
                    lemma_pushed(before, new);
                }
                instances.push(new);
            },
        }
        self.instances = instances;
    }

    /// Puts a snapshot, without what is below it, into the tree. It has no parent.
    pub fn insert_root(&mut self, snapshot: &Snapshot)
        ensures
            final(self).deep_view() == old(self).deep_view().insert(
                snapshot.id,
                planted(snapshot.deep_view(), None),
            ),
    {
        self.put(snapshot, snapshot.meta.clone(), None)
    }

    /// Puts a snapshot with this meta, without what is below it, into the tree as the last child
    /// of an instance.
    pub fn insert_instance_with_ref(&mut self, snapshot: &Snapshot, meta: Meta, parent: Ref)
        requires
            old(self).deep_view().contains_key(parent),
        ensures
            final(self).deep_view() == inserted(
                old(self).deep_view(),
                SnapshotView { meta: meta.deep_view(), ..snapshot.deep_view() },
                parent,
            ),
    {
        self.put(snapshot, meta, Some(parent));
        proof {
            use_type_invariant(&*self);
        }
        let mut instances: Vec<Instance> = Vec::new();
        std::mem::swap(&mut instances, &mut self.instances);
        let ghost before = instances@;
        match find_instance(&instances, parent) {
            Some(i) => {
                instances[i].children.push(snapshot.id);
                proof {
                    lemma_changed(before, instances@, i as int);
                }
            },
            None => {},
        }
        self.instances = instances;
    }

    /// Makes the parent of an instance no longer list it.
    fn detach(&mut self, id: Ref)
        requires
            old(self).deep_view().contains_key(id),
        ensures
            final(self).deep_view() == detached(old(self).deep_view(), id),
    {
        proof {
            use_type_invariant(&*self);
        }
        let parent: Option<Ref> = match self.get_instance(id) {
            Some(instance) => instance.parent,
            None => None,
        };
        match parent {
            Some(parent) => {
                let mut instances: Vec<Instance> = Vec::new();
                std::mem::swap(&mut instances, &mut self.instances);
                let ghost before = instances@;
                match find_instance(&instances, parent) {
                    Some(p) => {
                        let mut children: Vec<Ref> = Vec::new();
                        let mut i: usize = 0;
                        assert(children@ =~= without(instances@[p as int].children@.take(0), id));
                        while i < instances[p].children.len()
                            invariant
                                instances@ == before,
                                p < instances@.len(),
                                i <= instances@[p as int].children@.len(),
                                children@ == without(
                                    instances@[p as int].children@.take(i as int),
                                    id,
                                ),
                            decreases instances@[p as int].children@.len() - i,
                        {
                            let ghost list = instances@[p as int].children@;
                            assert(list.take(i + 1).drop_last() == list.take(i as int));
                            if !same_ref(instances[p].children[i], id) {
                                children.push(instances[p].children[i]);
                            }
                            i = i + 1;
                        }
                        assert(instances@[p as int].children@.take(i as int)
                            == instances@[p as int].children@);
                        instances[p].children = children;
                        proof {
                            lemma_changed(before, instances@, p as int);
                        }
                    },
                    None => {},
                }
                self.instances = instances;
            },
            None => {},
        }
    }

    /// Removes an instance and all that is below it.
    pub fn remove_instance(&mut self, id: Ref)
        ensures
            final(self).deep_view() == removed(old(self).deep_view(), id),
    {
        if !self.contains(id) {
            return;
        }
        self.detach(id);
        proof {
            use_type_invariant(&*self);
        }
        let mut instances: Vec<Instance> = Vec::new();
        std::mem::swap(&mut instances, &mut self.instances);
        let ghost rest = by_id(instances@);
        let ghost mut gone: Set<Ref> = Set::empty();
        let mut waiting: Vec<Ref> = Vec::new();
        waiting.push(id);
        proof {
            assert(is_way(rest, seq![id]));
            assert(waiting@[0] == id);
            assert(rest.remove_keys(gone) =~= rest);
        }
        while waiting.len() > 0
            invariant
                distinct_ids(instances@),
                by_id(instances@) == rest.remove_keys(gone),
                forall|i: int|
                    0 <= i < waiting@.len() ==> is_below(rest, id, #[trigger] waiting@[i]),
                forall|other: Ref| #[trigger]
                    gone.contains(other) ==> rest.contains_key(other) && is_below(rest, id, other),
                settled(rest, gone, waiting@, id),
                forall|other: Ref, child: Ref|
                    gone.contains(other) && #[trigger] rest[other].children.contains(child)
                        ==> settled(rest, gone, waiting@, child),
            decreases instances@.len(), waiting@.len(),
        {
            let ghost before = waiting@;
            let next: Ref = match waiting.pop() {
                Some(next) => next,
                None => {
                    return;
                },
            };
            assert(before == waiting@.push(next));
            assert(before[before.len() - 1] == next);
            match find_instance(&instances, next) {
                Some(i) => {
                    let ghost list = instances@;
                    let instance = instances.remove(i);
                    let ghost gone_before = gone;
                    let ghost kept = waiting@;
                    proof {
                        lemma_taken(list, i as int);
                        gone = gone.insert(next);
                        assert(rest.remove_keys(gone_before).remove(next) =~= rest.remove_keys(
                            gone,
                        ));
                    }
                    let mut j: usize = 0;
                    while j < instance.children.len()
                        invariant
                            j <= instance.children@.len(),
                            waiting@ == kept + instance.children@.take(j as int),
                        decreases instance.children@.len() - j,
                    {
                        waiting.push(instance.children[j]);
                        j = j + 1;
                        assert(waiting@ =~= kept + instance.children@.take(j as int));
                    }
                    proof {
                        assert(instance.children@.take(j as int) == instance.children@);
                        assert(rest[next].children == instance.children@);
                        assert forall|k: int| 0 <= k < waiting@.len() implies is_below(
                            rest,
                            id,
                            #[trigger] waiting@[k],
                        ) by {
                            if k < kept.len() {
                                assert(before[k] == waiting@[k]);
                            } else {
                                let child = instance.children@[k - kept.len()];
                                assert(child == waiting@[k]);
                                lemma_way_down(rest, id, next, child);
                            }
                        }
                        assert forall|other: Ref|
                            settled(rest, gone_before, before, other) implies settled(
                            rest,
                            gone,
                            waiting@,
                            other,
                        ) by {
                            if before.contains(other) {
                                let k = before.index_of(other);
                                if k < kept.len() {
                                    assert(waiting@[k] == other);
                                }
                            }
                        }
                        assert forall|other: Ref, child: Ref|
                            gone.contains(other) && #[trigger] rest[other].children.contains(
                                child,
                            ) implies settled(rest, gone, waiting@, child) by {
                            if other == next {
                                let k = instance.children@.index_of(child);
                                assert(waiting@[kept.len() + k] == child);
                            } else {
                                assert(settled(rest, gone_before, before, child));
                            }
                        }
                    }
                },
                None => {
                    proof {
                        assert forall|other: Ref|
                            settled(rest, gone, before, other) implies settled(
                            rest,
                            gone,
                            waiting@,
                            other,
                        ) by {
                            if before.contains(other) && other != next {
                                let k = before.index_of(other);
                                assert(waiting@[k] == other);
                            }
                        }
                        assert forall|other: Ref, child: Ref|
                            gone.contains(other) && #[trigger] rest[other].children.contains(
                                child,
                            ) implies settled(rest, gone, waiting@, child) by {
                            assert(settled(rest, gone, before, child));
                        }
                        assert forall|k: int| 0 <= k < waiting@.len() implies is_below(
                            rest,
                            id,
                            #[trigger] waiting@[k],
                        ) by {
                            assert(before[k] == waiting@[k]);
                        }
                    }
                },
            }
        }
        proof {
            assert(waiting@ =~= Seq::empty());
            assert forall|other: Ref| rest.contains_key(other) && is_below(rest, id, other) implies
                gone.contains(other) by {
                let way = choose|way: Seq<Ref>| #[trigger]
                    is_way(rest, way) && way[0] == id && way.last() == other;
                lemma_way_gone(rest, gone, way);
            }
            assert(rest.remove_keys(gone) =~= rest.remove_keys(
                Set::new(|other: Ref| is_below(rest, id, other)),
            ));
        }
        self.instances = instances;
    }
}

/// An identity that is gone, waits to be, or stands for nothing.
spec fn settled(tree: TreeView, gone: Set<Ref>, waiting: Seq<Ref>, id: Ref) -> bool {
    gone.contains(id) || waiting.contains(id) || !tree.contains_key(id)
}

/// A child of an instance below `top` is below `top`.
pub(crate) proof fn lemma_way_down(tree: TreeView, top: Ref, id: Ref, child: Ref)
    requires
        is_below(tree, top, id),
        tree.contains_key(id),
        tree[id].children.contains(child),
    ensures
        is_below(tree, top, child),
{
    let way = choose|way: Seq<Ref>| #[trigger]
        is_way(tree, way) && way[0] == top && way.last() == id;
    let longer = way.push(child);
    assert forall|i: int| 0 <= i < longer.len() - 1 implies tree.contains_key(#[trigger] longer[i])
        && tree[longer[i]].children.contains(longer[i + 1]) by {
        assert(longer[i] == way[i]);
        if i < way.len() - 1 {
            assert(longer[i + 1] == way[i + 1]);
        }
    }
    assert(is_way(tree, longer));
    assert(longer[0] == top);
    assert(longer.last() == child);
}

/// Where all children of what is gone are gone too, so is all that a way leads to.
proof fn lemma_way_gone(tree: TreeView, gone: Set<Ref>, way: Seq<Ref>)
    requires
        is_way(tree, way),
        gone.contains(way[0]) || !tree.contains_key(way[0]),
        forall|other: Ref, child: Ref|
            gone.contains(other) && #[trigger] tree[other].children.contains(child) ==> settled(
                tree,
                gone,
                Seq::empty(),
                child,
            ),
    ensures
        gone.contains(way.last()) || !tree.contains_key(way.last()),
    decreases way.len(),
{
    if way.len() > 1 {
        let shorter = way.skip(1);
        assert(tree.contains_key(way[0]));
        assert(tree[way[0]].children.contains(way[1]));
        assert(settled(tree, gone, Seq::empty(), way[1]));
        assert forall|i: int| 0 <= i < shorter.len() - 1 implies tree.contains_key(
            #[trigger] shorter[i],
        ) && tree[shorter[i]].children.contains(shorter[i + 1]) by {
            assert(shorter[i] == way[i + 1]);
            assert(shorter[i + 1] == way[i + 2]);
        }
        lemma_way_gone(tree, gone, shorter);
        assert(shorter.last() == way.last());
    }
}

} // verus!
