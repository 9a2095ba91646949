//! What a client reports of instances.
use crate::meta::{Meta, MetaView};
use crate::value::Properties;
use rbx_dom_weak::types::{Ref, Variant};
use vstd::prelude::*;

verus! {

/// An instance with all that is below it.
pub struct Snapshot {
    pub id: Ref,
    pub name: String,
    pub class: String,
    pub properties: Properties,
    pub meta: Meta,
    pub children: Vec<Snapshot>,
}

/// What a [`Snapshot`] is.
pub struct SnapshotView {
    pub id: Ref,
    pub name: Seq<char>,
    pub class: Seq<char>,
    pub properties: Map<Seq<char>, Variant>,
    pub meta: MetaView,
    pub children: Seq<SnapshotView>,
}

impl Snapshot {
    /// What the snapshot is.
    pub open spec fn model(self) -> SnapshotView
        decreases self,
    {
        SnapshotView {
            id: self.id,
            name: self.name@,
            class: self.class@,
            properties: self.properties@,
            meta: self.meta.deep_view(),
            children: Seq::new(
                self.children@.len(),
                |i: int|
                    {
                        if 0 <= i < self.children@.len() {
                            self.children@[i].model()
                        } else {
                            arbitrary()
                        }
                    },
            ),
        }
    }
}

impl DeepView for Snapshot {
    type V = SnapshotView;

    open spec fn deep_view(&self) -> SnapshotView {
        self.model()
    }
}

/// An instance that a client added below another.
pub struct AddedSnapshot {
    pub id: Ref,
    pub parent: Ref,
    pub name: String,
    pub class: String,
    pub properties: Properties,
    pub meta: Meta,
    pub children: Vec<Snapshot>,
}

impl AddedSnapshot {
    /// What the instance is, wherever it was added.
    pub open spec fn snapshot_view(self) -> SnapshotView {
        SnapshotView {
            id: self.id,
            name: self.name@,
            class: self.class@,
            properties: self.properties@,
            meta: self.meta.deep_view(),
            children: self.children.deep_view(),
        }
    }

    /// The instance, wherever it was added.
    pub fn to_snapshot(self) -> (snapshot: Snapshot)
        ensures
            snapshot.deep_view() == self.snapshot_view(),
            snapshot.id == self.id,
            snapshot.name == self.name,
            snapshot.class == self.class,
            snapshot.properties == self.properties,
            snapshot.meta == self.meta,
            snapshot.children == self.children,
    {
        let snapshot = Snapshot {
            id: self.id,
            name: self.name,
            class: self.class,
            properties: self.properties,
            meta: self.meta,
            children: self.children,
        };
        assert(snapshot.deep_view().children =~= self.children.deep_view());
        snapshot
    }
}

/// What a client changed of an instance.
pub struct UpdatedSnapshot {
    pub id: Ref,
    pub meta: Option<Meta>,
    pub name: Option<String>,
    pub class: Option<String>,
    pub properties: Option<Properties>,
}

} // verus!
