//! Referents, property values and tables of properties.
use crate::table::{lemma_like_contents, lemma_same_contents, lemma_view, Table};
use rbx_dom_weak::types::{Ref, Variant};
use vstd::prelude::*;

verus! {

/// A referent of `rbx_dom_weak`: the identity of an instance.
#[verifier::external_type_specification]
#[verifier::external_body]
pub struct ExRef(rbx_dom_weak::types::Ref);

/// A property value of `rbx_dom_weak`. It is carried along and never looked into.
#[verifier::external_type_specification]
#[verifier::external_body]
pub struct ExVariant(rbx_dom_weak::types::Variant);

/// Compares two referents with the `==` of `rbx_dom_weak::types::Ref`, which compares the one
/// number that a referent is. Claimed: it tells whether they are the same referent.
#[verifier::external_body]
pub(crate) fn same_ref(a: Ref, b: Ref) -> (same: bool)
    ensures
        same == (a == b),
{
    a == b
}

/// `rbx_dom_weak::types::Variant::clone`, which clones the value that the variant holds. Claimed:
/// the copy is the same value.
#[verifier::external_body]
pub(crate) fn copy_variant(value: &Variant) -> (copy: Variant)
    ensures
        copy == *value,
{
    value.clone()
}

/// The properties of an instance, by name.
pub type Properties = Table<Variant>;

impl DeepView for Table<Variant> {
    type V = Map<Seq<char>, Variant>;

    open spec fn deep_view(&self) -> Map<Seq<char>, Variant> {
        self@
    }
}

impl Clone for Table<Variant> {
    fn clone(&self) -> (copy: Self)
        ensures
            copy@ == self@,
    {
        proof {
            use_type_invariant(self);
        }
        let mut entries: Vec<(String, Variant)> = Vec::new();
        let mut i: usize = 0;
        while i < self.entries.len()
            invariant
                i <= self.entries@.len(),
                entries@.len() == i,
                forall|j: int|
                    0 <= j < i ==> (#[trigger] entries@[j]).0@ == self.entries@[j].0@
                        && entries@[j].1 == self.entries@[j].1,
            decreases self.entries@.len() - i,
        {
            entries.push((self.entries[i].0.clone(), copy_variant(&self.entries[i].1)));
            i = i + 1;
        }
        proof {
            lemma_same_contents(self.entries@, entries@);
        }
        let copy = Table { entries };
        proof {
            lemma_view(self);
            lemma_view(&copy);
        }
        copy
    }
}

/// A property value of a project file, before it is spelled out or after it was read.
#[derive(Debug)]
pub enum UnresolvedValue {
    /// A value in the project file's own spelling.
    Written(String),
    /// A value still to be spelled, for the property of a class.
    Typed { value: Variant, class: String, property: String },
}

/// What an [`UnresolvedValue`] is.
pub enum UnresolvedView {
    Written(Seq<char>),
    Typed { value: Variant, class: Seq<char>, property: Seq<char> },
}

impl DeepView for UnresolvedValue {
    type V = UnresolvedView;

    open spec fn deep_view(&self) -> UnresolvedView {
        match *self {
            UnresolvedValue::Written(text) => UnresolvedView::Written(text@),
            UnresolvedValue::Typed { value, class, property } => UnresolvedView::Typed {
                value,
                class: class@,
                property: property@,
            },
        }
    }
}

impl Clone for UnresolvedValue {
    fn clone(&self) -> (copy: Self)
        ensures
            copy.deep_view() == self.deep_view(),
    {
        match self {
            UnresolvedValue::Written(text) => UnresolvedValue::Written(text.clone()),
            UnresolvedValue::Typed { value, class, property } => UnresolvedValue::Typed {
                value: copy_variant(value),
                class: class.clone(),
                property: property.clone(),
            },
        }
    }
}

impl UnresolvedValue {
    /// The value of a property of a class, to be spelled in a project file.
    pub fn from_variant(value: Variant, class: &str, property: &str) -> (unresolved: Self)
        ensures
            unresolved.deep_view() == (UnresolvedView::Typed {
                value,
                class: class@,
                property: property@,
            }),
    {
        UnresolvedValue::Typed { value, class: class.to_owned(), property: property.to_owned() }
    }
}

impl DeepView for Table<UnresolvedValue> {
    type V = Map<Seq<char>, UnresolvedView>;

    open spec fn deep_view(&self) -> Map<Seq<char>, UnresolvedView> {
        self@.map_values(|value: UnresolvedValue| value.deep_view())
    }
}

impl Clone for Table<UnresolvedValue> {
    fn clone(&self) -> (copy: Self)
        ensures
            copy.deep_view() == self.deep_view(),
    {
        proof {
            use_type_invariant(self);
        }
        let mut entries: Vec<(String, UnresolvedValue)> = Vec::new();
        let mut i: usize = 0;
        while i < self.entries.len()
            invariant
                i <= self.entries@.len(),
                entries@.len() == i,
                forall|j: int|
                    0 <= j < i ==> (#[trigger] entries@[j]).0@ == self.entries@[j].0@
                        && entries@[j].1.deep_view() == self.entries@[j].1.deep_view(),
            decreases self.entries@.len() - i,
        {
            entries.push((self.entries[i].0.clone(), self.entries[i].1.clone()));
            i = i + 1;
        }
        proof {
            lemma_like_contents(self.entries@, entries@);
        }
        let copy = Table { entries };
        proof {
            lemma_view(self);
            lemma_view(&copy);
        }
        copy
    }
}

} // verus!
