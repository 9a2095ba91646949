//! Properties as clients send them and as project files hold them.
use crate::table::{contents, lemma_entry, lemma_view, named, place, Table};
use crate::value::{copy_variant, Properties, UnresolvedValue, UnresolvedView};
use rbx_dom_weak::types::Variant;
use vstd::prelude::*;

verus! {

/// The property by which a client says that there are no properties.
pub const EMPTY_MARK: &'static str = "ArgonEmpty";

/// The properties that a client means: none, where the mark is among them.
pub open spec fn validated(properties: Map<Seq<char>, Variant>) -> Map<Seq<char>, Variant> {
    if properties.contains_key(EMPTY_MARK@) {
        Map::empty()
    } else {
        properties
    }
}

/// The properties that a client means: none, where the mark is among them.
pub fn validate_properties(properties: Properties) -> (result: Properties)
    ensures
        result@ == validated(properties@),
{
    let mark: String = EMPTY_MARK.to_owned();
    if properties.contains_key(&mark) {
        Table::new()
    } else {
        properties
    }
}

/// Each property as a project file is to hold it, for a class.
pub open spec fn serialized(
    class: Seq<char>,
    properties: Map<Seq<char>, Variant>,
) -> Map<Seq<char>, UnresolvedView> {
    Map::new(
        |property: Seq<char>| properties.contains_key(property),
        |property: Seq<char>|
            UnresolvedView::Typed { value: properties[property], class, property },
    )
}

/// Each property as a project file is to hold it, for a class.
pub fn serialize_properties(class: &str, properties: Properties) -> (result: Table<
    UnresolvedValue,
>)
    ensures
        result.deep_view() == serialized(class@, properties@),
{
    proof {
        use_type_invariant(&properties);
        lemma_view(&properties);
    }
    let mut entries: Vec<(String, UnresolvedValue)> = Vec::new();
    let mut i: usize = 0;
    while i < properties.entries.len()
        invariant
            i <= properties.entries@.len(),
            entries@.len() == i,
            forall|j: int|
                0 <= j < i ==> (#[trigger] entries@[j]).0@ == properties.entries@[j].0@
                    && entries@[j].1.deep_view() == (UnresolvedView::Typed {
                    value: properties.entries@[j].1,
                    class: class@,
                    property: properties.entries@[j].0@,
                }),
        decreases properties.entries@.len() - i,
    {
        let property: &String = &properties.entries[i].0;
        let value: Variant = copy_variant(&properties.entries[i].1);
        entries.push(
            (
                property.clone(),
                UnresolvedValue::from_variant(value, class, property.as_str()),
            ),
        );
        i = i + 1;
    }
    let ghost all = properties.entries@;
    proof {
        assert forall|a: int, b: int|
            0 <= a < entries@.len() && 0 <= b < entries@.len() && (#[trigger] entries@[a]).0@ == (
            #[trigger] entries@[b]).0@ implies a == b by {
            assert(all[a].0@ == all[b].0@);
        }
    }
    let result = Table { entries };
    proof {
        lemma_view(&result);
        assert forall|k: Seq<char>| named(result.entries@, k) == named(all, k) by {
            if named(all, k) {
                assert(result.entries@[place(all, k)].0@ == k);
            }
            if named(result.entries@, k) {
                assert(all[place(result.entries@, k)].0@ == k);
            }
        }
        assert forall|k: Seq<char>| named(all, k) implies contents(result.entries@)[k].deep_view()
            == serialized(class@, contents(all))[k] by {
            let j = place(all, k);
            assert(result.entries@[j].0@ == k);
            lemma_entry(all, j);
            lemma_entry(result.entries@, j);
        }
        assert(result.deep_view() =~= serialized(class@, properties@));
    }
    result
}

} // verus!
