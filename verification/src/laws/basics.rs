//! Laws of the notions that the other laws are stated in.
use crate::meta::{
    first_data, first_file, numbers_of_type, rule_numbers, without_data, EntryView, KindView,
    Middleware, SourceView, SyncRule,
};
use crate::node::{node_at, parent_path, with_node_at, NodeView};
use crate::path::{cleaned, custom_place, file_name, name_of, with_name};
use crate::properties::{serialized, validated};
use crate::snapshot::SnapshotView;
use crate::text::replaced;
use crate::tree::{inserted, planted, TreeView};
use crate::value::UnresolvedView;
use crate::write::files::{first_match, first_place};
use rbx_dom_weak::types::{Ref, Variant};
use vstd::prelude::*;

verus! {

/// The file of an instance is the first entry that is a file, if there is one.
pub proof fn file_found_is_the_first(entries: Seq<EntryView>)
    ensures
        match first_file(entries) {
            Some(path) => exists|i: int|
                #![trigger entries[i]]
                0 <= i < entries.len() && entries[i] == EntryView::File(path) && forall|j: int|
                    0 <= j < i ==> !((#[trigger] entries[j]) is File),
            None => forall|i: int| 0 <= i < entries.len() ==> !((#[trigger] entries[i]) is File),
        },
    decreases entries.len(),
{
    if entries.len() > 0 {
        let rest = entries.skip(1);
        file_found_is_the_first(rest);
        if entries[0] is File {
        } else {
            match first_file(entries) {
                Some(path) => {
                    let i = choose|i: int|
                        #![trigger rest[i]]
                        0 <= i < rest.len() && rest[i] == EntryView::File(path) && forall|j: int|
                            0 <= j < i ==> !((#[trigger] rest[j]) is File);
                    assert(entries[i + 1] == EntryView::File(path));
                    assert forall|j: int| 0 <= j < i + 1 implies !((#[trigger] entries[j])
                        is File) by {
                        if j > 0 {
                            assert(rest[j - 1] == entries[j]);
                        }
                    }
                },
                None => {
                    assert forall|j: int| 0 <= j < entries.len() implies !((#[trigger] entries[j])
                        is File) by {
                        if j > 0 {
                            assert(rest[j - 1] == entries[j]);
                        }
                    }
                },
            }
        }
    }
}

/// The data file of an instance is the first entry that is one, if there is one.
pub proof fn data_found_is_the_first(entries: Seq<EntryView>)
    ensures
        match first_data(entries) {
            Some(path) => exists|i: int|
                #![trigger entries[i]]
                0 <= i < entries.len() && entries[i] == EntryView::Data(path) && forall|j: int|
                    0 <= j < i ==> !((#[trigger] entries[j]) is Data),
            None => forall|i: int| 0 <= i < entries.len() ==> !((#[trigger] entries[i]) is Data),
        },
    decreases entries.len(),
{
    if entries.len() > 0 {
        let rest = entries.skip(1);
        data_found_is_the_first(rest);
        if entries[0] is Data {
        } else {
            match first_data(entries) {
                Some(path) => {
                    let i = choose|i: int|
                        #![trigger rest[i]]
                        0 <= i < rest.len() && rest[i] == EntryView::Data(path) && forall|j: int|
                            0 <= j < i ==> !((#[trigger] rest[j]) is Data);
                    assert(entries[i + 1] == EntryView::Data(path));
                    assert forall|j: int| 0 <= j < i + 1 implies !((#[trigger] entries[j])
                        is Data) by {
                        if j > 0 {
                            assert(rest[j - 1] == entries[j]);
                        }
                    }
                },
                None => {
                    assert forall|j: int| 0 <= j < entries.len() implies !((#[trigger] entries[j])
                        is Data) by {
                        if j > 0 {
                            assert(rest[j - 1] == entries[j]);
                        }
                    }
                },
            }
        }
    }
}

/// The entries that are no data files are all others, in order.
pub proof fn other_entries_are_all_but_data_files(entries: Seq<EntryView>)
    ensures
        without_data(entries) == entries.filter(|entry: EntryView| !(entry is Data)),
    decreases entries.len(),
{
    reveal(Seq::filter);
    if entries.len() > 0 {
        other_entries_are_all_but_data_files(entries.drop_last());
    }
}

/// A source whose data file is set has all entries that it had but for data files, and after them
/// the one that was set.
pub proof fn setting_a_data_file_keeps_other_entries(source: SourceView, path: Option<Seq<char>>)
    ensures
        source.set_data(path).inner == source.inner,
        source.set_data(path).relevants == source.relevants.filter(
            |entry: EntryView| !(entry is Data),
        ) + (match path {
            Some(path) => seq![EntryView::Data(path)],
            None => Seq::empty(),
        }),
{
    other_entries_are_all_but_data_files(source.relevants);
    match path {
        Some(path) => {
            assert(source.set_data(Some(path)).relevants =~= without_data(source.relevants) + seq![
                EntryView::Data(path),
            ]);
        },
        None => {
            assert(source.set_data(None).relevants =~= without_data(source.relevants)
                + Seq::empty());
        },
    }
}

/// The rules that are asked are all rules of a context, or all of a kind of file, in order.
pub proof fn rules_are_tried_in_order(context: Seq<SyncRule>, middleware: Middleware)
    ensures
        rule_numbers(context) == context.map_values(|rule: SyncRule| rule.number),
        numbers_of_type(context, middleware) == context.filter(
            |rule: SyncRule| rule.middleware == middleware,
        ).map_values(|rule: SyncRule| rule.number),
    decreases context.len(),
{
    reveal(Seq::filter);
    assert(rule_numbers(context) =~= context.map_values(|rule: SyncRule| rule.number));
    let of_type = |rule: SyncRule| rule.middleware == middleware;
    let number = |rule: SyncRule| rule.number;
    if context.len() > 0 {
        rules_are_tried_in_order(context.drop_last(), middleware);
        let before = context.drop_last().filter(of_type);
        assert(before.push(context.last()).map_values(number) =~= before.map_values(number).push(
            context.last().number,
        ));
    }
    assert(numbers_of_type(context, middleware) =~= context.filter(of_type).map_values(number));
}

/// The rule that counts is the first that matches, if one does.
pub proof fn first_rule_that_matches_counts(rules: Seq<u64>, flags: Seq<bool>)
    ensures
        match first_match(rules, flags) {
            Some(rule) => exists|i: int|
                #![trigger flags[i]]
                0 <= i < rules.len() && i < flags.len() && flags[i] && rules[i] == rule && forall|
                    j: int,
                |
                    0 <= j < i ==> !(#[trigger] flags[j]),
            None => forall|i: int|
                0 <= i < rules.len() && i < flags.len() ==> !(#[trigger] flags[i]),
        },
    decreases rules.len(),
{
    if rules.len() > 0 && flags.len() > 0 && !flags[0] {
        let rest = flags.skip(1);
        first_rule_that_matches_counts(rules.skip(1), rest);
        match first_match(rules, flags) {
            Some(rule) => {
                let i = choose|i: int|
                    #![trigger rest[i]]
                    0 <= i < rules.skip(1).len() && i < rest.len() && rest[i] && rules.skip(1)[i]
                        == rule && forall|j: int| 0 <= j < i ==> !(#[trigger] rest[j]);
                assert(flags[i + 1]);
                assert forall|j: int| 0 <= j < i + 1 implies !(#[trigger] flags[j]) by {
                    if j > 0 {
                        assert(rest[j - 1] == flags[j]);
                    }
                }
            },
            None => {
                assert forall|j: int| 0 <= j < rules.len() && j < flags.len() implies !(
                #[trigger] flags[j]) by {
                    if j > 0 {
                        assert(rest[j - 1] == flags[j]);
                    }
                }
            },
        }
    } else if rules.len() > 0 && flags.len() > 0 {
        assert(flags[0]);
    }
}

/// The place that counts is the first that a rule found, if one did.
pub proof fn first_place_that_is_found_counts(places: Seq<Option<Seq<char>>>)
    ensures
        match first_place(places) {
            Some(place) => exists|i: int|
                #![trigger places[i]]
                0 <= i < places.len() && places[i] == Some(place) && forall|j: int|
                    0 <= j < i ==> (#[trigger] places[j]) is None,
            None => forall|i: int| 0 <= i < places.len() ==> (#[trigger] places[i]) is None,
        },
    decreases places.len(),
{
    if places.len() > 0 && places[0] is None {
        let rest = places.skip(1);
        first_place_that_is_found_counts(rest);
        match first_place(places) {
            Some(place) => {
                let i = choose|i: int|
                    #![trigger rest[i]]
                    0 <= i < rest.len() && rest[i] == Some(place) && forall|j: int|
                        0 <= j < i ==> (#[trigger] rest[j]) is None;
                assert(places[i + 1] == Some(place));
                assert forall|j: int| 0 <= j < i + 1 implies (#[trigger] places[j]) is None by {
                    if j > 0 {
                        assert(rest[j - 1] == places[j]);
                    }
                }
            },
            None => {
                assert forall|j: int| 0 <= j < places.len() implies (#[trigger] places[j])
                    is None by {
                    if j > 0 {
                        assert(rest[j - 1] == places[j]);
                    }
                }
            },
        }
    } else if places.len() > 0 {
        assert(places[0] is Some);
    }
}

/// Properties that hold the mark mean none; all others mean what they are.
pub proof fn only_the_mark_empties_properties(properties: Map<Seq<char>, Variant>)
    ensures
        properties.contains_key("ArgonEmpty"@) ==> validated(properties) == Map::<
            Seq<char>,
            Variant,
        >::empty(),
        !properties.contains_key("ArgonEmpty"@) ==> validated(properties) == properties,
{
}

/// A project file gets each property with its own value, for the class and under its name.
pub proof fn serialized_properties_keep_values(
    class: Seq<char>,
    properties: Map<Seq<char>, Variant>,
    property: Seq<char>,
)
    requires
        properties.contains_key(property),
    ensures
        serialized(class, properties).contains_key(property),
        serialized(class, properties)[property] == (UnresolvedView::Typed {
            value: properties[property],
            class,
            property,
        }),
{
}

/// A string stands in a text at a place.
pub open spec fn stands_at(text: Seq<char>, string: Seq<char>, at: int) -> bool {
    0 <= at && at + string.len() <= text.len() && text.subrange(at, at + string.len()) == string
}

/// A text in which a string does not stand is not changed by replacing the string.
pub proof fn absent_string_changes_nothing(text: Seq<char>, from: Seq<char>, to: Seq<char>)
    requires
        from.len() > 0,
        forall|i: int| !(#[trigger] stands_at(text, from, i)),
    ensures
        replaced(text, from, to) == text,
    decreases text.len(),
{
    if text.len() >= from.len() {
        assert(!stands_at(text, from, 0));
        assert(text.take(from.len() as int) =~= text.subrange(0, from.len() as int));
        let rest = text.skip(1);
        assert forall|i: int| !(#[trigger] stands_at(rest, from, i)) by {
            assert(!stands_at(text, from, i + 1));
            if 0 <= i && i + from.len() <= rest.len() {
                assert(rest.subrange(i, i + from.len()) =~= text.subrange(
                    i + 1,
                    i + 1 + from.len(),
                ));
            }
        }
        absent_string_changes_nothing(rest, from, to);
        assert(seq![text[0]] + rest =~= text);
    }
}

/// The first place where a string stands is replaced, what is before it stays, and the rest of the
/// text is treated alike.
pub proof fn first_occurrence_is_replaced(
    text: Seq<char>,
    from: Seq<char>,
    to: Seq<char>,
    at: int,
)
    requires
        from.len() > 0,
        stands_at(text, from, at),
        forall|i: int| 0 <= i < at ==> !(#[trigger] stands_at(text, from, i)),
    ensures
        replaced(text, from, to) == text.take(at) + to + replaced(
            text.skip(at + from.len()),
            from,
            to,
        ),
    decreases text.len(),
{
    let n = from.len() as int;
    assert(text.take(n) =~= text.subrange(0, from.len() as int));
    if at == 0 {
        assert(text.take(0) + to =~= to);
    } else {
        assert(!stands_at(text, from, 0));
        let rest = text.skip(1);
        assert(rest.subrange(at - 1, at - 1 + n) =~= text.subrange(at, at + n));
        assert(stands_at(rest, from, at - 1));
        assert forall|i: int| 0 <= i < at - 1 implies !(#[trigger] stands_at(rest, from, i)) by {
            assert(!stands_at(text, from, i + 1));
            assert(rest.subrange(i, i + n) =~= text.subrange(i + 1, i + 1 + n));
        }
        first_occurrence_is_replaced(rest, from, to, at - 1);
        assert(rest.skip(at - 1 + n) =~= text.skip(at + n));
        assert(seq![text[0]] + (rest.take(at - 1) + to + replaced(text.skip(at + n), from, to))
            =~= text.take(at) + to + replaced(text.skip(at + n), from, to));
    }
}

/// The empty string stands before each character and at the end.
pub proof fn empty_string_stands_everywhere(
    text: Seq<char>,
    from: Seq<char>,
    to: Seq<char>,
    next: char,
)
    requires
        from.len() == 0,
    ensures
        replaced(Seq::empty(), from, to) == to,
        replaced(seq![next] + text, from, to) == to + seq![next] + replaced(text, from, to),
{
    let all = seq![next] + text;
    assert(all[0] == next);
    assert(all.skip(1) =~= text);
}

/// The name of a path is its last name, and empty where it has none; a node's own path leads from
/// beside the project file, and is cleaned.
pub proof fn paths_are_taken_apart_and_cleaned(path: Seq<char>, custom: Seq<char>)
    ensures
        file_name(path) matches Some(name) ==> name_of(path) == name,
        file_name(path) is None ==> name_of(path) == Seq::<char>::empty(),
        custom_place(path, custom) == cleaned(with_name(path, custom)),
{
}

/// The empty path leads to the top of a project, and a path with one more name to the node with
/// that name below.
pub proof fn paths_lead_down_by_names(project: NodeView, path: Seq<Seq<char>>, name: Seq<char>)
    ensures
        node_at(project, Seq::empty()) == Some(project),
        node_at(project, path) is None ==> node_at(project, path.push(name)) is None,
        node_at(project, path) matches Some(node) ==> node_at(project, path.push(name)) == (
        if node.tree.contains_key(name) {
            Some(node.tree[name])
        } else {
            None
        }),
        parent_path(path.push(name)) == path,
        parent_path(Seq::<Seq<char>>::empty()) == Seq::<Seq<char>>::empty(),
    decreases path.len(),
{
    let longer = path.push(name);
    assert(longer.drop_last() =~= path);
    if path.len() > 0 {
        assert(longer.skip(1) =~= path.skip(1).push(name));
        if project.tree.contains_key(path[0]) {
            paths_lead_down_by_names(project.tree[path[0]], path.skip(1), name);
        }
    } else {
        assert(longer[0] == name);
        reveal_with_fuel(node_at, 2);
        assert(path =~= Seq::empty());
    }
}

/// What a node says itself, without the nodes below it.
pub open spec fn own_words(node: NodeView) -> NodeView {
    NodeView { tree: Map::empty(), ..node }
}

/// What the node at a path says itself, and the names of the nodes below it.
pub open spec fn said_at(project: NodeView, path: Seq<Seq<char>>) -> Option<
    (NodeView, Set<Seq<char>>),
> {
    match node_at(project, path) {
        Some(node) => Some((own_words(node), node.tree.dom())),
        None => None,
    }
}

/// Two projects are the same but for a node and what is below it.
pub open spec fn same_elsewhere(a: NodeView, b: NodeView, path: Seq<Seq<char>>) -> bool {
    forall|other: Seq<Seq<char>>|
        !path.is_prefix_of(other) ==> #[trigger] said_at(a, other) == said_at(b, other)
}

/// Replacing the node at a path leaves all of the project but that node and what is below it.
pub proof fn replacing_a_node_keeps_the_others(
    project: NodeView,
    path: Seq<Seq<char>>,
    new: NodeView,
)
    requires
        node_at(project, path) is Some,
    ensures
        same_elsewhere(with_node_at(project, path, new), project, path),
        node_at(with_node_at(project, path, new), path) == Some(new),
    decreases path.len(),
{
    let changed = with_node_at(project, path, new);
    if path.len() > 0 {
        let below = project.tree[path[0]];
        replacing_a_node_keeps_the_others(below, path.skip(1), new);
        assert(changed.tree.dom() =~= project.tree.dom());
        assert forall|other: Seq<Seq<char>>| !path.is_prefix_of(other) implies #[trigger] said_at(
            changed,
            other,
        ) == said_at(project, other) by {
            if other.len() > 0 && other[0] == path[0] {
                assert(!path.skip(1).is_prefix_of(other.skip(1))) by {
                    if path.skip(1).is_prefix_of(other.skip(1)) {
                        assert forall|i: int| 0 <= i < path.len() implies path[i]
                            == other[i] by {
                            if i > 0 {
                                assert(path.skip(1)[i - 1] == other.skip(1)[i - 1]);
                            }
                        }
                        assert(path =~= other.take(path.len() as int));
                        assert(path.is_prefix_of(other));
                    }
                }
                assert(said_at(with_node_at(below, path.skip(1), new), other.skip(1)) == said_at(
                    below,
                    other.skip(1),
                ));
            }
        }
    } else {
        assert forall|other: Seq<Seq<char>>| path.is_prefix_of(other) by {
            assert(path =~= other.take(0));
        }
    }
}

/// A new instance becomes the last child of its parent, has what its snapshot says and no children,
/// and changes nothing else.
pub proof fn insertion_adds_one_instance(tree: TreeView, snapshot: SnapshotView, parent: Ref)
    requires
        tree.contains_key(parent),
        snapshot.id != parent,
    ensures
        ({
            let after = inserted(tree, snapshot, parent);
            &&& after.dom() == tree.dom().insert(snapshot.id)
            &&& after[snapshot.id].parent == Some(parent)
            &&& after[snapshot.id].children.len() == 0
            &&& after[snapshot.id].name == snapshot.name
            &&& after[snapshot.id].class == snapshot.class
            &&& after[snapshot.id].properties == snapshot.properties
            &&& after[snapshot.id].meta == snapshot.meta
            &&& after[parent].children == tree[parent].children.push(snapshot.id)
            &&& after[parent].parent == tree[parent].parent
            &&& after[parent].name == tree[parent].name
            &&& after[parent].class == tree[parent].class
            &&& after[parent].properties == tree[parent].properties
            &&& after[parent].meta == tree[parent].meta
            &&& forall|other: Ref|
                tree.contains_key(other) && other != snapshot.id && other != parent
                    ==> #[trigger] after[other] == tree[other]
        }),
{
    assert(inserted(tree, snapshot, parent).dom() =~= tree.dom().insert(snapshot.id));
}

/// A snapshot becomes an instance that is what the snapshot says, below any other instance or none,
/// and without children.
pub proof fn instances_are_what_snapshots_say(snapshot: SnapshotView, parent: Option<Ref>)
    ensures
        ({
            let instance = planted(snapshot, parent);
            &&& instance.parent == parent
            &&& instance.children.len() == 0
            &&& instance.name == snapshot.name
            &&& instance.class == snapshot.class
            &&& instance.properties == snapshot.properties
            &&& instance.meta == snapshot.meta
        }),
{
}

/// The source of a file is that file, that of a file in a folder is the folder and the file, that
/// of a folder is the folder, and that of a node is the project file; further entries come last.
pub proof fn sources_list_their_own_entries(
    source: SourceView,
    name: Seq<char>,
    folder: Seq<char>,
    path: Seq<char>,
    node: NodeView,
    node_path: Seq<Seq<char>>,
    entry: EntryView,
    entries: Seq<EntryView>,
)
    ensures
        SourceView::file(path).inner == KindView::Path(path),
        SourceView::file(path).relevants == seq![EntryView::File(path)],
        SourceView::child_file(folder, path).inner == KindView::Path(folder),
        SourceView::child_file(folder, path).relevants == seq![
            EntryView::Folder(folder),
            EntryView::File(path),
        ],
        SourceView::directory(path).inner == KindView::Path(path),
        SourceView::directory(path).relevants == seq![EntryView::Folder(path)],
        SourceView::project(name, path, node, node_path).inner == KindView::Project(
            name,
            path,
            node,
            node_path,
        ),
        SourceView::project(name, path, node, node_path).relevants == seq![
            EntryView::Project(path),
        ],
        source.with_relevants(entries).inner == source.inner,
        source.with_relevants(entries).relevants == entries,
        source.add(entry).inner == source.inner,
        source.add(entry).relevants.len() == source.relevants.len() + 1,
        source.add(entry).relevants.last() == entry,
        source.add(entry).relevants.drop_last() == source.relevants,
{
    assert(source.add(entry).relevants.drop_last() =~= source.relevants);
}

} // verus!
