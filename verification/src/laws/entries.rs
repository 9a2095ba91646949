//! Laws of the files and folders that belong to an instance.
use crate::meta::{first_data, first_file, without_data, EntryView, SourceView};
use crate::text::{interleaved, replaced};
use crate::exchange::RequestView;
use crate::write::update::{moves, renamed, renamed_entries};
use vstd::prelude::*;

verus! {

/// The entries that are no data files, one more entry considered.
proof fn lemma_without_data(entries: Seq<EntryView>)
    ensures
        first_data(without_data(entries)) is None,
        first_file(without_data(entries)) == first_file(entries),
        without_data(without_data(entries)) == without_data(entries),
    decreases entries.len(),
{
    if entries.len() > 0 {
        let before = entries.drop_last();
        lemma_without_data(before);
        let last = entries.last();
        assert(entries =~= before.push(last));
        lemma_pushed(before, last);
        if !(last is Data) {
            lemma_pushed(without_data(before), last);
            assert(without_data(entries).drop_last() =~= without_data(before));
        }
    }
}

/// The first file and the first data file, one more entry considered.
pub(crate) proof fn lemma_pushed(entries: Seq<EntryView>, entry: EntryView)
    ensures
        first_file(entries.push(entry)) == (if first_file(entries) is Some {
            first_file(entries)
        } else if entry is File {
            Some(entry.path())
        } else {
            None
        }),
        first_data(entries.push(entry)) == (if first_data(entries) is Some {
            first_data(entries)
        } else if entry is Data {
            Some(entry.path())
        } else {
            None
        }),
    decreases entries.len(),
{
    let more = entries.push(entry);
    if entries.len() > 0 {
        assert(more[0] == entries[0]);
        assert(more.skip(1) =~= entries.skip(1).push(entry));
        lemma_pushed(entries.skip(1), entry);
    } else {
        assert(more[0] == entry);
        reveal_with_fuel(first_file, 2);
        reveal_with_fuel(first_data, 2);
    }
}

/// The data file that was set is the one that is found, the instance's file stays what it was, and
/// only the last data file that was set counts.
pub proof fn data_file_is_the_one_set(
    source: SourceView,
    first: Option<Seq<char>>,
    second: Option<Seq<char>>,
)
    ensures
        first_data(source.set_data(first).relevants) == first,
        first_file(source.set_data(first).relevants) == first_file(source.relevants),
        source.set_data(first).inner == source.inner,
        source.set_data(first).set_data(second) == source.set_data(second),
{
    let kept = without_data(source.relevants);
    lemma_without_data(source.relevants);
    match first {
        Some(path) => {
            lemma_pushed(kept, EntryView::Data(path));
            assert(kept.push(EntryView::Data(path)).drop_last() =~= kept);
        },
        None => {},
    }
}

/// Project files are never moved: when an instance gets another name only its own files and folders
/// are, each to its new place, and all entries stay what they are to the instance.
pub proof fn renaming_moves_own_files_only(
    entries: Seq<EntryView>,
    from: Seq<char>,
    to: Seq<char>,
    i: int,
)
    requires
        0 <= i < entries.len(),
    ensures
        renamed_entries(entries, from, to).len() == entries.len(),
        match (entries[i], renamed_entries(entries, from, to)[i]) {
            (EntryView::Project(old), EntryView::Project(new)) => old == new,
            (EntryView::File(old), EntryView::File(new)) => moves(entries, from, to).contains(
                RequestView::Rename(old, new),
            ),
            (EntryView::Folder(old), EntryView::Folder(new)) => moves(entries, from, to).contains(
                RequestView::Rename(old, new),
            ),
            (EntryView::Data(old), EntryView::Data(new)) => moves(entries, from, to).contains(
                RequestView::Rename(old, new),
            ),
            _ => false,
        },
        forall|request: RequestView| #[trigger]
            moves(entries, from, to).contains(request) ==> is_own_move(entries, request),
    decreases entries.len(),
{
    let before = entries.drop_last();
    let last = entries.last();
    let rest = moves(before, from, to);
    let all = moves(entries, from, to);
    let move_last = RequestView::Rename(last.path(), renamed(last.path(), from, to));
    if i < before.len() {
        renaming_moves_own_files_only(before, from, to, i);
    } else if before.len() > 0 {
        renaming_moves_own_files_only(before, from, to, 0);
    }
    assert forall|request: RequestView| rest.contains(request) implies all.contains(request) by {
        let k = rest.index_of(request);
        assert(all[k] == request);
    }
    if !(last is Project) {
        assert(all[rest.len() as int] == move_last);
    }
    assert forall|request: RequestView| #[trigger] all.contains(request) implies is_own_move(
        entries,
        request,
    ) by {
        let k = all.index_of(request);
        if k < rest.len() {
            assert(rest[k] == request);
            assert(rest.contains(request));
            assert(is_own_move(before, request));
            let j = choose|j: int|
                0 <= j < before.len() && !((#[trigger] before[j]) is Project)
                    && request->Rename_0 == before[j].path();
            assert(entries[j] == before[j]);
        } else {
            assert(entries[entries.len() - 1] == last);
        }
    }
}

/// The request moves a file or folder that is among the entries and no project file.
pub open spec fn is_own_move(entries: Seq<EntryView>, request: RequestView) -> bool {
    request is Rename && exists|j: int|
        0 <= j < entries.len() && !((#[trigger] entries[j]) is Project) && request->Rename_0
            == entries[j].path()
}

/// A name that is replaced by itself stays.
pub proof fn own_name_changes_nothing(text: Seq<char>, name: Seq<char>)
    ensures
        replaced(text, name, name) == text,
    decreases text.len(),
{
    let n = name.len() as int;
    if n == 0 {
        lemma_interleaved_nothing(text, name);
    } else if text.len() >= n {
        if text.take(n) == name {
            own_name_changes_nothing(text.skip(n), name);
            assert(text =~= text.take(n) + text.skip(n));
        } else {
            own_name_changes_nothing(text.skip(1), name);
            assert(text =~= seq![text[0]] + text.skip(1));
        }
    }
}

proof fn lemma_interleaved_nothing(text: Seq<char>, nothing: Seq<char>)
    requires
        nothing.len() == 0,
    ensures
        interleaved(text, nothing) == text,
    decreases text.len(),
{
    if text.len() > 0 {
        lemma_interleaved_nothing(text.skip(1), nothing);
        assert(nothing + seq![text[0]] + text.skip(1) =~= text);
    } else {
        assert(nothing =~= text);
    }
}

} // verus!
