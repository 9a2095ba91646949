//! A table of values by name.
use vstd::prelude::*;

verus! {

/// Values of type `V`, each under its own name.
#[derive(Debug)]
pub struct Table<V> {
    pub(crate) entries: Vec<(String, V)>,
}

impl<V> Table<V> {
    /// No name occurs twice.
    #[verifier::type_invariant]
    pub(crate) open spec fn distinct(self) -> bool {
        distinct_names(self.entries@)
    }
}

/// No two entries have the same name.
pub open spec fn distinct_names<V>(entries: Seq<(String, V)>) -> bool {
    forall|i: int, j: int|
        0 <= i < entries.len() && 0 <= j < entries.len() && (#[trigger] entries[i]).0@
            == (#[trigger] entries[j]).0@ ==> i == j
}

/// Some entry has this name.
pub open spec fn named<V>(entries: Seq<(String, V)>, name: Seq<char>) -> bool {
    exists|i: int| 0 <= i < entries.len() && (#[trigger] entries[i]).0@ == name
}

/// The place of the entry with this name.
pub open spec fn place<V>(entries: Seq<(String, V)>, name: Seq<char>) -> int {
    choose|i: int| 0 <= i < entries.len() && (#[trigger] entries[i]).0@ == name
}

/// What entries with distinct names hold.
pub open spec fn contents<V>(entries: Seq<(String, V)>) -> Map<Seq<char>, V> {
    Map::new(
        |name: Seq<char>| named(entries, name),
        |name: Seq<char>| entries[place(entries, name)].1,
    )
}

impl<V> View for Table<V> {
    type V = Map<Seq<char>, V>;

    closed spec fn view(&self) -> Map<Seq<char>, V> {
        contents(self.entries@)
    }
}

pub(crate) proof fn lemma_entry<V>(entries: Seq<(String, V)>, i: int)
    requires
        distinct_names(entries),
        0 <= i < entries.len(),
    ensures
        named(entries, entries[i].0@),
        place(entries, entries[i].0@) == i,
        contents(entries).contains_key(entries[i].0@),
        contents(entries)[entries[i].0@] == entries[i].1,
{
}

/// Entries with the same names and the same values in the same order hold the same.
pub(crate) proof fn lemma_same_contents<V>(a: Seq<(String, V)>, b: Seq<(String, V)>)
    requires
        a.len() == b.len(),
        distinct_names(a),
        forall|i: int|
            0 <= i < a.len() ==> (#[trigger] b[i]).0@ == a[i].0@ && b[i].1 == a[i].1,
    ensures
        distinct_names(b),
        contents(b) == contents(a),
{
    assert forall|i: int, j: int|
        0 <= i < b.len() && 0 <= j < b.len() && (#[trigger] b[i]).0@ == (
        #[trigger] b[j]).0@ implies i == j by {
        assert(a[i].0@ == a[j].0@);
    }
    assert forall|k: Seq<char>| named(a, k) == named(b, k) by {
        if named(a, k) {
            assert(b[place(a, k)].0@ == k);
        }
        if named(b, k) {
            assert(a[place(b, k)].0@ == k);
        }
    }
    assert forall|k: Seq<char>| named(a, k) implies contents(a)[k] == contents(b)[k] by {
        let i = place(a, k);
        assert(b[i].0@ == k);
        lemma_entry(a, i);
        lemma_entry(b, i);
    }
    assert(contents(a) =~= contents(b));
}

/// Entries with the same names and like values in the same order hold like values.
pub(crate) proof fn lemma_like_contents<V: DeepView>(a: Seq<(String, V)>, b: Seq<(String, V)>)
    requires
        a.len() == b.len(),
        distinct_names(a),
        forall|i: int|
            0 <= i < a.len() ==> (#[trigger] b[i]).0@ == a[i].0@ && b[i].1.deep_view()
                == a[i].1.deep_view(),
    ensures
        distinct_names(b),
        contents(b).map_values(|v: V| v.deep_view()) == contents(a).map_values(
            |v: V| v.deep_view(),
        ),
{
    assert forall|i: int, j: int|
        0 <= i < b.len() && 0 <= j < b.len() && (#[trigger] b[i]).0@ == (
        #[trigger] b[j]).0@ implies i == j by {
        assert(a[i].0@ == a[j].0@);
    }
    assert forall|k: Seq<char>| named(a, k) == named(b, k) by {
        if named(a, k) {
            assert(b[place(a, k)].0@ == k);
        }
        if named(b, k) {
            assert(a[place(b, k)].0@ == k);
        }
    }
    assert forall|k: Seq<char>| named(a, k) implies contents(a)[k].deep_view() == contents(
        b,
    )[k].deep_view() by {
        let i = place(a, k);
        assert(b[i].0@ == k);
        lemma_entry(a, i);
        lemma_entry(b, i);
    }
    assert(contents(b).map_values(|v: V| v.deep_view()) =~= contents(a).map_values(
        |v: V| v.deep_view(),
    ));
}

/// What a table holds, by its entries.
pub(crate) proof fn lemma_view<V>(table: &Table<V>)
    ensures
        table@ == contents(table.entries@),
{
}

/// The place of the entry with this name.
pub(crate) fn find_entry<V>(entries: &Vec<(String, V)>, name: &String) -> (found: Option<usize>)
    requires
        distinct_names(entries@),
    ensures
        match found {
            Some(i) => i < entries@.len() && entries@[i as int].0@ == name@ && contents(
                entries@,
            ).contains_key(name@) && contents(entries@)[name@] == entries@[i as int].1,
            None => !contents(entries@).contains_key(name@),
        },
{
    let mut i: usize = 0;
    while i < entries.len()
        invariant
            i <= entries@.len(),
            forall|j: int| 0 <= j < i ==> (#[trigger] entries@[j]).0@ != name@,
            distinct_names(entries@),
        decreases entries@.len() - i,
    {
        if entries[i].0 == *name {
            proof {
                lemma_entry(entries@, i as int);
            }
            return Some(i);
        }
        i = i + 1;
    }
    None
}

/// Removes the entry with this name and returns its value.
pub(crate) fn remove_entry<V>(entries: &mut Vec<(String, V)>, name: &String) -> (value: Option<V>)
    requires
        distinct_names(old(entries)@),
    ensures
        distinct_names(final(entries)@),
        contents(final(entries)@) == contents(old(entries)@).remove(name@),
        match value {
            Some(v) => contents(old(entries)@).contains_key(name@) && contents(
                old(entries)@,
            )[name@] == v,
            None => !contents(old(entries)@).contains_key(name@),
        },
{
    let ghost before = entries@;
    match find_entry(entries, name) {
        Some(i) => {
            let entry = entries.remove(i);
            proof {
                assert(entries@ == before.remove(i as int));
                assert forall|k: Seq<char>| #[trigger]
                    contents(entries@).contains_key(k) <==> contents(before).remove(
                        name@,
                    ).contains_key(k) by {
                    if named(entries@, k) {
                        let j = place(entries@, k);
                        let p = if j < i { j } else { j + 1 };
                        assert(before[p] == entries@[j]);
                    }
                    if named(before, k) && k != name@ {
                        let j = place(before, k);
                        let p = if j < i { j } else { j - 1 };
                        assert(before[j] == entries@[p]);
                    }
                }
                assert forall|k: Seq<char>| #[trigger]
                    contents(entries@).contains_key(k) implies contents(entries@)[k] == contents(
                    before,
                ).remove(name@)[k] by {
                    let j = place(entries@, k);
                    let p = if j < i { j } else { j + 1 };
                    assert(before[p] == entries@[j]);
                    lemma_entry(before, p);
                }
                assert(contents(entries@) =~= contents(before).remove(name@));
            }
            Some(entry.1)
        },
        None => {
            assert(contents(before) =~= contents(before).remove(name@));
            None
        },
    }
}

/// Puts a value under a name, in place of the value that was there.
pub(crate) fn insert_entry<V>(entries: &mut Vec<(String, V)>, name: String, value: V)
    requires
        distinct_names(old(entries)@),
    ensures
        distinct_names(final(entries)@),
        contents(final(entries)@) == contents(old(entries)@).insert(name@, value),
{
    let ghost first = contents(entries@);
    let _ = remove_entry(entries, &name);
    let ghost before = entries@;
    assert(!contents(before).contains_key(name@));
    entries.push((name, value));
    proof {
        assert(distinct_names(entries@));
        assert forall|k: Seq<char>| #[trigger]
            contents(entries@).contains_key(k) <==> contents(before).insert(
                name@,
                value,
            ).contains_key(k) by {
            if named(entries@, k) && k != name@ {
                let j = place(entries@, k);
                assert(before[j] == entries@[j]);
            }
            if named(before, k) {
                let j = place(before, k);
                assert(before[j] == entries@[j]);
            }
            assert(entries@[before.len() as int].0@ == name@);
        }
        assert forall|k: Seq<char>| #[trigger]
            contents(entries@).contains_key(k) implies contents(entries@)[k] == contents(
            before,
        ).insert(name@, value)[k] by {
            let j = place(entries@, k);
            if j < before.len() {
                assert(before[j] == entries@[j]);
                lemma_entry(before, j);
            }
        }
        assert(contents(entries@) =~= contents(before).insert(name@, value));
        assert(first.remove(name@).insert(name@, value) =~= first.insert(name@, value));
    }
}

/// The names of entries, in the order in which the entries stand.
pub(crate) fn entry_names<V>(entries: &Vec<(String, V)>) -> (names: Vec<String>)
    requires
        distinct_names(entries@),
    ensures
        names.deep_view().no_duplicates(),
        names.deep_view().to_set() == contents(entries@).dom(),
{
    let mut names: Vec<String> = Vec::new();
    let mut i: usize = 0;
    while i < entries.len()
        invariant
            i <= entries@.len(),
            names@.len() == i,
            forall|j: int| 0 <= j < i ==> (#[trigger] names@[j])@ == entries@[j].0@,
        decreases entries@.len() - i,
    {
        names.push(entries[i].0.clone());
        i = i + 1;
    }
    proof {
        let list = names.deep_view();
        assert forall|a: int, b: int| 0 <= a < b < list.len() implies list[a] != list[b] by {
            assert(names@[a]@ == entries@[a].0@);
            assert(names@[b]@ == entries@[b].0@);
        }
        assert forall|k: Seq<char>| list.to_set().contains(k) == named(entries@, k) by {
            if list.to_set().contains(k) {
                let j = list.index_of(k);
                assert(names@[j]@ == entries@[j].0@);
            }
            if named(entries@, k) {
                let j = place(entries@, k);
                assert(names@[j]@ == entries@[j].0@);
                assert(list[j] == k);
            }
        }
        assert(list.to_set() =~= contents(entries@).dom());
    }
    names
}

impl<V> Table<V> {
    /// A table without entries.
    pub fn new() -> (table: Self)
        ensures
            table@ == Map::<Seq<char>, V>::empty(),
    {
        let table = Table { entries: Vec::new() };
        assert(table@ =~= Map::<Seq<char>, V>::empty());
        table
    }

    /// The value under this name.
    pub fn get(&self, name: &String) -> (value: Option<&V>)
        ensures
            match value {
                Some(v) => self@.contains_key(name@) && self@[name@] == *v,
                None => !self@.contains_key(name@),
            },
    {
        proof {
            use_type_invariant(self);
        }
        match find_entry(&self.entries, name) {
            Some(i) => Some(&self.entries[i].1),
            None => None,
        }
    }

    /// Whether some value has this name.
    pub fn contains_key(&self, name: &String) -> (found: bool)
        ensures
            found == self@.contains_key(name@),
    {
        self.get(name).is_some()
    }

    /// Whether the table has no entries.
    pub fn is_empty(&self) -> (empty: bool)
        ensures
            empty == (self@ == Map::<Seq<char>, V>::empty()),
    {
        proof {
            use_type_invariant(self);
            if self.entries@.len() > 0 {
                lemma_entry(self.entries@, 0);
                assert(self@.contains_key(self.entries@[0].0@));
            } else {
                assert(self@ =~= Map::<Seq<char>, V>::empty());
            }
        }
        self.entries.len() == 0
    }

    /// The names, each once.
    pub fn names(&self) -> (names: Vec<String>)
        ensures
            names.deep_view().no_duplicates(),
            names.deep_view().to_set() == self@.dom(),
    {
        proof {
            use_type_invariant(self);
        }
        entry_names(&self.entries)
    }

    /// Removes the entry with this name and returns its value.
    pub fn remove(&mut self, name: &String) -> (value: Option<V>)
        ensures
            final(self)@ == old(self)@.remove(name@),
            match value {
                Some(v) => old(self)@.contains_key(name@) && old(self)@[name@] == v,
                None => !old(self)@.contains_key(name@),
            },
    {
        proof {
            use_type_invariant(&*self);
        }
        let mut entries: Vec<(String, V)> = Vec::new();
        std::mem::swap(&mut entries, &mut self.entries);
        let value = remove_entry(&mut entries, name);
        self.entries = entries;
        value
    }

    /// Puts a value under a name, in place of the value that was there.
    pub fn insert(&mut self, name: String, value: V)
        ensures
            final(self)@ == old(self)@.insert(name@, value),
    {
        proof {
            use_type_invariant(&*self);
        }
        let mut entries: Vec<(String, V)> = Vec::new();
        std::mem::swap(&mut entries, &mut self.entries);
        insert_entry(&mut entries, name, value);
        self.entries = entries;
    }
}

} // verus!
