//! Where an instance comes from.
use crate::node::{NodePath, NodeView, ProjectNode};
use vstd::prelude::*;

verus! {

/// What a file is to an instance.
#[derive(Clone, Copy, PartialEq, Eq, Structural)]
pub enum Middleware {
    /// A file that holds what other files of the instance do not.
    InstanceData,
    /// A file of another kind, by the number of the kind.
    Kind(u32),
}

/// A rule that ties the names of files to a kind of file. What it says of a path is asked for.
#[derive(Clone, Copy, PartialEq, Eq, Structural)]
pub struct SyncRule {
    /// The number by which the rule is asked.
    pub number: u64,
    /// The kind of file that the rule is for.
    pub middleware: Middleware,
}

/// The rules that hold for an instance, in the order in which they are tried.
pub struct Context {
    pub rules: Vec<SyncRule>,
}

impl DeepView for Context {
    type V = Seq<SyncRule>;

    open spec fn deep_view(&self) -> Seq<SyncRule> {
        self.rules@
    }
}

impl Clone for Context {
    fn clone(&self) -> (copy: Self)
        ensures
            copy.deep_view() == self.deep_view(),
    {
        let rules: Vec<SyncRule> = self.rules.clone();
        assert(rules@ =~= self.rules@);
        Context { rules }
    }
}

/// The numbers of all rules.
pub open spec fn rule_numbers(rules: Seq<SyncRule>) -> Seq<u64> {
    Seq::new(rules.len(), |i: int| rules[i].number)
}

/// The numbers of the rules for one kind of file.
pub open spec fn numbers_of_type(rules: Seq<SyncRule>, middleware: Middleware) -> Seq<u64>
    decreases rules.len(),
{
    if rules.len() == 0 {
        Seq::empty()
    } else if rules.last().middleware == middleware {
        numbers_of_type(rules.drop_last(), middleware).push(rules.last().number)
    } else {
        numbers_of_type(rules.drop_last(), middleware)
    }
}

impl Context {
    /// The numbers of all rules.
    pub fn sync_rules(&self) -> (numbers: Vec<u64>)
        ensures
            numbers@ == rule_numbers(self.deep_view()),
    {
        let mut numbers: Vec<u64> = Vec::new();
        let mut i: usize = 0;
        while i < self.rules.len()
            invariant
                i <= self.rules@.len(),
                numbers@.len() == i,
                forall|j: int| 0 <= j < i ==> #[trigger] numbers@[j] == self.rules@[j].number,
            decreases self.rules@.len() - i,
        {
            numbers.push(self.rules[i].number);
            i = i + 1;
        }
        assert(numbers@ =~= rule_numbers(self.rules@));
        numbers
    }

    /// The numbers of the rules for one kind of file.
    pub fn sync_rules_of_type(&self, middleware: Middleware) -> (numbers: Vec<u64>)
        ensures
            numbers@ == numbers_of_type(self.deep_view(), middleware),
    {
        let mut numbers: Vec<u64> = Vec::new();
        let mut i: usize = 0;
        assert(self.rules@.take(0).len() == 0);
        while i < self.rules.len()
            invariant
                i <= self.rules@.len(),
                numbers@ == numbers_of_type(self.rules@.take(i as int), middleware),
            decreases self.rules@.len() - i,
        {
            assert(self.rules@.take(i + 1).drop_last() == self.rules@.take(i as int));
            if self.rules[i].middleware == middleware {
                numbers.push(self.rules[i].number);
            }
            i = i + 1;
        }
        assert(self.rules@.take(i as int) == self.rules@);
        numbers
    }
}

/// A file or a folder that belongs to an instance.
pub enum SourceEntry {
    /// The project file that names the instance.
    Project(String),
    /// The file that holds the instance.
    File(String),
    /// The folder that holds the instance.
    Folder(String),
    /// The file that holds what the others do not.
    Data(String),
}

/// What a [`SourceEntry`] is.
pub enum EntryView {
    Project(Seq<char>),
    File(Seq<char>),
    Folder(Seq<char>),
    Data(Seq<char>),
}

impl DeepView for SourceEntry {
    type V = EntryView;

    open spec fn deep_view(&self) -> EntryView {
        match *self {
            SourceEntry::Project(path) => EntryView::Project(path@),
            SourceEntry::File(path) => EntryView::File(path@),
            SourceEntry::Folder(path) => EntryView::Folder(path@),
            SourceEntry::Data(path) => EntryView::Data(path@),
        }
    }
}

impl Clone for SourceEntry {
    fn clone(&self) -> (copy: Self)
        ensures
            copy.deep_view() == self.deep_view(),
    {
        match self {
            SourceEntry::Project(path) => SourceEntry::Project(path.clone()),
            SourceEntry::File(path) => SourceEntry::File(path.clone()),
            SourceEntry::Folder(path) => SourceEntry::Folder(path.clone()),
            SourceEntry::Data(path) => SourceEntry::Data(path.clone()),
        }
    }
}

impl EntryView {
    /// The path of the file or folder.
    pub open spec fn path(self) -> Seq<char> {
        match self {
            EntryView::Project(path) => path,
            EntryView::File(path) => path,
            EntryView::Folder(path) => path,
            EntryView::Data(path) => path,
        }
    }
}

impl SourceEntry {
    /// The path of the file or folder.
    pub fn path(&self) -> (path: &String)
        ensures
            path@ == self.deep_view().path(),
    {
        match self {
            SourceEntry::Project(path) => path,
            SourceEntry::File(path) => path,
            SourceEntry::Folder(path) => path,
            SourceEntry::Data(path) => path,
        }
    }
}

/// The main place of an instance.
pub enum SourceKind {
    /// A file or folder.
    Path(String),
    /// A node of a project file: its name, the file, the node and the way to it.
    Project(String, String, ProjectNode, NodePath),
    /// No place.
    Nowhere,
}

/// What a [`SourceKind`] is.
pub enum KindView {
    Path(Seq<char>),
    Project(Seq<char>, Seq<char>, NodeView, Seq<Seq<char>>),
    Nowhere,
}

impl KindView {
    /// The place is a node of this project file.
    pub open spec fn is_in(self, file: Seq<char>) -> bool {
        self matches KindView::Project(_, path, _, _) && path == file
    }
}

impl DeepView for SourceKind {
    type V = KindView;

    open spec fn deep_view(&self) -> KindView {
        match *self {
            SourceKind::Path(path) => KindView::Path(path@),
            SourceKind::Project(name, path, node, node_path) => KindView::Project(
                name@,
                path@,
                node.deep_view(),
                node_path.deep_view(),
            ),
            SourceKind::Nowhere => KindView::Nowhere,
        }
    }
}

impl Clone for SourceKind {
    fn clone(&self) -> (copy: Self)
        ensures
            copy.deep_view() == self.deep_view(),
    {
        match self {
            SourceKind::Path(path) => SourceKind::Path(path.clone()),
            SourceKind::Project(name, path, node, node_path) => SourceKind::Project(
                name.clone(),
                path.clone(),
                node.clone(),
                node_path.clone(),
            ),
            SourceKind::Nowhere => SourceKind::Nowhere,
        }
    }
}

/// Where an instance comes from: its main place, and all files and folders that belong to it.
pub struct Source {
    pub inner: SourceKind,
    pub relevants: Vec<SourceEntry>,
}

/// What a [`Source`] is.
#[verifier::ext_equal]
pub struct SourceView {
    pub inner: KindView,
    pub relevants: Seq<EntryView>,
}

impl DeepView for Source {
    type V = SourceView;

    open spec fn deep_view(&self) -> SourceView {
        SourceView { inner: self.inner.deep_view(), relevants: self.relevants.deep_view() }
    }
}

/// Copies a list of entries.
pub(crate) fn copy_entries(list: &Vec<SourceEntry>) -> (copy: Vec<SourceEntry>)
    ensures
        copy.deep_view() == list.deep_view(),
{
    let copy = list.clone();
    assert(copy.deep_view() =~= list.deep_view());
    copy
}

impl Clone for Source {
    fn clone(&self) -> (copy: Self)
        ensures
            copy.deep_view() == self.deep_view(),
    {
        Source { inner: self.inner.clone(), relevants: copy_entries(&self.relevants) }
    }
}

/// The first entry that is a file of the instance.
pub open spec fn first_file(entries: Seq<EntryView>) -> Option<Seq<char>>
    decreases entries.len(),
{
    if entries.len() == 0 {
        None
    } else if entries[0] is File {
        Some(entries[0].path())
    } else {
        first_file(entries.skip(1))
    }
}

/// The first entry that is a data file of the instance.
pub open spec fn first_data(entries: Seq<EntryView>) -> Option<Seq<char>>
    decreases entries.len(),
{
    if entries.len() == 0 {
        None
    } else if entries[0] is Data {
        Some(entries[0].path())
    } else {
        first_data(entries.skip(1))
    }
}

/// The entries that are no data files.
pub open spec fn without_data(entries: Seq<EntryView>) -> Seq<EntryView>
    decreases entries.len(),
{
    if entries.len() == 0 {
        Seq::empty()
    } else if entries.last() is Data {
        without_data(entries.drop_last())
    } else {
        without_data(entries.drop_last()).push(entries.last())
    }
}

impl SourceView {
    /// A source that is a single file.
    pub open spec fn file(path: Seq<char>) -> SourceView {
        SourceView { inner: KindView::Path(path), relevants: seq![EntryView::File(path)] }
    }

    /// A source that is a folder with the instance's file in it.
    pub open spec fn child_file(folder: Seq<char>, file: Seq<char>) -> SourceView {
        SourceView {
            inner: KindView::Path(folder),
            relevants: seq![EntryView::Folder(folder), EntryView::File(file)],
        }
    }

    /// A source that is a folder.
    pub open spec fn directory(path: Seq<char>) -> SourceView {
        SourceView { inner: KindView::Path(path), relevants: seq![EntryView::Folder(path)] }
    }

    /// A source that is a node of a project file.
    pub open spec fn project(
        name: Seq<char>,
        path: Seq<char>,
        node: NodeView,
        node_path: Seq<Seq<char>>,
    ) -> SourceView {
        SourceView {
            inner: KindView::Project(name, path, node, node_path),
            relevants: seq![EntryView::Project(path)],
        }
    }

    /// The source with other entries.
    pub open spec fn with_relevants(self, relevants: Seq<EntryView>) -> SourceView {
        SourceView { relevants, ..self }
    }

    /// The source with one more entry.
    pub open spec fn add(self, entry: EntryView) -> SourceView {
        SourceView { relevants: self.relevants.push(entry), ..self }
    }

    /// The source with this data file and no other.
    pub open spec fn set_data(self, path: Option<Seq<char>>) -> SourceView {
        SourceView {
            relevants: match path {
                Some(path) => without_data(self.relevants).push(EntryView::Data(path)),
                None => without_data(self.relevants),
            },
            ..self
        }
    }
}

impl Source {
    /// A source that is a single file.
    pub fn file(path: &str) -> (source: Self)
        ensures
            source.deep_view() == SourceView::file(path@),
    {
        let mut relevants: Vec<SourceEntry> = Vec::new();
        relevants.push(SourceEntry::File(path.to_owned()));
        let source = Source { inner: SourceKind::Path(path.to_owned()), relevants };
        assert(source.deep_view() =~= SourceView::file(path@));
        source
    }

    /// A source that is a folder with the instance's file in it.
    pub fn child_file(folder: &str, file: &str) -> (source: Self)
        ensures
            source.deep_view() == SourceView::child_file(folder@, file@),
    {
        let mut relevants: Vec<SourceEntry> = Vec::new();
        relevants.push(SourceEntry::Folder(folder.to_owned()));
        relevants.push(SourceEntry::File(file.to_owned()));
        let source = Source { inner: SourceKind::Path(folder.to_owned()), relevants };
        assert(source.deep_view() =~= SourceView::child_file(folder@, file@));
        source
    }

    /// A source that is a folder.
    pub fn directory(path: &str) -> (source: Self)
        ensures
            source.deep_view() == SourceView::directory(path@),
    {
        let mut relevants: Vec<SourceEntry> = Vec::new();
        relevants.push(SourceEntry::Folder(path.to_owned()));
        let source = Source { inner: SourceKind::Path(path.to_owned()), relevants };
        assert(source.deep_view() =~= SourceView::directory(path@));
        source
    }

    /// A source that is a node of a project file.
    pub fn project(name: &str, path: &str, node: ProjectNode, node_path: NodePath) -> (source: Self)
        ensures
            source.deep_view() == SourceView::project(
                name@,
                path@,
                node.deep_view(),
                node_path.deep_view(),
            ),
    {
        let mut relevants: Vec<SourceEntry> = Vec::new();
        relevants.push(SourceEntry::Project(path.to_owned()));
        let source = Source {
            inner: SourceKind::Project(name.to_owned(), path.to_owned(), node, node_path),
            relevants,
        };
        assert(source.deep_view() =~= SourceView::project(
            name@,
            path@,
            node.deep_view(),
            node_path.deep_view(),
        ));
        source
    }

    /// The source with other entries.
    pub fn with_relevants(self, relevants: Vec<SourceEntry>) -> (source: Self)
        ensures
            source.deep_view() == self.deep_view().with_relevants(relevants.deep_view()),
    {
        Source { inner: self.inner, relevants }
    }

    /// The main place.
    pub fn get(&self) -> (inner: &SourceKind)
        ensures
            inner.deep_view() == self.deep_view().inner,
    {
        &self.inner
    }

    /// The path of the instance's file.
    pub fn get_file(&self) -> (path: Option<&String>)
        ensures
            path.deep_view() == first_file(self.deep_view().relevants),
    {
        let mut i: usize = 0;
        let ghost all = self.relevants.deep_view();
        assert(all.skip(0) == all);
        while i < self.relevants.len()
            invariant
                i <= self.relevants@.len(),
                all == self.relevants.deep_view(),
                first_file(all) == first_file(all.skip(i as int)),
            decreases self.relevants@.len() - i,
        {
            assert(all.skip(i as int)[0] == self.relevants@[i as int].deep_view());
            assert(all.skip(i as int).skip(1) == all.skip(i + 1));
            match &self.relevants[i] {
                SourceEntry::File(path) => {
                    return Some(path);
                },
                _ => {},
            }
            i = i + 1;
        }
        None
    }

    /// The path of the instance's data file.
    pub fn get_data(&self) -> (path: Option<&String>)
        ensures
            path.deep_view() == first_data(self.deep_view().relevants),
    {
        let mut i: usize = 0;
        let ghost all = self.relevants.deep_view();
        assert(all.skip(0) == all);
        while i < self.relevants.len()
            invariant
                i <= self.relevants@.len(),
                all == self.relevants.deep_view(),
                first_data(all) == first_data(all.skip(i as int)),
            decreases self.relevants@.len() - i,
        {
            assert(all.skip(i as int)[0] == self.relevants@[i as int].deep_view());
            assert(all.skip(i as int).skip(1) == all.skip(i + 1));
            match &self.relevants[i] {
                SourceEntry::Data(path) => {
                    return Some(path);
                },
                _ => {},
            }
            i = i + 1;
        }
        None
    }

    /// Adds the instance's file.
    pub fn add_file(&mut self, path: &str)
        ensures
            final(self).deep_view() == old(self).deep_view().add(EntryView::File(path@)),
    {
        let ghost before = self.deep_view();
        self.relevants.push(SourceEntry::File(path.to_owned()));
        assert(self.relevants.deep_view() =~= before.relevants.push(EntryView::File(path@)));
    }

    /// Adds a data file.
    pub fn add_data(&mut self, path: &str)
        ensures
            final(self).deep_view() == old(self).deep_view().add(EntryView::Data(path@)),
    {
        let ghost before = self.deep_view();
        self.relevants.push(SourceEntry::Data(path.to_owned()));
        assert(self.relevants.deep_view() =~= before.relevants.push(EntryView::Data(path@)));
    }

    /// Makes this file the data file, or leaves the instance without one.
    pub fn set_data(&mut self, path: Option<String>)
        ensures
            final(self).deep_view() == old(self).deep_view().set_data(path.deep_view()),
    {
        let mut kept: Vec<SourceEntry> = Vec::new();
        let mut i: usize = 0;
        let ghost all = self.relevants.deep_view();
        assert(kept.deep_view() =~= without_data(all.take(0)));
        while i < self.relevants.len()
            invariant
                i <= self.relevants@.len(),
                all == self.relevants.deep_view(),
                kept.deep_view() == without_data(all.take(i as int)),
            decreases self.relevants@.len() - i,
        {
            let ghost before = kept.deep_view();
            assert(all.take(i + 1).drop_last() == all.take(i as int));
            assert(all.take(i + 1).last() == self.relevants@[i as int].deep_view());
            match &self.relevants[i] {
                SourceEntry::Data(_) => {},
                entry => {
                    kept.push(entry.clone());
                    assert(kept.deep_view() =~= before.push(self.relevants@[i as int].deep_view()));
                },
            }
            i = i + 1;
        }
        assert(all.take(i as int) == all);
        match path {
            Some(path) => {
                let ghost before = kept.deep_view();
                kept.push(SourceEntry::Data(path));
                assert(kept.deep_view() =~= before.push(EntryView::Data(path@)));
            },
            None => {},
        }
        self.relevants = kept;
    }
}

/// What is known of an instance beside what it is.
pub struct Meta {
    pub source: Source,
    pub context: Context,
    pub keep_unknowns: bool,
}

/// What a [`Meta`] is.
#[verifier::ext_equal]
pub struct MetaView {
    pub source: SourceView,
    pub context: Seq<SyncRule>,
    pub keep_unknowns: bool,
}

impl DeepView for Meta {
    type V = MetaView;

    open spec fn deep_view(&self) -> MetaView {
        MetaView {
            source: self.source.deep_view(),
            context: self.context.deep_view(),
            keep_unknowns: self.keep_unknowns,
        }
    }
}

impl Clone for Meta {
    fn clone(&self) -> (copy: Self)
        ensures
            copy.deep_view() == self.deep_view(),
    {
        Meta {
            source: self.source.clone(),
            context: self.context.clone(),
            keep_unknowns: self.keep_unknowns,
        }
    }
}

impl Meta {
    /// The same with another context.
    pub fn with_context(self, context: &Context) -> (meta: Self)
        ensures
            meta.deep_view() == (MetaView { context: context.deep_view(), ..self.deep_view() }),
    {
        Meta {
            source: self.source,
            context: context.clone(),
            keep_unknowns: self.keep_unknowns,
        }
    }

    /// The same with another source.
    pub fn with_source(self, source: Source) -> (meta: Self)
        ensures
            meta.deep_view() == (MetaView { source: source.deep_view(), ..self.deep_view() }),
    {
        Meta { source, context: self.context, keep_unknowns: self.keep_unknowns }
    }
}

} // verus!
