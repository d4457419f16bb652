//! The change feed's data: a file entry is a path relative to the watched
//! root with its modification time in milliseconds.
use vstd::prelude::*;

verus! {

/// A file entry as a mathematical value: its path and its timestamp.
pub type EntryView = (Seq<char>, i64);

/// Files that were added, most recently modified first.
#[derive(Clone, Debug)]
pub struct FileAddData(pub Vec<(String, i64)>);

/// Paths that disappeared; their order carries no meaning.
#[derive(Clone, Debug)]
pub struct FileRemoveData(pub Vec<String>);

/// One incremental update of the set of known files.
#[derive(Clone, Debug)]
pub struct FileChangeData {
    pub removed: FileRemoveData,
    pub added: FileAddData,
}

/// The paths of `v` as character sequences.
pub open spec fn string_views(v: Seq<String>) -> Seq<Seq<char>> {
    v.map_values(|p: String| p@)
}

impl View for FileAddData {
    type V = Seq<EntryView>;

    open spec fn view(&self) -> Seq<EntryView> {
        self.0@.map_values(|e: (String, i64)| (e.0@, e.1))
    }
}

impl View for FileRemoveData {
    type V = Seq<Seq<char>>;

    open spec fn view(&self) -> Seq<Seq<char>> {
        string_views(self.0@)
    }
}

impl FileAddData {
    pub fn new() -> (r: Self)
        ensures
            r@ == Seq::<EntryView>::empty(),
    {
        let r = FileAddData(Vec::new());
        assert(r@ =~= Seq::<EntryView>::empty());
        r
    }
}

impl FileChangeData {
    pub fn new(removed: Vec<String>, added: Vec<(String, i64)>) -> (r: Self)
        ensures
            r.removed.0@ == removed@,
            r.added.0@ == added@,
    {
        FileChangeData { removed: FileRemoveData(removed), added: FileAddData(added) }
    }

    /// True when the update neither removes nor adds anything.
    pub fn is_empty(&self) -> (r: bool)
        ensures
            r == (self.removed@.len() == 0 && self.added@.len() == 0),
    {
        self.removed.0.len() == 0 && self.added.0.len() == 0
    }

    pub fn is_not_empty(&self) -> (r: bool)
        ensures
            r == (self.removed@.len() != 0 || self.added@.len() != 0),
    {
        !self.is_empty()
    }
}

} // verus!
