//! The entry model: a file or a directory, and what either stands for.

use vstd::prelude::*;
use crate::crawl::{
    entry_views, expanded, failures_of, paths_of, pick, put_all, task_entries, task_failures,
    Listing,
};
use crate::dir::{captured_dir, DirEntry};
use crate::scheduler::Scheduler;
use crate::store::memstorage::MemStorage;
use crate::store::storage::Storage;
use crate::subtree::{finite_below, subtree_bytes, subtree_files, walk_length};
use crate::file::{captured_file, FileEntry};
use crate::observe::{keys_of, opt_key, EntryError, ErrorKind, PathInfo, Timestamp};

verus! {

/// What an entry stands for. A file has no children and no aggregate size.
pub struct EntryView {
    pub is_dir: bool,
    pub name: Seq<char>,
    /// The key of the entry: its path as text.
    pub path: Seq<char>,
    pub size: u64,
    pub size_all_children: u64,
    pub last_access_time: Timestamp,
    pub last_modified_time: Timestamp,
    pub creation_time: Timestamp,
    /// The keys of the children, in discovery order.
    pub children: Seq<Seq<char>>,
    pub parent: Option<Seq<char>>,
}

/// An entry on show, with the store that holds what was found below it, if
/// one is attached.
pub struct EntryWrapper {
    entry: Entry,
    storage: Option<MemStorage>,
}

/// The number of files that a wrapper reports: 1 for a file; for a directory
/// the files below it as the store tells them, or without a store the number
/// of its direct children.
pub open spec fn reported_files(
    entry: EntryView,
    store: Option<Map<Seq<char>, EntryView>>,
) -> nat {
    if !entry.is_dir {
        1
    } else {
        match store {
            Some(m) => subtree_files(m, entry.children),
            None => entry.children.len(),
        }
    }
}

/// The number of bytes that a wrapper reports: its size for a file; for a
/// directory the sizes of the files below it as the store tells them, or 0
/// without a store.
pub open spec fn reported_bytes(
    entry: EntryView,
    store: Option<Map<Seq<char>, EntryView>>,
) -> nat {
    if !entry.is_dir {
        entry.size as nat
    } else {
        match store {
            Some(m) => subtree_bytes(m, entry.children),
            None => 0,
        }
    }
}

/// What is on show after a look into the store for `key`: the entry that the
/// store holds under it, or the entry that was on show where no store is
/// attached or the store holds no such key.
pub open spec fn navigated(
    entry: EntryView,
    store: Option<Map<Seq<char>, EntryView>>,
    key: Seq<char>,
) -> EntryView {
    match store {
        Some(m) => if m.contains_key(key) {
            m[key]
        } else {
            entry
        },
        None => entry,
    }
}

/// Unfolding the store from the entry on show comes to an end.
pub open spec fn countable(entry: EntryView, store: Option<Map<Seq<char>, EntryView>>) -> bool {
    entry.is_dir ==> match store {
        Some(m) => finite_below(m, entry.children),
        None => true,
    }
}

/// A walk from the entry on show looks at no more than `limit` keys. Only a
/// directory with a store is walked.
pub open spec fn walk_fits(
    entry: EntryView,
    store: Option<Map<Seq<char>, EntryView>>,
    limit: usize,
) -> bool {
    entry.is_dir ==> match store {
        Some(m) => walk_length(m, entry.children) <= limit,
        None => true,
    }
}

impl EntryWrapper {
    /// The entry on show.
    pub closed spec fn shown(&self) -> EntryView {
        self.entry@
    }

    /// What the attached store holds; `None` where no store is attached.
    pub closed spec fn store(&self) -> Option<Map<Seq<char>, EntryView>> {
        match self.storage {
            Some(s) => Some(s.contents()),
            None => None,
        }
    }

    /// The children of the entry on show are not known yet, so they can be
    /// loaded. A file has none and can always be loaded, to no effect.
    pub open spec fn loadable(&self) -> bool {
        self.shown().is_dir ==> self.shown().children.len() == 0
    }

    /// A wrapper for the root that `info` describes, without a store.
    pub fn new(info: &PathInfo) -> (r: Result<EntryWrapper, EntryError>)
        ensures
            match (r, captured(*info, None)) {
                (Ok(w), Ok(v)) => w.shown() == v && w.store() is None && w.loadable(),
                (Err(e), Err(f)) => e.kind == f.0 && e.detail@ == f.1,
                _ => false,
            },
    {
        match Entry::new(info) {
            Ok(entry) => Ok(EntryWrapper { entry, storage: None }),
            Err(e) => Err(e),
        }
    }

    /// A wrapper for the root that `info` describes, with an empty store in
    /// memory.
    pub fn new_with_memstorage(info: &PathInfo) -> (r: Result<EntryWrapper, EntryError>)
        ensures
            match (r, captured(*info, None)) {
                (Ok(w), Ok(v)) => w.shown() == v && w.store() == Some(
                    Map::<Seq<char>, EntryView>::empty(),
                ) && w.loadable(),
                (Err(e), Err(f)) => e.kind == f.0 && e.detail@ == f.1,
                _ => false,
            },
    {
        match Entry::new(info) {
            Ok(entry) => Ok(EntryWrapper { entry, storage: Some(MemStorage::new()) }),
            Err(e) => Err(e),
        }
    }

    /// Shows the entry that the store holds under `key` instead. Nothing
    /// changes where no store is attached or the store holds no such key.
    pub fn replace_from_storage(&mut self, key: &String)
        ensures
            final(self).store() == old(self).store(),
            final(self).shown() == navigated(old(self).shown(), old(self).store(), key@),
    {
        match &self.storage {
            Some(storage) => match storage.get(key) {
                Some(new_entry) => {
                    self.entry = new_entry;
                },
                None => {},
            },
            None => {},
        }
    }

    /// Whether the children of the entry on show can still be loaded.
    pub fn can_load(&self) -> (r: bool)
        ensures
            r == self.loadable(),
    {
        match &self.entry {
            Entry::File(f) => {
                proof {
                    f.lemma_is_file();
                }
                true
            },
            Entry::Dir(d) => {
                proof {
                    d.lemma_is_dir();
                }
                d.get_children_len() == 0
            },
        }
    }

    /// The first step of a crawl: takes in the listing of the directory on
    /// show. Its children are noted, the files among them go to the store,
    /// the directories to `queue` as tasks, and the failures are handed back.
    /// For a file nothing happens. A directory whose children are known must
    /// not be loaded again; after a listing that gave any entry it is such a
    /// directory.
    pub fn load_all_children(&mut self, listing: &Listing, queue: &mut Scheduler<Entry>) -> (errors:
        Vec<EntryError>)
        requires
            old(self).loadable(),
        ensures
            final(self).shown() == expanded(old(self).shown(), *listing),
            failures_of(errors@) == task_failures(old(self).shown(), *listing),
            final(self).store() == match old(self).store() {
                Some(m) => Some(put_all(m, pick(task_entries(old(self).shown(), *listing), false))),
                None => None,
            },
            final(queue)@.workers == old(queue)@.workers,
            entry_views(final(queue)@.global) == entry_views(old(queue)@.global) + pick(
                task_entries(old(self).shown(), *listing),
                true,
            ),
            final(self).loadable() <==> task_entries(old(self).shown(), *listing).len() == 0,
    {
        match &mut self.entry {
            Entry::Dir(dir) => {
                proof {
                    dir.lemma_is_dir();
                }
                let errors = dir.load_all_children_with_storage(&mut self.storage, listing, queue);
                proof {
                    dir.lemma_is_dir();
                    assert(old(self).shown().children =~= Seq::<Seq<char>>::empty());
                    assert(self.shown().children =~= old(self).shown().children + paths_of(
                        task_entries(old(self).shown(), *listing),
                    ));
                }
                errors
            },
            Entry::File(f) => {
                proof {
                    f.lemma_is_file();
                    assert(entry_views(queue@.global) =~= entry_views(old(queue)@.global) + pick(
                        task_entries(old(self).shown(), *listing),
                        true,
                    ));
                    assert(f@.children + paths_of(task_entries(f@, *listing)) =~= f@.children);
                }
                let errors: Vec<EntryError> = Vec::new();
                assert(failures_of(errors@) =~= task_failures(old(self).shown(), *listing));
                errors
            },
        }
    }

    /// A later step of a crawl: takes in the listing of a task that a worker
    /// took from `queue`. The files that the listing gave go to the store,
    /// the directories to `queue` as tasks, then the task itself goes to the
    /// store with the children it now knows. The failures are handed back.
    pub fn expand(&mut self, task: Entry, listing: &Listing, queue: &mut Scheduler<Entry>) -> (errors:
        Vec<EntryError>)
        ensures
            final(self).shown() == old(self).shown(),
            failures_of(errors@) == task_failures(task@, *listing),
            final(self).store() == match old(self).store() {
                Some(m) => Some(
                    put_all(m, pick(task_entries(task@, *listing), false)).insert(
                        task@.path,
                        expanded(task@, *listing),
                    ),
                ),
                None => None,
            },
            final(queue)@.workers == old(queue)@.workers,
            entry_views(final(queue)@.global) == entry_views(old(queue)@.global) + pick(
                task_entries(task@, *listing),
                true,
            ),
    {
        DirEntry::expand_task(task, &mut self.storage, listing, queue)
    }

    /// The number of files at and below the entry on show.
    pub fn count_entries(&self) -> (r: usize)
        requires
            countable(self.shown(), self.store()),
            reported_files(self.shown(), self.store()) <= usize::MAX,
        ensures
            r == reported_files(self.shown(), self.store()),
    {
        match &self.entry {
            Entry::File(f) => {
                proof {
                    f.lemma_is_file();
                }
                1
            },
            Entry::Dir(dir) => {
                proof {
                    dir.lemma_is_dir();
                }
                dir.count_entries(&self.storage.as_ref())
            },
        }
    }

    /// The number of files at and below the entry on show, for a store of
    /// which nothing is known: an answer exactly where the store is finite
    /// below the entry, the walk looks at no more than `limit` keys and the
    /// number fits.
    pub fn try_count_entries(&self, limit: usize) -> (r: Option<usize>)
        ensures
            match r {
                Some(n) => countable(self.shown(), self.store()) && n == reported_files(
                    self.shown(),
                    self.store(),
                ),
                None => !(countable(self.shown(), self.store()) && walk_fits(
                    self.shown(),
                    self.store(),
                    limit,
                ) && reported_files(self.shown(), self.store()) <= usize::MAX),
            },
    {
        match &self.entry {
            Entry::File(f) => {
                proof {
                    f.lemma_is_file();
                }
                Some(1)
            },
            Entry::Dir(dir) => {
                proof {
                    dir.lemma_is_dir();
                }
                match &self.storage {
                    None => Some(dir.get_children_len()),
                    Some(storage) => match dir.walk_within(storage, false, limit) {
                        None => None,
                        Some(n) => if n > usize::MAX as u64 {
                            None
                        } else {
                            Some(n as usize)
                        },
                    },
                }
            },
        }
    }

    /// The number of bytes in the files at and below the entry on show, for
    /// a store of which nothing is known: an answer exactly where the store
    /// is finite below the entry, the walk looks at no more than `limit` keys
    /// and the number fits.
    pub fn try_calculate_size(&self, limit: usize) -> (r: Option<u64>)
        ensures
            match r {
                Some(n) => countable(self.shown(), self.store()) && n == reported_bytes(
                    self.shown(),
                    self.store(),
                ),
                None => !(countable(self.shown(), self.store()) && walk_fits(
                    self.shown(),
                    self.store(),
                    limit,
                ) && reported_bytes(self.shown(), self.store()) <= u64::MAX),
            },
    {
        match &self.entry {
            Entry::File(f) => {
                proof {
                    f.lemma_is_file();
                }
                Some(f.get_size())
            },
            Entry::Dir(dir) => {
                proof {
                    dir.lemma_is_dir();
                }
                match &self.storage {
                    None => Some(0),
                    Some(storage) => dir.walk_within(storage, true, limit),
                }
            },
        }
    }

    /// The number of bytes in the files at and below the entry on show.
    pub fn calculate_size(&self) -> (r: u64)
        requires
            countable(self.shown(), self.store()),
            reported_bytes(self.shown(), self.store()) <= u64::MAX,
        ensures
            r == reported_bytes(self.shown(), self.store()),
    {
        match &self.entry {
            Entry::File(f) => {
                proof {
                    f.lemma_is_file();
                }
                f.get_size()
            },
            Entry::Dir(dir) => {
                proof {
                    dir.lemma_is_dir();
                }
                dir.calculate_size_all_children(&self.storage.as_ref())
            },
        }
    }

    pub fn get_name(&self) -> (r: String)
        ensures
            r@ == self.shown().name,
    {
        self.entry.get_name()
    }

    /// The path of the entry on show as text: its key.
    pub fn get_format_path(&self) -> (r: String)
        ensures
            r@ == self.shown().path,
    {
        self.entry.get_format_path()
    }

    /// The key of the directory that holds the entry on show; none for a root.
    pub fn get_parent(&self) -> (r: Option<String>)
        ensures
            opt_key(r) == self.shown().parent,
    {
        self.entry.get_parent()
    }

    /// The keys of the children of the entry on show, in discovery order.
    pub fn get_children(&self) -> (r: Vec<String>)
        ensures
            keys_of(r@) == self.shown().children,
    {
        self.entry.get_children()
    }

    pub fn get_children_len(&self) -> (r: usize)
        ensures
            r == self.shown().children.len(),
    {
        self.entry.get_children_len()
    }
}

#[derive(Debug)]
pub enum Entry {
    File(FileEntry),
    Dir(DirEntry),
}

impl View for Entry {
    type V = EntryView;

    open spec fn view(&self) -> EntryView {
        match self {
            Entry::File(f) => f@,
            Entry::Dir(d) => d@,
        }
    }
}

impl Clone for Entry {
    fn clone(&self) -> (r: Self)
        ensures
            r@ == self@,
            r is Dir <==> self is Dir,
    {
        match self {
            Entry::File(f) => Entry::File(f.clone()),
            Entry::Dir(d) => Entry::Dir(d.clone()),
        }
    }
}

/// What capturing an observation gives: a directory where a directory was
/// seen, a file otherwise.
pub open spec fn captured(info: PathInfo, parent: Option<Seq<char>>) -> Result<
    EntryView,
    (ErrorKind, Seq<char>),
> {
    if info.is_dir {
        captured_dir(info, parent)
    } else {
        captured_file(info, parent)
    }
}

impl Entry {
    /// Captures an observation as an entry below `parent`.
    pub fn new_with_parent(info: &PathInfo, parent: Option<String>) -> (r: Result<
        Entry,
        EntryError,
    >)
        ensures
            match (r, captured(*info, opt_key(parent))) {
                (Ok(e), Ok(v)) => e@ == v && (e is Dir <==> info.is_dir),
                (Err(e), Err(w)) => e.kind == w.0 && e.detail@ == w.1,
                _ => false,
            },
    {
        if info.is_dir {
            match DirEntry::new(info, parent) {
                Ok(d) => Ok(Entry::Dir(d)),
                Err(e) => Err(e),
            }
        } else {
            match FileEntry::new(info, parent) {
                Ok(f) => Ok(Entry::File(f)),
                Err(e) => Err(e),
            }
        }
    }

    /// Captures an observation as a root entry, which has no parent.
    pub fn new(info: &PathInfo) -> (r: Result<Entry, EntryError>)
        ensures
            match (r, captured(*info, None)) {
                (Ok(e), Ok(v)) => e@ == v && (e is Dir <==> info.is_dir),
                (Err(e), Err(w)) => e.kind == w.0 && e.detail@ == w.1,
                _ => false,
            },
    {
        Entry::new_with_parent(info, None)
    }

    /// The number of files that the entry knows of by itself: 1 for a file,
    /// the number of its direct children for a directory.
    pub fn count_entries(&self) -> (r: usize)
        ensures
            r == reported_files(self@, None),
    {
        match self {
            Entry::File(f) => {
                proof {
                    f.lemma_is_file();
                }
                1
            },
            Entry::Dir(dir) => {
                proof {
                    dir.lemma_is_dir();
                }
                dir.count_entries::<MemStorage>(&None)
            },
        }
    }

    /// The number of bytes that the entry knows of by itself: its size for a
    /// file, 0 for a directory.
    pub fn calculate_size(&self) -> (r: u64)
        ensures
            r == reported_bytes(self@, None),
    {
        match self {
            Entry::File(f) => {
                proof {
                    f.lemma_is_file();
                }
                f.get_size()
            },
            Entry::Dir(dir) => {
                proof {
                    dir.lemma_is_dir();
                }
                dir.calculate_size_all_children::<MemStorage>(&None)
            },
        }
    }

    pub fn get_size(&self) -> (r: u64)
        ensures
            r == self@.size,
    {
        match self {
            Entry::File(f) => f.get_size(),
            Entry::Dir(dir) => dir.get_size(),
        }
    }

    /// The path of the entry as text: its key.
    pub fn get_format_path(&self) -> (r: String)
        ensures
            r@ == self@.path,
    {
        match self {
            Entry::File(f) => f.get_format_path(),
            Entry::Dir(dir) => dir.get_format_path(),
        }
    }

    pub fn get_name(&self) -> (r: String)
        ensures
            r@ == self@.name,
    {
        match self {
            Entry::File(f) => f.get_name(),
            Entry::Dir(dir) => dir.get_name(),
        }
    }

    /// The keys of the children in discovery order; none for a file.
    pub fn get_children(&self) -> (r: Vec<String>)
        ensures
            keys_of(r@) == self@.children,
    {
        match self {
            Entry::File(f) => {
                let r: Vec<String> = Vec::new();
                proof {
                    f.lemma_is_file();
                    assert(keys_of(r@) =~= self@.children);
                }
                r
            },
            Entry::Dir(dir) => dir.get_children(),
        }
    }

    pub fn get_children_len(&self) -> (r: usize)
        ensures
            r == self@.children.len(),
    {
        match self {
            Entry::File(f) => {
                proof {
                    f.lemma_is_file();
                }
                0
            },
            Entry::Dir(dir) => dir.get_children_len(),
        }
    }

    pub fn get_parent(&self) -> (r: Option<String>)
        ensures
            opt_key(r) == self@.parent,
    {
        match self {
            Entry::File(f) => f.get_parent(),
            Entry::Dir(dir) => dir.get_parent(),
        }
    }
}

} // verus!
