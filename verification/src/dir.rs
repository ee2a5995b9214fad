//! A directory: its own metadata and the keys of its children.

use vstd::prelude::*;
use vstd::multiset::Multiset;
use vstd::seq_lib::lemma_multiset_commutative;
use crate::crawl::{
    entry_views, failures_of, found_entries, found_failures, listed_entries, listed_failures,
    paths_of, pick, put_all, task_entries, task_failures, expanded, Listing,
};
use crate::entry::{captured, Entry, EntryView};
use crate::scheduler::Scheduler;
use crate::store::storage::Storage;
use crate::subtree::{
    depth_below, finite_below, lemma_any_depth, lemma_concat, lemma_deeper, settles, subtree_bytes,
    absent_weight, lemma_remove, subtree_files, tally, tally_one, walk_length, weight,
    settles_one, Measure,
};
use crate::observe::{
    copy_keys, copy_opt_key, copy_timestamp, keys_of, opt_key, EntryError, ErrorKind, NameProbe,
    PathInfo, Timestamp,
};

verus! {

#[derive(Debug)]
pub struct DirEntry {
    name: String,
    path: String,
    size: u64,
    size_all_children: u64,
    last_access_time: Timestamp,
    last_modified_time: Timestamp,
    creation_time: Timestamp,
    children: Vec<String>,
    parent: Option<String>,
}

impl View for DirEntry {
    type V = EntryView;

    closed spec fn view(&self) -> EntryView {
        EntryView {
            is_dir: true,
            name: self.name@,
            path: self.path@,
            size: self.size,
            size_all_children: self.size_all_children,
            last_access_time: self.last_access_time,
            last_modified_time: self.last_modified_time,
            creation_time: self.creation_time,
            children: keys_of(self.children@),
            parent: opt_key(self.parent),
        }
    }
}

impl Clone for DirEntry {
    fn clone(&self) -> (r: Self)
        ensures
            r@ == self@,
    {
        DirEntry {
            name: self.name.clone(),
            path: self.path.clone(),
            size: self.size,
            size_all_children: self.size_all_children,
            last_access_time: copy_timestamp(&self.last_access_time),
            last_modified_time: copy_timestamp(&self.last_modified_time),
            creation_time: copy_timestamp(&self.creation_time),
            children: copy_keys(&self.children),
            parent: copy_opt_key(&self.parent),
        }
    }
}

/// What capturing an observation as a directory gives: the name is looked at
/// first, then the metadata. The directory starts without children, with the
/// size of its own metadata and an aggregate size of 0.
pub open spec fn captured_dir(info: PathInfo, parent: Option<Seq<char>>) -> Result<
    EntryView,
    (ErrorKind, Seq<char>),
> {
    match info.name {
        NameProbe::Missing => Err((ErrorKind::NameMissing, info.path@)),
        NameProbe::Undecodable => Err((ErrorKind::NameUndecodable, info.path@)),
        NameProbe::Name(name) => match info.stat {
            Err(reason) => Err((ErrorKind::Unreadable, reason@)),
            Ok(stat) => Ok(
                EntryView {
                    is_dir: true,
                    name: name@,
                    path: info.path@,
                    size: stat.size,
                    size_all_children: 0,
                    last_access_time: stat.accessed,
                    last_modified_time: stat.modified,
                    creation_time: stat.created,
                    children: Seq::empty(),
                    parent,
                },
            ),
        },
    }
}

impl DirEntry {
    /// A directory is no leaf.
    pub proof fn lemma_is_dir(&self)
        ensures
            self@.is_dir,
    {
    }

    /// Captures an observation as a directory below `parent`. Fails if the
    /// path has no readable name or its metadata could not be read; a
    /// timestamp that is unavailable is kept as such and fails nothing.
    pub fn new(info: &PathInfo, parent: Option<String>) -> (r: Result<DirEntry, EntryError>)
        ensures
            match (r, captured_dir(*info, opt_key(parent))) {
                (Ok(d), Ok(v)) => d@ == v,
                (Err(e), Err(w)) => e.kind == w.0 && e.detail@ == w.1,
                _ => false,
            },
    {
        let name = match &info.name {
            NameProbe::Missing => {
                return Err(EntryError { kind: ErrorKind::NameMissing, detail: info.path.clone() });
            },
            NameProbe::Undecodable => {
                return Err(
                    EntryError { kind: ErrorKind::NameUndecodable, detail: info.path.clone() },
                );
            },
            NameProbe::Name(name) => name.clone(),
        };
        let stat = match &info.stat {
            Err(reason) => {
                return Err(EntryError { kind: ErrorKind::Unreadable, detail: reason.clone() });
            },
            Ok(stat) => stat,
        };
        let path = info.path.clone();
        let children: Vec<String> = Vec::new();
        assert(keys_of(children@) =~= Seq::<Seq<char>>::empty());
        Ok(
            DirEntry {
                name,
                path,
                size: stat.size,
                size_all_children: 0,
                last_access_time: copy_timestamp(&stat.accessed),
                last_modified_time: copy_timestamp(&stat.modified),
                creation_time: copy_timestamp(&stat.created),
                children,
                parent,
            },
        )
    }

    /// The size that the directory's own metadata gave.
    pub fn get_size(&self) -> (r: u64)
        ensures
            r == self@.size,
    {
        self.size
    }

    pub fn get_size_all_children(&self) -> (r: u64)
        ensures
            r == self@.size_all_children,
    {
        self.size_all_children
    }

    /// The path of the directory as text: its key.
    pub fn get_format_path(&self) -> (r: String)
        ensures
            r@ == self@.path,
    {
        self.path.clone()
    }

    pub fn get_name(&self) -> (r: String)
        ensures
            r@ == self@.name,
    {
        self.name.clone()
    }

    /// The keys of the children, in discovery order.
    pub fn get_children(&self) -> (r: Vec<String>)
        ensures
            keys_of(r@) == self@.children,
    {
        copy_keys(&self.children)
    }

    pub fn get_children_len(&self) -> (r: usize)
        ensures
            r == self@.children.len(),
    {
        self.children.len()
    }

    pub fn get_parent(&self) -> (r: Option<String>)
        ensures
            opt_key(r) == self@.parent,
    {
        copy_opt_key(&self.parent)
    }

    /// The entries and the failures that a listing of this directory gives:
    /// each item that was observed is captured as a child of this directory,
    /// and what could not be listed or captured is reported, not raised.
    pub fn get_load_children(&self, listing: &Listing) -> (r: (Vec<Entry>, Vec<EntryError>))
        ensures
            entry_views(r.0@) == found_entries(*listing, self@.path),
            failures_of(r.1@) == found_failures(*listing, self@.path),
    {
        let mut errors: Vec<EntryError> = Vec::new();
        let mut entries: Vec<Entry> = Vec::new();
        let items = match listing {
            Err(reason) => {
                errors.push(EntryError { kind: ErrorKind::Unlistable, detail: reason.clone() });
                proof {
                    assert(entry_views(entries@) =~= found_entries(*listing, self@.path));
                    assert(failures_of(errors@) =~= found_failures(*listing, self@.path));
                }
                return (entries, errors);
            },
            Ok(items) => items,
        };
        let ghost parent = self@.path;
        let mut i: usize = 0;
        proof {
            assert(items@.subrange(0, 0) =~= Seq::empty());
            assert(entry_views(entries@) =~= listed_entries(items@.subrange(0, 0), parent));
            assert(failures_of(errors@) =~= listed_failures(items@.subrange(0, 0), parent));
        }
        while i < items.len()
            invariant
                i <= items.len(),
                parent == self@.path,
                entry_views(entries@) == listed_entries(items@.subrange(0, i as int), parent),
                failures_of(errors@) == listed_failures(items@.subrange(0, i as int), parent),
            decreases items.len() - i,
        {
            let ghost seen = items@.subrange(0, i as int);
            let ghost next = items@.subrange(0, i as int + 1);
            let ghost entries_before = entries@;
            let ghost errors_before = errors@;
            proof {
                assert(next.drop_last() =~= seen);
                assert(next.last() == items@[i as int]);
            }
            match &items[i] {
                Err(reason) => {
                    errors.push(EntryError { kind: ErrorKind::Unlistable, detail: reason.clone() });
                },
                Ok(info) => match Entry::new_with_parent(info, Some(self.get_format_path())) {
                    Err(e) => {
                        errors.push(e);
                    },
                    Ok(entry) => {
                        entries.push(entry);
                    },
                },
            }
            proof {
                assert(entry_views(entries@) =~= listed_entries(next, parent));
                assert(failures_of(errors@) =~= listed_failures(next, parent));
            }
            i = i + 1;
        }
        proof {
            assert(items@.subrange(0, i as int) =~= items@);
        }
        (entries, errors)
    }

    /// Notes the keys of `children` after the children that are known already.
    pub fn clone_children_to_current(&mut self, children: &Vec<Entry>)
        ensures
            final(self)@ == (EntryView {
                children: old(self)@.children + paths_of(entry_views(children@)),
                ..old(self)@
            }),
    {
        let mut i: usize = 0;
        proof {
            assert(self@.children =~= old(self)@.children + paths_of(
                entry_views(children@.subrange(0, 0)),
            ));
        }
        while i < children.len()
            invariant
                i <= children.len(),
                self@ == (EntryView {
                    children: old(self)@.children + paths_of(
                        entry_views(children@.subrange(0, i as int)),
                    ),
                    ..old(self)@
                }),
            decreases children.len() - i,
        {
            let ghost before = keys_of(self.children@);
            let ghost seen = paths_of(entry_views(children@.subrange(0, i as int)));
            assert(before == old(self)@.children + seen);
            self.children.push(children[i].get_format_path());
            i = i + 1;
            proof {
                let key = children@[i - 1]@.path;
                assert(keys_of(self.children@) =~= before.push(key));
                assert(paths_of(entry_views(children@.subrange(0, i as int))) =~= seen.push(key));
                assert(keys_of(self.children@) =~= old(self)@.children + paths_of(
                    entry_views(children@.subrange(0, i as int)),
                ));
            }
        }
        proof {
            assert(children@.subrange(0, i as int) =~= children@);
        }
    }

    /// Puts `entry` under `key` where there is a store.
    pub fn store_entry<S: Storage>(storage: &mut Option<S>, key: String, entry: Entry)
        ensures
            match (*old(storage), *final(storage)) {
                (Some(before), Some(after)) => after.contents() == before.contents().insert(
                    key@,
                    entry@,
                ),
                (None, None) => true,
                _ => false,
            },
    {
        match storage {
            Some(s) => {
                s.set(key, entry);
            },
            None => {},
        }
    }

    /// Sorts `children`: the directories go to the end of the global queue as
    /// tasks, in order, and the files are handed back, in order.
    pub fn add_children_to_queue(children: Vec<Entry>, queue: &mut Scheduler<Entry>) -> (files: Vec<
        Entry,
    >)
        ensures
            final(queue)@.workers == old(queue)@.workers,
            entry_views(final(queue)@.global) == entry_views(old(queue)@.global) + pick(
                entry_views(children@),
                true,
            ),
            entry_views(files@) == pick(entry_views(children@), false),
            final(queue)@.global.len() == old(queue)@.global.len() + pick(
                entry_views(children@),
                true,
            ).len(),
            forall|i: int|
                0 <= i < old(queue)@.global.len() ==> final(queue)@.global[i] == old(
                    queue,
                )@.global[i],
    {
        let ghost all = entry_views(children@);
        let mut rest = reversed(children);
        let mut files: Vec<Entry> = Vec::new();
        let ghost mut done: Seq<EntryView> = Seq::empty();
        proof {
            assert(entry_views(files@) =~= pick(done, false));
            assert(entry_views(queue@.global) =~= entry_views(old(queue)@.global) + pick(
                done,
                true,
            ));
            assert(done + entry_views(rest@.reverse()) =~= all);
        }
        while rest.len() > 0
            invariant
                queue@.workers == old(queue)@.workers,
                done + entry_views(rest@.reverse()) == all,
                entry_views(files@) == pick(done, false),
                entry_views(queue@.global) == entry_views(old(queue)@.global) + pick(done, true),
                queue@.global.len() == old(queue)@.global.len() + pick(done, true).len(),
                forall|i: int|
                    0 <= i < old(queue)@.global.len() ==> queue@.global[i] == old(
                        queue,
                    )@.global[i],
            decreases rest.len(),
        {
            let ghost rest_before = rest@;
            let ghost files_before = files@;
            let ghost global_before = queue@.global;
            let child = rest.pop().unwrap();
            proof {
                let next = done.push(child@);
                assert(next.drop_last() =~= done);
                assert(next + entry_views(rest@.reverse()) =~= done + entry_views(
                    rest_before.reverse(),
                ));
                done = next;
            }
            match child {
                Entry::Dir(d) => {
                    proof {
                        d.lemma_is_dir();
                    }
                    queue.push(Entry::Dir(d));
                    proof {
                        assert(entry_views(queue@.global) =~= entry_views(global_before).push(
                            child@,
                        ));
                        assert(entry_views(queue@.global) =~= entry_views(old(queue)@.global)
                            + pick(done, true));
                    }
                },
                Entry::File(f) => {
                    proof {
                        f.lemma_is_file();
                    }
                    files.push(Entry::File(f));
                    proof {
                        assert(entry_views(files@) =~= entry_views(files_before).push(child@));
                    }
                },
            }
        }
        proof {
            assert(rest@.reverse() =~= Seq::<Entry>::empty());
            assert(done =~= all);
        }
        files
    }

    /// One step of a crawl, for this directory: the listing is captured, the
    /// keys of what it gave are noted as children, the files among them go to
    /// the store and the directories to the queue as tasks. The failures are
    /// handed back; none of them stops the step.
    pub fn load_children_with_storage<S: Storage>(
        &mut self,
        storage: &mut Option<S>,
        listing: &Listing,
        queue: &mut Scheduler<Entry>,
    ) -> (errors: Vec<EntryError>)
        ensures
            final(self)@ == (EntryView {
                children: old(self)@.children + paths_of(
                    found_entries(*listing, old(self)@.path),
                ),
                ..old(self)@
            }),
            failures_of(errors@) == found_failures(*listing, old(self)@.path),
            match (*old(storage), *final(storage)) {
                (Some(before), Some(after)) => after.contents() == put_all(
                    before.contents(),
                    pick(found_entries(*listing, old(self)@.path), false),
                ),
                (None, None) => true,
                _ => false,
            },
            final(queue)@.workers == old(queue)@.workers,
            entry_views(final(queue)@.global) == entry_views(old(queue)@.global) + pick(
                found_entries(*listing, old(self)@.path),
                true,
            ),
            forall|i: int|
                0 <= i < old(queue)@.global.len() ==> final(queue)@.global[i] == old(
                    queue,
                )@.global[i],
    {
        let (children, errors) = self.get_load_children(listing);
        self.clone_children_to_current(&children);
        let files = DirEntry::add_children_to_queue(children, queue);
        let ghost found = found_entries(*listing, old(self)@.path);
        let mut rest = reversed(files);
        let ghost mut done: Seq<EntryView> = Seq::empty();
        proof {
            assert(done + entry_views(rest@.reverse()) =~= pick(found, false));
        }
        while rest.len() > 0
            invariant
                done + entry_views(rest@.reverse()) == pick(found, false),
                match (*old(storage), *storage) {
                    (Some(before), Some(after)) => after.contents() == put_all(
                        before.contents(),
                        done,
                    ),
                    (None, None) => true,
                    _ => false,
                },
            decreases rest.len(),
        {
            let ghost rest_before = rest@;
            let entry = rest.pop().unwrap();
            proof {
                let next = done.push(entry@);
                assert(next.drop_last() =~= done);
                assert(next + entry_views(rest@.reverse()) =~= done + entry_views(
                    rest_before.reverse(),
                ));
                done = next;
            }
            DirEntry::store_entry(storage, entry.get_format_path(), entry);
        }
        proof {
            assert(rest@.reverse() =~= Seq::<Entry>::empty());
            assert(done =~= pick(found, false));
        }
        errors
    }

    /// The first step of a crawl, for the root: see
    /// `load_children_with_storage`. A directory whose children are known
    /// must not be loaded again.
    pub fn load_all_children_with_storage<S: Storage>(
        &mut self,
        storage: &mut Option<S>,
        listing: &Listing,
        queue: &mut Scheduler<Entry>,
    ) -> (errors: Vec<EntryError>)
        requires
            old(self)@.children.len() == 0,
        ensures
            final(self)@ == (EntryView {
                children: paths_of(found_entries(*listing, old(self)@.path)),
                ..old(self)@
            }),
            failures_of(errors@) == found_failures(*listing, old(self)@.path),
            match (*old(storage), *final(storage)) {
                (Some(before), Some(after)) => after.contents() == put_all(
                    before.contents(),
                    pick(found_entries(*listing, old(self)@.path), false),
                ),
                (None, None) => true,
                _ => false,
            },
            final(queue)@.workers == old(queue)@.workers,
            entry_views(final(queue)@.global) == entry_views(old(queue)@.global) + pick(
                found_entries(*listing, old(self)@.path),
                true,
            ),
            forall|i: int|
                0 <= i < old(queue)@.global.len() ==> final(queue)@.global[i] == old(
                    queue,
                )@.global[i],
    {
        let errors = self.load_children_with_storage(storage, listing, queue);
        proof {
            assert(old(self)@.children + paths_of(found_entries(*listing, old(self)@.path))
                =~= paths_of(found_entries(*listing, old(self)@.path)));
        }
        errors
    }

    /// One step of a crawl, for a task that a worker took from the queue. A
    /// directory is expanded as `load_children_with_storage` says; then the
    /// task itself goes to the store, with the children it now knows.
    pub fn expand_task<S: Storage>(
        task: Entry,
        storage: &mut Option<S>,
        listing: &Listing,
        queue: &mut Scheduler<Entry>,
    ) -> (errors: Vec<EntryError>)
        ensures
            failures_of(errors@) == task_failures(task@, *listing),
            match (*old(storage), *final(storage)) {
                (Some(before), Some(after)) => after.contents() == put_all(
                    before.contents(),
                    pick(task_entries(task@, *listing), false),
                ).insert(task@.path, expanded(task@, *listing)),
                (None, None) => true,
                _ => false,
            },
            final(queue)@.workers == old(queue)@.workers,
            entry_views(final(queue)@.global) == entry_views(old(queue)@.global) + pick(
                task_entries(task@, *listing),
                true,
            ),
            forall|i: int|
                0 <= i < old(queue)@.global.len() ==> final(queue)@.global[i] == old(
                    queue,
                )@.global[i],
    {
        match task {
            Entry::Dir(mut d) => {
                let errors = d.load_children_with_storage(storage, listing, queue);
                DirEntry::store_entry(storage, d.get_format_path(), Entry::Dir(d));
                errors
            },
            Entry::File(f) => {
                proof {
                    f.lemma_is_file();
                    assert(entry_views(queue@.global) =~= entry_views(old(queue)@.global) + pick(
                        task_entries(task@, *listing),
                        true,
                    ));
                    assert(f@.children + paths_of(task_entries(task@, *listing)) =~= f@.children);
                }
                let errors: Vec<EntryError> = Vec::new();
                assert(failures_of(errors@) =~= task_failures(task@, *listing));
                DirEntry::store_entry(storage, f.get_format_path(), Entry::File(f));
                errors
            },
        }
    }

    /// The number of files below this directory, as the store tells it: an
    /// explicit stack of keys is unfolded until it is empty. Directories are
    /// not counted. Without a store only the direct children are known, and
    /// their number is the answer.
    pub fn count_entries<S: Storage>(&self, storage: &Option<&S>) -> (r: usize)
        requires
            match *storage {
                Some(s) => finite_below(s.contents(), self@.children) && subtree_files(
                    s.contents(),
                    self@.children,
                ) <= usize::MAX,
                None => true,
            },
        ensures
            match *storage {
                Some(s) => r == subtree_files(s.contents(), self@.children),
                None => r == self@.children.len(),
            },
    {
        let storage = match storage {
            None => {
                return self.children.len();
            },
            Some(v) => v,
        };
        let ghost store = storage.contents();
        let ghost depth = depth_below(store, self@.children);
        let mut counter: usize = 0;
        let mut queue: Vec<String> = copy_keys(&self.children);
        while queue.len() > 0
            invariant
                store == storage.contents(),
                settles(store, keys_of(queue@), depth),
                counter + tally(store, keys_of(queue@), depth, Measure::Files) == tally(
                    store,
                    self@.children,
                    depth,
                    Measure::Files,
                ),
                tally(store, self@.children, depth, Measure::Files) <= usize::MAX,
            decreases tally(store, keys_of(queue@), depth, Measure::Nodes), queue.len(),
        {
            let ghost before = keys_of(queue@);
            let c = queue.pop().unwrap();
            proof {
                assert(keys_of(queue@) =~= before.drop_last());
                assert(before.last() == c@);
                lemma_last(store, before, depth, Measure::Files);
                lemma_last(store, before, depth, Measure::Nodes);
            }
            match storage.get(&c) {
                None => {},
                Some(entry) => match entry {
                    Entry::File(file) => {
                        proof {
                            file.lemma_is_file();
                        }
                        counter = counter + 1;
                    },
                    Entry::Dir(mut dir) => {
                        let ghost rest = keys_of(queue@);
                        let ghost below = keys_of(dir.children@);
                        queue.append(&mut dir.children);
                        proof {
                            assert(keys_of(queue@) =~= rest + below);
                            lemma_unfold(store, rest, c@, depth, Measure::Files);
                            lemma_unfold(store, rest, c@, depth, Measure::Nodes);
                        }
                    },
                },
            }
        }
        counter
    }

    /// The number of files below this directory, as `count_entries` gives it,
    /// found by handing the keys out through a scheduler with one worker for
    /// each processor. The workers take turns; whichever of them visits a key,
    /// the answer is the same.
    pub fn count_entries_multi<S: Storage>(&self, storage: &Option<&S>) -> (r: usize)
        requires
            match *storage {
                Some(s) => finite_below(s.contents(), self@.children) && subtree_files(
                    s.contents(),
                    self@.children,
                ) <= usize::MAX,
                None => true,
            },
        ensures
            match *storage {
                Some(s) => r == subtree_files(s.contents(), self@.children),
                None => r == self@.children.len(),
            },
    {
        let storage = match storage {
            None => {
                return self.children.len();
            },
            Some(v) => v,
        };
        let ghost store = storage.contents();
        let ghost depth = depth_below(store, self@.children);
        let workers = worker_count();
        let mut queue: Scheduler<String> = Scheduler::new(workers);
        queue.add_generic_to_queue(&self.children);
        let ghost mut todo: Seq<String> = self.children@;
        let mut total: usize = 0;
        let mut worker: usize = 0;
        let mut done = false;
        proof {
            assert(queue@.pending() =~= todo.to_multiset());
        }
        while !done
            invariant
                store == storage.contents(),
                worker < workers,
                workers == queue@.workers.len(),
                todo.to_multiset() == queue@.pending(),
                done ==> todo.len() == 0,
                settles(store, keys_of(todo), depth),
                total + tally(store, keys_of(todo), depth, Measure::Files) == tally(
                    store,
                    self@.children,
                    depth,
                    Measure::Files,
                ),
                tally(store, self@.children, depth, Measure::Files) <= usize::MAX,
            decreases
                    (if done {
                        0nat
                    } else {
                        1nat
                    }),
                    tally(store, keys_of(todo), depth, Measure::Nodes),
                    todo.len(),
        {
            let ghost waiting = queue@.pending();
            match queue.find_task(worker) {
                None => {
                    proof {
                        todo.to_multiset_ensures();
                    }
                    done = true;
                },
                Some(task) => {
                    proof {
                        let j = lemma_take(todo, task, waiting, queue@.pending());
                        lemma_remove(store, keys_of(todo), j, depth, Measure::Files);
                        lemma_remove(store, keys_of(todo), j, depth, Measure::Nodes);
                        lemma_one(store, task@, depth, Measure::Files);
                        lemma_one(store, task@, depth, Measure::Nodes);
                        assert(keys_of(todo.remove(j)) =~= keys_of(todo).remove(j));
                        todo = todo.remove(j);
                    }
                    match storage.get(&task) {
                        None => {},
                        Some(entry) => match entry {
                            Entry::File(file) => {
                                proof {
                                    file.lemma_is_file();
                                }
                                total = total + 1;
                            },
                            Entry::Dir(dir) => {
                                let ghost rest = todo;
                                queue.add_generic_to_queue(&dir.children);
                                proof {
                                    todo = rest + dir.children@;
                                    lemma_multiset_commutative(rest, dir.children@);
                                    assert(keys_of(todo) =~= keys_of(rest) + keys_of(
                                        dir.children@,
                                    ));
                                    lemma_unfold(store, keys_of(rest), task@, depth, Measure::Files);
                                    lemma_unfold(store, keys_of(rest), task@, depth, Measure::Nodes);
                                }
                            },
                        },
                    }
                    queue.finish_task(worker);
                },
            }
            worker = if worker + 1 < workers {
                worker + 1
            } else {
                0
            };
        }
        total
    }

    /// The sum of the sizes of the files below this directory, as the store
    /// tells it. A directory adds nothing by itself. Without a store nothing
    /// is known of the children, and the answer is 0.
    pub fn calculate_size_all_children<S: Storage>(&self, storage: &Option<&S>) -> (r: u64)
        requires
            match *storage {
                Some(s) => finite_below(s.contents(), self@.children) && subtree_bytes(
                    s.contents(),
                    self@.children,
                ) <= u64::MAX,
                None => true,
            },
        ensures
            match *storage {
                Some(s) => r == subtree_bytes(s.contents(), self@.children),
                None => r == 0,
            },
    {
        let storage = match storage {
            None => {
                return 0;
            },
            Some(v) => v,
        };
        let ghost store = storage.contents();
        let ghost depth = depth_below(store, self@.children);
        let mut total: u64 = 0;
        let mut queue: Vec<String> = copy_keys(&self.children);
        while queue.len() > 0
            invariant
                store == storage.contents(),
                settles(store, keys_of(queue@), depth),
                total + tally(store, keys_of(queue@), depth, Measure::Bytes) == tally(
                    store,
                    self@.children,
                    depth,
                    Measure::Bytes,
                ),
                tally(store, self@.children, depth, Measure::Bytes) <= u64::MAX,
            decreases tally(store, keys_of(queue@), depth, Measure::Nodes), queue.len(),
        {
            let ghost before = keys_of(queue@);
            let c = queue.pop().unwrap();
            proof {
                assert(keys_of(queue@) =~= before.drop_last());
                assert(before.last() == c@);
                lemma_last(store, before, depth, Measure::Bytes);
                lemma_last(store, before, depth, Measure::Nodes);
            }
            match storage.get(&c) {
                None => {},
                Some(entry) => match entry {
                    Entry::File(file) => {
                        proof {
                            file.lemma_is_file();
                        }
                        total = total + file.get_size();
                    },
                    Entry::Dir(mut dir) => {
                        let ghost rest = keys_of(queue@);
                        let ghost below = keys_of(dir.children@);
                        queue.append(&mut dir.children);
                        proof {
                            assert(keys_of(queue@) =~= rest + below);
                            lemma_unfold(store, rest, c@, depth, Measure::Bytes);
                            lemma_unfold(store, rest, c@, depth, Measure::Nodes);
                        }
                    },
                },
            }
        }
        total
    }

    /// The sum of the sizes of the files below this directory, as
    /// `calculate_size_all_children` gives it, found by handing the keys out
    /// through a scheduler with one worker for each processor. The workers
    /// take turns; whichever of them visits a key, the answer is the same.
    pub fn calculate_size_all_children_multi<S: Storage>(&self, storage: &Option<&S>) -> (r: u64)
        requires
            match *storage {
                Some(s) => finite_below(s.contents(), self@.children) && subtree_bytes(
                    s.contents(),
                    self@.children,
                ) <= u64::MAX,
                None => true,
            },
        ensures
            match *storage {
                Some(s) => r == subtree_bytes(s.contents(), self@.children),
                None => r == 0,
            },
    {
        let storage = match storage {
            None => {
                return 0;
            },
            Some(v) => v,
        };
        let ghost store = storage.contents();
        let ghost depth = depth_below(store, self@.children);
        let workers = worker_count();
        let mut queue: Scheduler<String> = Scheduler::new(workers);
        queue.add_generic_to_queue(&self.children);
        let ghost mut todo: Seq<String> = self.children@;
        let mut total: u64 = 0;
        let mut worker: usize = 0;
        let mut done = false;
        proof {
            assert(queue@.pending() =~= todo.to_multiset());
        }
        while !done
            invariant
                store == storage.contents(),
                worker < workers,
                workers == queue@.workers.len(),
                todo.to_multiset() == queue@.pending(),
                done ==> todo.len() == 0,
                settles(store, keys_of(todo), depth),
                total + tally(store, keys_of(todo), depth, Measure::Bytes) == tally(
                    store,
                    self@.children,
                    depth,
                    Measure::Bytes,
                ),
                tally(store, self@.children, depth, Measure::Bytes) <= u64::MAX,
            decreases
                    (if done {
                        0nat
                    } else {
                        1nat
                    }),
                    tally(store, keys_of(todo), depth, Measure::Nodes),
                    todo.len(),
        {
            let ghost waiting = queue@.pending();
            match queue.find_task(worker) {
                None => {
                    proof {
                        todo.to_multiset_ensures();
                    }
                    done = true;
                },
                Some(task) => {
                    proof {
                        let j = lemma_take(todo, task, waiting, queue@.pending());
                        lemma_remove(store, keys_of(todo), j, depth, Measure::Bytes);
                        lemma_remove(store, keys_of(todo), j, depth, Measure::Nodes);
                        lemma_one(store, task@, depth, Measure::Bytes);
                        lemma_one(store, task@, depth, Measure::Nodes);
                        assert(keys_of(todo.remove(j)) =~= keys_of(todo).remove(j));
                        todo = todo.remove(j);
                    }
                    match storage.get(&task) {
                        None => {},
                        Some(entry) => match entry {
                            Entry::File(file) => {
                                proof {
                                    file.lemma_is_file();
                                }
                                total = total + file.get_size();
                            },
                            Entry::Dir(dir) => {
                                let ghost rest = todo;
                                queue.add_generic_to_queue(&dir.children);
                                proof {
                                    todo = rest + dir.children@;
                                    lemma_multiset_commutative(rest, dir.children@);
                                    assert(keys_of(todo) =~= keys_of(rest) + keys_of(
                                        dir.children@,
                                    ));
                                    lemma_unfold(store, keys_of(rest), task@, depth, Measure::Bytes);
                                    lemma_unfold(store, keys_of(rest), task@, depth, Measure::Nodes);
                                }
                            },
                        },
                    }
                    queue.finish_task(worker);
                },
            }
            worker = if worker + 1 < workers {
                worker + 1
            } else {
                0
            };
        }
        total
    }

    /// The walk of `count_entries` (or, with `bytes`, of
    /// `calculate_size_all_children`) for a store of which nothing is known:
    /// it gives up after looking at `limit` keys, and when the sum outgrows
    /// its type. It gives an answer exactly where the store is finite below
    /// this directory, the walk looks at no more than `limit` keys and the
    /// sum fits.
    pub fn walk_within<S: Storage>(&self, storage: &S, bytes: bool, limit: usize) -> (r: Option<
        u64,
    >)
        ensures
            match r {
                Some(n) => finite_below(storage.contents(), self@.children) && n == if bytes {
                    subtree_bytes(storage.contents(), self@.children)
                } else {
                    subtree_files(storage.contents(), self@.children)
                },
                None => !(finite_below(storage.contents(), self@.children) && walk_length(
                    storage.contents(),
                    self@.children,
                ) <= limit && (if bytes {
                    subtree_bytes(storage.contents(), self@.children)
                } else {
                    subtree_files(storage.contents(), self@.children)
                }) <= u64::MAX),
            },
    {
        let ghost store = storage.contents();
        let ghost kids = self@.children;
        let ghost m = if bytes {
            Measure::Bytes
        } else {
            Measure::Files
        };
        let mut total: u64 = 0;
        let mut steps: usize = 0;
        let mut queue: Vec<String> = copy_keys(&self.children);
        while queue.len() > 0
            invariant
                store == storage.contents(),
                kids == self@.children,
                m == if bytes {
                    Measure::Bytes
                } else {
                    Measure::Files
                },
                steps <= limit,
                forall|d: nat| #[trigger]
                    tracks(store, kids, keys_of(queue@), total as nat, steps as nat, m, d),
                forall|d: nat| #[trigger] reaches(store, kids, keys_of(queue@), steps as nat, d),
            decreases limit - steps,
        {
            let ghost before = keys_of(queue@);
            let ghost total_before = total;
            let ghost steps_before = steps;
            if steps == limit {
                proof {
                    if finite_below(store, kids) {
                        let d = depth_below(store, kids);
                        assert(tracks(store, kids, before, total as nat, steps as nat, m, d));
                        lemma_last(store, before, d, Measure::Steps);
                        lemma_any_depth(store, kids, d);
                    }
                }
                return None;
            }
            steps = steps + 1;
            let c = queue.pop().unwrap();
            let ghost rest = keys_of(queue@);
            proof {
                assert(rest =~= before.drop_last());
                assert(before.last() == c@);
            }
            let mut added: u64 = 0;
            let mut is_dir = false;
            match storage.get(&c) {
                None => {},
                Some(entry) => match entry {
                    Entry::File(file) => {
                        proof {
                            file.lemma_is_file();
                        }
                        added = if bytes {
                            file.get_size()
                        } else {
                            1
                        };
                    },
                    Entry::Dir(mut dir) => {
                        is_dir = true;
                        let ghost below = keys_of(dir.children@);
                        queue.append(&mut dir.children);
                        proof {
                            assert(keys_of(queue@) =~= rest + below);
                        }
                    },
                },
            }
            assert(added == if store.contains_key(c@) {
                weight(m, store[c@])
            } else {
                absent_weight(m)
            });
            if added > u64::MAX - total {
                proof {
                    if finite_below(store, kids) {
                        let d = depth_below(store, kids);
                        assert(tracks(
                            store,
                            kids,
                            before,
                            total as nat,
                            steps_before as nat,
                            m,
                            d,
                        ));
                        lemma_last(store, before, d, m);
                        lemma_any_depth(store, kids, d);
                    }
                }
                return None;
            }
            total = total + added;
            proof {
                let after = keys_of(queue@);
                assert forall|d: nat| #[trigger]
                    tracks(store, kids, after, total as nat, steps as nat, m, d) by {
                    assert(tracks(
                        store,
                        kids,
                        before,
                        total_before as nat,
                        steps_before as nat,
                        m,
                        d,
                    ));
                    if settles(store, kids, d) {
                        lemma_last(store, before, d, m);
                        lemma_last(store, before, d, Measure::Steps);
                        if is_dir {
                            lemma_unfold(store, rest, c@, d, m);
                            lemma_unfold(store, rest, c@, d, Measure::Steps);
                        }
                    }
                }
                assert forall|d: nat| #[trigger]
                    reaches(store, kids, after, steps as nat, d) by {
                    if settles(store, after, d) {
                        if is_dir {
                            assert(reaches(
                                store,
                                kids,
                                before,
                                steps_before as nat,
                                (d + 1) as nat,
                            ));
                            lemma_concat(store, rest, store[c@].children, d, m);
                            lemma_deeper(store, rest, d, (d + 1) as nat, m);
                            lemma_last(store, before, (d + 1) as nat, m);
                            assert(settles_one(store, c@, (d + 1) as nat));
                            assert(settles(store, before, (d + 1) as nat));
                        } else {
                            assert(reaches(store, kids, before, steps_before as nat, d));
                            lemma_last(store, before, d, m);
                            assert(settles_one(store, c@, d));
                            assert(settles(store, before, d));
                            lemma_deeper(
                                store,
                                kids,
                                (d + steps_before) as nat,
                                (d + steps) as nat,
                                m,
                            );
                        }
                    }
                }
            }
        }
        proof {
            assert(settles(store, keys_of(queue@), 0));
            assert(reaches(store, kids, keys_of(queue@), steps as nat, 0));
            assert(tracks(store, kids, keys_of(queue@), total as nat, steps as nat, m, steps as nat));
            lemma_any_depth(store, kids, steps as nat);
            assert(tally(store, keys_of(queue@), steps as nat, m) == 0);
        }
        Some(total)
    }
}

/// Calls `num_cpus::get`, which gives the number of logical processors that
/// this process may use. Nothing is claimed of the number: it depends on the
/// machine.
#[verifier::external_body]
fn processors() -> (n: usize) {
    num_cpus::get()
}

/// The number of workers to schedule for on this machine: `workers_for` of
/// the processors counted. It differs between machines and is at least 1.
fn worker_count() -> (n: usize)
    ensures
        n >= 1,
{
    workers_for(processors())
}

/// The number of workers to schedule for where `processors` processors were
/// counted: one for each, and one where none was counted.
pub fn workers_for(processors: usize) -> (n: usize)
    ensures
        n == if processors == 0 {
            1
        } else {
            processors
        },
{
    if processors == 0 {
        1
    } else {
        processors
    }
}

/// At depth `depth` the walk is on track: where unfolding from `kids` has
/// reached the leaves, so has unfolding from the stack, and the sum so far
/// and the steps so far with what the stack still holds make up the whole.
spec fn tracks(
    store: Map<Seq<char>, EntryView>,
    kids: Seq<Seq<char>>,
    stack: Seq<Seq<char>>,
    total: nat,
    steps: nat,
    m: Measure,
    depth: nat,
) -> bool {
    settles(store, kids, depth) ==> settles(store, stack, depth) && total + tally(
        store,
        stack,
        depth,
        m,
    ) == tally(store, kids, depth, m) && steps + tally(store, stack, depth, Measure::Steps)
        == tally(store, kids, depth, Measure::Steps)
}

/// Where unfolding from the stack reaches the leaves at `depth`, unfolding
/// from `kids` reaches them no more than `steps` levels further down.
spec fn reaches(
    store: Map<Seq<char>, EntryView>,
    kids: Seq<Seq<char>>,
    stack: Seq<Seq<char>>,
    steps: nat,
    depth: nat,
) -> bool {
    settles(store, stack, depth) ==> settles(store, kids, (depth + steps) as nat)
}

/// A task that was taken from what waits is one of the keys that are still
/// to do, and without it the keys to do are what waits now.
proof fn lemma_take(
    todo: Seq<String>,
    task: String,
    before: Multiset<String>,
    after: Multiset<String>,
) -> (j: int)
    requires
        todo.to_multiset() == before,
        before == after.insert(task),
    ensures
        0 <= j < todo.len(),
        todo[j] == task,
        todo.remove(j).to_multiset() == after,
{
    broadcast use vstd::multiset::group_multiset_axioms;

    todo.to_multiset_ensures();
    assert(before.count(task) > 0);
    assert(todo.contains(task));
    let j = choose|j: int| 0 <= j < todo.len() && todo[j] == task;
    assert(todo.remove(j).to_multiset() =~= before.remove(task));
    assert(before.remove(task) =~= after);
    j
}

/// What one key measures: nothing where the store does not hold it, else
/// what its entry weighs and, for a directory, what its children measure one
/// level further down.
proof fn lemma_one(store: Map<Seq<char>, EntryView>, key: Seq<char>, depth: nat, m: Measure)
    ensures
        tally_one(store, key, depth, m) == if !store.contains_key(key) {
            absent_weight(m)
        } else if store[key].is_dir && depth > 0 {
            weight(m, store[key]) + tally(store, store[key].children, (depth - 1) as nat, m)
        } else {
            weight(m, store[key])
        },
{
}

/// The same items, the last one first.
fn reversed<T>(v: Vec<T>) -> (r: Vec<T>)
    ensures
        r@ == v@.reverse(),
{
    let mut v = v;
    let ghost all = v@;
    let mut r: Vec<T> = Vec::new();
    while v.len() > 0
        invariant
            r@.len() + v@.len() == all.len(),
            forall|i: int| 0 <= i < v@.len() ==> v@[i] == all[i],
            forall|i: int| 0 <= i < r@.len() ==> r@[i] == all[all.len() - 1 - i],
        decreases v.len(),
    {
        let x = v.pop().unwrap();
        r.push(x);
    }
    assert(r@ =~= all.reverse());
    r
}

/// A stack that is not empty measures what its last key measures and what
/// the keys under it measure.
proof fn lemma_last(store: Map<Seq<char>, EntryView>, keys: Seq<Seq<char>>, depth: nat, m: Measure)
    requires
        keys.len() > 0,
    ensures
        settles(store, keys, depth) == (settles(store, keys.drop_last(), depth) && settles_one(
            store,
            keys.last(),
            depth,
        )),
        tally(store, keys, depth, m) == tally(store, keys.drop_last(), depth, m) + tally_one(
            store,
            keys.last(),
            depth,
            m,
        ),
        tally_one(store, keys.last(), depth, m) == if !store.contains_key(keys.last()) {
            absent_weight(m)
        } else if store[keys.last()].is_dir && depth > 0 {
            weight(m, store[keys.last()]) + tally(
                store,
                store[keys.last()].children,
                (depth - 1) as nat,
                m,
            )
        } else {
            weight(m, store[keys.last()])
        },
{
}

/// Putting the children of a directory in its place on the stack keeps the
/// stack settled and takes from its measure what the directory itself weighs.
proof fn lemma_unfold(
    store: Map<Seq<char>, EntryView>,
    rest: Seq<Seq<char>>,
    key: Seq<char>,
    depth: nat,
    m: Measure,
)
    requires
        store.contains_key(key),
        store[key].is_dir,
        settles(store, rest, depth),
        settles_one(store, key, depth),
    ensures
        settles(store, rest + store[key].children, depth),
        tally(store, rest + store[key].children, depth, m) + weight(m, store[key]) == tally(
            store,
            rest,
            depth,
            m,
        ) + tally_one(store, key, depth, m),
{
    let below = store[key].children;
    lemma_deeper(store, below, (depth - 1) as nat, depth, m);
    lemma_concat(store, rest, below, depth, m);
}

} // verus!
