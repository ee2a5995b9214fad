//! What one step of a crawl finds: the entries and the failures that the
//! listing of one directory gives, and where the entries go.

use vstd::prelude::*;
use crate::entry::{captured, Entry, EntryView};
use crate::observe::{EntryError, ErrorKind, PathInfo};

verus! {

/// The listing of one directory: an observation or a failure for each item,
/// in the order in which they came, or why the directory could not be listed.
pub type Listing = Result<Vec<Result<PathInfo, String>>, String>;

/// A failure as plain values: its kind and its detail.
pub type Failure = (ErrorKind, Seq<char>);

/// What a list of entries stands for.
pub open spec fn entry_views(entries: Seq<Entry>) -> Seq<EntryView> {
    Seq::new(entries.len(), |i: int| entries[i]@)
}

/// A list of failures as plain values.
pub open spec fn failures_of(errors: Seq<EntryError>) -> Seq<Failure> {
    Seq::new(errors.len(), |i: int| (errors[i].kind, errors[i].detail@))
}

/// The keys of a list of entries, in order.
pub open spec fn paths_of(entries: Seq<EntryView>) -> Seq<Seq<char>> {
    Seq::new(entries.len(), |i: int| entries[i].path)
}

/// The entries that the items of a listing give below `parent`, in order:
/// one for each item that was observed and could be captured.
pub open spec fn listed_entries(items: Seq<Result<PathInfo, String>>, parent: Seq<char>) -> Seq<
    EntryView,
>
    decreases items.len(),
{
    if items.len() == 0 {
        Seq::empty()
    } else {
        let rest = listed_entries(items.drop_last(), parent);
        match items.last() {
            Ok(info) => match captured(info, Some(parent)) {
                Ok(v) => rest.push(v),
                Err(_) => rest,
            },
            Err(_) => rest,
        }
    }
}

/// The failures that the items of a listing give below `parent`, in order:
/// one for each item that could not be listed or could not be captured.
pub open spec fn listed_failures(items: Seq<Result<PathInfo, String>>, parent: Seq<char>) -> Seq<
    Failure,
>
    decreases items.len(),
{
    if items.len() == 0 {
        Seq::empty()
    } else {
        let rest = listed_failures(items.drop_last(), parent);
        match items.last() {
            Ok(info) => match captured(info, Some(parent)) {
                Ok(_) => rest,
                Err(w) => rest.push(w),
            },
            Err(reason) => rest.push((ErrorKind::Unlistable, reason@)),
        }
    }
}

/// The entries that a listing gives below `parent`. A directory that could
/// not be listed gives none.
pub open spec fn found_entries(listing: Listing, parent: Seq<char>) -> Seq<EntryView> {
    match listing {
        Ok(items) => listed_entries(items@, parent),
        Err(_) => Seq::empty(),
    }
}

/// The failures that a listing gives below `parent`. A directory that could
/// not be listed gives that one failure.
pub open spec fn found_failures(listing: Listing, parent: Seq<char>) -> Seq<Failure> {
    match listing {
        Ok(items) => listed_failures(items@, parent),
        Err(reason) => seq![(ErrorKind::Unlistable, reason@)],
    }
}

/// The entries that listing a task gives: those of the listing where the
/// task is a directory, none where it is a file.
pub open spec fn task_entries(task: EntryView, listing: Listing) -> Seq<EntryView> {
    if task.is_dir {
        found_entries(listing, task.path)
    } else {
        Seq::empty()
    }
}

/// The failures that listing a task gives: those of the listing where the
/// task is a directory, none where it is a file.
pub open spec fn task_failures(task: EntryView, listing: Listing) -> Seq<Failure> {
    if task.is_dir {
        found_failures(listing, task.path)
    } else {
        Seq::empty()
    }
}

/// A task after its listing was taken in: a directory knows the keys of
/// what the listing gave, after those it knew; a file is as it was.
pub open spec fn expanded(task: EntryView, listing: Listing) -> EntryView {
    EntryView { children: task.children + paths_of(task_entries(task, listing)), ..task }
}

/// The directories among `entries` (or, with `dirs` false, the files), in order.
pub open spec fn pick(entries: Seq<EntryView>, dirs: bool) -> Seq<EntryView>
    decreases entries.len(),
{
    if entries.len() == 0 {
        Seq::empty()
    } else if entries.last().is_dir == dirs {
        pick(entries.drop_last(), dirs).push(entries.last())
    } else {
        pick(entries.drop_last(), dirs)
    }
}

/// The store after each of `entries` was put under its key, in order.
pub open spec fn put_all(store: Map<Seq<char>, EntryView>, entries: Seq<EntryView>) -> Map<
    Seq<char>,
    EntryView,
>
    decreases entries.len(),
{
    if entries.len() == 0 {
        store
    } else {
        put_all(store, entries.drop_last()).insert(entries.last().path, entries.last())
    }
}

} // verus!
