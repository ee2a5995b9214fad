//! A file: a leaf of the tree.

use vstd::prelude::*;
use crate::entry::EntryView;
use crate::observe::{copy_opt_key, copy_timestamp, opt_key, EntryError, ErrorKind, NameProbe, PathInfo, Timestamp};

verus! {

#[derive(Debug)]
pub struct FileEntry {
    name: String,
    path: String,
    size: u64,
    last_access_time: Timestamp,
    last_modified_time: Timestamp,
    creation_time: Timestamp,
    parent: Option<String>,
}

impl View for FileEntry {
    type V = EntryView;

    closed spec fn view(&self) -> EntryView {
        EntryView {
            is_dir: false,
            name: self.name@,
            path: self.path@,
            size: self.size,
            size_all_children: 0,
            last_access_time: self.last_access_time,
            last_modified_time: self.last_modified_time,
            creation_time: self.creation_time,
            children: Seq::empty(),
            parent: opt_key(self.parent),
        }
    }
}

impl Clone for FileEntry {
    fn clone(&self) -> (r: Self)
        ensures
            r@ == self@,
    {
        FileEntry {
            name: self.name.clone(),
            path: self.path.clone(),
            size: self.size,
            last_access_time: copy_timestamp(&self.last_access_time),
            last_modified_time: copy_timestamp(&self.last_modified_time),
            creation_time: copy_timestamp(&self.creation_time),
            parent: copy_opt_key(&self.parent),
        }
    }
}

/// What capturing an observation as a file gives: the name is looked at
/// first, then the metadata.
pub open spec fn captured_file(info: PathInfo, parent: Option<Seq<char>>) -> Result<
    EntryView,
    (ErrorKind, Seq<char>),
> {
    match info.name {
        NameProbe::Missing => Err((ErrorKind::NameMissing, info.path@)),
        NameProbe::Undecodable => Err((ErrorKind::NameUndecodable, info.path@)),
        NameProbe::Name(name) => match info.stat {
            Err(reason) => Err((ErrorKind::Unreadable, reason@)),
            Ok(stat) => Ok(
                EntryView {
                    is_dir: false,
                    name: name@,
                    path: info.path@,
                    size: stat.size,
                    size_all_children: 0,
                    last_access_time: stat.accessed,
                    last_modified_time: stat.modified,
                    creation_time: stat.created,
                    children: Seq::empty(),
                    parent,
                },
            ),
        },
    }
}

impl FileEntry {
    /// A file is a leaf: it has no children and no aggregate size.
    pub proof fn lemma_is_file(&self)
        ensures
            !self@.is_dir,
            self@.children == Seq::<Seq<char>>::empty(),
            self@.size_all_children == 0,
    {
    }

    /// Captures an observation as a file below `parent`. Fails if the path has
    /// no readable name or its metadata could not be read; a timestamp that
    /// is unavailable is kept as such and fails nothing.
    pub fn new(info: &PathInfo, parent: Option<String>) -> (r: Result<FileEntry, EntryError>)
        ensures
            match (r, captured_file(*info, opt_key(parent))) {
                (Ok(f), Ok(v)) => f@ == v,
                (Err(e), Err(w)) => e.kind == w.0 && e.detail@ == w.1,
                _ => false,
            },
    {
        let name = match &info.name {
            NameProbe::Missing => {
                return Err(EntryError { kind: ErrorKind::NameMissing, detail: info.path.clone() });
            },
            NameProbe::Undecodable => {
                return Err(
                    EntryError { kind: ErrorKind::NameUndecodable, detail: info.path.clone() },
                );
            },
            NameProbe::Name(name) => name.clone(),
        };
        let stat = match &info.stat {
            Err(reason) => {
                return Err(EntryError { kind: ErrorKind::Unreadable, detail: reason.clone() });
            },
            Ok(stat) => stat,
        };
        let path = info.path.clone();
        Ok(
            FileEntry {
                name,
                path,
                size: stat.size,
                last_access_time: copy_timestamp(&stat.accessed),
                last_modified_time: copy_timestamp(&stat.modified),
                creation_time: copy_timestamp(&stat.created),
                parent,
            },
        )
    }

    pub fn get_size(&self) -> (r: u64)
        ensures
            r == self@.size,
    {
        self.size
    }

    /// The path of the file as text: its key.
    pub fn get_format_path(&self) -> (r: String)
        ensures
            r@ == self@.path,
    {
        self.path.clone()
    }

    pub fn get_name(&self) -> (r: String)
        ensures
            r@ == self@.name,
    {
        self.name.clone()
    }

    pub fn get_parent(&self) -> (r: Option<String>)
        ensures
            opt_key(r) == self@.parent,
    {
        copy_opt_key(&self.parent)
    }
}

} // verus!
