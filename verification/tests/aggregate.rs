use drfs::{
    DirEntry, Entry, EntryError, FileEntry, Listing, MemStorage, NameProbe, PathInfo, Scheduler,
    Stat, Storage, Timestamp,
};

fn info(path: &str, name: &str, is_dir: bool, size: u64) -> PathInfo {
    PathInfo {
        path: path.to_string(),
        name: NameProbe::Name(name.to_string()),
        is_dir,
        stat: Ok(Stat {
            size,
            accessed: Timestamp::At { secs: 10, nanos: 1 },
            modified: Timestamp::At { secs: 20, nanos: 2 },
            created: Timestamp::At { secs: 30, nanos: 3 },
        }),
    }
}

fn listing_of(path: &str) -> Listing {
    match path {
        "/top" => Ok(vec![
            Ok(info("/top/one", "one", false, 100)),
            Ok(info("/top/left", "left", true, 4096)),
            Ok(info("/top/right", "right", true, 4096)),
        ]),
        "/top/left" => Ok(vec![
            Ok(info("/top/left/two", "two", false, 200)),
            Ok(info("/top/left/deep", "deep", true, 4096)),
        ]),
        "/top/left/deep" => Ok(vec![
            Ok(info("/top/left/deep/three", "three", false, 300)),
            Ok(info("/top/left/deep/four", "four", false, 400)),
        ]),
        "/top/right" => Err("permission denied".to_string()),
        _ => Err("not a directory".to_string()),
    }
}

fn crawled() -> (DirEntry, Option<MemStorage>, Vec<EntryError>) {
    let mut root = DirEntry::new(&info("/top", "top", true, 4096), None).unwrap();
    let mut storage = Some(MemStorage::new());
    let mut queue: Scheduler<Entry> = Scheduler::new(2);
    let mut errors = root.load_all_children_with_storage(&mut storage, &listing_of("/top"), &mut queue);
    let mut worker = 0;
    while let Some(task) = queue.find_task(worker) {
        let listing = listing_of(&task.get_format_path());
        errors.extend(DirEntry::expand_task(task, &mut storage, &listing, &mut queue));
        queue.finish_task(worker);
        worker = 1 - worker;
    }
    (root, storage, errors)
}

#[test]
fn both_walks_count_the_same_files() {
    let (root, storage, errors) = crawled();
    assert_eq!(errors.len(), 1);
    let store = storage.as_ref();
    assert_eq!(root.count_entries(&store), 4);
    assert_eq!(root.count_entries_multi(&store), 4);
}

#[test]
fn both_walks_sum_the_same_bytes() {
    let (root, storage, _) = crawled();
    let store = storage.as_ref();
    assert_eq!(root.calculate_size_all_children(&store), 1000);
    assert_eq!(root.calculate_size_all_children_multi(&store), 1000);
}

#[test]
fn directories_add_nothing_by_themselves() {
    let (root, storage, _) = crawled();
    let store = storage.as_ref().unwrap();
    let right = match store.get(&"/top/right".to_string()).unwrap() {
        Entry::Dir(d) => d,
        Entry::File(_) => panic!("a directory was stored as a file"),
    };
    assert_eq!(right.get_size(), 4096);
    assert_eq!(right.get_size_all_children(), 0);
    assert_eq!(right.get_children_len(), 0);
    assert_eq!(right.count_entries(&Some(store)), 0);
    assert_eq!(right.calculate_size_all_children(&Some(store)), 0);
    assert_eq!(right.count_entries_multi(&Some(store)), 0);
    assert_eq!(right.calculate_size_all_children_multi(&Some(store)), 0);
    assert_eq!(root.get_size(), 4096);
}

#[test]
fn a_subtree_is_counted_from_its_own_directory() {
    let (_, storage, _) = crawled();
    let store = storage.as_ref().unwrap();
    let left = match store.get(&"/top/left".to_string()).unwrap() {
        Entry::Dir(d) => d,
        Entry::File(_) => panic!("a directory was stored as a file"),
    };
    assert_eq!(left.get_name(), "left");
    assert_eq!(left.get_format_path(), "/top/left");
    assert_eq!(left.get_parent(), Some("/top".to_string()));
    assert_eq!(
        left.get_children(),
        vec!["/top/left/two".to_string(), "/top/left/deep".to_string()]
    );
    assert_eq!(left.count_entries(&Some(store)), 3);
    assert_eq!(left.calculate_size_all_children(&Some(store)), 900);
    assert_eq!(left.count_entries_multi(&Some(store)), 3);
    assert_eq!(left.calculate_size_all_children_multi(&Some(store)), 900);
}

#[test]
fn the_order_of_the_children_does_not_matter() {
    let mut store = MemStorage::new();
    for (path, name, size) in [("/d/a", "a", 1u64), ("/d/b", "b", 2), ("/d/c", "c", 4)] {
        store.set(
            path.to_string(),
            Entry::new_with_parent(&info(path, name, false, size), Some("/d".to_string())).unwrap(),
        );
    }
    let forward: Listing = Ok(vec![
        Ok(info("/d/a", "a", false, 1)),
        Ok(info("/d/b", "b", false, 2)),
        Ok(info("/d/c", "c", false, 4)),
    ]);
    let backward: Listing = Ok(vec![
        Ok(info("/d/c", "c", false, 4)),
        Ok(info("/d/a", "a", false, 1)),
        Ok(info("/d/b", "b", false, 2)),
    ]);
    let mut first = DirEntry::new(&info("/d", "d", true, 0), None).unwrap();
    let mut second = DirEntry::new(&info("/d", "d", true, 0), None).unwrap();
    let (one, _) = first.get_load_children(&forward);
    let (two, _) = second.get_load_children(&backward);
    first.clone_children_to_current(&one);
    second.clone_children_to_current(&two);
    assert_ne!(first.get_children(), second.get_children());
    assert_eq!(first.count_entries(&Some(&store)), second.count_entries(&Some(&store)));
    assert_eq!(
        first.calculate_size_all_children(&Some(&store)),
        second.calculate_size_all_children(&Some(&store))
    );
    assert_eq!(first.calculate_size_all_children_multi(&Some(&store)), 7);
    assert_eq!(second.calculate_size_all_children_multi(&Some(&store)), 7);
}

#[test]
fn a_key_that_the_store_lacks_counts_for_nothing() {
    let store = MemStorage::new();
    let mut d = DirEntry::new(&info("/d", "d", true, 0), None).unwrap();
    let (children, errors) = d.get_load_children(&Ok(vec![Ok(info("/d/a", "a", false, 5))]));
    assert!(errors.is_empty());
    d.clone_children_to_current(&children);
    assert_eq!(d.get_children_len(), 1);
    assert_eq!(d.count_entries(&Some(&store)), 0);
    assert_eq!(d.calculate_size_all_children(&Some(&store)), 0);
    assert_eq!(d.count_entries_multi(&Some(&store)), 0);
    assert_eq!(d.count_entries::<MemStorage>(&None), 1);
    assert_eq!(d.count_entries_multi::<MemStorage>(&None), 1);
    assert_eq!(d.calculate_size_all_children::<MemStorage>(&None), 0);
    assert_eq!(d.calculate_size_all_children_multi::<MemStorage>(&None), 0);
}

#[test]
fn a_key_listed_twice_counts_twice() {
    let mut store = MemStorage::new();
    store.set(
        "/d/a".to_string(),
        Entry::new_with_parent(&info("/d/a", "a", false, 5), Some("/d".to_string())).unwrap(),
    );
    let mut d = DirEntry::new(&info("/d", "d", true, 0), None).unwrap();
    let twice: Listing = Ok(vec![Ok(info("/d/a", "a", false, 5)), Ok(info("/d/a", "a", false, 5))]);
    let (children, _) = d.get_load_children(&twice);
    d.clone_children_to_current(&children);
    assert_eq!(d.count_entries(&Some(&store)), 2);
    assert_eq!(d.calculate_size_all_children(&Some(&store)), 10);
}

#[test]
fn children_are_sorted_into_tasks_and_files() {
    let d = DirEntry::new(&info("/top", "top", true, 0), None).unwrap();
    let (children, errors) = d.get_load_children(&listing_of("/top"));
    assert!(errors.is_empty());
    assert_eq!(children.len(), 3);
    let mut queue: Scheduler<Entry> = Scheduler::new(1);
    let files = DirEntry::add_children_to_queue(children, &mut queue);
    assert_eq!(files.len(), 1);
    assert_eq!(files[0].get_format_path(), "/top/one");
    assert_eq!(files[0].get_parent(), Some("/top".to_string()));
    assert_eq!(queue.find_task(0).unwrap().get_format_path(), "/top/left");
    assert_eq!(queue.find_task(0).unwrap().get_format_path(), "/top/right");
    assert!(queue.find_task(0).is_none());
}

#[test]
fn an_entry_is_stored_only_where_there_is_a_store() {
    let entry = Entry::new(&info("/x", "x", false, 3)).unwrap();
    let mut none: Option<MemStorage> = None;
    DirEntry::store_entry(&mut none, "/x".to_string(), entry.clone());
    assert!(none.is_none());
    let mut some = Some(MemStorage::new());
    DirEntry::store_entry(&mut some, "/x".to_string(), entry);
    assert_eq!(some.unwrap().get(&"/x".to_string()).unwrap().get_size(), 3);
}

#[test]
fn an_entry_by_itself_knows_its_direct_children_only() {
    let f = Entry::new(&info("/x", "x", false, 3)).unwrap();
    assert_eq!(f.count_entries(), 1);
    assert_eq!(f.calculate_size(), 3);
    assert_eq!(f.get_children(), Vec::<String>::new());
    assert_eq!(f.get_children_len(), 0);
    let mut d = DirEntry::new(&info("/top", "top", true, 9), None).unwrap();
    let (children, _) = d.get_load_children(&listing_of("/top"));
    d.clone_children_to_current(&children);
    let e = Entry::Dir(d);
    assert_eq!(e.count_entries(), 3);
    assert_eq!(e.calculate_size(), 0);
    assert_eq!(e.get_size(), 9);
    assert_eq!(e.get_children_len(), 3);
}

#[test]
fn a_file_is_captured_with_what_was_observed() {
    let f = FileEntry::new(&info("/a/b.txt", "b.txt", false, 42), Some("/a".to_string())).unwrap();
    assert_eq!(f.get_name(), "b.txt");
    assert_eq!(f.get_format_path(), "/a/b.txt");
    assert_eq!(f.get_size(), 42);
    assert_eq!(f.get_parent(), Some("/a".to_string()));
    let copy = f.clone();
    assert_eq!(copy.get_name(), "b.txt");
    assert_eq!(copy.get_size(), 42);
}

#[test]
fn a_capture_fails_on_the_name_before_the_metadata() {
    let mut bad = info("/", "", true, 0);
    bad.name = NameProbe::Missing;
    bad.stat = Err("no metadata".to_string());
    let e = DirEntry::new(&bad, None).unwrap_err();
    assert_eq!(e.kind, drfs::ErrorKind::NameMissing);
    assert_eq!(e.detail, "/");
    bad.name = NameProbe::Undecodable;
    let e = FileEntry::new(&bad, None).unwrap_err();
    assert_eq!(e.kind, drfs::ErrorKind::NameUndecodable);
    bad.name = NameProbe::Name("x".to_string());
    let e = Entry::new(&bad).unwrap_err();
    assert_eq!(e.kind, drfs::ErrorKind::Unreadable);
    assert_eq!(e.detail, "no metadata");
}

#[test]
fn an_unavailable_timestamp_fails_nothing() {
    let mut i = info("/a", "a", false, 1);
    i.stat = Ok(Stat {
        size: 1,
        accessed: Timestamp::Unavailable("not supported".to_string()),
        modified: Timestamp::Unavailable("not supported".to_string()),
        created: Timestamp::Unavailable("not supported".to_string()),
    });
    assert!(Entry::new(&i).is_ok());
    i.is_dir = true;
    assert!(matches!(Entry::new(&i), Ok(Entry::Dir(_))));
}

#[test]
fn there_is_a_worker_even_where_no_processor_was_counted() {
    assert_eq!(drfs::dir::workers_for(0), 1);
    assert_eq!(drfs::dir::workers_for(1), 1);
    assert_eq!(drfs::dir::workers_for(8), 8);
    assert_eq!(drfs::dir::workers_for(usize::MAX), usize::MAX);
}
