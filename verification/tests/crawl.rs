use drfs::{
    Entry, EntryError, EntryWrapper, ErrorKind, Listing, NameProbe, PathInfo, Scheduler, Stat,
    Timestamp,
};

fn stat(size: u64) -> Stat {
    Stat {
        size,
        accessed: Timestamp::At { secs: 1, nanos: 0 },
        modified: Timestamp::At { secs: 2, nanos: 500 },
        created: Timestamp::Unavailable("not supported".to_string()),
    }
}

fn name_of(path: &str) -> String {
    match path.rfind('/') {
        Some(i) => path[i + 1..].to_string(),
        None => path.to_string(),
    }
}

fn file(path: &str, size: u64) -> Result<PathInfo, String> {
    Ok(PathInfo {
        path: path.to_string(),
        name: NameProbe::Name(name_of(path)),
        is_dir: false,
        stat: Ok(stat(size)),
    })
}

fn dir(path: &str) -> Result<PathInfo, String> {
    Ok(PathInfo {
        path: path.to_string(),
        name: NameProbe::Name(name_of(path)),
        is_dir: true,
        stat: Ok(stat(4096)),
    })
}

fn root(path: &str) -> PathInfo {
    PathInfo {
        path: path.to_string(),
        name: NameProbe::Name(name_of(path)),
        is_dir: true,
        stat: Ok(stat(4096)),
    }
}

fn crawl(
    wrapper: &mut EntryWrapper,
    root: &str,
    tree: fn(&str) -> Listing,
    workers: usize,
) -> (Vec<EntryError>, Vec<String>) {
    let mut queue: Scheduler<Entry> = Scheduler::new(workers);
    let mut expanded: Vec<String> = Vec::new();
    assert!(wrapper.can_load());
    let mut errors = wrapper.load_all_children(&tree(root), &mut queue);
    let mut worker = 0;
    while !queue.is_quiescent() {
        if let Some(task) = queue.find_task(worker) {
            let key = task.get_format_path();
            errors.extend(wrapper.expand(task, &tree(&key), &mut queue));
            expanded.push(key);
            queue.finish_task(worker);
        }
        worker = (worker + 1) % workers;
    }
    (errors, expanded)
}

fn tree_two_files_one_empty_dir(path: &str) -> Listing {
    match path {
        "/r" => Ok(vec![file("/r/a", 10), dir("/r/sub"), file("/r/b", 20)]),
        "/r/sub" => Ok(vec![]),
        _ => Err(format!("no such directory: {}", path)),
    }
}

fn tree_nested_file(path: &str) -> Listing {
    match path {
        "/r" => Ok(vec![dir("/r/sub")]),
        "/r/sub" => Ok(vec![file("/r/sub/f", 5)]),
        _ => Err(format!("no such directory: {}", path)),
    }
}

fn tree_locked_dir(path: &str) -> Listing {
    match path {
        "/r" => Ok(vec![dir("/r/locked"), file("/r/f", 3)]),
        "/r/locked" => Err("permission denied".to_string()),
        _ => Err(format!("no such directory: {}", path)),
    }
}

fn tree_deep(path: &str) -> Listing {
    match path {
        "/r" => Ok(vec![dir("/r/a"), dir("/r/b"), file("/r/x", 1), dir("/r/c")]),
        "/r/a" => Ok(vec![dir("/r/a/a"), file("/r/a/y", 2), dir("/r/a/b")]),
        "/r/a/a" => Ok(vec![file("/r/a/a/z", 4)]),
        "/r/a/b" => Ok(vec![]),
        "/r/b" => Ok(vec![file("/r/b/u", 8), file("/r/b/v", 16), Err("unreadable item".to_string())]),
        "/r/c" => Ok(vec![dir("/r/c/d")]),
        "/r/c/d" => Ok(vec![dir("/r/c/d/e")]),
        "/r/c/d/e" => Ok(vec![file("/r/c/d/e/w", 32)]),
        _ => Err(format!("no such directory: {}", path)),
    }
}

#[test]
fn two_files_and_an_empty_directory() {
    let mut w = EntryWrapper::new_with_memstorage(&root("/r")).unwrap();
    let (errors, _) = crawl(&mut w, "/r", tree_two_files_one_empty_dir, 2);
    assert!(errors.is_empty());
    assert_eq!(w.count_entries(), 2);
    assert_eq!(w.calculate_size(), 30);
    assert_eq!(w.get_children(), vec!["/r/a".to_string(), "/r/sub".to_string(), "/r/b".to_string()]);
    assert_eq!(w.get_children_len(), 3);
}

#[test]
fn one_file_in_a_subdirectory() {
    let mut w = EntryWrapper::new_with_memstorage(&root("/r")).unwrap();
    let (errors, expanded) = crawl(&mut w, "/r", tree_nested_file, 3);
    assert!(errors.is_empty());
    assert_eq!(expanded, vec!["/r/sub".to_string()]);
    assert_eq!(w.count_entries(), 1);
    assert_eq!(w.calculate_size(), 5);
}

#[test]
fn a_directory_that_cannot_be_listed() {
    let mut w = EntryWrapper::new_with_memstorage(&root("/r")).unwrap();
    let (errors, _) = crawl(&mut w, "/r", tree_locked_dir, 2);
    assert_eq!(errors.len(), 1);
    assert_eq!(errors[0].kind, ErrorKind::Unlistable);
    assert_eq!(errors[0].detail, "permission denied");
    assert_eq!(w.count_entries(), 1);
    assert_eq!(w.calculate_size(), 3);
}

#[test]
fn every_directory_is_expanded_exactly_once() {
    for workers in 1..6 {
        let mut w = EntryWrapper::new_with_memstorage(&root("/r")).unwrap();
        let (errors, mut expanded) = crawl(&mut w, "/r", tree_deep, workers);
        assert_eq!(errors.len(), 1);
        assert_eq!(errors[0].kind, ErrorKind::Unlistable);
        assert_eq!(errors[0].detail, "unreadable item");
        expanded.sort();
        assert_eq!(
            expanded,
            vec![
                "/r/a".to_string(),
                "/r/a/a".to_string(),
                "/r/a/b".to_string(),
                "/r/b".to_string(),
                "/r/c".to_string(),
                "/r/c/d".to_string(),
                "/r/c/d/e".to_string(),
            ]
        );
        assert_eq!(w.count_entries(), 6);
        assert_eq!(w.calculate_size(), 63);
    }
}

#[test]
fn the_number_of_workers_does_not_change_what_is_found() {
    let mut one = EntryWrapper::new_with_memstorage(&root("/r")).unwrap();
    let mut four = EntryWrapper::new_with_memstorage(&root("/r")).unwrap();
    let (_, mut by_one) = crawl(&mut one, "/r", tree_deep, 1);
    let (_, mut by_four) = crawl(&mut four, "/r", tree_deep, 4);
    by_one.sort();
    by_four.sort();
    assert_eq!(by_one, by_four);
    assert_eq!(one.count_entries(), four.count_entries());
    assert_eq!(one.calculate_size(), four.calculate_size());
    for key in by_one {
        one.replace_from_storage(&key);
        four.replace_from_storage(&key);
        assert_eq!(one.get_name(), four.get_name());
        assert_eq!(one.get_children(), four.get_children());
    }
}

#[test]
fn a_loaded_directory_cannot_be_loaded_again() {
    let mut w = EntryWrapper::new_with_memstorage(&root("/r")).unwrap();
    assert!(w.can_load());
    crawl(&mut w, "/r", tree_nested_file, 1);
    assert!(!w.can_load());
}

#[test]
fn an_empty_directory_stays_loadable() {
    let mut w = EntryWrapper::new_with_memstorage(&root("/r/sub")).unwrap();
    crawl(&mut w, "/r/sub", tree_two_files_one_empty_dir, 1);
    assert!(w.can_load());
    assert_eq!(w.count_entries(), 0);
    assert_eq!(w.calculate_size(), 0);
}

#[test]
fn without_a_store_only_direct_children_are_known() {
    let mut w = EntryWrapper::new(&root("/r")).unwrap();
    let mut queue: Scheduler<Entry> = Scheduler::new(1);
    let errors = w.load_all_children(&tree_deep("/r"), &mut queue);
    assert!(errors.is_empty());
    assert_eq!(w.count_entries(), 4);
    assert_eq!(w.calculate_size(), 0);
    w.replace_from_storage(&"/r/a".to_string());
    assert_eq!(w.get_name(), "r");
}

#[test]
fn a_file_on_show_counts_itself() {
    let info = file("/r/f", 77).unwrap();
    let mut w = EntryWrapper::new_with_memstorage(&info).unwrap();
    assert!(w.can_load());
    let mut queue: Scheduler<Entry> = Scheduler::new(1);
    let errors = w.load_all_children(&Ok(vec![file("/r/f/x", 1)]), &mut queue);
    assert!(errors.is_empty());
    assert!(queue.is_quiescent());
    assert_eq!(w.count_entries(), 1);
    assert_eq!(w.calculate_size(), 77);
    assert_eq!(w.get_children_len(), 0);
    assert_eq!(w.get_parent(), None);
}

#[test]
fn navigation_goes_down_and_up() {
    let mut w = EntryWrapper::new_with_memstorage(&root("/r")).unwrap();
    crawl(&mut w, "/r", tree_deep, 2);
    w.replace_from_storage(&"/r/a".to_string());
    assert_eq!(w.get_name(), "a");
    assert_eq!(w.get_parent(), Some("/r".to_string()));
    assert_eq!(
        w.get_children(),
        vec!["/r/a/a".to_string(), "/r/a/y".to_string(), "/r/a/b".to_string()]
    );
    assert_eq!(w.count_entries(), 2);
    assert_eq!(w.calculate_size(), 6);
    w.replace_from_storage(&"/r/a/a".to_string());
    assert_eq!(w.get_name(), "a");
    assert_eq!(w.get_parent(), Some("/r/a".to_string()));
    w.replace_from_storage(&"/r/a".to_string());
    assert_eq!(w.get_children_len(), 3);
    w.replace_from_storage(&"/nowhere".to_string());
    assert_eq!(w.get_name(), "a");
}

#[test]
fn an_item_without_a_name_is_reported_and_skipped() {
    let mut w = EntryWrapper::new_with_memstorage(&root("/r")).unwrap();
    let mut queue: Scheduler<Entry> = Scheduler::new(1);
    let listing: Listing = Ok(vec![
        Ok(PathInfo {
            path: "/r/..".to_string(),
            name: NameProbe::Missing,
            is_dir: true,
            stat: Ok(stat(1)),
        }),
        Ok(PathInfo {
            path: "/r/\u{fffd}".to_string(),
            name: NameProbe::Undecodable,
            is_dir: false,
            stat: Ok(stat(1)),
        }),
        Ok(PathInfo {
            path: "/r/gone".to_string(),
            name: NameProbe::Name("gone".to_string()),
            is_dir: false,
            stat: Err("vanished".to_string()),
        }),
        file("/r/kept", 9),
    ]);
    let errors = w.load_all_children(&listing, &mut queue);
    assert_eq!(errors.len(), 3);
    assert_eq!(errors[0].kind, ErrorKind::NameMissing);
    assert_eq!(errors[0].detail, "/r/..");
    assert_eq!(errors[1].kind, ErrorKind::NameUndecodable);
    assert_eq!(errors[1].detail, "/r/\u{fffd}");
    assert_eq!(errors[2].kind, ErrorKind::Unreadable);
    assert_eq!(errors[2].detail, "vanished");
    assert_eq!(w.get_children(), vec!["/r/kept".to_string()]);
    assert_eq!(w.count_entries(), 1);
    assert_eq!(w.calculate_size(), 9);
}

#[test]
fn a_store_with_a_cycle_is_not_walked_for_ever() {
    fn tree(path: &str) -> Listing {
        match path {
            "/r" => Ok(vec![dir("/r/a"), file("/r/f", 1)]),
            "/r/a" => Ok(vec![dir("/r/a"), file("/r/f", 1)]),
            _ => Err("no such directory".to_string()),
        }
    }
    let mut w = EntryWrapper::new_with_memstorage(&root("/r")).unwrap();
    let mut queue: Scheduler<Entry> = Scheduler::new(1);
    w.load_all_children(&tree("/r"), &mut queue);
    let task = queue.find_task(0).unwrap();
    w.expand(task, &tree("/r/a"), &mut queue);
    assert_eq!(w.try_count_entries(1000), None);
    assert_eq!(w.try_calculate_size(1000), None);
}

#[test]
fn a_walk_needs_one_step_for_each_key() {
    let mut w = EntryWrapper::new_with_memstorage(&root("/r")).unwrap();
    crawl(&mut w, "/r", tree_deep, 2);
    // 7 directories and 6 files lie below the root
    assert_eq!(w.try_count_entries(13), Some(6));
    assert_eq!(w.try_calculate_size(13), Some(63));
    assert_eq!(w.try_count_entries(12), None);
    assert_eq!(w.try_calculate_size(12), None);
    assert_eq!(w.try_count_entries(usize::MAX), Some(6));
    let plain = EntryWrapper::new(&root("/r")).unwrap();
    assert_eq!(plain.try_count_entries(0), Some(0));
    assert_eq!(plain.try_calculate_size(0), Some(0));
    let single = EntryWrapper::new_with_memstorage(&file("/r/f", 8).unwrap()).unwrap();
    assert_eq!(single.try_count_entries(0), Some(1));
    assert_eq!(single.try_calculate_size(0), Some(8));
}

#[test]
fn a_sum_that_does_not_fit_is_refused() {
    fn tree(path: &str) -> Listing {
        match path {
            "/r" => Ok(vec![file("/r/a", u64::MAX), file("/r/b", 1)]),
            _ => Err("no such directory".to_string()),
        }
    }
    let mut w = EntryWrapper::new_with_memstorage(&root("/r")).unwrap();
    crawl(&mut w, "/r", tree, 1);
    assert_eq!(w.try_count_entries(10), Some(2));
    assert_eq!(w.try_calculate_size(10), None);
}
