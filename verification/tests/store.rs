use drfs::{Entry, MemStorage, NameProbe, PathInfo, Stat, Storage, Timestamp};

fn entry(path: &str, name: &str, is_dir: bool, size: u64) -> Entry {
    let info = PathInfo {
        path: path.to_string(),
        name: NameProbe::Name(name.to_string()),
        is_dir,
        stat: Ok(Stat {
            size,
            accessed: Timestamp::Unavailable("not supported".to_string()),
            modified: Timestamp::At { secs: 7, nanos: 9 },
            created: Timestamp::Unavailable("not supported".to_string()),
        }),
    };
    Entry::new_with_parent(&info, Some("/r".to_string())).unwrap()
}

#[test]
fn set_then_get_returns_the_value() {
    let mut store = MemStorage::new();
    store.set("/r/a".to_string(), entry("/r/a", "a", false, 12));
    let got = store.get(&"/r/a".to_string()).unwrap();
    assert_eq!(got.get_name(), "a");
    assert_eq!(got.get_format_path(), "/r/a");
    assert_eq!(got.get_size(), 12);
    assert_eq!(got.get_parent(), Some("/r".to_string()));
    assert!(matches!(got, Entry::File(_)));
    assert!(store.get(&"/r/b".to_string()).is_none());
}

#[test]
fn the_last_writer_wins() {
    let mut store = MemStorage::new();
    store.set("/r/a".to_string(), entry("/r/a", "a", false, 12));
    store.set("/r/a".to_string(), entry("/r/a", "a", true, 13));
    let got = store.get(&"/r/a".to_string()).unwrap();
    assert_eq!(got.get_size(), 13);
    assert!(matches!(got, Entry::Dir(_)));
}

#[test]
fn pull_out_removes_and_returns() {
    let mut store = MemStorage::new();
    store.set("/r/a".to_string(), entry("/r/a", "a", false, 12));
    store.set("/r/b".to_string(), entry("/r/b", "b", false, 1));
    let got = store.pull_out(&"/r/a".to_string()).unwrap();
    assert_eq!(got.get_size(), 12);
    assert!(store.get(&"/r/a".to_string()).is_none());
    assert!(store.pull_out(&"/r/a".to_string()).is_none());
    assert_eq!(store.get(&"/r/b".to_string()).unwrap().get_size(), 1);
}

#[test]
fn remove_deletes() {
    let mut store = MemStorage::new();
    store.set("/r/a".to_string(), entry("/r/a", "a", false, 12));
    store.set("/r/b".to_string(), entry("/r/b", "b", false, 1));
    store.remove(&"/r/a".to_string());
    assert!(store.get(&"/r/a".to_string()).is_none());
    store.remove(&"/r/a".to_string());
    assert_eq!(store.get(&"/r/b".to_string()).unwrap().get_size(), 1);
}

#[test]
fn a_copy_is_independent_of_the_store() {
    let mut store = MemStorage::new();
    store.set("/r/a".to_string(), entry("/r/a", "a", false, 12));
    let got = store.get(&"/r/a".to_string()).unwrap();
    store.remove(&"/r/a".to_string());
    assert_eq!(got.get_size(), 12);
    assert_eq!(got.get_name(), "a");
}
