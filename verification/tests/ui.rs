use drfs::{
    Entry, EntryWrapper, Key, Listing, NameProbe, PathInfo, Scheduler, Stat, Timestamp, UIEntry,
};

fn info(path: &str, name: &str, is_dir: bool, size: u64) -> PathInfo {
    PathInfo {
        path: path.to_string(),
        name: NameProbe::Name(name.to_string()),
        is_dir,
        stat: Ok(Stat {
            size,
            accessed: Timestamp::Unavailable("not supported".to_string()),
            modified: Timestamp::Unavailable("not supported".to_string()),
            created: Timestamp::Unavailable("not supported".to_string()),
        }),
    }
}

fn listing_of(path: &str) -> Listing {
    match path {
        "/home" => Ok(vec![
            Ok(info("/home/docs", "docs", true, 0)),
            Ok(info("/home/notes", "notes", false, 7)),
            Ok(info("/home/pics", "pics", true, 0)),
        ]),
        "/home/docs" => Ok(vec![Ok(info("/home/docs/cv", "cv", false, 9))]),
        "/home/pics" => Ok(vec![]),
        _ => Err("not a directory".to_string()),
    }
}

fn loaded() -> UIEntry {
    let mut ui = UIEntry::new(&info("/home", "home", true, 0)).unwrap();
    let mut wrapper: EntryWrapper = ui.take_entry().unwrap();
    let mut queue: Scheduler<Entry> = Scheduler::new(1);
    wrapper.load_all_children(&listing_of("/home"), &mut queue);
    while let Some(task) = queue.find_task(0) {
        let listing = listing_of(&task.get_format_path());
        wrapper.expand(task, &listing, &mut queue);
        queue.finish_task(0);
    }
    ui.put_entry(wrapper);
    ui
}

#[test]
fn an_empty_browser_shows_nothing() {
    let mut ui = UIEntry::new_empty();
    assert_eq!(ui.get_name(), "");
    assert_eq!(ui.get_number_children(), 0);
    assert_eq!(ui.get_children(), Vec::<String>::new());
    assert_eq!(ui.get_selected(), None);
    assert!(!ui.on_key(Key::Left));
    assert!(!ui.on_key(Key::Right));
    assert_eq!(ui.get_selected(), None);
    assert!(!ui.on_key(Key::Down));
    assert_eq!(ui.get_selected(), Some(0));
    assert!(!ui.on_key(Key::Down));
    assert_eq!(ui.get_selected(), Some(0));
    assert!(!ui.on_key(Key::Up));
    assert_eq!(ui.get_selected(), Some(0));
}

#[test]
fn the_selection_wraps_around() {
    let mut ui = loaded();
    assert_eq!(ui.get_number_children(), 3);
    ui.on_key(Key::Down);
    assert_eq!(ui.get_selected(), Some(0));
    ui.on_key(Key::Down);
    assert_eq!(ui.get_selected(), Some(1));
    ui.on_key(Key::Down);
    assert_eq!(ui.get_selected(), Some(2));
    ui.on_key(Key::Down);
    assert_eq!(ui.get_selected(), Some(0));
    ui.on_key(Key::Up);
    assert_eq!(ui.get_selected(), Some(2));
    ui.on_key(Key::Up);
    assert_eq!(ui.get_selected(), Some(1));
}

#[test]
fn right_goes_into_the_selection_and_left_comes_back() {
    let mut ui = loaded();
    ui.on_key(Key::Right);
    assert_eq!(ui.get_name(), "home");
    ui.on_key(Key::Down);
    ui.on_key(Key::Right);
    assert_eq!(ui.get_name(), "docs");
    assert_eq!(ui.get_selected(), None);
    assert_eq!(ui.get_children(), vec!["/home/docs/cv".to_string()]);
    ui.on_key(Key::Down);
    ui.on_key(Key::Right);
    assert_eq!(ui.get_name(), "cv");
    assert_eq!(ui.get_number_children(), 0);
    ui.on_key(Key::Left);
    assert_eq!(ui.get_name(), "docs");
    // the root itself is not in the store: going up from below it changes nothing
    ui.on_key(Key::Down);
    ui.on_key(Key::Left);
    assert_eq!(ui.get_name(), "docs");
    assert_eq!(ui.get_selected(), None);
}

#[test]
fn the_command_is_typed_edited_and_run() {
    let mut ui = loaded();
    for ch in "quit".chars() {
        assert!(!ui.on_key(Key::Char(ch)));
    }
    assert_eq!(ui.get_command(), "quit");
    assert!(!ui.on_key(Key::Backspace));
    assert_eq!(ui.get_command(), "qui");
    assert!(!ui.on_key(Key::Char('\n')));
    assert_eq!(ui.get_command(), "");
    assert!(!ui.on_key(Key::Backspace));
    assert_eq!(ui.get_command(), "");
    for ch in "  exit \t".chars() {
        assert!(!ui.on_key(Key::Char(ch)));
    }
    assert!(!ui.on_key(Key::Other));
    assert!(ui.on_key(Key::Char('\n')));
    assert_eq!(ui.get_command(), "  exit \t");
}

#[test]
fn only_the_word_itself_leaves() {
    assert!(drfs::ui::parse_command(&"exit".to_string()));
    assert!(!drfs::ui::parse_command(&"exit ".to_string()));
    assert!(!drfs::ui::parse_command(&"Exit".to_string()));
    assert!(!drfs::ui::parse_command(&"".to_string()));
}

#[test]
fn replacing_the_entry_keeps_the_rest() {
    let mut ui = loaded();
    ui.on_key(Key::Down);
    ui.on_key(Key::Char('x'));
    assert!(ui.replace_entry(&info("/other", "other", true, 0)).is_ok());
    assert_eq!(ui.get_name(), "other");
    assert_eq!(ui.get_selected(), Some(0));
    assert_eq!(ui.get_command(), "x");
    let mut bad = info("/", "", true, 0);
    bad.name = NameProbe::Missing;
    assert!(ui.replace_entry(&bad).is_err());
    assert_eq!(ui.get_name(), "other");
}
