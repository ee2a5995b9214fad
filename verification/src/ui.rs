//! The state of the browser and what each key does to it. Drawing the state
//! and reading the keys is left to the caller.

use vstd::prelude::*;
use vstd::string::StringExecFns;
use crate::entry::{captured, navigated, EntryView, EntryWrapper};
use crate::observe::{keys_of, EntryError, PathInfo};

verus! {

/// A key that was pressed.
#[derive(Clone, Copy, Debug, PartialEq, Eq, Structural)]
pub enum Key {
    Char(char),
    Backspace,
    Left,
    Right,
    Down,
    Up,
    /// Any other key.
    Other,
}

/// The browser: the entry on show, the child that is selected, and the
/// command typed so far.
pub struct UIEntry {
    entry: Option<EntryWrapper>,
    selected: Option<usize>,
    command: String,
}

/// What a browser stands for.
pub struct UIEntryView {
    /// The entry on show, if there is one.
    pub entry: Option<EntryView>,
    /// What the store attached to it holds, if one is attached.
    pub store: Option<Map<Seq<char>, EntryView>>,
    /// The index of the selected child.
    pub selected: Option<usize>,
    /// The command typed so far.
    pub command: Seq<char>,
}

/// The text without the white space at its start and at its end, as
/// `str::trim` gives it.
pub uninterp spec fn trimmed(text: Seq<char>) -> Seq<char>;

impl UIEntryView {
    /// The number of children of the entry on show; 0 where nothing is on show.
    pub open spec fn number_children(self) -> nat {
        match self.entry {
            Some(e) => e.children.len(),
            None => 0,
        }
    }

    /// Left: the parent of the entry on show comes on show and nothing is
    /// selected. Nothing changes for a root.
    pub open spec fn after_left(self) -> Self {
        match self.entry {
            Some(e) => match e.parent {
                Some(p) => UIEntryView {
                    entry: Some(navigated(e, self.store, p)),
                    selected: None,
                    ..self
                },
                None => self,
            },
            None => self,
        }
    }

    /// Right: the selected child comes on show and nothing is selected.
    /// Nothing changes where no child is selected.
    pub open spec fn after_right(self) -> Self {
        match (self.selected, self.entry) {
            (Some(i), Some(e)) => if i < e.children.len() {
                UIEntryView {
                    entry: Some(navigated(e, self.store, e.children[i as int])),
                    selected: None,
                    ..self
                }
            } else {
                self
            },
            _ => self,
        }
    }

    /// Down: the next child is selected, the first one after the last and
    /// where none was selected.
    pub open spec fn after_down(self) -> Self {
        UIEntryView {
            selected: match self.selected {
                Some(s) => if s + 1 >= self.number_children() {
                    Some(0usize)
                } else {
                    Some((s + 1) as usize)
                },
                None => Some(0usize),
            },
            ..self
        }
    }

    /// Up: the child before is selected, the last one before the first, and
    /// the first one where none was selected or there are no children.
    pub open spec fn after_up(self) -> Self {
        UIEntryView {
            selected: match self.selected {
                Some(s) => if s > 0 {
                    Some((s - 1) as usize)
                } else if self.number_children() > 0 {
                    Some((self.number_children() - 1) as usize)
                } else {
                    Some(0usize)
                },
                None => Some(0usize),
            },
            ..self
        }
    }

    /// Whether a key ends the session: the end of a line does where the
    /// command typed so far, trimmed, is the word to leave.
    pub open spec fn leaves(self, key: Key) -> bool {
        key == Key::Char('\n') && trimmed(self.command) == "exit"@
    }

    /// The browser after a key. The end of a line that does not end the
    /// session empties the command; any other character is added to it, and
    /// a backspace takes its last character away.
    pub open spec fn after_key(self, key: Key) -> Self {
        match key {
            Key::Char(ch) => if ch == '\n' {
                if self.leaves(key) {
                    self
                } else {
                    UIEntryView { command: Seq::empty(), ..self }
                }
            } else {
                UIEntryView { command: self.command.push(ch), ..self }
            },
            Key::Backspace => if self.command.len() > 0 {
                UIEntryView { command: self.command.drop_last(), ..self }
            } else {
                self
            },
            Key::Left => self.after_left(),
            Key::Right => self.after_right(),
            Key::Down => self.after_down(),
            Key::Up => self.after_up(),
            Key::Other => self,
        }
    }
}

/// Calls `String::push`, which appends the character to the end of the text.
#[verifier::external_body]
fn push_char(text: &mut String, ch: char)
    ensures
        final(text)@ == old(text)@.push(ch),
{
    text.push(ch)
}

/// Calls `String::pop`, which removes the last character of the text and
/// returns it, or returns `None` and changes nothing where the text is empty.
#[verifier::external_body]
fn pop_char(text: &mut String) -> (r: Option<char>)
    ensures
        match r {
            Some(ch) => old(text)@.len() > 0 && ch == old(text)@.last() && final(text)@ == old(
                text,
            )@.drop_last(),
            None => old(text)@.len() == 0 && final(text)@ == old(text)@,
        },
{
    text.pop()
}

/// Calls `str::trim`, which gives the text without the white space at its
/// start and at its end. What counts as white space is left to it.
#[verifier::external_body]
fn trim(text: &String) -> (r: String)
    ensures
        r@ == trimmed(text@),
{
    text.trim().to_string()
}

/// Whether a command, trimmed already, is the word to leave.
pub fn parse_command(command: &String) -> (r: bool)
    ensures
        r == (command@ == "exit"@),
{
    let word = String::from_str("exit");
    *command == word
}

impl View for UIEntry {
    type V = UIEntryView;

    closed spec fn view(&self) -> UIEntryView {
        UIEntryView {
            entry: match self.entry {
                Some(w) => Some(w.shown()),
                None => None,
            },
            store: match self.entry {
                Some(w) => w.store(),
                None => None,
            },
            selected: self.selected,
            command: self.command@,
        }
    }
}

impl UIEntry {
    /// A browser with nothing on show.
    pub fn new_empty() -> (r: UIEntry)
        ensures
            r@ == (UIEntryView {
                entry: None,
                store: None,
                selected: None,
                command: Seq::empty(),
            }),
    {
        UIEntry { entry: None, selected: None, command: String::new() }
    }

    /// A browser that shows the root that `info` describes, with an empty
    /// store attached.
    pub fn new(info: &PathInfo) -> (r: Result<UIEntry, EntryError>)
        ensures
            match (r, captured(*info, None)) {
                (Ok(u), Ok(v)) => u@ == (UIEntryView {
                    entry: Some(v),
                    store: Some(Map::<Seq<char>, EntryView>::empty()),
                    selected: None,
                    command: Seq::empty(),
                }),
                (Err(e), Err(f)) => e.kind == f.0 && e.detail@ == f.1,
                _ => false,
            },
    {
        match EntryWrapper::new_with_memstorage(info) {
            Ok(entry) => Ok(UIEntry { entry: Some(entry), selected: None, command: String::new() }),
            Err(e) => Err(e),
        }
    }

    /// Shows the root that `info` describes instead, with an empty store
    /// attached. Where that fails nothing changes.
    pub fn replace_entry(&mut self, info: &PathInfo) -> (r: Result<(), EntryError>)
        ensures
            match (r, captured(*info, None)) {
                (Ok(_), Ok(v)) => final(self)@ == (UIEntryView {
                    entry: Some(v),
                    store: Some(Map::<Seq<char>, EntryView>::empty()),
                    ..old(self)@
                }),
                (Err(e), Err(f)) => e.kind == f.0 && e.detail@ == f.1 && final(self)@ == old(
                    self,
                )@,
                _ => false,
            },
    {
        match EntryWrapper::new_with_memstorage(info) {
            Ok(entry) => {
                self.entry = Some(entry);
                Ok(())
            },
            Err(e) => Err(e),
        }
    }

    /// Hands out the entry on show, to load what lies below it, and leaves
    /// nothing on show.
    pub fn take_entry(&mut self) -> (r: Option<EntryWrapper>)
        ensures
            final(self)@ == (UIEntryView { entry: None, store: None, ..old(self)@ }),
            match r {
                Some(w) => old(self)@.entry == Some(w.shown()) && old(self)@.store == w.store(),
                None => old(self)@.entry is None,
            },
    {
        self.entry.take()
    }

    /// Puts an entry on show.
    pub fn put_entry(&mut self, entry: EntryWrapper)
        ensures
            final(self)@ == (UIEntryView {
                entry: Some(entry.shown()),
                store: entry.store(),
                ..old(self)@
            }),
    {
        self.entry = Some(entry);
    }

    /// Goes up: see `UIEntryView::after_left`.
    pub fn replace_entry_with_parent(&mut self)
        ensures
            final(self)@ == old(self)@.after_left(),
    {
        match &mut self.entry {
            Some(entry) => match entry.get_parent() {
                Some(parent) => {
                    entry.replace_from_storage(&parent);
                    self.selected = None;
                },
                None => {},
            },
            None => {},
        }
    }

    /// Goes down into the selected child: see `UIEntryView::after_right`.
    pub fn replace_entry_at_selected(&mut self)
        ensures
            final(self)@ == old(self)@.after_right(),
    {
        match self.selected {
            Some(selected) => match &mut self.entry {
                Some(entry) => {
                    let children = entry.get_children();
                    if selected < children.len() {
                        entry.replace_from_storage(&children[selected]);
                        self.selected = None;
                    }
                },
                None => {},
            },
            None => {},
        }
    }

    /// The keys of the children of the entry on show; none where nothing is
    /// on show.
    pub fn get_children(&self) -> (r: Vec<String>)
        ensures
            keys_of(r@) == match self@.entry {
                Some(e) => e.children,
                None => Seq::empty(),
            },
    {
        match &self.entry {
            Some(entry) => entry.get_children(),
            None => {
                let r: Vec<String> = Vec::new();
                assert(keys_of(r@) =~= Seq::<Seq<char>>::empty());
                r
            },
        }
    }

    pub fn get_number_children(&self) -> (r: usize)
        ensures
            r == self@.number_children(),
    {
        match &self.entry {
            Some(entry) => entry.get_children_len(),
            None => 0,
        }
    }

    /// The name of the entry on show; empty where nothing is on show.
    pub fn get_name(&self) -> (r: String)
        ensures
            r@ == match self@.entry {
                Some(e) => e.name,
                None => Seq::empty(),
            },
    {
        match &self.entry {
            Some(entry) => entry.get_name(),
            None => String::new(),
        }
    }

    /// The index of the selected child.
    pub fn get_selected(&self) -> (r: Option<usize>)
        ensures
            r == self@.selected,
    {
        self.selected
    }

    /// The command typed so far.
    pub fn get_command(&self) -> (r: String)
        ensures
            r@ == self@.command,
    {
        self.command.clone()
    }

    /// Takes in a key and says whether it ends the session: see
    /// `UIEntryView::after_key` and `UIEntryView::leaves`.
    pub fn on_key(&mut self, key: Key) -> (exit: bool)
        ensures
            exit == old(self)@.leaves(key),
            final(self)@ == old(self)@.after_key(key),
    {
        match key {
            Key::Char(ch) => {
                if ch == '\n' {
                    let typed = trim(&self.command);
                    if parse_command(&typed) {
                        return true;
                    }
                    self.command = String::new();
                } else {
                    push_char(&mut self.command, ch);
                }
            },
            Key::Backspace => {
                let _ = pop_char(&mut self.command);
            },
            Key::Left => {
                self.replace_entry_with_parent();
            },
            Key::Right => {
                self.replace_entry_at_selected();
            },
            Key::Down => {
                let n = self.get_number_children();
                self.selected = match self.selected {
                    Some(s) => if s >= n || s + 1 >= n {
                        Some(0)
                    } else {
                        Some(s + 1)
                    },
                    None => Some(0),
                };
            },
            Key::Up => {
                let n = self.get_number_children();
                self.selected = match self.selected {
                    Some(s) => if s > 0 {
                        Some(s - 1)
                    } else if n > 0 {
                        Some(n - 1)
                    } else {
                        Some(0)
                    },
                    None => Some(0),
                };
            },
            Key::Other => {},
        }
        false
    }
}

} // verus!
