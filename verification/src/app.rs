//! The editor application: the file being edited, its editor, and the prompt or
//! message on the status line, driven by key and resize events.
//!
//! Reading and writing files is left to the caller: where an event needs it, the
//! handler returns an `Action`, and the caller reports the outcome back with
//! `finish_open`, `finish_save` or `finish_save_as`.
use vstd::prelude::*;
use vstd::string::StrSliceExecFns;
use vstd::string::StringExecFns;
use vstd::string::StringSliceAdditionalSpecFns;
use vstd::utf8::*;

use crate::editor::{
    down_pref, down_target, line_deletion, scroll_axis, up_pref, up_target, visible_text, Editor,
};
use crate::line_ending::{
    crlf_to_lf, crlf_to_lf_bytes, detect_line_ending, last_newline, lemma_crlf_to_lf_encode,
    lemma_crlf_undoes_lf, lemma_lf_to_crlf_encode, lemma_lf_to_crlf_ending, read_chars,
    lf_to_crlf, lf_to_crlf_chars, spec_line_ending, LineEnding,
};
use crate::lines::{
    char_column, line_end, line_number, line_start, next_b, nth_line_start, prev_b, word_left,
    word_right,
};
use crate::message::{Message, MessageKind};
use crate::prompt::{label_text, Prompt, PromptKind};
use crate::std_calls::char_to_string;

verus! {

broadcast use vstd::seq::group_seq_axioms;

/// The columns between the line numbers and the text: ` | `.
pub const GUTTER_MARGIN: usize = 3;

/// A key, as far as the editor tells keys apart.
#[derive(Debug, PartialEq, Eq, Structural, Clone, Copy)]
pub enum Key {
    Char(char),
    F(u8),
    Esc,
    Enter,
    Tab,
    Backspace,
    Delete,
    Home,
    End,
    Up,
    Down,
    Left,
    Right,
    Other,
}

/// A key event: the key, whether Control was held, and whether it is a press (as
/// opposed to a release or a repeat).
#[derive(Debug, PartialEq, Eq, Structural, Clone, Copy)]
pub struct KeyInput {
    pub code: Key,
    pub control: bool,
    pub press: bool,
}

/// What the terminal reports.
#[derive(Debug, PartialEq, Eq, Structural, Clone, Copy)]
pub enum Event {
    Key(KeyInput),
    /// The terminal's new size: columns, then rows.
    Resize(u16, u16),
    Other,
}

/// What the caller has to do after an event.
#[derive(Debug)]
pub enum Action {
    Continue,
    Quit,
    /// Write these contents to the current file, then call `finish_save`.
    Save(String),
    /// Read the file at this path, then call `finish_open`.
    Open(String),
    /// Write these contents (second) to this path (first), then call `finish_save_as`.
    SaveAs(String, String),
}

/// What a key does to the editor when no prompt is open.
#[derive(Debug, PartialEq, Eq, Structural, Clone, Copy)]
pub enum EditorCommand {
    OpenPrompt,
    Save,
    DeleteLine,
    SaveAsPrompt,
    Quit,
    Newline,
    Indent,
    DeleteBack,
    DeleteForward,
    Insert(char),
    HomeFull,
    EndFull,
    Home,
    End,
    Up,
    Down,
    WordLeft,
    WordRight,
    Left,
    Right,
    Nothing,
}

/// The command bound to a key: Control with `o`, `s` or `x` opens, saves or deletes
/// the line; F2 saves under a new name; Escape quits; Enter and Tab insert a line
/// break and four spaces; any other character is inserted; Control with Home, End,
/// Left or Right moves to the start or end of the text or by words.
pub open spec fn editor_command(k: KeyInput) -> EditorCommand {
    match k.code {
        Key::Char(c) => if k.control && c == 'o' {
            EditorCommand::OpenPrompt
        } else if k.control && c == 's' {
            EditorCommand::Save
        } else if k.control && c == 'x' {
            EditorCommand::DeleteLine
        } else {
            EditorCommand::Insert(c)
        },
        Key::F(n) => if n == 2 {
            EditorCommand::SaveAsPrompt
        } else {
            EditorCommand::Nothing
        },
        Key::Esc => EditorCommand::Quit,
        Key::Enter => EditorCommand::Newline,
        Key::Tab => EditorCommand::Indent,
        Key::Backspace => EditorCommand::DeleteBack,
        Key::Delete => EditorCommand::DeleteForward,
        Key::Home => if k.control {
            EditorCommand::HomeFull
        } else {
            EditorCommand::Home
        },
        Key::End => if k.control {
            EditorCommand::EndFull
        } else {
            EditorCommand::End
        },
        Key::Up => EditorCommand::Up,
        Key::Down => EditorCommand::Down,
        Key::Left => if k.control {
            EditorCommand::WordLeft
        } else {
            EditorCommand::Left
        },
        Key::Right => if k.control {
            EditorCommand::WordRight
        } else {
            EditorCommand::Right
        },
        Key::Other => EditorCommand::Nothing,
    }
}

/// The bytes of four spaces.
pub open spec fn indent_bytes() -> Seq<u8> {
    seq![32u8, 32u8, 32u8, 32u8]
}

/// What a command does to the editor's text, cursor and kept column; the view
/// never changes, and commands that are not edits leave the editor as it was.
pub open spec fn editor_effect(cmd: EditorCommand, a: Editor, b: Editor) -> bool {
    let t = a.content();
    let c = a.spec_cursor();
    let moved = |target: int, pref: Option<usize>|
        b.content() == t && b.spec_cursor() == target && b.spec_preferred_col() == pref;
    &&& b.wf()
    &&& b.spec_viewport() == a.spec_viewport()
    &&& match cmd {
        EditorCommand::Newline => b.content() == t.take(c) + seq![10u8] + t.skip(c)
            && b.spec_cursor() == c + 1 && b.spec_preferred_col() is None,
        EditorCommand::Indent => b.content() == t.take(c) + indent_bytes() + t.skip(c)
            && b.spec_cursor() == c + 4 && b.spec_preferred_col() is None,
        EditorCommand::Insert(ch) => b.content() == t.take(c) + encode_scalar(ch as u32) + t.skip(
            c,
        ) && b.spec_cursor() == c + encode_scalar(ch as u32).len() && b.spec_preferred_col() is None,
        EditorCommand::DeleteBack => if c == 0 {
            moved(0, a.spec_preferred_col())
        } else {
            b.content() == t.take(prev_b(t, c)) + t.skip(c) && b.spec_cursor() == prev_b(t, c)
                && b.spec_preferred_col() is None
        },
        EditorCommand::DeleteForward => b.content() == t.take(c) + t.skip(next_b(t, c))
            && b.spec_cursor() == c && b.spec_preferred_col() == a.spec_preferred_col(),
        EditorCommand::DeleteLine => b.content() == t.take(line_deletion(t, c).0) + t.skip(
            line_deletion(t, c).1,
        ) && b.spec_cursor() == line_deletion(t, c).0 && b.spec_preferred_col() is None,
        EditorCommand::HomeFull => moved(0, None),
        EditorCommand::EndFull => moved(t.len() as int, None),
        EditorCommand::Home => moved(line_start(t, c), None),
        EditorCommand::End => moved(line_end(t, c), None),
        EditorCommand::Up => moved(
            up_target(t, c, a.spec_preferred_col()),
            up_pref(t, c, a.spec_preferred_col()),
        ),
        EditorCommand::Down => moved(
            down_target(t, c, a.spec_preferred_col()),
            down_pref(t, c, a.spec_preferred_col()),
        ),
        EditorCommand::WordLeft => moved(word_left(t, c), a.spec_preferred_col()),
        EditorCommand::WordRight => moved(word_right(t, c), a.spec_preferred_col()),
        EditorCommand::Left => moved(prev_b(t, c), None),
        EditorCommand::Right => moved(next_b(t, c), None),
        _ => b == a,
    }
}

/// What a key does to an open prompt.
#[derive(Debug, PartialEq, Eq, Structural, Clone, Copy)]
pub enum PromptCommand {
    Cancel,
    Submit,
    DeleteBack,
    DeleteForward,
    Insert(char),
    Home,
    End,
    Left,
    Right,
    Nothing,
}

/// The command bound to a key while a prompt is open.
pub open spec fn prompt_command(k: KeyInput) -> PromptCommand {
    match k.code {
        Key::Esc => PromptCommand::Cancel,
        Key::Enter => PromptCommand::Submit,
        Key::Backspace => PromptCommand::DeleteBack,
        Key::Delete => PromptCommand::DeleteForward,
        Key::Char(c) => PromptCommand::Insert(c),
        Key::Home => PromptCommand::Home,
        Key::End => PromptCommand::End,
        Key::Left => PromptCommand::Left,
        Key::Right => PromptCommand::Right,
        _ => PromptCommand::Nothing,
    }
}

/// What an editing command does to the prompt's input and cursor; its kind and view
/// never change.
pub open spec fn prompt_effect(cmd: PromptCommand, a: Prompt, b: Prompt) -> bool {
    let t = a.content();
    let c = a.spec_cursor();
    &&& b.wf()
    &&& b.spec_kind() == a.spec_kind()
    &&& b.spec_viewport() == a.spec_viewport()
    &&& match cmd {
        PromptCommand::DeleteBack => if c == 0 {
            b.content() == t && b.spec_cursor() == 0
        } else {
            b.content() == t.take(prev_b(t, c)) + t.skip(c) && b.spec_cursor() == prev_b(t, c)
        },
        PromptCommand::DeleteForward => b.content() == t.take(c) + t.skip(next_b(t, c))
            && b.spec_cursor() == c,
        PromptCommand::Insert(ch) => b.content() == t.take(c) + encode_scalar(ch as u32) + t.skip(
            c,
        ) && b.spec_cursor() == c + encode_scalar(ch as u32).len(),
        PromptCommand::Home => b.content() == t && b.spec_cursor() == 0,
        PromptCommand::End => b.content() == t && b.spec_cursor() == t.len(),
        PromptCommand::Left => b.content() == t && b.spec_cursor() == prev_b(t, c),
        PromptCommand::Right => b.content() == t && b.spec_cursor() == next_b(t, c),
        _ => b == a,
    }
}

/// The decimal digit `d` as a character.
pub open spec fn digit_char(d: nat) -> char {
    ((48 + d) as u8) as char
}

/// The decimal numeral of `n`.
pub open spec fn decimal(n: nat) -> Seq<char>
    decreases n,
{
    if n < 10 {
        seq![digit_char(n)]
    } else {
        decimal(n / 10) + seq![digit_char(n % 10)]
    }
}

/// `n` spaces.
pub open spec fn spaces(n: nat) -> Seq<char> {
    Seq::new(n, |i: int| ' ')
}

/// `a - b`, or 0 when `b` is larger.
pub open spec fn sat_sub(a: int, b: int) -> nat {
    if a >= b {
        (a - b) as nat
    } else {
        0
    }
}

/// The status line for a file called `name` with the cursor at `pos`, in `cols`
/// columns: the name (cut from the front to leave room for the position), padding,
/// and the position at the right end.
pub open spec fn fit_status(name: Seq<char>, pos: Seq<char>, cols: nat) -> Seq<char> {
    let shown = if name.len() + pos.len() > cols {
        name.skip(sat_sub(name.len() as int, sat_sub(cols as int, pos.len() as int) as int) as int)
    } else {
        name
    };
    shown + spaces(sat_sub(cols as int, (shown.len() + pos.len()) as int)) + pos
}

/// One line of the text area: the line number right-aligned to `width`, the margin,
/// the line, and a line break for the terminal.
pub open spec fn numbered_line(num: nat, width: nat, line: Seq<char>) -> Seq<char> {
    spaces(sat_sub(width as int, decimal(num).len() as int)) + decimal(num) + " | "@ + line
        + "\r\n"@
}

/// Where to put the terminal's cursor.
#[derive(Debug, PartialEq, Eq, Structural, Clone, Copy)]
pub enum CursorTarget {
    /// Show it at this column and row.
    Show(usize, usize),
    Hide,
}

pub struct App {
    path: Option<String>,
    editor: Editor,
    line_ending: LineEnding,
    prompt: Option<Prompt>,
    message: Option<Message>,
    terminal_rows: usize,
    terminal_cols: usize,
}

impl App {
    /// The name of the file being edited, if it has one.
    pub closed spec fn spec_path(self) -> Option<Seq<char>> {
        match self.path {
            Some(p) => Some(p@),
            None => None,
        }
    }

    pub closed spec fn spec_editor(self) -> Editor {
        self.editor
    }

    pub closed spec fn spec_line_ending(self) -> LineEnding {
        self.line_ending
    }

    pub closed spec fn spec_prompt(self) -> Option<Prompt> {
        self.prompt
    }

    pub closed spec fn spec_message(self) -> Option<Message> {
        self.message
    }

    /// The terminal's size: columns, then rows.
    pub closed spec fn spec_terminal(self) -> (usize, usize) {
        (self.terminal_cols, self.terminal_rows)
    }

    /// The editor and the prompt are well-formed and the terminal's size fits a `u16`.
    pub open spec fn wf(self) -> bool {
        &&& self.spec_editor().wf()
        &&& (self.spec_prompt() matches Some(p) ==> p.wf())
        &&& self.spec_terminal().0 <= u16::MAX
        &&& self.spec_terminal().1 <= u16::MAX
    }

    /// There is room in the editor and the prompt to insert a few more bytes.
    pub open spec fn spec_has_room(self) -> bool {
        &&& self.spec_editor().content().len() + 20 <= isize::MAX
        &&& (self.spec_prompt() matches Some(p) ==> p.content().len() + 20 <= isize::MAX)
    }

    /// A new, empty buffer with no name.
    pub fn empty() -> (res: Self)
        ensures
            res.wf(),
            res.spec_path() is None,
            res.spec_editor().content() == Seq::<u8>::empty(),
            res.spec_editor().spec_cursor() == 0,
            res.spec_editor().spec_preferred_col() is None,
            res.spec_editor().spec_viewport() == (0usize, 0usize, 0usize, 0usize),
            res.spec_line_ending() == LineEnding::LF,
            res.spec_prompt() is None,
            res.spec_message() is None,
            res.spec_terminal() == (0usize, 0usize),
    {
        Self {
            path: None,
            editor: Editor::default(),
            line_ending: LineEnding::LF,
            prompt: None,
            message: None,
            terminal_rows: 0,
            terminal_cols: 0,
        }
    }

    /// The application for the file named `file.0`, given what reading it gave
    /// (`file.1`: its text or why it could not be read), or for a new buffer. A text
    /// whose last line break is `\r\n` has its `\r\n` turned into `\n` and is saved
    /// back with `\r\n`; a file that could not be read gives an empty buffer under its
    /// name, with a message saying why.
    pub fn new(file: Option<(String, Result<String, String>)>) -> (res: Self)
        requires
            file matches Some((_, Ok(text))) ==> text@.len() + 16 <= isize::MAX && encode_utf8(
                text@,
            ).len() + 16 <= isize::MAX,
        ensures
            res.wf(),
            res.spec_prompt() is None,
            res.spec_terminal() == (0usize, 0usize),
            res.spec_editor().spec_cursor() == 0,
            res.spec_editor().spec_preferred_col() is None,
            res.spec_editor().spec_viewport() == (0usize, 0usize, 0usize, 0usize),
            match file {
                None => res.spec_path() is None && res.spec_editor().content() == Seq::<u8>::empty()
                    && res.spec_line_ending() == LineEnding::LF && res.spec_message() is None,
                Some((p, Ok(text))) => res.spec_path() == Some(p@) && res.spec_editor().content()
                    == encode_utf8(read_chars(text@)) && res.spec_line_ending()
                    == spec_line_ending(encode_utf8(text@)) && res.spec_message() is None,
                Some((p, Err(e))) => res.spec_path() == Some(p@) && res.spec_editor().content()
                    == Seq::<u8>::empty() && res.spec_line_ending() == LineEnding::LF && (
                res.spec_message() matches Some(m) && m.spec_kind() == MessageKind::FailedOpen
                    && m.spec_info() == e@),
            },
    {
        match file {
            None => Self::empty(),
            Some((p, Ok(text))) => Self::load(p, text),
            Some((p, Err(e))) => {
                let mut a = Self::empty();
                a.path = Some(p);
                a.message = Some(Message::new(e.as_str(), MessageKind::FailedOpen));
                a
            },
        }
    }

    /// The application for `text` read from the file named `path`.
    fn load(path: String, text: String) -> (res: Self)
        requires
            encode_utf8(text@).len() + 16 <= isize::MAX,
        ensures
            res.wf(),
            res.spec_path() == Some(path@),
            res.spec_editor().content() == encode_utf8(read_chars(text@)),
            res.spec_editor().spec_cursor() == 0,
            res.spec_editor().spec_preferred_col() is None,
            res.spec_editor().spec_viewport() == (0usize, 0usize, 0usize, 0usize),
            res.spec_line_ending() == spec_line_ending(encode_utf8(text@)),
            res.spec_prompt() is None,
            res.spec_message() is None,
            res.spec_terminal() == (0usize, 0usize),
    {
        let line_ending = detect_line_ending(text.as_str());
        let body = match line_ending {
            LineEnding::CRLF => crlf_to_lf(text.as_str()),
            LineEnding::LF => text,
        };
        proof {
            lemma_crlf_to_lf_encode(text@);
            lemma_crlf_len(encode_utf8(text@));
        }
        Self {
            path: Some(path),
            editor: Editor::from_text(body.as_str()),
            line_ending,
            prompt: None,
            message: None,
            terminal_rows: 0,
            terminal_cols: 0,
        }
    }

    fn set_prompt(&mut self, prompt: Prompt)
        ensures
            final(self).spec_prompt() == Some(prompt),
            final(self).spec_path() == old(self).spec_path(),
            final(self).spec_editor() == old(self).spec_editor(),
            final(self).spec_line_ending() == old(self).spec_line_ending(),
            final(self).spec_message() == old(self).spec_message(),
            final(self).spec_terminal() == old(self).spec_terminal(),
    {
        self.prompt = Some(prompt);
    }

    fn set_message(&mut self, message: Message)
        ensures
            final(self).spec_message() == Some(message),
            final(self).spec_path() == old(self).spec_path(),
            final(self).spec_editor() == old(self).spec_editor(),
            final(self).spec_line_ending() == old(self).spec_line_ending(),
            final(self).spec_prompt() == old(self).spec_prompt(),
            final(self).spec_terminal() == old(self).spec_terminal(),
    {
        self.message = Some(message);
    }

    fn remove_prompt(&mut self)
        ensures
            final(self).spec_prompt() is None,
            final(self).spec_path() == old(self).spec_path(),
            final(self).spec_editor() == old(self).spec_editor(),
            final(self).spec_line_ending() == old(self).spec_line_ending(),
            final(self).spec_message() == old(self).spec_message(),
            final(self).spec_terminal() == old(self).spec_terminal(),
    {
        self.prompt = None;
    }

    fn remove_message(&mut self)
        ensures
            final(self).spec_message() is None,
            final(self).spec_path() == old(self).spec_path(),
            final(self).spec_editor() == old(self).spec_editor(),
            final(self).spec_line_ending() == old(self).spec_line_ending(),
            final(self).spec_prompt() == old(self).spec_prompt(),
            final(self).spec_terminal() == old(self).spec_terminal(),
    {
        self.message = None;
    }

    /// The name of the file being edited, if it has one.
    pub fn path(&self) -> (res: Option<&String>)
        ensures
            match res {
                Some(p) => self.spec_path() == Some(p@),
                None => self.spec_path() is None,
            },
    {
        match &self.path {
            Some(p) => Some(p),
            None => None,
        }
    }

    /// The editor.
    pub fn editor(&self) -> (res: &Editor)
        ensures
            *res == self.spec_editor(),
    {
        &self.editor
    }

    /// The terminal's size: columns, then rows.
    pub fn terminal_size(&self) -> (res: (usize, usize))
        ensures
            res == self.spec_terminal(),
    {
        (self.terminal_cols, self.terminal_rows)
    }

    /// The prompt, while one is open.
    pub fn prompt(&self) -> (res: Option<&Prompt>)
        ensures
            match res {
                Some(p) => self.spec_prompt() == Some(*p),
                None => self.spec_prompt() is None,
            },
    {
        match &self.prompt {
            Some(p) => Some(p),
            None => None,
        }
    }

    /// The text to write to the file: the editor's text, with `\r\n` for each line
    /// break when the file used `\r\n`.
    pub fn contents(&self) -> (res: String)
        requires
            self.wf(),
        ensures
            res@ == match self.spec_line_ending() {
                LineEnding::LF => decode_utf8(self.spec_editor().content()),
                LineEnding::CRLF => lf_to_crlf_chars(decode_utf8(self.spec_editor().content())),
            },
    {
        let text = self.editor.text();
        match self.line_ending {
            LineEnding::LF => text,
            LineEnding::CRLF => lf_to_crlf(text.as_str()),
        }
    }

    /// Reports how writing the current file went: a message that it was saved under
    /// its name, or why it was not.
    pub fn finish_save(&mut self, result: Result<(), String>)
        requires
            old(self).spec_path() is Some,
        ensures
            final(self).spec_path() == old(self).spec_path(),
            final(self).spec_editor() == old(self).spec_editor(),
            final(self).spec_line_ending() == old(self).spec_line_ending(),
            final(self).spec_prompt() == old(self).spec_prompt(),
            final(self).spec_terminal() == old(self).spec_terminal(),
            final(self).spec_message() matches Some(m) && match result {
                Ok(()) => m.spec_kind() == MessageKind::Saved && m.spec_info()
                    == old(self).spec_path()->0,
                Err(e) => m.spec_kind() == MessageKind::FailedSave && m.spec_info() == e@,
            },
    {
        match result {
            Ok(()) => {
                let m = match &self.path {
                    Some(p) => Message::new(p.as_str(), MessageKind::Saved),
                    None => Message::new("", MessageKind::Saved),
                };
                self.set_message(m);
            },
            Err(e) => {
                self.set_message(Message::new(e.as_str(), MessageKind::FailedSave));
            },
        }
    }

    /// Reports how writing under the name `path` went: on success the file takes that
    /// name and a message says so; otherwise a message says why not.
    pub fn finish_save_as(&mut self, path: String, result: Result<(), String>)
        ensures
            final(self).spec_editor() == old(self).spec_editor(),
            final(self).spec_line_ending() == old(self).spec_line_ending(),
            final(self).spec_prompt() == old(self).spec_prompt(),
            final(self).spec_terminal() == old(self).spec_terminal(),
            match result {
                Ok(()) => final(self).spec_path() == Some(path@) && (final(self).spec_message() matches Some(
                    m,
                ) && m.spec_kind() == MessageKind::Saved && m.spec_info() == path@),
                Err(e) => final(self).spec_path() == old(self).spec_path() && (final(self).spec_message() matches Some(m) && m.spec_kind() == MessageKind::FailedSave
                    && m.spec_info() == e@),
            },
    {
        match result {
            Ok(()) => {
                let m = Message::new(path.as_str(), MessageKind::Saved);
                self.path = Some(path);
                self.set_message(m);
            },
            Err(e) => {
                self.set_message(Message::new(e.as_str(), MessageKind::FailedSave));
            },
        }
    }

    /// Reports what reading the file named `path` gave: the application then edits
    /// that file as `new` would set it up, keeping the terminal's size.
    pub fn finish_open(&mut self, path: String, read: Result<String, String>)
        requires
            old(self).wf(),
            read matches Ok(text) ==> text@.len() + 16 <= isize::MAX && encode_utf8(text@).len()
                + 16 <= isize::MAX,
        ensures
            final(self).wf(),
            final(self).spec_prompt() == old(self).spec_prompt(),
            final(self).spec_terminal() == old(self).spec_terminal(),
            final(self).spec_path() == Some(path@),
            final(self).spec_editor().spec_cursor() == 0,
            final(self).spec_editor().spec_preferred_col() is None,
            final(self).spec_editor().spec_viewport() == (0usize, 0usize, 0usize, 0usize),
            match read {
                Ok(text) => final(self).spec_editor().content() == encode_utf8(read_chars(text@)) && final(self).spec_line_ending() == spec_line_ending(encode_utf8(text@))
                    && final(self).spec_message() is None,
                Err(e) => final(self).spec_editor().content() == Seq::<u8>::empty()
                    && final(self).spec_line_ending() == LineEnding::LF && (final(self).spec_message() matches Some(m) && m.spec_kind() == MessageKind::FailedOpen
                    && m.spec_info() == e@),
            },
    {
        let new = Self::new(Some((path, read)));
        self.path = new.path;
        self.editor = new.editor;
        self.line_ending = new.line_ending;
        self.message = new.message;
    }

    /// Sets the terminal's size.
    pub fn set_terminal_size(&mut self, cols: u16, rows: u16)
        requires
            old(self).wf(),
        ensures
            final(self).wf(),
            final(self).spec_terminal() == (cols as usize, rows as usize),
            final(self).spec_path() == old(self).spec_path(),
            final(self).spec_editor() == old(self).spec_editor(),
            final(self).spec_line_ending() == old(self).spec_line_ending(),
            final(self).spec_prompt() == old(self).spec_prompt(),
            final(self).spec_message() == old(self).spec_message(),
    {
        self.terminal_rows = rows as usize;
        self.terminal_cols = cols as usize;
    }

    /// Fits the views to the terminal: the text area is as wide as the terminal less
    /// the line numbers and the margin, and one row shorter, leaving the status line.
    pub fn update_viewport(&mut self)
        requires
            old(self).wf(),
        ensures
            final(self).wf(),
            ({
                let margin = decimal(old(self).spec_editor().spec_line_count() as nat).len()
                    + GUTTER_MARGIN;
                let cols = sat_sub(old(self).spec_terminal().0 as int, margin as int);
                let rows = sat_sub(old(self).spec_terminal().1 as int, 1);
                &&& final(self).spec_editor().content() == old(self).spec_editor().content()
                &&& final(self).spec_editor().spec_cursor() == old(self).spec_editor().spec_cursor()
                &&& final(self).spec_editor().spec_preferred_col()
                    == old(self).spec_editor().spec_preferred_col()
                &&& final(self).spec_editor().spec_viewport() == (
                    old(self).spec_editor().spec_viewport().0,
                    old(self).spec_editor().spec_viewport().1,
                    cols as usize,
                    rows as usize,
                )
                &&& match old(self).spec_prompt() {
                    Some(p) => final(self).spec_prompt() matches Some(q) && q.chars() == p.chars()
                        && q.spec_kind() == p.spec_kind() && q.spec_cursor() == p.spec_cursor()
                        && q.spec_viewport() == (p.spec_viewport().0, sat_sub(
                        cols as int,
                        label_text(p.spec_kind()).len() as int,
                    ) as usize),
                    None => final(self).spec_prompt() is None,
                }
            }),
            final(self).spec_path() == old(self).spec_path(),
            final(self).spec_line_ending() == old(self).spec_line_ending(),
            final(self).spec_message() == old(self).spec_message(),
            final(self).spec_terminal() == old(self).spec_terminal(),
    {
        let gutter_width: usize = count_digits(self.editor.line_count());
        let margin: usize = gutter_width + GUTTER_MARGIN;
        let content_cols: usize = self.terminal_cols.saturating_sub(margin);
        let content_rows: usize = self.terminal_rows.saturating_sub(1);
        self.editor.set_viewport_size(content_cols, content_rows);
        match self.prompt.take() {
            Some(mut p) => {
                p.set_viewport_size(content_cols);
                self.prompt = Some(p);
            },
            None => {},
        }
    }

    /// The status line when neither a prompt nor a message is shown.
    pub open spec fn spec_default_status(self) -> Seq<char> {
        let t = self.spec_editor().content();
        let c = self.spec_editor().spec_cursor();
        let name = match self.spec_path() {
            Some(p) => p,
            None => "new"@,
        };
        let pos = decimal(line_number(t, c) + 1) + seq![':'] + decimal(char_column(t, c) + 1);
        fit_status(name, pos, self.spec_terminal().0 as nat)
    }

    /// The status line when neither a prompt nor a message is shown: the file's name
    /// (or `new`) and the cursor's line and column, counted from 1.
    pub fn default_status(&self) -> (res: String)
        requires
            self.wf(),
        ensures
            res@ == self.spec_default_status(),
    {
        let (col, row) = self.editor.cursor_pos();
        proof {
            self.lemma_cursor_pos_bound();
        }
        let name: String = match &self.path {
            Some(p) => String::from_str(p.as_str()),
            None => String::from_str("new"),
        };
        let mut pos = decimal_string(row + 1);
        pos.append(":");
        let col_str = decimal_string(col + 1);
        pos.append(col_str.as_str());
        proof {
            reveal_strlit(":");
        }
        let pos_len: usize = pos.as_str().unicode_len();
        let name_len: usize = name.as_str().unicode_len();
        let cols: usize = self.terminal_cols;
        proof {
            lemma_decimal_len((row + 1) as nat);
            lemma_decimal_len((col + 1) as nat);
        }
        let shown: String = if pos_len > cols || name_len > cols - pos_len {
            let keep: usize = cols.saturating_sub(pos_len);
            let skip: usize = name_len.saturating_sub(keep);
            String::from_str(name.as_str().substring_char(skip, name_len))
        } else {
            name
        };
        let shown_len: usize = shown.as_str().unicode_len();
        let padding: usize = cols.saturating_sub(shown_len + pos_len);
        let mut out = shown;
        append_spaces(&mut out, padding);
        out.append(pos.as_str());
        proof {
            assert(shown@.skip(0) =~= shown@);
        }
        out
    }

    /// The lines of the text area, each with its line number.
    pub fn editor_lines(&self) -> (res: Vec<String>)
        requires
            self.wf(),
        ensures
            ({
                let e = self.spec_editor();
                let (left, top, cols, rows) = e.spec_viewport();
                let width = decimal(e.spec_line_count() as nat).len();
                &&& res@.len() <= rows
                &&& forall|i: int|
                    0 <= i < res@.len() ==> (#[trigger] res@[i])@ == numbered_line(
                        (top + i + 1) as nat,
                        width,
                        visible_text(e.content(), (top + i) as nat, left as nat, cols as nat),
                    ) && nth_line_start(e.content(), (top + i) as nat) <= e.content().len()
                &&& res@.len() < rows ==> nth_line_start(e.content(), (top + res@.len()) as nat)
                    > e.content().len()
            }),
    {
        let lines = self.editor.visible_lines();
        let width: usize = count_digits(self.editor.line_count());
        let (_, v_top, _, _) = self.editor.viewport();
        let mut out: Vec<String> = Vec::new();
        let mut i: usize = 0;
        while i < lines.len()
            invariant
                self.wf(),
                i <= lines@.len(),
                lines@.len() <= self.spec_editor().spec_viewport().3,
                lines@.len() < self.spec_editor().spec_viewport().3 ==> nth_line_start(
                    self.spec_editor().content(),
                    (v_top + lines@.len()) as nat,
                ) > self.spec_editor().content().len(),
                v_top == self.spec_editor().spec_viewport().1,
                width == decimal(self.spec_editor().spec_line_count() as nat).len(),
                out@.len() == i,
                forall|k: int|
                    0 <= k < lines@.len() ==> crate::editor::shows_line(
                        self.spec_editor().content(),
                        (v_top + k) as nat,
                        self.spec_editor().spec_viewport().0 as nat,
                        self.spec_editor().spec_viewport().2 as nat,
                        (#[trigger] lines@[k])@,
                    ),
                forall|k: int|
                    0 <= k < i ==> (#[trigger] out@[k])@ == numbered_line(
                        (v_top + k + 1) as nat,
                        width as nat,
                        lines@[k]@,
                    ),
            decreases lines@.len() - i,
        {
            let num: usize = v_top + i + 1;
            let mut line = String::new();
            let digits = decimal_string(num);
            let dl: usize = digits.as_str().unicode_len();
            proof {
                lemma_decimal_len(num as nat);
            }
            append_spaces(&mut line, width.saturating_sub(dl));
            line.append(digits.as_str());
            line.append(" | ");
            line.append(lines[i].as_str());
            line.append("\r\n");
            let ghost before = out@;
            out.push(line);
            proof {
                assert(lines@[i as int] == lines[i as int]);
                assert forall|k: int| 0 <= k < i + 1 implies (#[trigger] out@[k])@ == numbered_line(
                    (v_top + k + 1) as nat,
                    width as nat,
                    lines@[k]@,
                ) by {
                    if k < i {
                        assert(out@[k] == before[k]);
                    }
                }
            }
            i = i + 1;
        }
        out
    }

    /// The status line, before it is cut to the terminal's width: the prompt, else the
    /// message, else the default status.
    pub fn status_text(&self) -> (res: String)
        requires
            self.wf(),
        ensures
            res@ == match self.spec_prompt() {
                Some(p) => p.shown_line(),
                None => match self.spec_message() {
                    Some(m) => message_text(m),
                    None => self.spec_default_status(),
                },
            },
    {
        match &self.prompt {
            Some(p) => p.visible_line(),
            None => match &self.message {
                Some(m) => m.text(),
                None => self.default_status(),
            },
        }
    }

    /// Where the terminal's cursor goes: after the prompt's input on the last row when a
    /// prompt is open; else at the editor's cursor, past the line numbers, when the view
    /// shows it; else hidden.
    pub fn cursor_target(&self) -> (res: CursorTarget)
        requires
            self.wf(),
            self.spec_prompt() matches Some(p) ==> p.spec_viewport().0 <= decode_utf8(
                p.content().take(p.spec_cursor()),
            ).len() + label_text(p.spec_kind()).len(),
        ensures
            match self.spec_prompt() {
                Some(p) => res == CursorTarget::Show(
                    (decode_utf8(p.content().take(p.spec_cursor())).len() + label_text(
                        p.spec_kind(),
                    ).len() - p.spec_viewport().0) as usize,
                    sat_sub(self.spec_terminal().1 as int, 1) as usize,
                ),
                None => {
                    let e = self.spec_editor();
                    let col = char_column(e.content(), e.spec_cursor());
                    let row = line_number(e.content(), e.spec_cursor());
                    let (left, top, cols, rows) = e.spec_viewport();
                    if left <= col < left + cols && top <= row < top + rows {
                        res == CursorTarget::Show(
                            (col - left + decimal(e.spec_line_count() as nat).len()
                                + GUTTER_MARGIN) as usize,
                            (row - top) as usize,
                        )
                    } else {
                        res == CursorTarget::Hide
                    }
                },
            },
    {
        match &self.prompt {
            Some(p) => {
                let col: usize = p.cursor_pos();
                let (v_left, _) = p.viewport();
                CursorTarget::Show(col - v_left, self.terminal_rows.saturating_sub(1))
            },
            None => {
                let (col, row) = self.editor.cursor_pos();
                proof {
                    self.lemma_cursor_pos_bound();
                }
                let (v_left, v_top, v_cols, v_rows) = self.editor.viewport();
                let visible = col >= v_left && col < v_left + v_cols && row >= v_top && row < v_top
                    + v_rows;
                if visible {
                    let gutter_width: usize = count_digits(self.editor.line_count());
                    proof {
                        lemma_decimal_len(self.spec_editor().spec_line_count() as nat);
                    }
                    CursorTarget::Show(col - v_left + gutter_width + GUTTER_MARGIN, row - v_top)
                } else {
                    CursorTarget::Hide
                }
            },
        }
    }

    /// Whether there is room to insert a few more bytes into the editor and the prompt.
    pub fn has_room(&self) -> (res: bool)
        requires
            self.wf(),
        ensures
            res == self.spec_has_room(),
    {
        let limit: usize = isize::MAX as usize;
        let editor_ok = self.editor.len() <= limit - 20;
        let prompt_ok = match &self.prompt {
            Some(p) => p.prompt().as_bytes().len() <= limit - 20,
            None => true,
        };
        proof {
            match self.spec_prompt() {
                Some(p) => {
                    encode_utf8_decode_utf8(p.chars());
                },
                None => {},
            }
        }
        editor_ok && prompt_ok
    }

    /// Handles an event: a key press goes to the prompt when one is open, else to the
    /// editor; a resize sets the terminal's size; anything else is ignored.
    pub fn handle_event(&mut self, event: Event) -> (res: Action)
        requires
            old(self).wf(),
            old(self).spec_has_room(),
        ensures
            final(self).wf(),
            match event {
                Event::Key(k) => if !k.press {
                    res is Continue && *final(self) == *old(self)
                } else if old(self).spec_prompt() is Some {
                    Self::prompt_key_handled(*old(self), *final(self), k, res)
                } else {
                    Self::editor_key_handled(*old(self), *final(self), k, res)
                },
                Event::Resize(cols, rows) => res is Continue && final(self).spec_terminal() == (
                    cols as usize,
                    rows as usize,
                ) && final(self).spec_editor() == old(self).spec_editor() && final(self).spec_prompt()
                    == old(self).spec_prompt() && final(self).spec_message()
                    == old(self).spec_message() && final(self).spec_path() == old(self).spec_path(),
                Event::Other => res is Continue && *final(self) == *old(self),
            },
    {
        match event {
            Event::Key(k) => {
                if k.press {
                    self.handle_keys(k)
                } else {
                    Action::Continue
                }
            },
            Event::Resize(cols, rows) => {
                self.set_terminal_size(cols, rows);
                Action::Continue
            },
            Event::Other => Action::Continue,
        }
    }

    /// What handling key `k` without a prompt did: the message is cleared and the key's
    /// command applied; saving a file that has a name asks the caller to write it.
    pub open spec fn editor_key_handled(a: App, b: App, k: KeyInput, res: Action) -> bool {
        let cmd = editor_command(k);
        &&& b.spec_message() is None
        &&& b.spec_path() == a.spec_path()
        &&& b.spec_line_ending() == a.spec_line_ending()
        &&& b.spec_terminal() == a.spec_terminal()
        &&& editor_effect(cmd, a.spec_editor(), b.spec_editor())
        &&& match cmd {
            EditorCommand::OpenPrompt => res is Continue && (b.spec_prompt() matches Some(p)
                && p.spec_kind() == PromptKind::Open && p.chars().len() == 0),
            EditorCommand::SaveAsPrompt => res is Continue && (b.spec_prompt() matches Some(p)
                && p.spec_kind() == PromptKind::SaveAs && p.chars().len() == 0),
            EditorCommand::Save => match a.spec_path() {
                Some(_) => b.spec_prompt() is None && (res matches Action::Save(s) && s@ == Self::spec_contents(a)),
                None => res is Continue && (b.spec_prompt() matches Some(p) && p.spec_kind()
                    == PromptKind::SaveAs && p.chars().len() == 0),
            },
            EditorCommand::Quit => res is Quit && b.spec_prompt() is None,
            _ => res is Continue && b.spec_prompt() is None,
        }
    }

    /// What handling key `k` with a prompt open did: Escape closes the prompt, Enter
    /// submits it, and the other keys edit it.
    pub open spec fn prompt_key_handled(a: App, b: App, k: KeyInput, res: Action) -> bool {
        let cmd = prompt_command(k);
        let p = a.spec_prompt()->0;
        &&& b.spec_editor() == a.spec_editor()
        &&& b.spec_line_ending() == a.spec_line_ending()
        &&& b.spec_terminal() == a.spec_terminal()
        &&& b.spec_path() == a.spec_path()
        &&& b.spec_message() == a.spec_message()
        &&& match cmd {
            PromptCommand::Cancel => res is Continue && b.spec_prompt() is None,
            PromptCommand::Submit => b.spec_prompt() is None && match p.spec_kind() {
                PromptKind::Open => res matches Action::Open(s) && s@ == p.chars(),
                PromptKind::SaveAs => res matches Action::SaveAs(s, c) && s@ == p.chars() && c@
                    == Self::spec_contents(a),
            },
            _ => res is Continue && (b.spec_prompt() matches Some(q) && prompt_effect(cmd, p, q)),
        }
    }

    /// The text that saving writes.
    pub open spec fn spec_contents(a: App) -> Seq<char> {
        match a.spec_line_ending() {
            LineEnding::LF => decode_utf8(a.spec_editor().content()),
            LineEnding::CRLF => lf_to_crlf_chars(decode_utf8(a.spec_editor().content())),
        }
    }

    /// Saving and then opening the file again gives back the text being edited, and its
    /// line ending too when the text has a line break. Left out: a text edited with `\n`
    /// whose last line break follows a `\r`, which reads back as a `\r\n` file.
    pub proof fn lemma_save_then_open(a: App)
        requires
            a.wf(),
            a.spec_line_ending() == LineEnding::LF ==> spec_line_ending(a.spec_editor().content())
                == LineEnding::LF,
        ensures
            encode_utf8(read_chars(Self::spec_contents(a))) == a.spec_editor().content(),
            last_newline(a.spec_editor().content()) is Some ==> spec_line_ending(
                encode_utf8(Self::spec_contents(a)),
            ) == a.spec_line_ending(),
    {
        let t = a.spec_editor().content();
        let d = decode_utf8(t);
        decode_utf8_encode_utf8(t);
        match a.spec_line_ending() {
            LineEnding::LF => {},
            LineEnding::CRLF => {
                lemma_lf_to_crlf_encode(d);
                lemma_lf_to_crlf_ending(t);
                lemma_crlf_undoes_lf(d);
            },
        }
    }

    /// With no prompt open, the Up key (without Control) moves the cursor to the line
    /// above, unless it is on the first line, and the Down key to the line below, unless
    /// it is on the last; the text stays as it was. `a` is the application before the key
    /// and `b` after it, as `handle_event` describes them.
    pub proof fn lemma_arrow_keys_move_by_lines(a: App, b: App, k: KeyInput, res: Action)
        requires
            a.wf(),
            a.spec_prompt() is None,
            !k.control,
            Self::editor_key_handled(a, b, k, res),
        ensures
            ({
                let t = a.spec_editor().content();
                let c = a.spec_editor().spec_cursor();
                let u = b.spec_editor().spec_cursor();
                &&& (k.code == Key::Up || k.code == Key::Down) ==> b.spec_editor().content() == t
                &&& k.code == Key::Up && line_start(t, c) > 0 ==> line_number(t, u) + 1
                    == line_number(t, c)
                &&& k.code == Key::Down && line_end(t, c) < t.len() ==> line_number(t, u)
                    == line_number(t, c) + 1
            }),
    {
        let t = a.spec_editor().content();
        let c = a.spec_editor().spec_cursor();
        let pref = a.spec_editor().spec_preferred_col();
        if k.code == Key::Up && line_start(t, c) > 0 {
            crate::editor::lemma_up_moves_one_line(t, c, pref);
        }
        if k.code == Key::Down && line_end(t, c) < t.len() {
            crate::editor::lemma_down_moves_one_line(t, c, pref);
        }
    }

    fn handle_keys(&mut self, key: KeyInput) -> (res: Action)
        requires
            old(self).wf(),
            old(self).spec_has_room(),
        ensures
            final(self).wf(),
            old(self).spec_prompt() is Some ==> Self::prompt_key_handled(
                *old(self),
                *final(self),
                key,
                res,
            ),
            old(self).spec_prompt() is None ==> Self::editor_key_handled(
                *old(self),
                *final(self),
                key,
                res,
            ),
    {
        if self.prompt.is_some() {
            self.handle_prompt_keys(key)
        } else {
            self.handle_editor_keys(key)
        }
    }

    fn handle_editor_keys(&mut self, key: KeyInput) -> (res: Action)
        requires
            old(self).wf(),
            old(self).spec_has_room(),
            old(self).spec_prompt() is None,
        ensures
            final(self).wf(),
            Self::editor_key_handled(*old(self), *final(self), key, res),
    {
        self.remove_message();
        let cmd = command_for(key);
        proof {
            reveal_strlit("    ");
            assert("    "@ =~= seq![' ', ' ', ' ', ' ']);
            lemma_indent_bytes("    "@);
            crate::line_ending::lemma_encode_ascii('\n', '\n');
        }
        match cmd {
            EditorCommand::OpenPrompt => {
                self.set_prompt(Prompt::new(PromptKind::Open));
            },
            EditorCommand::Save => {
                if self.path.is_some() {
                    return Action::Save(self.contents());
                } else {
                    self.set_prompt(Prompt::new(PromptKind::SaveAs));
                }
            },
            EditorCommand::DeleteLine => self.editor.delete_line(),
            EditorCommand::SaveAsPrompt => {
                self.set_prompt(Prompt::new(PromptKind::SaveAs));
            },
            EditorCommand::Quit => return Action::Quit,
            EditorCommand::Newline => self.editor.insert('\n'),
            EditorCommand::Indent => self.editor.insert_str("    "),
            EditorCommand::DeleteBack => self.editor.delete_back(),
            EditorCommand::DeleteForward => self.editor.delete_forward(),
            EditorCommand::Insert(c) => self.editor.insert(c),
            EditorCommand::HomeFull => self.editor.move_home_full(),
            EditorCommand::EndFull => self.editor.move_end_full(),
            EditorCommand::Home => self.editor.move_home(),
            EditorCommand::End => self.editor.move_end(),
            EditorCommand::Up => self.editor.move_up(),
            EditorCommand::Down => self.editor.move_down(),
            EditorCommand::WordLeft => self.editor.move_word_left(),
            EditorCommand::WordRight => self.editor.move_word_right(),
            EditorCommand::Left => self.editor.move_left(),
            EditorCommand::Right => self.editor.move_right(),
            EditorCommand::Nothing => {},
        }
        Action::Continue
    }

    fn handle_prompt_keys(&mut self, key: KeyInput) -> (res: Action)
        requires
            old(self).wf(),
            old(self).spec_has_room(),
            old(self).spec_prompt() is Some,
        ensures
            final(self).wf(),
            Self::prompt_key_handled(*old(self), *final(self), key, res),
    {
        let cmd = prompt_command_for(key);
        match cmd {
            PromptCommand::Cancel => {
                self.remove_prompt();
                Action::Continue
            },
            PromptCommand::Submit => self.submit_prompt(),
            _ => {
                let mut p = match self.prompt.take() {
                    Some(p) => p,
                    None => Prompt::new(PromptKind::Open),
                };
                match cmd {
                    PromptCommand::DeleteBack => p.delete_back(),
                    PromptCommand::DeleteForward => p.delete_forward(),
                    PromptCommand::Insert(c) => p.insert(c),
                    PromptCommand::Home => p.move_home(),
                    PromptCommand::End => p.move_end(),
                    PromptCommand::Left => p.move_left(),
                    PromptCommand::Right => p.move_right(),
                    _ => {},
                }
                self.prompt = Some(p);
                Action::Continue
            },
        }
    }

    /// Closes the prompt and asks the caller to open, or to save under, the name typed.
    pub fn submit_prompt(&mut self) -> (res: Action)
        requires
            old(self).wf(),
            old(self).spec_prompt() is Some,
        ensures
            final(self).wf(),
            final(self).spec_prompt() is None,
            final(self).spec_editor() == old(self).spec_editor(),
            final(self).spec_line_ending() == old(self).spec_line_ending(),
            final(self).spec_terminal() == old(self).spec_terminal(),
            final(self).spec_path() == old(self).spec_path(),
            final(self).spec_message() == old(self).spec_message(),
            ({
                let p = old(self).spec_prompt()->0;
                match p.spec_kind() {
                    PromptKind::Open => res matches Action::Open(s) && s@ == p.chars(),
                    PromptKind::SaveAs => res matches Action::SaveAs(s, c) && s@ == p.chars() && c@
                        == Self::spec_contents(*old(self)),
                }
            }),
    {
        let prompt = match self.prompt.take() {
            Some(p) => p,
            None => Prompt::new(PromptKind::Open),
        };
        let prompt_str = String::from_str(prompt.prompt());
        match prompt.kind() {
            PromptKind::Open => Action::Open(prompt_str),
            PromptKind::SaveAs => Action::SaveAs(prompt_str, self.contents()),
        }
    }

    /// After an event, scrolls the prompt's view, or else the editor's, to its cursor.
    pub fn scroll(&mut self)
        requires
            old(self).wf(),
        ensures
            final(self).wf(),
            final(self).spec_path() == old(self).spec_path(),
            final(self).spec_line_ending() == old(self).spec_line_ending(),
            final(self).spec_message() == old(self).spec_message(),
            final(self).spec_terminal() == old(self).spec_terminal(),
            final(self).spec_editor().content() == old(self).spec_editor().content(),
            final(self).spec_editor().spec_cursor() == old(self).spec_editor().spec_cursor(),
            match old(self).spec_prompt() {
                Some(p) => final(self).spec_editor() == old(self).spec_editor() && (final(self).spec_prompt() matches Some(q) && q.chars() == p.chars() && q.spec_kind()
                    == p.spec_kind() && q.spec_cursor() == p.spec_cursor() && q.spec_viewport() == (
                    scroll_axis(
                        decode_utf8(p.content().take(p.spec_cursor())).len() as int,
                        p.spec_viewport().0 as int,
                        p.spec_viewport().1 as int,
                    ) as usize,
                    p.spec_viewport().1,
                )),
                None => {
                    let e = old(self).spec_editor();
                    let (left, top, cols, rows) = e.spec_viewport();
                    &&& final(self).spec_prompt() is None
                    &&& final(self).spec_editor().spec_preferred_col() == e.spec_preferred_col()
                    &&& final(self).spec_editor().spec_viewport() == (
                        scroll_axis(
                            char_column(e.content(), e.spec_cursor()) as int,
                            left as int,
                            cols as int,
                        ) as usize,
                        scroll_axis(
                            line_number(e.content(), e.spec_cursor()) as int,
                            top as int,
                            rows as int,
                        ) as usize,
                        cols,
                        rows,
                    )
                },
            },
    {
        match self.prompt.take() {
            Some(mut p) => {
                p.scroll_to_cursor();
                self.prompt = Some(p);
            },
            None => {
                self.editor.scroll_to_cursor();
            },
        }
    }

    /// The cursor's column and line are bounded by the text's length.
    proof fn lemma_cursor_pos_bound(&self)
        requires
            self.wf(),
        ensures
            char_column(self.spec_editor().content(), self.spec_editor().spec_cursor())
                <= self.spec_editor().content().len(),
            line_number(self.spec_editor().content(), self.spec_editor().spec_cursor())
                <= self.spec_editor().content().len(),
    {
        let t = self.spec_editor().content();
        let c = self.spec_editor().spec_cursor();
        crate::lines::lemma_line_start(t, c);
        crate::lines::lemma_line_bounds_boundary(t, c);
        crate::lines::lemma_chars_encode(t, line_start(t, c), c);
        crate::rope::lemma_encode_len(crate::lines::chars_between(t, line_start(t, c), c));
        crate::lines::lemma_count_newlines_bound(t.take(c));
    }
}

/// The message's text as shown.
pub open spec fn message_text(m: Message) -> Seq<char> {
    crate::message::message_label(m.spec_kind()) + m.spec_info()
}

/// The command bound to `k` when no prompt is open.
pub fn command_for(k: KeyInput) -> (res: EditorCommand)
    ensures
        res == editor_command(k),
{
    match k.code {
        Key::Char(c) => {
            if k.control && c == 'o' {
                EditorCommand::OpenPrompt
            } else if k.control && c == 's' {
                EditorCommand::Save
            } else if k.control && c == 'x' {
                EditorCommand::DeleteLine
            } else {
                EditorCommand::Insert(c)
            }
        },
        Key::F(n) => {
            if n == 2 {
                EditorCommand::SaveAsPrompt
            } else {
                EditorCommand::Nothing
            }
        },
        Key::Esc => EditorCommand::Quit,
        Key::Enter => EditorCommand::Newline,
        Key::Tab => EditorCommand::Indent,
        Key::Backspace => EditorCommand::DeleteBack,
        Key::Delete => EditorCommand::DeleteForward,
        Key::Home => {
            if k.control {
                EditorCommand::HomeFull
            } else {
                EditorCommand::Home
            }
        },
        Key::End => {
            if k.control {
                EditorCommand::EndFull
            } else {
                EditorCommand::End
            }
        },
        Key::Up => EditorCommand::Up,
        Key::Down => EditorCommand::Down,
        Key::Left => {
            if k.control {
                EditorCommand::WordLeft
            } else {
                EditorCommand::Left
            }
        },
        Key::Right => {
            if k.control {
                EditorCommand::WordRight
            } else {
                EditorCommand::Right
            }
        },
        Key::Other => EditorCommand::Nothing,
    }
}

/// The command bound to `k` while a prompt is open.
pub fn prompt_command_for(k: KeyInput) -> (res: PromptCommand)
    ensures
        res == prompt_command(k),
{
    match k.code {
        Key::Esc => PromptCommand::Cancel,
        Key::Enter => PromptCommand::Submit,
        Key::Backspace => PromptCommand::DeleteBack,
        Key::Delete => PromptCommand::DeleteForward,
        Key::Char(c) => PromptCommand::Insert(c),
        Key::Home => PromptCommand::Home,
        Key::End => PromptCommand::End,
        Key::Left => PromptCommand::Left,
        Key::Right => PromptCommand::Right,
        _ => PromptCommand::Nothing,
    }
}

/// The decimal digit `d` as a character.
fn digit(d: usize) -> (res: char)
    requires
        d < 10,
    ensures
        res == digit_char(d as nat),
{
    let b: u8 = 48 + (d as u8);
    b as char
}

/// The decimal numeral of `n`.
pub fn decimal_string(n: usize) -> (res: String)
    ensures
        res@ == decimal(n as nat),
    decreases n,
{
    if n < 10 {
        char_to_string(digit(n))
    } else {
        let mut s = decimal_string(n / 10);
        let d = char_to_string(digit(n % 10));
        s.append(d.as_str());
        s
    }
}

/// The number of decimal digits of `n`.
pub fn count_digits(n: usize) -> (res: usize)
    ensures
        res == decimal(n as nat).len(),
        1 <= res <= 20,
    decreases n,
{
    if n < 10 {
        1
    } else {
        proof {
            lemma_decimal_len((n / 10) as nat);
            lemma_decimal_len(n as nat);
        }
        count_digits(n / 10) + 1
    }
}

/// Ten to the power `k`.
pub open spec fn pow10(k: nat) -> nat
    decreases k,
{
    if k == 0 {
        1
    } else {
        10 * pow10((k - 1) as nat)
    }
}

/// A number below ten to the power `k` has at most `k` digits.
proof fn lemma_decimal_digits(n: nat, k: nat)
    requires
        k >= 1,
        n < pow10(k),
    ensures
        decimal(n).len() <= k,
    decreases n,
{
    if n >= 10 {
        if k == 1 {
            assert(pow10(1) == 10 * pow10(0));
        } else {
            assert(pow10(k) == 10 * pow10((k - 1) as nat));
            lemma_decimal_digits(n / 10, (k - 1) as nat);
        }
    }
}

/// A numeral has at least one digit, at most 20 for a 64-bit number, and no more
/// than its value plus one.
pub proof fn lemma_decimal_len(n: nat)
    ensures
        decimal(n).len() >= 1,
        n <= u64::MAX ==> decimal(n).len() <= 20,
        decimal(n).len() <= n + 1,
    decreases n,
{
    if n >= 10 {
        lemma_decimal_len(n / 10);
    }
    if n <= u64::MAX {
        reveal_with_fuel(pow10, 21);
        assert(pow10(20) == 100000000000000000000nat);
        lemma_decimal_digits(n, 20);
    }
}

/// Four spaces take four bytes, each a space.
proof fn lemma_indent_bytes(s: Seq<char>)
    requires
        s == seq![' ', ' ', ' ', ' '],
    ensures
        encode_utf8(s) == indent_bytes(),
{
    crate::line_ending::lemma_encode_ascii(' ', ' ');
    reveal_with_fuel(encode_utf8, 5);
    assert(s.drop_first() =~= seq![' ', ' ', ' ']);
    assert(s.drop_first().drop_first() =~= seq![' ', ' ']);
    assert(s.drop_first().drop_first().drop_first() =~= seq![' ']);
    assert(s.drop_first().drop_first().drop_first().drop_first() =~= Seq::<char>::empty());
    assert(encode_utf8(s) =~= indent_bytes());
}

/// Appends `n` spaces to `s`.
fn append_spaces(s: &mut String, n: usize)
    ensures
        final(s)@ == old(s)@ + spaces(n as nat),
{
    let mut i: usize = 0;
    proof {
        assert(old(s)@ + spaces(0) =~= old(s)@);
    }
    while i < n
        invariant
            i <= n,
            s@ == old(s)@ + spaces(i as nat),
        decreases n - i,
    {
        s.append(" ");
        proof {
            reveal_strlit(" ");
            assert(old(s)@ + spaces((i + 1) as nat) =~= old(s)@ + spaces(i as nat) + " "@);
        }
        i = i + 1;
    }
}

/// `s` cut to its first `n` bytes, which must end at a character boundary.
pub fn truncate_to(s: &str, n: usize) -> (res: String)
    requires
        n < s.spec_bytes().len() ==> is_char_boundary(s.spec_bytes(), n as int),
    ensures
        encode_utf8(res@) == s.spec_bytes().take(
            if n < s.spec_bytes().len() {
                n as int
            } else {
                s.spec_bytes().len() as int
            },
        ),
{
    let len: usize = s.as_bytes().len();
    if n >= len {
        proof {
            assert(s.spec_bytes().take(len as int) =~= s.spec_bytes());
        }
        return String::from_str(s);
    }
    let (head, _) = s.split_at(n);
    String::from_str(head)
}

/// Replacing `\r\n` by `\n` does not lengthen the text.
proof fn lemma_crlf_len(t: Seq<u8>)
    ensures
        crlf_to_lf_bytes(t).len() <= t.len(),
    decreases t.len(),
{
    if t.len() >= 2 && t[0] == 13 && t[1] == 10 {
        lemma_crlf_len(t.skip(2));
    } else if t.len() > 0 {
        lemma_crlf_len(t.skip(1));
    }
}

} // verus!
