//! The editing state machine: a buffer of lines, a cursor, modes, counts,
//! pending operators, marks, a clipboard, and undo/redo history. Each key is a
//! transition from one state to the next, with the outside work (drawing,
//! prompting, saving, quitting) handed back to the caller as an `Action`.

use std::collections::HashMap;
use vstd::prelude::*;
use crate::text::{
    decimal, is_digit_spec, parse_uint_spec, parse_usize, push_str, str_chars, u64_decimal,
};
use crate::syntax::{detect_filetype, filetype_spec};

verus! {

broadcast use vstd::std_specs::hash::group_hash_axioms;

/// The editing mode.
#[derive(Clone, Copy, PartialEq, Eq, Structural, Debug)]
pub enum Mode {
    Normal,
    Insert,
}

/// A key that was typed, or the end of the input.
#[derive(Clone, Copy, PartialEq, Eq, Structural, Debug)]
pub enum Key {
    Ch(char),
    Eof,
}

/// What a normal-mode key waits for.
#[derive(Clone, Copy, PartialEq, Eq, Structural, Debug)]
pub enum Pending {
    /// Nothing.
    Idle,
    /// An operator (`d`, `c` or `y`) waiting for its motion.
    Operator(char),
    /// `r`, waiting for the replacement character.
    Replace,
    /// A find (`f`, `F`, `t` or `T`) waiting for its character.
    Find(char),
    /// `g`, waiting for a second `g`.
    Goto,
    /// `z`, waiting for `t`, `z` or `b`.
    Scroll,
    /// `m`, waiting for the mark's letter.
    SetMark,
    /// A backquote, waiting for the mark to jump to exactly.
    JumpExact,
    /// A quote, waiting for the mark whose line to jump to.
    JumpLine,
    /// `Z`, waiting for a second `Z`.
    Quit,
}

/// How the clipboard pastes: inside a line, or as whole lines.
#[derive(Clone, Copy, PartialEq, Eq, Structural, Debug)]
pub enum ClipKind {
    Chars,
    Lines,
}

/// The outside work that a key asks of the caller.
#[derive(Clone, Copy, PartialEq, Eq, Structural, Debug)]
pub enum Action {
    /// Nothing: draw and read the next key.
    Continue,
    /// Read a `:` command line and hand it to `execute_command`.
    CommandPrompt,
    /// Read a search pattern (forward for 1, backward for -1) and hand it to `finish_search`.
    SearchPrompt(i32),
    /// Write the file, then quit.
    SaveAndQuit,
    /// Write the file (then report it with `mark_saved`).
    Save,
    /// Quit without writing.
    Quit,
}

/// The state of the editor.
pub struct Editor {
    pub file: Vec<char>,
    pub filetype: String,
    pub lines: Vec<Vec<char>>,
    pub cursor_r: usize,
    pub cursor_c: usize,
    pub scroll_top: usize,
    pub mode: Mode,
    pub status_msg: Vec<char>,
    pub term_rows: usize,
    pub view_height: usize,
    pub count: Vec<char>,
    pub pending: Pending,
    pub search_pat: Vec<char>,
    pub search_dir: i32,
    pub last_find_char: Option<char>,
    pub last_find_dir: i32,
    pub last_find_until: bool,
    pub marks: HashMap<u32, (usize, usize)>,
    pub clipboard: Vec<char>,
    pub clipboard_kind: ClipKind,
    pub undo_stack: Vec<Vec<Vec<char>>>,
    pub redo_stack: Vec<Vec<Vec<char>>>,
}

/// The state of the editor as the contracts see it.
pub ghost struct EditorModel {
    pub file: Seq<char>,
    pub filetype: Seq<char>,
    pub lines: Seq<Seq<char>>,
    pub cursor_r: usize,
    pub cursor_c: usize,
    pub scroll_top: usize,
    pub mode: Mode,
    pub status_msg: Seq<char>,
    pub term_rows: usize,
    pub view_height: usize,
    pub count: Seq<char>,
    pub pending: Pending,
    pub search_pat: Seq<char>,
    pub search_dir: i32,
    pub last_find_char: Option<char>,
    pub last_find_dir: i32,
    pub last_find_until: bool,
    pub marks: Map<u32, (usize, usize)>,
    pub clipboard: Seq<char>,
    pub clipboard_kind: ClipKind,
    pub undo_stack: Seq<Seq<Seq<char>>>,
    pub redo_stack: Seq<Seq<Seq<char>>>,
}

/// The lines of a buffer as the contracts see them.
pub open spec fn lines_view(v: Seq<Vec<char>>) -> Seq<Seq<char>> {
    v.map_values(|l: Vec<char>| l@)
}

/// A history of buffers as the contracts see it.
pub open spec fn history_view(v: Seq<Vec<Vec<char>>>) -> Seq<Seq<Seq<char>>> {
    v.map_values(|b: Vec<Vec<char>>| lines_view(b@))
}

impl View for Editor {
    type V = EditorModel;

    open spec fn view(&self) -> EditorModel {
        EditorModel {
            file: self.file@,
            filetype: self.filetype@,
            lines: lines_view(self.lines@),
            cursor_r: self.cursor_r,
            cursor_c: self.cursor_c,
            scroll_top: self.scroll_top,
            mode: self.mode,
            status_msg: self.status_msg@,
            term_rows: self.term_rows,
            view_height: self.view_height,
            count: self.count@,
            pending: self.pending,
            search_pat: self.search_pat@,
            search_dir: self.search_dir,
            last_find_char: self.last_find_char,
            last_find_dir: self.last_find_dir,
            last_find_until: self.last_find_until,
            marks: self.marks@,
            clipboard: self.clipboard@,
            clipboard_kind: self.clipboard_kind,
            undo_stack: history_view(self.undo_stack@),
            redo_stack: history_view(self.redo_stack@),
        }
    }
}

/// The first `n` characters of `s` (all of them where it is shorter).
pub open spec fn char_take(s: Seq<char>, n: int) -> Seq<char> {
    if n <= s.len() {
        s.take(n)
    } else {
        s
    }
}

/// `s` without its first `n` characters (empty where it is shorter).
pub open spec fn char_skip(s: Seq<char>, n: int) -> Seq<char> {
    if n <= s.len() {
        s.skip(n)
    } else {
        Seq::<char>::empty()
    }
}

/// The characters of `s` from index `start` up to index `end`, where `end == usize::MAX`
/// means the end of `s`.
pub open spec fn char_slice_spec(s: Seq<char>, start: usize, end: usize) -> Seq<char> {
    let rest = char_skip(s, start as int);
    if end == usize::MAX {
        rest
    } else {
        char_take(rest, if end >= start { end - start } else { 0 })
    }
}

/// The character at index `i` of `s`, if any.
pub fn char_at(s: &[char], i: usize) -> (r: Option<char>)
    ensures
        r == (if i < s@.len() { Some(s@[i as int]) } else { None::<char> }),
{
    if i < s.len() {
        Some(s[i])
    } else {
        None
    }
}

/// The characters of `s` from index `start` up to index `end` (`usize::MAX`: the end).
pub fn char_slice(s: &[char], start: usize, end: usize) -> (r: Vec<char>)
    ensures
        r@ == char_slice_spec(s@, start, end),
{
    let mut out: Vec<char> = Vec::new();
    if start >= s.len() {
        return out;
    }
    let stop = if end == usize::MAX || end >= s.len() {
        s.len()
    } else if end < start {
        start
    } else {
        end
    };
    crate::text::push_range(&mut out, s, start, stop);
    assert(out@ =~= char_slice_spec(s@, start, end));
    out
}

/// The copy of a buffer.
pub(crate) fn clone_lines(lines: &Vec<Vec<char>>) -> (r: Vec<Vec<char>>)
    ensures
        lines_view(r@) == lines_view(lines@),
{
    let mut out: Vec<Vec<char>> = Vec::new();
    for i in 0..lines.len()
        invariant
            lines_view(out@) == lines_view(lines@).take(i as int),
    {
        let mut l: Vec<char> = Vec::new();
        crate::text::push_range(&mut l, lines[i].as_slice(), 0, lines[i].len());
        assert(l@ =~= lines@[i as int]@);
        let ghost prev = out@;
        assert(lines_view(prev).len() == prev.len());
        assert(prev.len() == i);
        out.push(l);
        assert forall|k: int| 0 <= k < i + 1 implies lines_view(out@)[k] == lines_view(lines@).take(
            i + 1,
        )[k] by {
            if k < i {
                assert(out@[k] == prev[k]);
                assert(lines_view(prev)[k] == lines_view(lines@).take(i as int)[k]);
            }
        }
        assert(lines_view(out@) =~= lines_view(lines@).take(i + 1));
    }
    assert(lines_view(lines@).take(lines@.len() as int) =~= lines_view(lines@));
    out
}

impl EditorModel {
    /// The line under the cursor (empty where the cursor is past the last line).
    pub open spec fn cur_line(self) -> Seq<char> {
        if self.cursor_r < self.lines.len() {
            self.lines[self.cursor_r as int]
        } else {
            Seq::<char>::empty()
        }
    }

    /// The number of characters of the line under the cursor.
    pub open spec fn cur_len(self) -> nat {
        self.cur_line().len()
    }

    /// The buffer with the line under the cursor replaced (unchanged where there is none).
    pub open spec fn set_cur(self, l: Seq<char>) -> Self {
        if self.cursor_r < self.lines.len() {
            EditorModel { lines: self.lines.update(self.cursor_r as int, l), ..self }
        } else {
            self
        }
    }

    /// The cursor column limited to the length of its line.
    pub open spec fn clamp(self) -> Self {
        if self.cursor_c > self.cur_len() {
            EditorModel { cursor_c: self.cur_len() as usize, ..self }
        } else {
            self
        }
    }

    /// The cursor row limited to the last line, then the column to its line.
    pub open spec fn restore_clamp(self) -> Self {
        let r = if self.cursor_r >= self.lines.len() {
            if self.lines.len() >= 1 { (self.lines.len() - 1) as usize } else { 0usize }
        } else {
            self.cursor_r
        };
        EditorModel { cursor_r: r, ..self }.clamp()
    }

    /// The repeat count typed so far, or `dflt` where none was typed or it does not fit.
    pub open spec fn count_val(self, dflt: usize) -> usize {
        if self.count.len() == 0 {
            dflt
        } else {
            match parse_uint_spec(self.count, usize::MAX as nat) {
                Some(v) => v as usize,
                None => dflt,
            }
        }
    }

    /// The line under the cursor with the character at `idx` replaced by `ch`
    /// (appended where the line is shorter).
    pub open spec fn set_char(self, idx: usize, ch: char) -> Self {
        let line = self.cur_line();
        self.set_cur(char_take(line, idx as int).push(ch) + char_skip(line, idx + 1))
    }

    /// The state after the buffer was saved for undo: the redo history is dropped.
    pub open spec fn undo_save(self) -> Self {
        EditorModel {
            undo_stack: self.undo_stack.push(self.lines),
            redo_stack: Seq::<Seq<Seq<char>>>::empty(),
            ..self
        }
    }

    /// The state after undo: the last saved buffer comes back and the current one can be redone.
    pub open spec fn undo(self) -> Self {
        if self.undo_stack.len() == 0 {
            EditorModel { status_msg: "Already at oldest change"@, ..self }
        } else {
            EditorModel {
                redo_stack: self.redo_stack.push(self.lines),
                lines: self.undo_stack.last(),
                undo_stack: self.undo_stack.drop_last(),
                ..self
            }.restore_clamp().with_status("Undone"@)
        }
    }

    /// The state after redo: the last undone buffer comes back and the current one can be undone.
    pub open spec fn redo(self) -> Self {
        if self.redo_stack.len() == 0 {
            EditorModel { status_msg: "Already at newest change"@, ..self }
        } else {
            EditorModel {
                undo_stack: self.undo_stack.push(self.lines),
                lines: self.redo_stack.last(),
                redo_stack: self.redo_stack.drop_last(),
                ..self
            }.restore_clamp().with_status("Redone"@)
        }
    }

    /// The state with the status message replaced.
    pub open spec fn with_status(self, msg: Seq<char>) -> Self {
        EditorModel { status_msg: msg, ..self }
    }

    /// The state with the cursor moved.
    pub open spec fn with_cursor(self, r: usize, c: usize) -> Self {
        EditorModel { cursor_r: r, cursor_c: c, ..self }
    }

    /// The cursor on line `n` (limited to the buffer), at column 0.
    pub open spec fn goto_line(self, n: i64) -> Self {
        let last = self.lines.len() - 1;
        let r = if n < 0 { 0 } else if n > last { last } else { n as int };
        self.with_cursor(r as usize, 0)
    }
}

impl Editor {
    /// The buffer holds at least one line, and no more lines than an `i64` counts.
    pub open spec fn wf(&self) -> bool {
        &&& self.lines@.len() >= 1
        &&& self.lines@.len() <= i64::MAX
    }

    /// A new editor on a file with the given lines: normal mode, cursor at the start,
    /// a 24-row screen, and a status message telling the number of lines.
    pub fn new(file: &str, lines: Vec<Vec<char>>) -> (r: Editor)
        ensures
            r@.file == file@,
            r@.filetype == filetype_spec(file@),
            r@.lines == lines_view(lines@),
            r@.cursor_r == 0 && r@.cursor_c == 0 && r@.scroll_top == 0,
            r@.mode == Mode::Normal,
            r@.status_msg == decimal(lines@.len() as nat) + " lines"@,
            r@.term_rows == 24 && r@.view_height == 22,
            r@.count.len() == 0,
            r@.pending == Pending::Idle,
            r@.search_pat.len() == 0,
            r@.search_dir == 1,
            r@.last_find_char is None,
            r@.last_find_dir == 1,
            !r@.last_find_until,
            r@.marks == Map::<u32, (usize, usize)>::empty(),
            r@.clipboard.len() == 0,
            r@.clipboard_kind == ClipKind::Chars,
            r@.undo_stack.len() == 0,
            r@.redo_stack.len() == 0,
    {
        let ft = detect_filetype(file);
        let mut status = u64_decimal(lines.len() as u64);
        push_str(&mut status, " lines");
        let r = Editor {
            file: str_chars(file),
            filetype: String::from_str(ft),
            lines,
            cursor_r: 0,
            cursor_c: 0,
            scroll_top: 0,
            mode: Mode::Normal,
            status_msg: status,
            term_rows: 24,
            view_height: 22,
            count: Vec::new(),
            pending: Pending::Idle,
            search_pat: Vec::new(),
            search_dir: 1,
            last_find_char: None,
            last_find_dir: 1,
            last_find_until: false,
            marks: HashMap::new(),
            clipboard: Vec::new(),
            clipboard_kind: ClipKind::Chars,
            undo_stack: Vec::new(),
            redo_stack: Vec::new(),
        };
        assert(history_view(r.undo_stack@) =~= Seq::<Seq<Seq<char>>>::empty());
        r
    }

    /// The repeat count typed so far, or `dflt` where none was typed or it does not fit.
    pub fn count_val(&self, dflt: usize) -> (r: usize)
        ensures
            r == self@.count_val(dflt),
    {
        if self.count.len() == 0 {
            dflt
        } else {
            match parse_usize(self.count.as_slice()) {
                Some(v) => v,
                None => dflt,
            }
        }
    }

    /// A copy of the line under the cursor (empty where there is none).
    pub fn cur_line(&self) -> (r: Vec<char>)
        ensures
            r@ == self@.cur_line(),
    {
        let mut out: Vec<char> = Vec::new();
        if self.cursor_r < self.lines.len() {
            let l = &self.lines[self.cursor_r];
            crate::text::push_range(&mut out, l.as_slice(), 0, l.len());
            assert(out@ =~= l@);
        }
        out
    }

    /// The number of characters of the line under the cursor.
    pub fn cur_len(&self) -> (r: usize)
        ensures
            r == self@.cur_len(),
    {
        if self.cursor_r < self.lines.len() {
            self.lines[self.cursor_r].len()
        } else {
            0
        }
    }

    /// Replaces the line under the cursor (nothing where there is none).
    pub fn set_cur(&mut self, line: Vec<char>)
        ensures
            final(self)@ == old(self)@.set_cur(line@),
    {
        if self.cursor_r < self.lines.len() {
            let r = self.cursor_r;
            self.lines.set(r, line);
            assert(lines_view(self.lines@) =~= lines_view(old(self).lines@).update(r as int, line@));
        }
    }

    /// Limits the cursor column to the length of its line.
    pub fn clamp(&mut self)
        ensures
            final(self)@ == old(self)@.clamp(),
    {
        let len = self.cur_len();
        if self.cursor_c > len {
            self.cursor_c = len;
        }
    }

    /// Limits the cursor row to the last line, then the column to its line.
    pub fn restore_clamp(&mut self)
        ensures
            final(self)@ == old(self)@.restore_clamp(),
    {
        let n = self.lines.len();
        if self.cursor_r >= n {
            self.cursor_r = n.saturating_sub(1);
        }
        let len = self.cur_len();
        if self.cursor_c > len {
            self.cursor_c = len;
        }
    }

    /// Replaces the character at `idx` of the line under the cursor by `ch`.
    pub fn set_char(&mut self, idx: usize, ch: char)
        requires
            idx <= isize::MAX,
        ensures
            final(self)@ == old(self)@.set_char(idx, ch),
    {
        let line = self.cur_line();
        let mut out = char_slice(line.as_slice(), 0, idx);
        out.push(ch);
        let mut rest = char_slice(line.as_slice(), idx + 1, usize::MAX);
        out.append(&mut rest);
        assert(out@ =~= char_take(line@, idx as int).push(ch) + char_skip(line@, idx + 1));
        self.set_cur(out);
    }

    /// Saves the buffer for undo and forgets the redo history.
    pub fn undo_save(&mut self)
        ensures
            final(self)@ == old(self)@.undo_save(),
    {
        let copy = clone_lines(&self.lines);
        self.undo_stack.push(copy);
        self.redo_stack.clear();
        assert(history_view(self.undo_stack@) =~= history_view(old(self).undo_stack@).push(
            lines_view(old(self).lines@),
        ));
        assert(history_view(self.redo_stack@) =~= Seq::<Seq<Seq<char>>>::empty());
    }

    /// Brings back the last saved buffer; the current one can be redone.
    pub fn undo(&mut self)
        ensures
            final(self)@ == old(self)@.undo(),
    {
        if self.undo_stack.len() == 0 {
            self.status_msg = str_chars("Already at oldest change");
            return;
        }
        let copy = clone_lines(&self.lines);
        self.redo_stack.push(copy);
        let last = self.undo_stack.pop().unwrap();
        self.lines = last;
        assert(history_view(self.redo_stack@) =~= history_view(old(self).redo_stack@).push(
            lines_view(old(self).lines@),
        ));
        assert(history_view(self.undo_stack@) =~= history_view(old(self).undo_stack@).drop_last());
        self.restore_clamp();
        self.status_msg = str_chars("Undone");
    }

    /// Brings back the last undone buffer; the current one can be undone.
    pub fn redo(&mut self)
        ensures
            final(self)@ == old(self)@.redo(),
    {
        if self.redo_stack.len() == 0 {
            self.status_msg = str_chars("Already at newest change");
            return;
        }
        let copy = clone_lines(&self.lines);
        self.undo_stack.push(copy);
        let last = self.redo_stack.pop().unwrap();
        self.lines = last;
        assert(history_view(self.undo_stack@) =~= history_view(old(self).undo_stack@).push(
            lines_view(old(self).lines@),
        ));
        assert(history_view(self.redo_stack@) =~= history_view(old(self).redo_stack@).drop_last());
        self.restore_clamp();
        self.status_msg = str_chars("Redone");
    }

    /// Moves the cursor to line `n` (limited to the buffer), column 0.
    pub fn goto_line(&mut self, n: i64)
        requires
            old(self).wf(),
        ensures
            final(self)@ == old(self)@.goto_line(n),
            old(self)@.ready() ==> final(self)@.ready(),
    {
        let last = self.lines.len() as i64 - 1;
        let r = if n < 0 {
            0
        } else if n > last {
            last
        } else {
            n
        };
        self.cursor_r = r as usize;
        self.cursor_c = 0;
    }
}


/// The first column at or after `c` that holds a space (`c` where `c` is past the end).
pub open spec fn skip_nonspace(l: Seq<char>, c: int) -> int
    decreases l.len() - c,
{
    if c < 0 || c >= l.len() || l[c] == ' ' {
        c
    } else {
        skip_nonspace(l, c + 1)
    }
}

/// The first column at or after `c` that holds no space (`c` where `c` is past the end).
pub open spec fn skip_space(l: Seq<char>, c: int) -> int
    decreases l.len() - c,
{
    if c < 0 || c >= l.len() || l[c] != ' ' {
        c
    } else {
        skip_space(l, c + 1)
    }
}

/// Moving left from column `c` over the spaces just before it.
pub open spec fn back_space(l: Seq<char>, c: int) -> int
    decreases c,
{
    if c > 0 && c - 1 < l.len() && l[c - 1] == ' ' {
        back_space(l, c - 1)
    } else {
        c
    }
}

/// Moving left from column `c` over the non-spaces just before it
/// (columns past the end count as non-spaces).
pub open spec fn back_word(l: Seq<char>, c: int) -> int
    decreases c,
{
    if c > 0 && !(c - 1 < l.len() && l[c - 1] == ' ') {
        back_word(l, c - 1)
    } else {
        c
    }
}

/// Where `w` goes on reaching row `r` from the line above: the first non-space of that
/// line; an empty line or a line of spaces is passed over, except the last line, where the
/// cursor stops at its end.
pub open spec fn next_word_start(lines: Seq<Seq<char>>, r: int) -> (int, int)
    decreases lines.len() - r,
{
    if r < 0 || r >= lines.len() {
        (r, 0)
    } else {
        let l = lines[r];
        let c = skip_space(l, 0);
        if c < l.len() {
            (r, c)
        } else if r == lines.len() - 1 {
            (r, l.len() as int)
        } else {
            next_word_start(lines, r + 1)
        }
    }
}

/// Where `w` moves the cursor from `(r, c)`: past the rest of the word and the spaces after
/// it; at the end of a line, to the first word of the lines below (see `next_word_start`);
/// at the end of the last line, there.
pub open spec fn word_fwd_pos(lines: Seq<Seq<char>>, r: int, c: int) -> (int, int) {
    if r < 0 || r >= lines.len() {
        (r, c)
    } else {
        let l = lines[r];
        let c2 = skip_space(l, skip_nonspace(l, c));
        if c2 >= l.len() {
            if r == lines.len() - 1 {
                (r, l.len() as int)
            } else {
                next_word_start(lines, r + 1)
            }
        } else {
            (r, c2)
        }
    }
}

/// Where `b` moves the cursor from `(r, c)`: back over spaces and then over a word; where
/// that reaches column 0 of a line after the first, the same from the end of the line above.
pub open spec fn word_back_pos(lines: Seq<Seq<char>>, r: int, c: int) -> (int, int) {
    let l = if 0 <= r < lines.len() { lines[r] } else { Seq::<char>::empty() };
    let c1 = back_word(l, back_space(l, c));
    if c1 == 0 && r > 0 {
        let l2 = if r - 1 < lines.len() { lines[r - 1] } else { Seq::<char>::empty() };
        (r - 1, back_word(l2, back_space(l2, l2.len() as int)))
    } else {
        (r, c1)
    }
}

/// Where `e` moves the cursor from `(r, c)`: over spaces to a word and to its last
/// character; at the end of a line, on to the next line from column 0; at the end of the
/// last line the cursor stays where it was when the motion began, `orig`.
pub open spec fn word_end_pos(lines: Seq<Seq<char>>, r: int, c: int, orig: (int, int)) -> (int, int)
    decreases lines.len() - r,
{
    if r < 0 || r >= lines.len() {
        orig
    } else {
        let l = lines[r];
        let c1 = skip_space(l, c);
        if c1 >= l.len() {
            if r != lines.len() - 1 {
                word_end_pos(lines, r + 1, 0, (r + 1, 0))
            } else {
                orig
            }
        } else {
            (r, skip_nonspace(l, c1) - 1)
        }
    }
}

/// Every character of the line is a space.
pub open spec fn blank_spec(l: Seq<char>) -> bool {
    forall|i: int| 0 <= i < l.len() ==> l[i] == ' '
}

/// The line at `r`, where a negative `r` names the last line.
pub open spec fn line_at_spec(lines: Seq<Seq<char>>, r: int) -> Seq<char> {
    if r < 0 {
        lines.last()
    } else {
        lines[r]
    }
}

/// The first loop of `{`: back over the paragraph to a blank line.
pub open spec fn para_back_scan(lines: Seq<Seq<char>>, r: int) -> int
    decreases r + 2,
{
    if r < 0 {
        r
    } else {
        let r1 = if !blank_spec(line_at_spec(lines, r)) { r - 1 } else { r };
        if blank_spec(line_at_spec(lines, r1)) {
            r1
        } else {
            para_back_scan(lines, r1 - 1)
        }
    }
}

/// The last blank line at or before `r`, if any.
pub open spec fn last_blank_at_or_before(lines: Seq<Seq<char>>, r: int) -> Option<int>
    decreases r + 1,
{
    if r < 0 {
        None
    } else if blank_spec(lines[r]) {
        Some(r)
    } else {
        last_blank_at_or_before(lines, r - 1)
    }
}

/// The row that `{` moves to from row `r`.
pub open spec fn prev_para_row(lines: Seq<Seq<char>>, r: int) -> int {
    match last_blank_at_or_before(lines, para_back_scan(lines, r)) {
        Some(b) => b,
        None => 0,
    }
}

/// The first blank line at or after `r`, if any.
pub open spec fn first_blank_from(lines: Seq<Seq<char>>, r: int) -> Option<int>
    decreases lines.len() - r,
{
    if r < 0 || r >= lines.len() {
        None
    } else if blank_spec(lines[r]) {
        Some(r)
    } else {
        first_blank_from(lines, r + 1)
    }
}

/// The row that `}` moves to from row `r`.
pub open spec fn next_para_row(lines: Seq<Seq<char>>, r: int) -> int {
    match first_blank_from(lines, r) {
        Some(b) => b,
        None => lines.len() - 1,
    }
}

impl EditorModel {
    /// The buffer holds lines and the cursor's row is one of them.
    pub open spec fn placed(self) -> bool {
        self.lines.len() >= 1 && self.cursor_r < self.lines.len()
    }

    /// The cursor can be used: the buffer holds lines, the row is one of them, the column
    /// and every line are within what the machine can hold.
    pub open spec fn ready(self) -> bool {
        &&& self.lines.len() >= 1
        &&& self.lines.len() <= isize::MAX
        &&& self.cursor_r < self.lines.len()
        &&& self.cursor_c <= isize::MAX
        &&& self.fits()
    }

    /// The state after `w`.
    pub open spec fn word_fwd(self) -> Self {
        let p = word_fwd_pos(self.lines, self.cursor_r as int, self.cursor_c as int);
        self.with_cursor(p.0 as usize, p.1 as usize)
    }

    /// The state after `b`.
    pub open spec fn word_back(self) -> Self {
        let p = word_back_pos(self.lines, self.cursor_r as int, self.cursor_c as int);
        self.with_cursor(p.0 as usize, p.1 as usize)
    }

    /// The state after `e`.
    pub open spec fn word_end(self) -> Self {
        let p = word_end_pos(
            self.lines,
            self.cursor_r as int,
            self.cursor_c as int,
            (self.cursor_r as int, self.cursor_c as int),
        );
        self.with_cursor(p.0 as usize, p.1 as usize)
    }

    /// The state after `^`: the cursor on the first non-space of its line (its end where none).
    pub open spec fn first_nonblank(self) -> Self {
        EditorModel {
            cursor_c: crate::text::prefix_run(self.cur_line(), |c: char| c == ' ') as usize,
            ..self
        }
    }

    /// The state after `{`.
    pub open spec fn prev_para(self) -> Self {
        self.with_cursor(prev_para_row(self.lines, self.cursor_r as int) as usize, 0)
    }

    /// The state after `}`.
    pub open spec fn next_para(self) -> Self {
        self.with_cursor(next_para_row(self.lines, self.cursor_r as int) as usize, 0)
    }
}

/// In a buffer that fits, every line has at most `isize::MAX` characters.
pub proof fn lemma_line_len(m: EditorModel, i: int)
    requires
        m.fits(),
        0 <= i < m.lines.len(),
    ensures
        m.lines[i].len() <= isize::MAX,
{
    crate::text::lemma_utf8_len_ge(m.lines[i]);
}

proof fn lemma_skip_nonspace_bound(l: Seq<char>, c: int)
    requires
        0 <= c,
    ensures
        c <= skip_nonspace(l, c),
        c <= l.len() ==> skip_nonspace(l, c) <= l.len(),
    decreases l.len() - c,
{
    if c < l.len() && l[c] != ' ' {
        lemma_skip_nonspace_bound(l, c + 1);
    }
}

proof fn lemma_skip_space_bound(l: Seq<char>, c: int)
    requires
        0 <= c,
    ensures
        c <= skip_space(l, c),
        c <= l.len() ==> skip_space(l, c) <= l.len(),
    decreases l.len() - c,
{
    if c < l.len() && l[c] == ' ' {
        lemma_skip_space_bound(l, c + 1);
    }
}

proof fn lemma_back_bounds(l: Seq<char>, c: int)
    requires
        0 <= c,
    ensures
        0 <= back_space(l, c) <= c,
        0 <= back_word(l, c) <= c,
    decreases c,
{
    if c > 0 {
        lemma_back_bounds(l, c - 1);
    }
}

/// Skips the non-spaces of `l` from column `c`.
fn exec_skip_nonspace(l: &[char], c: usize) -> (r: usize)
    ensures
        r == skip_nonspace(l@, c as int),
{
    let mut i = c;
    while i < l.len() && l[i] != ' '
        invariant
            c <= i,
            skip_nonspace(l@, c as int) == skip_nonspace(l@, i as int),
        decreases l@.len() - i,
    {
        i = i + 1;
    }
    i
}

/// Skips the spaces of `l` from column `c`.
fn exec_skip_space(l: &[char], c: usize) -> (r: usize)
    ensures
        r == skip_space(l@, c as int),
{
    let mut i = c;
    while i < l.len() && l[i] == ' '
        invariant
            c <= i,
            skip_space(l@, c as int) == skip_space(l@, i as int),
        decreases l@.len() - i,
    {
        i = i + 1;
    }
    i
}

/// Moves left from column `c` over spaces.
fn exec_back_space(l: &[char], c: usize) -> (r: usize)
    ensures
        r == back_space(l@, c as int),
{
    let mut i = c;
    while i > 0 && char_at(l, i - 1) == Some(' ')
        invariant
            i <= c,
            back_space(l@, c as int) == back_space(l@, i as int),
        decreases i,
    {
        i = i - 1;
    }
    i
}

/// Moves left from column `c` over non-spaces.
fn exec_back_word(l: &[char], c: usize) -> (r: usize)
    ensures
        r == back_word(l@, c as int),
{
    let mut i = c;
    while i > 0 && char_at(l, i - 1) != Some(' ')
        invariant
            i <= c,
            back_word(l@, c as int) == back_word(l@, i as int),
        decreases i,
    {
        i = i - 1;
    }
    i
}

impl Editor {
    /// `w`: to the start of the next word.
    pub fn word_fwd(&mut self)
        requires
            old(self)@.ready(),
        ensures
            final(self)@ == old(self)@.word_fwd(),
            final(self)@.ready(),
    {
        let ghost m = self@;
        let n = self.lines.len();
        let r = self.cursor_r;
        let c0 = self.cursor_c;
        let len = self.lines[r].len();
        let c1 = exec_skip_nonspace(self.lines[r].as_slice(), c0);
        let c = exec_skip_space(self.lines[r].as_slice(), c1);
        assert(m.lines[r as int] == self.lines@[r as int]@);
        proof {
            lemma_line_len(m, r as int);
        }
        if c < len {
            self.cursor_c = c;
            return;
        }
        if r == n - 1 {
            self.cursor_c = len;
            return;
        }
        let ghost target = next_word_start(m.lines, r + 1);
        assert(word_fwd_pos(m.lines, r as int, c0 as int) == target);
        let mut row = r + 1;
        loop
            invariant
                self@ == m,
                m == old(self)@,
                m.ready(),
                n == self.lines@.len(),
                r < row < n,
                next_word_start(m.lines, row as int) == target,
                word_fwd_pos(m.lines, m.cursor_r as int, m.cursor_c as int) == target,
            decreases n - row,
        {
            let l = &self.lines[row];
            let llen = l.len();
            let col = exec_skip_space(l.as_slice(), 0);
            assert(m.lines[row as int] == l@);
            proof {
                lemma_line_len(m, row as int);
            }
            assert(col == skip_space(m.lines[row as int], 0));
            if col < llen {
                assert(target == (row as int, col as int));
                self.cursor_r = row;
                self.cursor_c = col;
                return;
            }
            if row == n - 1 {
                assert(target == (row as int, llen as int));
                self.cursor_r = row;
                self.cursor_c = llen;
                return;
            }
            row = row + 1;
        }
    }

    /// `b`: to the start of the previous word.
    pub fn word_back(&mut self)
        requires
            old(self)@.ready(),
        ensures
            final(self)@ == old(self)@.word_back(),
            final(self)@.ready(),
    {
        let r = self.cursor_r;
        assert(self@.lines[r as int] == self.lines@[r as int]@);
        proof {
            lemma_back_bounds(self@.lines[r as int], self.cursor_c as int);
            lemma_back_bounds(
                self@.lines[r as int],
                back_space(self@.lines[r as int], self.cursor_c as int),
            );
            if r > 0 {
                lemma_line_len(self@, r - 1);
                let l2 = self@.lines[r - 1];
                lemma_back_bounds(l2, l2.len() as int);
                lemma_back_bounds(l2, back_space(l2, l2.len() as int));
            }
        }
        let c0 = exec_back_space(self.lines[r].as_slice(), self.cursor_c);
        let c = exec_back_word(self.lines[r].as_slice(), c0);
        if c == 0 && self.cursor_r > 0 {
            self.cursor_r = self.cursor_r - 1;
            let r2 = self.cursor_r;
            assert(self@.lines[r2 as int] == self.lines@[r2 as int]@);
            let len = self.lines[r2].len();
            let c2 = exec_back_space(self.lines[r2].as_slice(), len);
            self.cursor_c = exec_back_word(self.lines[r2].as_slice(), c2);
        } else {
            self.cursor_c = c;
        }
    }

    /// `e`: to the end of the word.
    pub fn word_end(&mut self)
        requires
            old(self)@.ready(),
        ensures
            final(self)@ == old(self)@.word_end(),
            final(self)@.ready(),
    {
        let ghost m = self@;
        let ghost target = word_end_pos(
            m.lines,
            m.cursor_r as int,
            m.cursor_c as int,
            (m.cursor_r as int, m.cursor_c as int),
        );
        loop
            invariant
                self@ == m.with_cursor(self.cursor_r, self.cursor_c),
                m == old(self)@,
                self.cursor_r < self.lines@.len(),
                m.lines.len() == self.lines@.len(),
                m.cursor_r <= self.cursor_r,
                m.ready(),
                target == word_end_pos(
                    m.lines,
                    m.cursor_r as int,
                    m.cursor_c as int,
                    (m.cursor_r as int, m.cursor_c as int),
                ),
                self.cursor_r == m.cursor_r ==> self.cursor_c == m.cursor_c,
                self.cursor_r > m.cursor_r ==> self.cursor_c == 0 && word_end_pos(
                    m.lines,
                    self.cursor_r as int,
                    0,
                    (self.cursor_r as int, 0),
                ) == target,
            decreases self.lines@.len() - self.cursor_r,
        {
            let last = self.cursor_r == self.lines.len() - 1;
            let r = self.cursor_r;
            let c0 = self.cursor_c;
            assert(m.lines[r as int] == self.lines@[r as int]@);
            let len = self.lines[r].len();
            let c = exec_skip_space(self.lines[r].as_slice(), self.cursor_c);
            if c >= len {
                if !last {
                    self.cursor_r = self.cursor_r + 1;
                    self.cursor_c = 0;
                    continue;
                }
                return;
            }
            let c2 = exec_skip_nonspace(self.lines[r].as_slice(), c);
            proof {
                lemma_skip_space_stop(m.lines[r as int], c0 as int);
                lemma_skip_nonspace_bound(m.lines[r as int], c + 1);
            }
            proof {
                lemma_line_len(m, r as int);
            }
            self.cursor_c = c2 - 1;
            return;
        }
    }
}

proof fn lemma_skip_space_stop(l: Seq<char>, c: int)
    requires
        0 <= c,
    ensures
        skip_space(l, c) < l.len() ==> l[skip_space(l, c)] != ' ',
    decreases l.len() - c,
{
    if c < l.len() && l[c] == ' ' {
        lemma_skip_space_stop(l, c + 1);
    }
}


/// Every character of the line is a space.
pub fn line_blank(s: &[char]) -> (r: bool)
    ensures
        r == blank_spec(s@),
{
    for i in 0..s.len()
        invariant
            forall|k: int| 0 <= k < i ==> s@[k] == ' ',
    {
        if s[i] != ' ' {
            return false;
        }
    }
    true
}

proof fn lemma_last_blank_skip(lines: Seq<Seq<char>>, r: int, j: int)
    requires
        -1 <= j <= r < lines.len(),
        forall|k: int| j < k <= r ==> !blank_spec(#[trigger] lines[k]),
    ensures
        last_blank_at_or_before(lines, r) == last_blank_at_or_before(lines, j),
    decreases r - j,
{
    if j < r {
        lemma_last_blank_skip(lines, r - 1, j);
    }
}

proof fn lemma_first_blank_skip(lines: Seq<Seq<char>>, j: int, r: int)
    requires
        0 <= j <= r <= lines.len(),
        forall|k: int| j <= k < r ==> !blank_spec(#[trigger] lines[k]),
    ensures
        first_blank_from(lines, j) == first_blank_from(lines, r),
    decreases r - j,
{
    if j < r {
        lemma_first_blank_skip(lines, j + 1, r);
    }
}

proof fn lemma_last_blank_found(lines: Seq<Seq<char>>, r: int)
    requires
        r < lines.len(),
        last_blank_at_or_before(lines, r) is Some,
    ensures
        0 <= last_blank_at_or_before(lines, r)->0 <= r,
    decreases r + 1,
{
    if r >= 0 && !blank_spec(lines[r]) {
        lemma_last_blank_found(lines, r - 1);
    }
}

impl Editor {
    /// `^`: to the first non-space of the line (its end where there is none).
    pub fn first_nonblank(&mut self)
        ensures
            final(self)@ == old(self)@.first_nonblank(),
            old(self)@.ready() ==> final(self)@.ready(),
    {
        let line = self.cur_line();
        let mut i: usize = 0;
        while i < line.len() && line[i] == ' '
            invariant
                i <= line@.len(),
                forall|k: int| 0 <= k < i ==> line@[k] == ' ',
            decreases line@.len() - i,
        {
            i = i + 1;
        }
        proof {
            crate::text::lemma_prefix_run(line@, |c: char| c == ' ', i as int);
            if self@.ready() {
                lemma_line_len(self@, self.cursor_r as int);
            }
        }
        self.cursor_c = i;
    }

    /// The line at `r`, where a negative `r` names the last line.
    pub fn line_at(&self, r: i64) -> (l: &Vec<char>)
        requires
            self.lines@.len() >= 1,
            r < self.lines@.len(),
        ensures
            l@ == line_at_spec(self@.lines, r as int),
    {
        if r < 0 {
            assert(self@.lines.last() == self.lines@[self.lines@.len() - 1]@);
            &self.lines[self.lines.len() - 1]
        } else {
            let n = self.lines.len();
            assert(r < n);
            let ru = r as usize;
            assert(self@.lines[ru as int] == self.lines@[ru as int]@);
            &self.lines[ru]
        }
    }

    /// `{`: back to the blank line before the paragraph (the first line where there is none).
    pub fn prev_para(&mut self)
        requires
            old(self)@.ready(),
        ensures
            final(self)@ == old(self)@.prev_para(),
            final(self)@.ready(),
    {
        let ghost m = self@;
        let mut r = self.cursor_r as i64;
        loop
            invariant
                m == old(self)@,
                self@ == m,
                m.ready(),
                r <= m.cursor_r,
                r >= -2,
                r < 0 ==> para_back_scan(m.lines, m.cursor_r as int) == r,
                r >= 0 ==> para_back_scan(m.lines, m.cursor_r as int) == para_back_scan(m.lines, r as int),
            ensures
                para_back_scan(m.lines, m.cursor_r as int) == r,
                -2 <= r <= m.cursor_r,
            decreases r + 2,
        {
            if r < 0 {
                break;
            }
            let ghost r0 = r as int;
            if !line_blank(self.line_at(r).as_slice()) {
                r = r - 1;
            }
            let ghost r1 = r as int;
            assert(r1 == if !blank_spec(line_at_spec(m.lines, r0)) { r0 - 1 } else { r0 });
            if line_blank(self.line_at(r).as_slice()) {
                assert(para_back_scan(m.lines, r0) == r1);
                break;
            }
            assert(para_back_scan(m.lines, r0) == para_back_scan(m.lines, r1 - 1));
            r = r - 1;
        }
        let ghost start = r as int;
        while r >= 0
            invariant
                m == old(self)@,
                self@ == m,
                m.ready(),
                -2 <= r <= m.cursor_r,
                start == para_back_scan(m.lines, m.cursor_r as int),
                r >= -1 ==> last_blank_at_or_before(m.lines, start) == last_blank_at_or_before(m.lines, r as int),
                r < -1 ==> start == r,
            decreases r + 1,
        {
            assert(m.lines[r as int] == self.lines@[r as int]@);
            if line_blank(self.lines[r as usize].as_slice()) {
                self.cursor_r = r as usize;
                self.cursor_c = 0;
                return;
            }
            r = r - 1;
        }
        self.cursor_r = 0;
        self.cursor_c = 0;
    }

    /// `}`: forward to the next blank line (the last line where there is none).
    pub fn next_para(&mut self)
        requires
            old(self)@.ready(),
        ensures
            final(self)@ == old(self)@.next_para(),
            final(self)@.ready(),
    {
        let mut r = self.cursor_r;
        while r < self.lines.len()
            invariant
                self@ == old(self)@,
                old(self)@.ready(),
                old(self).cursor_r <= r <= self.lines@.len(),
                first_blank_from(self@.lines, old(self).cursor_r as int) == first_blank_from(self@.lines, r as int),
            decreases self.lines@.len() - r,
        {
            assert(self@.lines[r as int] == self.lines@[r as int]@);
            if line_blank(self.lines[r].as_slice()) {
                self.cursor_r = r;
                self.cursor_c = 0;
                return;
            }
            r = r + 1;
        }
        self.cursor_r = self.lines.len() - 1;
        self.cursor_c = 0;
    }
}


/// The first index from `i` on whose character is `ch`.
pub open spec fn find_fwd_from(l: Seq<char>, i: int, ch: char) -> Option<int>
    decreases l.len() - i,
{
    if i < 0 || i >= l.len() {
        None
    } else if l[i] == ch {
        Some(i)
    } else {
        find_fwd_from(l, i + 1, ch)
    }
}

/// The last index at or before `i` whose character is `ch`.
pub open spec fn find_back_from(l: Seq<char>, i: int, ch: char) -> Option<int>
    decreases i + 1,
{
    if i < 0 {
        None
    } else if i < l.len() && l[i] == ch {
        Some(i)
    } else {
        find_back_from(l, i - 1, ch)
    }
}

/// A character of an identifier.
pub open spec fn is_id_spec(c: char) -> bool {
    crate::text::is_alnum_spec(c) || c == '_'
}

/// Moving left from column `c` over identifier characters.
pub open spec fn id_back(l: Seq<char>, c: int) -> int
    decreases c,
{
    if c > 0 && c - 1 < l.len() && is_id_spec(l[c - 1]) {
        id_back(l, c - 1)
    } else {
        c
    }
}

/// Moving right from column `c` over identifier characters.
pub open spec fn id_fwd(l: Seq<char>, c: int) -> int
    decreases l.len() - c,
{
    if 0 <= c < l.len() && is_id_spec(l[c]) {
        id_fwd(l, c + 1)
    } else {
        c
    }
}

/// The identifier under column `c` (empty where the character there is not part of one).
pub open spec fn word_under_spec(l: Seq<char>, c: int) -> Seq<char> {
    if 0 <= c < l.len() && is_id_spec(l[c]) {
        l.subrange(id_back(l, c), id_fwd(l, c))
    } else {
        Seq::<char>::empty()
    }
}

/// A bracket character.
pub open spec fn is_bracket_spec(c: char) -> bool {
    c == '(' || c == '[' || c == '{' || c == ')' || c == ']' || c == '}'
}

/// The bracket that `%` starts from: the one at column `c`, or the first after it.
pub open spec fn bracket_start(l: Seq<char>, c: int) -> Option<int>
    decreases l.len() - c,
{
    if c < 0 || c >= l.len() {
        None
    } else if is_bracket_spec(l[c]) {
        Some(c)
    } else {
        bracket_start(l, c + 1)
    }
}

/// Scanning left from `i` for the opening bracket `open` that matches, with `depth`
/// closing brackets `close` still to match.
pub open spec fn match_back(l: Seq<char>, i: int, open: char, close: char, depth: nat) -> Option<int>
    decreases i + 1,
{
    if i < 0 || i >= l.len() {
        None
    } else if l[i] == open {
        if depth == 0 {
            Some(i)
        } else {
            match_back(l, i - 1, open, close, (depth - 1) as nat)
        }
    } else if l[i] == close {
        match_back(l, i - 1, open, close, depth + 1)
    } else {
        match_back(l, i - 1, open, close, depth)
    }
}

/// Scanning right from `i` for the closing bracket `close` that matches, with `depth`
/// opening brackets `open` still to match.
pub open spec fn match_fwd(l: Seq<char>, i: int, open: char, close: char, depth: nat) -> Option<int>
    decreases l.len() - i,
{
    if i < 0 || i >= l.len() {
        None
    } else if l[i] == close {
        if depth == 0 {
            Some(i)
        } else {
            match_fwd(l, i + 1, open, close, (depth - 1) as nat)
        }
    } else if l[i] == open {
        match_fwd(l, i + 1, open, close, depth + 1)
    } else {
        match_fwd(l, i + 1, open, close, depth)
    }
}

/// The column of the bracket that matches the one `%` starts from, if any.
pub open spec fn bracket_target(l: Seq<char>, c: int) -> Option<int> {
    match bracket_start(l, c) {
        None => None,
        Some(s) => {
            let ch = l[s];
            if ch == ')' || ch == ']' || ch == '}' {
                let open = if ch == ')' { '(' } else if ch == ']' { '[' } else { '{' };
                match_back(l, s - 1, open, ch, 0)
            } else {
                let close = if ch == '(' { ')' } else if ch == '[' { ']' } else { '}' };
                match_fwd(l, s + 1, ch, close, 0)
            }
        },
    }
}

impl EditorModel {
    /// The state after a find of `ch` in the line (`dir` 1: forward from the character after
    /// the cursor; otherwise backward from the one before it); `until` stops one short.
    /// A successful find is remembered for `;` and `,`.
    pub open spec fn do_find(self, ch: char, dir: i32, until: bool) -> Self {
        let l = self.cur_line();
        let found = if dir == 1 {
            find_fwd_from(l, self.cursor_c + 1, ch)
        } else {
            find_back_from(l, self.cursor_c - 1, ch)
        };
        match found {
            Some(f) => {
                let c = if dir == 1 {
                    if until {
                        if f >= 1 { f - 1 } else { 0 }
                    } else {
                        f
                    }
                } else {
                    if until { f + 1 } else { f }
                };
                EditorModel {
                    cursor_c: c as usize,
                    last_find_char: Some(ch),
                    last_find_dir: dir,
                    last_find_until: until,
                    ..self
                }.clamp()
            },
            None => self.clamp(),
        }
    }

    /// The state after `;` (`dir` 1) or `,` (`dir` -1): the last find again, in that direction.
    pub open spec fn repeat_find(self, dir: i32) -> Self {
        match self.last_find_char {
            None => self,
            Some(ch) => self.do_find(ch, dir, self.last_find_until),
        }
    }

    /// The state after `%`.
    pub open spec fn match_bracket(self) -> Self {
        match bracket_target(self.cur_line(), self.cursor_c as int) {
            Some(t) => EditorModel { cursor_c: t as usize, ..self },
            None => self,
        }
    }

    /// The state after `~` on one character: an ASCII letter under the cursor changes case.
    pub open spec fn togg_case(self) -> Self {
        let l = self.cur_line();
        if l.len() == 0 || self.cursor_c >= l.len() {
            self
        } else {
            let ch = l[self.cursor_c as int];
            if crate::text::is_lower_spec(ch) {
                self.set_char(self.cursor_c, crate::text::upper_spec(ch))
            } else if crate::text::is_upper_spec(ch) {
                self.set_char(self.cursor_c, crate::text::lower_spec(ch))
            } else {
                self
            }
        }
    }

    /// The state after `J`: the next line joined to this one with a space (none where this
    /// line is empty), the cursor at the end of the joined line; saved for undo.
    pub open spec fn join_lines(self) -> Self {
        if self.cursor_r + 1 >= self.lines.len() {
            self
        } else {
            let s = self.undo_save();
            let cur = self.cur_line();
            let nxt = self.lines[self.cursor_r + 1];
            let joined = if cur.len() == 0 { nxt } else { cur + seq![' '] + nxt };
            let s2 = s.set_cur(joined);
            EditorModel {
                lines: s2.lines.remove(self.cursor_r + 1),
                cursor_c: joined.len() as usize,
                ..s2
            }
        }
    }
}

proof fn lemma_find_fwd_skip(l: Seq<char>, j: int, i: int, ch: char)
    requires
        0 <= j <= i,
        forall|k: int| j <= k < i && k < l.len() ==> #[trigger] l[k] != ch,
    ensures
        find_fwd_from(l, j, ch) == find_fwd_from(l, i, ch),
    decreases i - j,
{
    if j < i && j < l.len() {
        lemma_find_fwd_skip(l, j + 1, i, ch);
    }
}

proof fn lemma_find_fwd_found(l: Seq<char>, i: int, ch: char)
    ensures
        find_fwd_from(l, i, ch) matches Some(f) ==> i <= f < l.len() && l[f] == ch,
    decreases l.len() - i,
{
    if 0 <= i < l.len() && l[i] != ch {
        lemma_find_fwd_found(l, i + 1, ch);
    }
}

proof fn lemma_find_back_found(l: Seq<char>, i: int, ch: char)
    ensures
        find_back_from(l, i, ch) matches Some(f) ==> 0 <= f <= i && f < l.len() && l[f] == ch,
    decreases i + 1,
{
    if i >= 0 && !(i < l.len() && l[i] == ch) {
        lemma_find_back_found(l, i - 1, ch);
    }
}


proof fn lemma_find_back_skip(l: Seq<char>, j: int, i: int, ch: char)
    requires
        j <= i,
        -1 <= j,
        forall|k: int| j < k <= i && k < l.len() ==> #[trigger] l[k] != ch,
    ensures
        find_back_from(l, i, ch) == find_back_from(l, j, ch),
    decreases i - j,
{
    if j < i {
        lemma_find_back_skip(l, j, i - 1, ch);
    }
}

proof fn lemma_bracket_skip(l: Seq<char>, j: int, i: int)
    requires
        0 <= j <= i,
        forall|k: int| j <= k < i && k < l.len() ==> !is_bracket_spec(#[trigger] l[k]),
    ensures
        bracket_start(l, j) == bracket_start(l, i),
    decreases i - j,
{
    if j < i && j < l.len() {
        lemma_bracket_skip(l, j + 1, i);
    }
}

pub proof fn lemma_bracket_found(l: Seq<char>, i: int)
    ensures
        bracket_start(l, i) matches Some(s) ==> i <= s < l.len() && is_bracket_spec(l[s]),
    decreases l.len() - i,
{
    if 0 <= i < l.len() && !is_bracket_spec(l[i]) {
        lemma_bracket_found(l, i + 1);
    }
}

fn is_bracket(c: char) -> (b: bool)
    ensures
        b == is_bracket_spec(c),
{
    c == '(' || c == '[' || c == '{' || c == ')' || c == ']' || c == '}'
}

fn is_id(c: char) -> (b: bool)
    ensures
        b == is_id_spec(c),
{
    crate::text::is_alnum(c) || c == '_'
}

impl Editor {
    /// A find of `ch` in the line (`dir` 1 forward, otherwise backward); `until` stops one short.
    pub fn do_find(&mut self, ch: char, dir: i32, until: bool)
        requires
            old(self)@.cursor_c <= isize::MAX,
        ensures
            final(self)@ == old(self)@.do_find(ch, dir, until),
            old(self)@.ready() ==> final(self)@.ready(),
    {
        let line = self.cur_line();
        let len = line.len();
        let ghost l = line@;
        let mut found: Option<usize> = None;
        if dir == 1 {
            let start = self.cursor_c + 1;
            let mut i = start;
            while i < len
                invariant_except_break
                    found is None,
                invariant
                    len == l.len(),
                    line@ == l,
                    start <= i,
                    find_fwd_from(l, start as int, ch) == find_fwd_from(l, i as int, ch),
                ensures
                    found matches Some(f) ==> find_fwd_from(l, start as int, ch) == Some(f as int),
                    found is None ==> find_fwd_from(l, start as int, ch) is None,
                decreases len - i,
            {
                if line[i] == ch {
                    found = Some(i);
                    break;
                }
                i = i + 1;
            }
            proof {
                lemma_find_fwd_found(l, start as int, ch);
            }
            if let Some(f) = found {
                self.cursor_c = if until {
                    f.saturating_sub(1)
                } else {
                    f
                };
            }
        } else {
            let mut i: i64 = self.cursor_c as i64 - 1;
            while i >= 0
                invariant_except_break
                    found is None,
                invariant
                    len == l.len(),
                    line@ == l,
                    -1 <= i < old(self).cursor_c,
                    find_back_from(l, old(self).cursor_c - 1, ch) == find_back_from(l, i as int, ch),
                ensures
                    found matches Some(f) ==> find_back_from(l, old(self).cursor_c - 1, ch) == Some(f as int),
                    found is None ==> find_back_from(l, old(self).cursor_c - 1, ch) is None,
                decreases i + 1,
            {
                let iu = i as usize;
                if char_at(line.as_slice(), iu) == Some(ch) {
                    found = Some(iu);
                    break;
                }
                i = i - 1;
            }
            proof {
                lemma_find_back_found(l, old(self).cursor_c - 1, ch);
            }
            if let Some(f) = found {
                self.cursor_c = if until {
                    f + 1
                } else {
                    f
                };
            }
        }
        if found.is_some() {
            self.last_find_char = Some(ch);
            self.last_find_dir = dir;
            self.last_find_until = until;
        }
        proof {
            if old(self)@.ready() {
                lemma_line_len(old(self)@, old(self).cursor_r as int);
            }
        }
        self.clamp();
    }

    /// `;` (`dir` 1) or `,` (`dir` -1): the last find again.
    pub fn repeat_find(&mut self, dir: i32)
        requires
            old(self)@.cursor_c <= isize::MAX,
        ensures
            final(self)@ == old(self)@.repeat_find(dir),
            old(self)@.ready() ==> final(self)@.ready(),
    {
        match self.last_find_char {
            None => {},
            Some(ch) => {
                let until = self.last_find_until;
                self.do_find(ch, dir, until);
            },
        }
    }

    /// The identifier under the cursor (empty where there is none).
    pub fn word_under(&self) -> (r: Vec<char>)
        ensures
            r@ == word_under_spec(self@.cur_line(), self@.cursor_c as int),
    {
        let line = self.cur_line();
        let c = self.cursor_c;
        if !(c < line.len() && is_id(line[c])) {
            return Vec::new();
        }
        let mut s = c;
        while s > 0 && is_id(line[s - 1])
            invariant
                s <= c < line@.len(),
                id_back(line@, c as int) == id_back(line@, s as int),
            decreases s,
        {
            s = s - 1;
        }
        let mut e = c;
        while e < line.len() && is_id(line[e])
            invariant
                c <= e <= line@.len(),
                id_fwd(line@, c as int) == id_fwd(line@, e as int),
            decreases line@.len() - e,
        {
            e = e + 1;
        }
        let mut out: Vec<char> = Vec::new();
        crate::text::push_range(&mut out, line.as_slice(), s, e);
        out
    }

    /// `%`: to the bracket that matches the one under or after the cursor.
    pub fn match_bracket(&mut self)
        ensures
            final(self)@ == old(self)@.match_bracket(),
            old(self)@.ready() ==> final(self)@.ready(),
    {
        let line = self.cur_line();
        let len = line.len();
        let ghost l = line@;
        let mut s = self.cursor_c;
        while s < len && !is_bracket(line[s])
            invariant
                len == l.len(),
                line@ == l,
                old(self).cursor_c <= s,
                bracket_start(l, old(self).cursor_c as int) == bracket_start(l, s as int),
            decreases len - s,
        {
            s = s + 1;
        }
        if s >= len {
            return;
        }
        proof {
            lemma_bracket_found(l, s as int);
        }
        let ch = line[s];
        if ch == ')' || ch == ']' || ch == '}' {
            let open = if ch == ')' {
                '('
            } else if ch == ']' {
                '['
            } else {
                '{'
            };
            let mut depth: usize = 0;
            let mut i: usize = s;
            while i > 0
                invariant
                    len == l.len(),
                    line@ == l,
                    s < len,
                    i <= s,
                    depth <= s - i,
                    self@ == old(self)@,
                    l == old(self)@.cur_line(),
                    bracket_target(l, old(self).cursor_c as int) == match_back(l, i - 1, open, ch, depth as nat),
                decreases i,
            {
                let cc = line[i - 1];
                if cc == open {
                    if depth == 0 {
                        assert(match_back(l, i - 1, open, ch, 0) == Some((i - 1) as int));
                        proof {
                            if old(self)@.ready() {
                                lemma_line_len(old(self)@, old(self).cursor_r as int);
                            }
                        }
                        self.cursor_c = i - 1;
                        return;
                    }
                    depth = depth - 1;
                } else if cc == ch {
                    depth = depth + 1;
                }
                i = i - 1;
            }
        } else {
            let close = if ch == '(' {
                ')'
            } else if ch == '[' {
                ']'
            } else {
                '}'
            };
            let mut depth: usize = 0;
            let mut i: usize = s + 1;
            while i < len
                invariant
                    len == l.len(),
                    line@ == l,
                    s < i <= len,
                    depth <= i - s,
                    self@ == old(self)@,
                    l == old(self)@.cur_line(),
                    bracket_target(l, old(self).cursor_c as int) == match_fwd(l, i as int, ch, close, depth as nat),
                decreases len - i,
            {
                let cc = line[i];
                if cc == close {
                    if depth == 0 {
                        assert(match_fwd(l, i as int, ch, close, 0) == Some(i as int));
                        proof {
                            if old(self)@.ready() {
                                lemma_line_len(old(self)@, old(self).cursor_r as int);
                            }
                        }
                        self.cursor_c = i;
                        return;
                    }
                    depth = depth - 1;
                } else if cc == ch {
                    depth = depth + 1;
                }
                i = i + 1;
            }
        }
    }

    /// `~` on one character: an ASCII letter under the cursor changes case.
    pub fn togg_case(&mut self)
        requires
            old(self)@.cursor_c <= isize::MAX,
        ensures
            final(self)@ == old(self)@.togg_case(),
    {
        let line = self.cur_line();
        if line.len() == 0 {
            return;
        }
        if let Some(ch) = char_at(line.as_slice(), self.cursor_c) {
            let c = self.cursor_c;
            if 'a' <= ch && ch <= 'z' {
                self.set_char(c, crate::text::to_upper(ch));
            } else if 'A' <= ch && ch <= 'Z' {
                self.set_char(c, crate::text::to_lower(ch));
            }
        }
    }

    /// `J`: joins the next line to this one.
    pub fn join_lines(&mut self)
        requires
            old(self)@.ready(),
        ensures
            final(self)@ == old(self)@.join_lines(),
    {
        if self.cursor_r >= self.lines.len() - 1 {
            return;
        }
        self.undo_save();
        let cur = self.cur_line();
        let r = self.cursor_r;
        assert(self@.lines[r + 1] == self.lines@[r + 1]@);
        let mut joined: Vec<char> = Vec::new();
        if cur.len() > 0 {
            crate::text::push_range(&mut joined, cur.as_slice(), 0, cur.len());
            joined.push(' ');
        }
        let nl = self.lines[r + 1].len();
        crate::text::push_range(&mut joined, self.lines[r + 1].as_slice(), 0, nl);
        let ghost j = joined@;
        assert(j =~= (if cur@.len() == 0 { self@.lines[r + 1] } else { cur@ + seq![' '] + self@.lines[r + 1] }));
        let jl = joined.len();
        self.set_cur(joined);
        let ghost before = self.lines@;
        self.lines.remove(r + 1);
        assert(lines_view(self.lines@) =~= lines_view(before).remove(r + 1));
        self.cursor_c = jl;
    }
}


/// The pieces of `s` between newlines (one more than there are newlines).
pub open spec fn split_nl(s: Seq<char>) -> Seq<Seq<char>>
    decreases s.len(),
{
    let i = crate::db::line_end(s) as int;
    if i >= s.len() {
        seq![s]
    } else {
        seq![s.take(i)] + split_nl(s.skip(i + 1))
    }
}

/// The lines that a line-wise clipboard holds: its pieces between newlines, without a
/// last empty piece.
pub open spec fn clip_lines_spec(clip: Seq<char>) -> Seq<Seq<char>> {
    let v = split_nl(clip);
    if v.len() > 0 && v.last().len() == 0 {
        v.drop_last()
    } else {
        v
    }
}

proof fn lemma_split_nl_nonempty(s: Seq<char>)
    ensures
        split_nl(s).len() >= 1,
    decreases s.len(),
{
    let i = crate::db::line_end(s) as int;
    if i < s.len() {
        lemma_split_nl_nonempty(s.skip(i + 1));
    }
}

proof fn lemma_line_end_bound(s: Seq<char>)
    ensures
        crate::db::line_end(s) <= s.len(),
    decreases s.len(),
{
    if s.len() > 0 && s[0] != '\n' {
        lemma_line_end_bound(s.drop_first());
    }
}

/// A non-empty clipboard holds at least one line.
pub proof fn lemma_clip_lines_nonempty(clip: Seq<char>)
    requires
        clip.len() > 0,
    ensures
        clip_lines_spec(clip).len() >= 1,
{
    lemma_split_nl_nonempty(clip);
    let i = crate::db::line_end(clip) as int;
    lemma_line_end_bound(clip);
    if i < clip.len() {
        lemma_split_nl_nonempty(clip.skip(i + 1));
    } else {
        assert(split_nl(clip) == seq![clip]);
    }
}

impl EditorModel {
    /// The state after `p`: a line-wise clipboard goes in below the cursor's line (the
    /// cursor on the last pasted line), a character-wise one after the cursor (the cursor
    /// after the pasted text); saved for undo.
    pub open spec fn paste_after(self) -> Self {
        if self.clipboard.len() == 0 {
            self
        } else {
            let s = self.undo_save();
            if self.clipboard_kind == ClipKind::Lines {
                let cl = clip_lines_spec(self.clipboard);
                let r = self.cursor_r as int;
                EditorModel {
                    lines: self.lines.take(r + 1) + cl + self.lines.skip(r + 1),
                    cursor_r: (self.cursor_r + cl.len()) as usize,
                    cursor_c: 0,
                    ..s
                }.clamp()
            } else {
                let l = self.cur_line();
                let c = self.cursor_c;
                let newl = char_slice_spec(l, 0, c) + self.clipboard + char_slice_spec(l, c, usize::MAX);
                EditorModel { cursor_c: (c + self.clipboard.len()) as usize, ..s.set_cur(newl) }.clamp()
            }
        }
    }

    /// The state after `P`: like `p`, but above the cursor's line (the cursor on the last
    /// pasted line) or before the cursor (the cursor on the last pasted character).
    pub open spec fn paste_before(self) -> Self {
        if self.clipboard.len() == 0 {
            self
        } else {
            let s = self.undo_save();
            if self.clipboard_kind == ClipKind::Lines {
                let cl = clip_lines_spec(self.clipboard);
                let r = self.cursor_r as int;
                EditorModel {
                    lines: self.lines.take(r) + cl + self.lines.skip(r),
                    cursor_r: (self.cursor_r + cl.len() - 1) as usize,
                    cursor_c: 0,
                    ..s
                }.clamp()
            } else {
                let l = self.cur_line();
                let c = self.cursor_c;
                let newl = char_slice_spec(l, 0, c) + self.clipboard + char_slice_spec(l, c, usize::MAX);
                EditorModel {
                    cursor_c: (c + self.clipboard.len() - 1) as usize,
                    ..s.set_cur(newl)
                }.clamp()
            }
        }
    }

    /// The state after the lines `sr..=er` (`er` limited to the last line) are deleted and saved
    /// for undo; the deleted lines go to the clipboard, line-wise; deleting every line leaves
    /// one empty line. Nothing happens where `sr > er`.
    pub open spec fn delete_lines_range(self, sr: usize, er0: usize) -> Self {
        let n = self.lines.len();
        let er = if er0 < n - 1 { er0 as int } else { n - 1 };
        if sr > er {
            self
        } else {
            let s = EditorModel {
                clipboard: join_nl(self.lines.subrange(sr as int, er + 1)),
                clipboard_kind: ClipKind::Lines,
                ..self.undo_save()
            };
            if er - sr + 1 >= n {
                EditorModel {
                    lines: seq![Seq::<char>::empty()],
                    cursor_r: 0,
                    cursor_c: 0,
                    status_msg: "Buffer cleared"@,
                    ..s
                }
            } else {
                let nl = self.lines.take(sr as int) + self.lines.skip(er + 1);
                EditorModel {
                    lines: nl,
                    cursor_r: if sr >= nl.len() { (nl.len() - 1) as usize } else { sr },
                    cursor_c: 0,
                    ..s
                }
            }
        }
    }
}

impl Editor {
    /// The lines that a line-wise clipboard holds.
    pub fn clipboard_lines(&self) -> (r: Vec<Vec<char>>)
        ensures
            lines_view(r@) == clip_lines_spec(self@.clipboard),
    {
        let c = &self.clipboard;
        let mut out: Vec<Vec<char>> = Vec::new();
        let mut k: usize = 0;
        let ghost whole = c@;
        assert(c@.skip(0) =~= c@);
        assert(lines_view(out@) + split_nl(c@) =~= split_nl(c@));
        loop
            invariant_except_break
                lines_view(out@) + split_nl(c@.skip(k as int)) == split_nl(c@),
            invariant
                k <= c@.len(),
                whole == c@,
            ensures
                lines_view(out@) == split_nl(c@),
            decreases c@.len() - k,
        {
            let ghost s = c@.skip(k as int);
            let mut j = k;
            while j < c.len() && c[j] != '\n'
                invariant
                    k <= j <= c@.len(),
                    s == c@.skip(k as int),
                    forall|m: int| k <= m < j ==> #[trigger] c@[m] != '\n',
                decreases c@.len() - j,
            {
                j = j + 1;
            }
            proof {
                assert forall|m: int| 0 <= m < j - k implies #[trigger] s[m] != '\n' by {
                    assert(s[m] == c@[k + m]);
                }
                if j < c@.len() {
                    assert(s[j - k] == c@[j as int]);
                }
                crate::text::lemma_prefix_run(s, |ch: char| ch != '\n', j - k);
            }
            let mut piece: Vec<char> = Vec::new();
            crate::text::push_range(&mut piece, c.as_slice(), k, j);
            assert(piece@ =~= s.take(j - k));
            let ghost prev = out@;
            out.push(piece);
            if j >= c.len() {
                proof {
                    assert(s.take(j - k) =~= s);
                    assert(split_nl(s) == seq![s]);
                    assert(lines_view(out@) =~= lines_view(prev).push(s));
                    assert(lines_view(out@) =~= lines_view(prev) + split_nl(s));
                }
                break;
            }
            proof {
                assert(s.skip(j - k + 1) =~= c@.skip(j + 1));
                assert(lines_view(out@) =~= lines_view(prev) + seq![s.take(j - k)]);
                assert(lines_view(out@) + split_nl(c@.skip(j + 1)) =~= lines_view(prev) + split_nl(s));
            }
            k = j + 1;
        }
        let n = out.len();
        if n > 0 && out[n - 1].len() == 0 {
            let ghost before = out@;
            out.pop();
            assert(lines_view(before).last() == before[n - 1]@);
            assert(lines_view(out@) =~= lines_view(before).drop_last());
        }
        out
    }

    /// `p`.
    pub fn paste_after(&mut self)
        requires
            old(self)@.placed(),
            old(self)@.cursor_c + old(self)@.clipboard.len() <= usize::MAX || old(self)@.cursor_c
                <= old(self)@.cur_len(),
        ensures
            final(self)@ == old(self)@.paste_after(),
            final(self)@.placed(),
            final(self)@.cursor_c + final(self)@.clipboard.len() <= usize::MAX || final(self)@.cursor_c
                <= final(self)@.cur_len(),
    {
        if self.clipboard.len() == 0 {
            return;
        }
        proof {
            lemma_clip_lines_nonempty(self@.clipboard);
        }
        self.undo_save();
        if self.clipboard_kind == ClipKind::Lines {
            let clines = self.clipboard_lines();
            let r = self.cursor_r;
            let ghost old_lines = self.lines@;
            let nlines = self.lines.len();
            assert(r < nlines);
            let mut pbuf: Vec<Vec<char>> = Vec::new();
            let mut rest = self.lines.split_off(r + 1);
            let mut head: Vec<Vec<char>> = Vec::new();
            std::mem::swap(&mut head, &mut self.lines);
            let mut cl = clines;
            let cn = cl.len();
            pbuf.append(&mut head);
            pbuf.append(&mut cl);
            pbuf.append(&mut rest);
            proof {
                assert(lines_view(pbuf@) =~= lines_view(old_lines).take(r + 1) + clip_lines_spec(
                    old(self)@.clipboard,
                ) + lines_view(old_lines).skip(r + 1));
            }
            let total = pbuf.len();
            assert(r + cn < total);
            self.lines = pbuf;
            self.cursor_r = self.cursor_r + cn;
            self.cursor_c = 0;
        } else {
            let l = self.cur_line();
            let c = self.cursor_c;
            let mut newl = char_slice(l.as_slice(), 0, c);
            let mut clip = char_slice(self.clipboard.as_slice(), 0, usize::MAX);
            assert(clip@ =~= self@.clipboard);
            let cn = clip.len();
            newl.append(&mut clip);
            let mut tail = char_slice(l.as_slice(), c, usize::MAX);
            newl.append(&mut tail);
            let total = newl.len();
            assert(c <= l@.len() ==> c + cn <= total);
            self.set_cur(newl);
            self.cursor_c = c + cn;
        }
        self.clamp();
    }

    /// `P`.
    pub fn paste_before(&mut self)
        requires
            old(self)@.placed(),
            old(self)@.cursor_c + old(self)@.clipboard.len() <= usize::MAX || old(self)@.cursor_c
                <= old(self)@.cur_len(),
        ensures
            final(self)@ == old(self)@.paste_before(),
            final(self)@.placed(),
            final(self)@.cursor_c + final(self)@.clipboard.len() <= usize::MAX || final(self)@.cursor_c
                <= final(self)@.cur_len(),
    {
        if self.clipboard.len() == 0 {
            return;
        }
        proof {
            lemma_clip_lines_nonempty(self@.clipboard);
        }
        self.undo_save();
        if self.clipboard_kind == ClipKind::Lines {
            let clines = self.clipboard_lines();
            let r = self.cursor_r;
            let ghost old_lines = self.lines@;
            let mut pbuf: Vec<Vec<char>> = Vec::new();
            let mut rest = self.lines.split_off(r);
            let mut head: Vec<Vec<char>> = Vec::new();
            std::mem::swap(&mut head, &mut self.lines);
            let mut cl = clines;
            let cn = cl.len();
            pbuf.append(&mut head);
            pbuf.append(&mut cl);
            pbuf.append(&mut rest);
            proof {
                assert(lines_view(pbuf@) =~= lines_view(old_lines).take(r as int) + clip_lines_spec(
                    old(self)@.clipboard,
                ) + lines_view(old_lines).skip(r as int));
            }
            let total = pbuf.len();
            assert(r + cn <= total);
            assert(cn >= 1);
            self.lines = pbuf;
            self.cursor_r = self.cursor_r + cn - 1;
            self.cursor_c = 0;
        } else {
            let l = self.cur_line();
            let c = self.cursor_c;
            let mut newl = char_slice(l.as_slice(), 0, c);
            let mut clip = char_slice(self.clipboard.as_slice(), 0, usize::MAX);
            assert(clip@ =~= self@.clipboard);
            let cn = clip.len();
            newl.append(&mut clip);
            let mut tail = char_slice(l.as_slice(), c, usize::MAX);
            newl.append(&mut tail);
            let total = newl.len();
            assert(c <= l@.len() ==> c + cn <= total);
            self.set_cur(newl);
            self.cursor_c = c + cn - 1;
        }
        self.clamp();
    }

    /// The lines `sr..=er` joined with newlines.
    pub fn join_rows(&self, sr: usize, er: usize) -> (r: Vec<char>)
        requires
            sr <= er < self.lines@.len(),
        ensures
            r@ == join_nl(self@.lines.subrange(sr as int, er + 1)),
    {
        let ghost m = self@;
        let nlen = self.lines.len();
        let mut clip: Vec<char> = Vec::new();
        let mut i = sr;
        while i <= er
            invariant
                sr <= i <= er + 1,
                er < nlen,
                nlen == self.lines@.len(),
                self@ == m,
                i > sr ==> clip@ == join_nl(m.lines.subrange(sr as int, i as int)),
                i == sr ==> clip@.len() == 0,
            decreases er + 1 - i,
        {
            assert(m.lines[i as int] == self.lines@[i as int]@);
            if i > sr {
                clip.push('\n');
            }
            let li = &self.lines[i];
            crate::text::push_range(&mut clip, li.as_slice(), 0, li.len());
            proof {
                let sub = m.lines.subrange(sr as int, i + 1);
                assert(sub.drop_last() =~= m.lines.subrange(sr as int, i as int));
                assert(li@.subrange(0, li@.len() as int) =~= li@);
                if i == sr {
                    assert(sub.len() == 1);
                    assert(clip@ =~= li@);
                }
            }
            i = i + 1;
        }
        clip
    }

    /// Deletes the lines `sr..=er` (`er` limited to the last line), saved for undo; the deleted
    /// lines go to the clipboard, line-wise.
    pub fn delete_lines_range(&mut self, sr: usize, er: usize)
        requires
            old(self).wf(),
        ensures
            final(self)@ == old(self)@.delete_lines_range(sr, er),
    {
        let n = self.lines.len();
        let er = if er < n - 1 {
            er
        } else {
            n - 1
        };
        if sr > er {
            return;
        }
        let clip = self.join_rows(sr, er);
        self.undo_save();
        self.clipboard = clip;
        self.clipboard_kind = ClipKind::Lines;
        if er - sr + 1 >= n {
            let mut v: Vec<Vec<char>> = Vec::new();
            v.push(Vec::new());
            self.lines = v;
            self.cursor_r = 0;
            self.cursor_c = 0;
            self.status_msg = str_chars("Buffer cleared");
            assert(lines_view(self.lines@) =~= seq![Seq::<char>::empty()]);
            return;
        }
        let ghost old_lines = self.lines@;
        let mut tail = self.lines.split_off(er + 1);
        self.lines.truncate(sr);
        self.lines.append(&mut tail);
        assert(lines_view(self.lines@) =~= lines_view(old_lines).take(sr as int) + lines_view(
            old_lines,
        ).skip(er + 1));
        self.cursor_r = sr;
        if self.cursor_r >= self.lines.len() {
            self.cursor_r = self.lines.len() - 1;
        }
        self.cursor_c = 0;
    }
}


/// An optional column as an integer.
pub open spec fn opt_int(o: Option<usize>) -> Option<int> {
    match o {
        Some(f) => Some(f as int),
        None => None,
    }
}

/// The byte offset, within the characters of `ll` from `s` on, of the first occurrence of
/// `pat` there, if any.
pub open spec fn offset_in(ll: Seq<char>, s: int, pat: Seq<char>) -> Option<int> {
    let sub = char_skip(ll, s);
    match crate::text::find_first(sub, pat) {
        Some(k) => Some(crate::text::utf8_len(sub.take(k)) as int),
        None => None,
    }
}

/// A forward search from row `i` on: the first row with an occurrence of `pat` in its
/// lower-cased text (on the cursor's row `r`, from the column after `c`), and the column
/// the cursor goes to there: the start column plus the byte offset of the occurrence.
pub open spec fn search_fwd(lines: Seq<Seq<char>>, pat: Seq<char>, i: int, r: int, c: int) -> Option<(int, int)>
    decreases lines.len() - i,
{
    if i < 0 || i >= lines.len() {
        None
    } else {
        let ll = crate::text::lower_seq(lines[i]);
        let s = if i == r { c + 1 } else { 0 };
        if s > ll.len() {
            search_fwd(lines, pat, i + 1, r, c)
        } else {
            match offset_in(ll, s, pat) {
                Some(off) => Some((i, s + off)),
                None => search_fwd(lines, pat, i + 1, r, c),
            }
        }
    }
}

/// The last occurrence found by repeated searching from column `s` on, as long as the
/// column reached stays before `limit`.
pub open spec fn last_before(ll: Seq<char>, pat: Seq<char>, s: int, limit: int, found: Option<int>) -> Option<int>
    decreases limit - s,
{
    if s >= limit {
        found
    } else {
        match offset_in(ll, s, pat) {
            Some(off) => if s + off < limit {
                last_before(ll, pat, s + off + 1, limit, Some(s + off))
            } else {
                found
            },
            None => found,
        }
    }
}

/// A backward search from row `i` down: the first row with an occurrence of `pat` in its
/// lower-cased text before the limit (on the cursor's row `r`, the cursor column `c`).
pub open spec fn search_back(lines: Seq<Seq<char>>, pat: Seq<char>, i: int, r: int, c: int) -> Option<(int, int)>
    decreases i + 1,
{
    if i < 0 || i >= lines.len() {
        None
    } else {
        let ll = crate::text::lower_seq(lines[i]);
        let limit = if i == r { c } else { ll.len() as int };
        match last_before(ll, pat, 0, limit, None) {
            Some(f) => Some((i, f)),
            None => search_back(lines, pat, i - 1, r, c),
        }
    }
}

impl EditorModel {
    /// Every line, as the original text, is short enough for its byte length to fit an `isize`.
    pub open spec fn fits(self) -> bool {
        forall|i: int| 0 <= i < self.lines.len() ==> crate::text::utf8_len(#[trigger] self.lines[i]) <= isize::MAX
    }

    /// Where a search for the pattern goes (`dir` 1 forward, otherwise backward), ignoring ASCII case.
    pub open spec fn search_target(self, dir: i32) -> Option<(int, int)> {
        let pat = crate::text::lower_seq(self.search_pat);
        if pat.len() == 0 {
            None
        } else if dir == 1 {
            search_fwd(self.lines, pat, self.cursor_r as int, self.cursor_r as int, self.cursor_c as int)
        } else {
            search_back(self.lines, pat, self.cursor_r as int, self.cursor_r as int, self.cursor_c as int)
        }
    }

    /// The state after a search: the cursor on the match and the status telling the pattern,
    /// or the status telling that it was not found.
    pub open spec fn find_match(self, dir: i32) -> Self {
        match self.search_target(dir) {
            Some(p) => self.with_cursor(p.0 as usize, p.1 as usize).with_status("Search: "@ + self.search_pat),
            None => self.with_status("Pattern not found: "@ + self.search_pat),
        }
    }
}

proof fn lemma_offset_bound(ll: Seq<char>, s: int, pat: Seq<char>)
    requires
        0 <= s <= ll.len(),
    ensures
        offset_in(ll, s, pat) matches Some(off) ==> 0 <= off && s + off <= crate::text::utf8_len(ll),
{
    let sub = char_skip(ll, s);
    match crate::text::find_first(sub, pat) {
        Some(k) => {
            crate::text::lemma_find_from_found(sub, pat, 0);
            crate::text::lemma_utf8_len_mono(sub, k, sub.len() as int);
            assert(sub.take(sub.len() as int) =~= sub);
            crate::text::lemma_utf8_len_concat(ll.take(s), sub);
            assert(ll.take(s) + sub =~= ll);
            crate::text::lemma_utf8_len_ge(ll.take(s));
        },
        None => {},
    }
}

impl Editor {
    /// The byte offset of the first occurrence of `pat` in `ll` from column `s` on.
    fn offset_from(ll: &Vec<char>, s: usize, pat: &Vec<char>) -> (r: Option<usize>)
        requires
            s <= ll@.len(),
            crate::text::utf8_len(ll@) <= isize::MAX,
        ensures
            r matches Some(o) ==> offset_in(ll@, s as int, pat@) == Some(o as int),
            r is None ==> offset_in(ll@, s as int, pat@) is None,
    {
        let sub = char_slice(ll.as_slice(), s, usize::MAX);
        assert(sub@ == char_skip(ll@, s as int));
        match crate::text::find_chars_from(sub.as_slice(), pat.as_slice(), 0) {
            Some(k) => {
                proof {
                    crate::text::lemma_find_from_found(sub@, pat@, 0);
                    crate::text::lemma_utf8_len_concat(ll@.take(s as int), sub@);
                    assert(ll@.take(s as int) + sub@ =~= ll@);
                }
                Some(crate::text::utf8_prefix_len(sub.as_slice(), k))
            },
            None => None,
        }
    }

    /// A search for the pattern (`dir` 1 forward, otherwise backward), ignoring ASCII case;
    /// tells whether it was found.
    pub fn find_match(&mut self, dir: i32) -> (found: bool)
        requires
            old(self)@.ready(),
            old(self)@.fits(),
        ensures
            final(self)@ == old(self)@.find_match(dir),
            found == old(self)@.search_target(dir) is Some,
    {
        let pat = crate::text::lower_chars(self.search_pat.as_slice());
        let mut msg_found = str_chars("Search: ");
        let mut msg_missing = str_chars("Pattern not found: ");
        let mut p1 = char_slice(self.search_pat.as_slice(), 0, usize::MAX);
        let mut p2 = char_slice(self.search_pat.as_slice(), 0, usize::MAX);
        assert(p1@ =~= self@.search_pat);
        msg_found.append(&mut p1);
        msg_missing.append(&mut p2);
        if pat.len() == 0 {
            self.status_msg = msg_missing;
            return false;
        }
        let n = self.lines.len();
        let ghost m = self@;
        if dir == 1 {
            let mut i = self.cursor_r;
            while i < n
                invariant
                    m == old(self)@,
                    self@ == m,
                    n == m.lines.len(),
                    m.ready(),
                    m.fits(),
                    pat@ == crate::text::lower_seq(m.search_pat),
                    pat@.len() > 0,
                    dir == 1,
                    msg_found@ == "Search: "@ + m.search_pat,
                    msg_missing@ == "Pattern not found: "@ + m.search_pat,
                    m.cursor_r <= i <= n,
                    search_fwd(m.lines, pat@, m.cursor_r as int, m.cursor_r as int, m.cursor_c as int) == search_fwd(m.lines, pat@, i as int, m.cursor_r as int, m.cursor_c as int),
                decreases n - i,
            {
                assert(m.lines[i as int] == self.lines@[i as int]@);
                let ll = crate::text::lower_chars(self.lines[i].as_slice());
                proof {
                    crate::text::lemma_utf8_len_lower(m.lines[i as int]);
                }
                let s = if i == self.cursor_r {
                    self.cursor_c + 1
                } else {
                    0
                };
                if s <= ll.len() {
                    match Self::offset_from(&ll, s, &pat) {
                        Some(off) => {
                            proof {
                                lemma_offset_bound(ll@, s as int, pat@);
                            }
                            assert(search_fwd(m.lines, pat@, i as int, m.cursor_r as int, m.cursor_c as int) == Some((i as int, (s + off) as int)));
                            self.cursor_r = i;
                            self.cursor_c = s + off;
                            self.status_msg = msg_found;
                            return true;
                        },
                        None => {},
                    }
                }
                i = i + 1;
            }
        } else {
            let mut i: usize = self.cursor_r + 1;
            while i > 0
                invariant
                    m == old(self)@,
                    self@ == m,
                    n == m.lines.len(),
                    m.ready(),
                    m.fits(),
                    pat@ == crate::text::lower_seq(m.search_pat),
                    pat@.len() > 0,
                    dir != 1,
                    msg_found@ == "Search: "@ + m.search_pat,
                    msg_missing@ == "Pattern not found: "@ + m.search_pat,
                    i <= m.cursor_r + 1,
                    search_back(m.lines, pat@, m.cursor_r as int, m.cursor_r as int, m.cursor_c as int) == search_back(m.lines, pat@, i - 1, m.cursor_r as int, m.cursor_c as int),
                decreases i,
            {
                let row = i - 1;
                assert(m.lines[row as int] == self.lines@[row as int]@);
                let ll = crate::text::lower_chars(self.lines[row].as_slice());
                proof {
                    crate::text::lemma_utf8_len_lower(m.lines[row as int]);
                }
                let llen = ll.len();
                let limit = if row == self.cursor_r {
                    self.cursor_c
                } else {
                    llen
                };
                let mut found: Option<usize> = None;
                let mut s: usize = 0;
                while s < limit
                    invariant_except_break
                        last_before(ll@, pat@, 0, limit as int, None) == last_before(ll@, pat@, s as int, limit as int, opt_int(found)),
                    invariant
                        crate::text::utf8_len(ll@) <= isize::MAX,
                        llen == ll@.len(),
                        pat@.len() > 0,
                    ensures
                        last_before(ll@, pat@, 0, limit as int, None) == opt_int(found),
                    decreases limit - s,
                {
                    if s > llen {
                        assert(offset_in(ll@, s as int, pat@) is None) by {
                            assert(char_skip(ll@, s as int) =~= Seq::<char>::empty());
                            assert(crate::text::occurs_at(Seq::<char>::empty(), pat@, 0) == false);
                            assert(crate::text::find_from(Seq::<char>::empty(), pat@, 1) is None);
                            assert(crate::text::find_from(Seq::<char>::empty(), pat@, 0) is None);
                        }
                        break;
                    }
                    match Self::offset_from(&ll, s, &pat) {
                        Some(off) => {
                            proof {
                                lemma_offset_bound(ll@, s as int, pat@);
                            }
                            if s + off < limit {
                                found = Some(s + off);
                                s = s + off + 1;
                            } else {
                                break;
                            }
                        },
                        None => {
                            break;
                        },
                    }
                }
                assert(ll@ == crate::text::lower_seq(m.lines[row as int]));
                if let Some(f) = found {
                    assert(search_back(m.lines, pat@, row as int, m.cursor_r as int, m.cursor_c as int) == Some((row as int, f as int)));
                    self.cursor_r = row;
                    self.cursor_c = f;
                    self.status_msg = msg_found;
                    return true;
                }
                i = i - 1;
            }
        }
        self.status_msg = msg_missing;
        false
    }
}


/// A motion that a count repeats.
#[derive(Clone, Copy, PartialEq, Eq, Structural, Debug)]
pub enum Step {
    WordFwd,
    WordBack,
    WordEnd,
    Down,
    Up,
    Left,
    Right,
}

/// The lines joined with newlines.
pub open spec fn join_nl(ls: Seq<Seq<char>>) -> Seq<char>
    decreases ls.len(),
{
    if ls.len() == 0 {
        Seq::<char>::empty()
    } else if ls.len() == 1 {
        ls[0]
    } else {
        join_nl(ls.drop_last()) + seq!['\n'] + ls.last()
    }
}

/// The motions that make an operator work on whole lines.
pub open spec fn is_line_motion(mot: char) -> bool {
    mot == 'G' || mot == 'g' || mot == '}' || mot == '{' || mot == 'j' || mot == 'k' || mot == 'd'
        || mot == 'y' || mot == 'c'
}

/// `n - 1`, computed as `i64` from the count (which may wrap for huge counts).
pub open spec fn goto_arg(n: usize) -> i64 {
    ((n as i64) - 1) as i64
}

impl EditorModel {
    /// One step of a repeated motion.
    pub open spec fn step(self, st: Step) -> Self {
        match st {
            Step::WordFwd => self.word_fwd(),
            Step::WordBack => self.word_back(),
            Step::WordEnd => self.word_end(),
            Step::Down => if self.cursor_r + 1 < self.lines.len() {
                EditorModel { cursor_r: (self.cursor_r + 1) as usize, ..self }
            } else {
                self
            },
            Step::Up => if self.cursor_r > 0 {
                EditorModel { cursor_r: (self.cursor_r - 1) as usize, ..self }
            } else {
                self
            },
            Step::Left => if self.cursor_c > 0 {
                EditorModel { cursor_c: (self.cursor_c - 1) as usize, ..self }
            } else {
                self
            },
            Step::Right => if self.cursor_c < self.cur_len() {
                EditorModel { cursor_c: (self.cursor_c + 1) as usize, ..self }
            } else {
                self
            },
        }
    }

    /// The motion repeated `k` times.
    pub open spec fn repeat(self, st: Step, k: nat) -> Self
        decreases k,
    {
        if k == 0 {
            self
        } else {
            self.repeat(st, (k - 1) as nat).step(st)
        }
    }

    /// The count that an operator uses: the typed count, at least 1.
    pub open spec fn op_count(self) -> usize {
        let c = self.count_val(1);
        if c < 1 { 1 } else { c }
    }

    /// Where the motion of an operator takes the cursor, repeated `n` times.
    pub open spec fn op_motion(self, mot: char, n: usize) -> Self {
        if mot == 'w' || mot == 'W' {
            self.repeat(Step::WordFwd, n as nat)
        } else if mot == 'b' || mot == 'B' {
            self.repeat(Step::WordBack, n as nat)
        } else if mot == 'e' || mot == 'E' {
            self.repeat(Step::WordEnd, n as nat)
        } else if mot == '$' {
            EditorModel { cursor_c: self.cur_len() as usize, ..self }
        } else if mot == '^' {
            self.first_nonblank()
        } else if mot == '0' {
            EditorModel { cursor_c: 0, ..self }
        } else if mot == 'G' {
            self.goto_line(goto_arg(n))
        } else if mot == 'g' {
            self.goto_line(0)
        } else if mot == '}' {
            self.next_para()
        } else if mot == '{' {
            self.prev_para()
        } else if mot == 'j' {
            self.repeat(Step::Down, n as nat)
        } else if mot == 'k' {
            self.repeat(Step::Up, n as nat)
        } else if mot == 'd' || mot == 'y' || mot == 'c' {
            self.repeat(Step::Down, (n - 1) as nat)
        } else {
            self
        }
    }

    /// The operator `op` (`d`, `c` or `y`) can be applied with the motion `mot` without an
    /// arithmetic or slicing fault: `G` does not get the one count whose `i64` form is
    /// `i64::MIN`, and a yank of lines, or a character-wise delete or change over lines,
    /// does not move up.
    pub open spec fn apply_op_ok(self, op: char, mot: char) -> bool {
        let n = self.op_count();
        let m = self.op_motion(mot, n);
        &&& mot == 'G' ==> (n as i64) != i64::MIN
        &&& (is_line_motion(mot) && op != 'd' && op != 'c') ==> m.cursor_r >= self.cursor_r
        &&& (!is_line_motion(mot) && (op == 'd' || op == 'c')) ==> m.cursor_r >= self.cursor_r
    }

    /// The state after the operator `op` (`d` delete, `c` change, `y` yank) with the motion
    /// `mot`: line motions work on the whole lines from the cursor's to the motion's;
    /// other motions on the characters between the two positions.
    pub open spec fn apply_op(self, op: char, mot: char) -> Self {
        let n = self.op_count();
        let m = self.op_motion(mot, n);
        if is_line_motion(mot) {
            m.line_op(op, mot, self.cursor_r, self.cursor_c)
        } else if op == 'd' || op == 'c' {
            m.undo_save().delete_chars(op, self.cursor_r, self.cursor_c)
        } else if op == 'y' {
            m.yank_chars(self.cursor_r, self.cursor_c)
        } else {
            m
        }
    }

    /// An operator over whole lines, from row `sr` (where the cursor was, at column `sc`)
    /// to the cursor's row after the motion.
    pub open spec fn line_op(self, op: char, mot: char, sr: usize, sc: usize) -> Self {
        let er = self.cursor_r;
        if op == 'c' && mot == 'c' {
            let u = self.undo_save();
            EditorModel {
                lines: u.lines.update(sr as int, Seq::<char>::empty()),
                cursor_r: sr,
                cursor_c: 0,
                mode: Mode::Insert,
                ..u
            }
        } else if op == 'd' {
            if mot == 'd' || mot == 'j' || mot == '}' {
                self.delete_lines_range(sr, er)
            } else if mot == 'G' {
                self.delete_lines_range(sr, (self.lines.len() - 1) as usize)
            } else if mot == 'g' {
                self.delete_lines_range(0, er)
            } else if mot == 'k' || mot == '{' {
                self.delete_lines_range(er, sr)
            } else {
                self
            }
        } else if op == 'c' {
            EditorModel { mode: Mode::Insert, ..self.delete_lines_range(sr, er) }
        } else {
            EditorModel {
                clipboard: join_nl(self.lines.subrange(sr as int, er + 1)),
                clipboard_kind: ClipKind::Lines,
                cursor_r: sr,
                cursor_c: sc,
                ..self
            }
        }
    }

    /// A delete (`op` `d`) or change (`c`) of the characters from `(sr, sc)` to the cursor:
    /// within one line the characters between the two columns; over lines, the end of the
    /// first line, the lines between, and the start of the cursor's line.
    pub open spec fn delete_chars(self, op: char, sr: usize, sc: usize) -> Self {
        let er = self.cursor_r;
        let ec = self.cursor_c;
        let lo = if sc < ec { sc } else { ec };
        let hi = if sc < ec { ec } else { sc };
        let l1 = self.lines[sr as int];
        let lines2 = if sr == er {
            self.lines.update(sr as int, char_slice_spec(l1, 0, lo) + char_slice_spec(l1, hi, usize::MAX))
        } else {
            let a = self.lines.update(sr as int, char_slice_spec(l1, 0, sc));
            let b = if er - sr > 1 { a.take(sr + 1) + a.skip(er as int) } else { a };
            b.update(sr + 1, char_slice_spec(b[sr + 1], ec, usize::MAX))
        };
        let r = EditorModel { lines: lines2, cursor_r: sr, cursor_c: lo, ..self }.clamp();
        if op == 'c' {
            EditorModel { mode: Mode::Insert, ..r }
        } else {
            r
        }
    }

    /// A yank of the characters of row `sr` from column `sc` to the cursor's column.
    pub open spec fn yank_chars(self, sr: usize, sc: usize) -> Self {
        let ec = self.cursor_c;
        EditorModel {
            clipboard: char_slice_spec(self.lines[sr as int], sc, if ec > sc { ec } else { sc }),
            clipboard_kind: ClipKind::Chars,
            cursor_r: sr,
            cursor_c: sc,
            ..self
        }
    }
}

impl Editor {
    /// A motion repeated `n` times.
    pub fn repeat_step(&mut self, st: Step, n: usize)
        requires
            old(self)@.ready(),
        ensures
            final(self)@ == old(self)@.repeat(st, n as nat),
            final(self)@.ready(),
            final(self)@ == old(self)@.with_cursor(final(self).cursor_r, final(self).cursor_c),
    {
        for i in 0..n
            invariant
                self@ == old(self)@.repeat(st, i as nat),
                self@.ready(),
                self@ == old(self)@.with_cursor(self.cursor_r, self.cursor_c),
        {
            proof {
                lemma_line_len(self@, self.cursor_r as int);
            }
            match st {
                Step::WordFwd => self.word_fwd(),
                Step::WordBack => self.word_back(),
                Step::WordEnd => self.word_end(),
                Step::Down => {
                    if self.cursor_r < self.lines.len() - 1 {
                        self.cursor_r = self.cursor_r + 1;
                    }
                },
                Step::Up => {
                    if self.cursor_r > 0 {
                        self.cursor_r = self.cursor_r - 1;
                    }
                },
                Step::Left => {
                    if self.cursor_c > 0 {
                        self.cursor_c = self.cursor_c - 1;
                    }
                },
                Step::Right => {
                    let l = self.cur_len();
                    if self.cursor_c < l {
                        self.cursor_c = self.cursor_c + 1;
                    }
                },
            }
        }
    }
}


impl Editor {
    /// Moves the cursor as the motion `mot` of an operator does, `n` times.
    pub(crate) fn op_motion(&mut self, mot: char, n: usize)
        requires
            old(self)@.ready(),
            n >= 1,
            mot == 'G' ==> (n as i64) != i64::MIN,
        ensures
            final(self)@ == old(self)@.op_motion(mot, n),
            final(self)@.ready(),
            final(self)@ == old(self)@.with_cursor(final(self).cursor_r, final(self).cursor_c),
    {
        proof {
            lemma_line_len(self@, self.cursor_r as int);
        }
        if mot == 'w' || mot == 'W' {
            self.repeat_step(Step::WordFwd, n);
        } else if mot == 'b' || mot == 'B' {
            self.repeat_step(Step::WordBack, n);
        } else if mot == 'e' || mot == 'E' {
            self.repeat_step(Step::WordEnd, n);
        } else if mot == '$' {
            let l = self.cur_len();
            self.cursor_c = l;
        } else if mot == '^' {
            self.first_nonblank();
        } else if mot == '0' {
            self.cursor_c = 0;
        } else if mot == 'G' {
            let k = n as i64;
            self.goto_line(k - 1);
        } else if mot == 'g' {
            self.goto_line(0);
        } else if mot == '}' {
            self.next_para();
            self.cursor_c = 0;
        } else if mot == '{' {
            self.prev_para();
            self.cursor_c = 0;
        } else if mot == 'j' {
            self.repeat_step(Step::Down, n);
        } else if mot == 'k' {
            self.repeat_step(Step::Up, n);
        } else if mot == 'd' || mot == 'y' || mot == 'c' {
            self.repeat_step(Step::Down, n - 1);
        }
    }

    /// The operator `op` (`d`, `c` or `y`) with the motion `mot`.
    pub fn apply_op(&mut self, op: char, mot: char)
        requires
            old(self)@.ready(),
            old(self)@.apply_op_ok(op, mot),
        ensures
            final(self)@ == old(self)@.apply_op(op, mot),
    {
        let c = self.count_val(1);
        let n = if c < 1 {
            1
        } else {
            c
        };
        let sr = self.cursor_r;
        let sc = self.cursor_c;
        self.op_motion(mot, n);
        let line_motion = mot == 'G' || mot == 'g' || mot == '}' || mot == '{' || mot == 'j'
            || mot == 'k' || mot == 'd' || mot == 'y' || mot == 'c';
        if line_motion {
            self.line_op(op, mot, sr, sc);
        } else if op == 'd' || op == 'c' {
            self.undo_save();
            self.delete_chars(op, sr, sc);
        } else if op == 'y' {
            self.yank_chars(sr, sc);
        }
    }

    /// An operator over the whole lines from row `sr` to the cursor's row.
    fn line_op(&mut self, op: char, mot: char, sr: usize, sc: usize)
        requires
            old(self)@.ready(),
            sr < old(self)@.lines.len(),
            op != 'd' && op != 'c' ==> old(self).cursor_r >= sr,
        ensures
            final(self)@ == old(self)@.line_op(op, mot, sr, sc),
    {
        let er = self.cursor_r;
        let ghost m = self@;
        if op == 'c' && mot == 'c' {
            self.undo_save();
            self.lines.set(sr, Vec::new());
            assert(lines_view(self.lines@) =~= m.undo_save().lines.update(sr as int, Seq::<char>::empty()));
            self.cursor_r = sr;
            self.cursor_c = 0;
            self.mode = Mode::Insert;
            return;
        }
        if op == 'd' {
            let nlines = self.lines.len();
            if mot == 'd' || mot == 'j' || mot == '}' {
                self.delete_lines_range(sr, er);
            } else if mot == 'G' {
                self.delete_lines_range(sr, nlines - 1);
            } else if mot == 'g' {
                self.delete_lines_range(0, er);
            } else if mot == 'k' || mot == '{' {
                self.delete_lines_range(er, sr);
            }
        } else if op == 'c' {
            self.delete_lines_range(sr, er);
            self.mode = Mode::Insert;
        } else {
            let clip = self.join_rows(sr, er);
            self.clipboard = clip;
            self.clipboard_kind = ClipKind::Lines;
            self.cursor_r = sr;
            self.cursor_c = sc;
        }
    }

    /// A delete or change of the characters from `(sr, sc)` to the cursor.
    fn delete_chars(&mut self, op: char, sr: usize, sc: usize)
        requires
            sr <= old(self).cursor_r < old(self)@.lines.len(),
        ensures
            final(self)@ == old(self)@.delete_chars(op, sr, sc),
    {
        let er = self.cursor_r;
        let ec = self.cursor_c;
        let lo = if sc < ec {
            sc
        } else {
            ec
        };
        let hi = if sc < ec {
            ec
        } else {
            sc
        };
        let ghost u = self@;
        assert(u.lines[sr as int] == self.lines@[sr as int]@);
        if sr == er {
            let mut nl = char_slice(self.lines[sr].as_slice(), 0, lo);
            let mut tail = char_slice(self.lines[sr].as_slice(), hi, usize::MAX);
            nl.append(&mut tail);
            self.lines.set(sr, nl);
            assert(lines_view(self.lines@) =~= u.lines.update(
                sr as int,
                char_slice_spec(u.lines[sr as int], 0, lo) + char_slice_spec(u.lines[sr as int], hi, usize::MAX),
            ));
        } else {
            let head = char_slice(self.lines[sr].as_slice(), 0, sc);
            self.lines.set(sr, head);
            let ghost a = lines_view(self.lines@);
            assert(a =~= u.lines.update(sr as int, char_slice_spec(u.lines[sr as int], 0, sc)));
            if er - sr > 1 {
                let mut tail = self.lines.split_off(er);
                self.lines.truncate(sr + 1);
                self.lines.append(&mut tail);
                assert(lines_view(self.lines@) =~= a.take(sr + 1) + a.skip(er as int));
            }
            let ghost b = lines_view(self.lines@);
            assert(b[sr + 1] == self.lines@[sr + 1]@);
            let l2 = char_slice(self.lines[sr + 1].as_slice(), ec, usize::MAX);
            self.lines.set(sr + 1, l2);
            assert(lines_view(self.lines@) =~= b.update(sr + 1, char_slice_spec(b[sr + 1], ec, usize::MAX)));
        }
        self.cursor_r = sr;
        self.cursor_c = lo;
        self.clamp();
        if op == 'c' {
            self.mode = Mode::Insert;
        }
    }

    /// A yank of the characters of row `sr` from column `sc` to the cursor's column.
    fn yank_chars(&mut self, sr: usize, sc: usize)
        requires
            sr < old(self)@.lines.len(),
        ensures
            final(self)@ == old(self)@.yank_chars(sr, sc),
    {
        let ec = self.cursor_c;
        assert(self@.lines[sr as int] == self.lines@[sr as int]@);
        let hi = if ec > sc {
            ec
        } else {
            sc
        };
        self.clipboard = char_slice(self.lines[sr].as_slice(), sc, hi);
        self.clipboard_kind = ClipKind::Chars;
        self.cursor_r = sr;
        self.cursor_c = sc;
    }
}


/// An edit that a count repeats.
#[derive(Clone, Copy, PartialEq, Eq, Structural, Debug)]
pub enum Edit {
    Tilde,
    PasteAfter,
    PasteBefore,
}

/// The keys that complete an operator.
pub open spec fn is_op_motion(kk: char) -> bool {
    kk == 'w' || kk == 'W' || kk == 'b' || kk == 'B' || kk == 'e' || kk == 'E' || kk == '$' || kk
        == '^' || kk == '0' || kk == 'G' || kk == 'g' || kk == '}' || kk == '{' || kk == 'j' || kk
        == 'k' || kk == 'd' || kk == 'y' || kk == 'c'
}

/// `a - b`, or 0 where `b` is larger.
pub open spec fn usub(a: usize, b: usize) -> usize {
    if a >= b { (a - b) as usize } else { 0 }
}

impl EditorModel {
    /// One step of a repeated edit.
    pub open spec fn edit_step(self, e: Edit) -> Self {
        match e {
            Edit::Tilde => if self.cursor_c < self.cur_len() {
                let t = self.togg_case();
                EditorModel { cursor_c: (t.cursor_c + 1) as usize, ..t }
            } else {
                self
            },
            Edit::PasteAfter => self.paste_after(),
            Edit::PasteBefore => self.paste_before(),
        }
    }

    /// The edit repeated `k` times.
    pub open spec fn repeat_edit(self, e: Edit, k: nat) -> Self
        decreases k,
    {
        if k == 0 {
            self
        } else {
            self.repeat_edit(e, (k - 1) as nat).edit_step(e)
        }
    }

    /// The state with no pending key.
    pub open spec fn idle(self) -> Self {
        EditorModel { pending: Pending::Idle, ..self }
    }

    /// The state with no pending key and no count.
    pub open spec fn reset(self) -> Self {
        EditorModel { pending: Pending::Idle, count: Seq::<char>::empty(), ..self }
    }

    /// The state with the mode set.
    pub open spec fn with_mode(self, mode: Mode) -> Self {
        EditorModel { mode: mode, ..self }
    }

    /// The state after a key that completes a pending command.
    pub open spec fn pending_key(self, key: Key) -> (Self, Action) {
        match self.pending {
            Pending::Operator(op) => match key {
                Key::Eof => (self.idle(), Action::Continue),
                Key::Ch(kk) => if is_digit_spec(kk) {
                    (EditorModel { count: self.count.push(kk), ..self }, Action::Continue)
                } else if is_op_motion(kk) {
                    (self.apply_op(op, kk).reset(), Action::Continue)
                } else {
                    (self.idle(), Action::Continue)
                },
            },
            Pending::Replace => match key {
                Key::Ch(kk) => if self.cur_len() > 0 && self.cursor_c < self.cur_len() {
                    (self.undo_save().set_char(self.cursor_c, kk).idle(), Action::Continue)
                } else {
                    (self.idle(), Action::Continue)
                },
                Key::Eof => (self.idle(), Action::Continue),
            },
            Pending::Find(f) => match key {
                Key::Ch(kk) => {
                    let s = if f == 'f' {
                        self.do_find(kk, 1i32, false)
                    } else if f == 'F' {
                        self.do_find(kk, -1i32, false)
                    } else if f == 't' {
                        self.do_find(kk, 1i32, true)
                    } else if f == 'T' {
                        self.do_find(kk, -1i32, true)
                    } else {
                        self
                    };
                    (s.reset(), Action::Continue)
                },
                Key::Eof => (self.reset(), Action::Continue),
            },
            Pending::Goto => if key == Key::Ch('g') {
                (self.goto_line(goto_arg(self.count_val(1))).reset(), Action::Continue)
            } else {
                (self.idle(), Action::Continue)
            },
            Pending::Scroll => {
                let half = self.view_height / 2;
                let s = if key == Key::Ch('t') {
                    EditorModel { scroll_top: self.cursor_r, ..self }
                } else if key == Key::Ch('z') {
                    if self.scroll_top + half < self.lines.len() {
                        EditorModel { scroll_top: usub(self.cursor_r, half), ..self }
                    } else {
                        self
                    }
                } else if key == Key::Ch('b') {
                    EditorModel {
                        scroll_top: usub((self.cursor_r + 1) as usize, self.view_height),
                        ..self
                    }
                } else {
                    self
                };
                (s.reset(), Action::Continue)
            },
            Pending::SetMark => match key {
                Key::Ch(kk) => if crate::text::is_alpha_spec(kk) {
                    (
                        EditorModel {
                            marks: self.marks.insert(kk as u32, (self.cursor_r, self.cursor_c)),
                            ..self
                        }.idle(),
                        Action::Continue,
                    )
                } else {
                    (self.idle(), Action::Continue)
                },
                Key::Eof => (self.idle(), Action::Continue),
            },
            Pending::JumpExact | Pending::JumpLine => match key {
                Key::Ch(kk) => if crate::text::is_alpha_spec(kk) && self.marks.contains_key(
                    kk as u32,
                ) {
                    let p = self.marks[kk as u32];
                    let c = if self.pending == Pending::JumpExact { p.1 } else { 0 };
                    (self.with_cursor(p.0, c).idle(), Action::Continue)
                } else {
                    (self.idle(), Action::Continue)
                },
                Key::Eof => (self.idle(), Action::Continue),
            },
            Pending::Quit => if key == Key::Ch('Z') {
                (self.idle(), Action::SaveAndQuit)
            } else {
                (self.idle(), Action::Continue)
            },
            Pending::Idle => (self, Action::Continue),
        }
    }

    /// The keys that move or enter insert mode.
    pub open spec fn is_motion_key(kk: char) -> bool {
        kk == 'i' || kk == 'a' || kk == 'I' || kk == 'A' || is_digit_spec(kk) || kk == 'h' || kk
            == 'l' || kk == 'j' || kk == 'k' || kk == 'w' || kk == 'W' || kk == 'b' || kk == 'B'
            || kk == 'e' || kk == 'E' || kk == '$' || kk == '^' || kk == 'H' || kk == 'M' || kk
            == 'L' || kk == 'G' || kk == '{' || kk == '}' || kk == '\u{04}' || kk == '\u{15}' || kk
            == '\u{06}' || kk == '\u{02}' || kk == '%' || kk == ';' || kk == ','
    }

    /// The state after a key that moves the cursor, scrolls or enters insert mode.
    pub open spec fn motion_key(self, kk: char) -> Self {
        let half = self.view_height / 2;
        let last = (self.lines.len() - 1) as usize;
        if kk == 'i' {
            self.with_mode(Mode::Insert)
        } else if kk == 'a' {
            EditorModel { cursor_c: (self.cursor_c + 1) as usize, ..self.with_mode(Mode::Insert) }
        } else if kk == 'I' {
            EditorModel { cursor_c: 0, ..self.with_mode(Mode::Insert) }
        } else if kk == 'A' {
            EditorModel { cursor_c: self.cur_len() as usize, ..self.with_mode(Mode::Insert) }
        } else if is_digit_spec(kk) {
            if kk == '0' && self.count.len() == 0 {
                EditorModel { cursor_c: 0, ..self }
            } else {
                EditorModel { count: self.count.push(kk), ..self }
            }
        } else if kk == 'h' {
            self.repeat(Step::Left, self.count_val(1) as nat).reset_count()
        } else if kk == 'l' {
            self.repeat(Step::Right, self.count_val(1) as nat).reset_count()
        } else if kk == 'j' {
            self.repeat(Step::Down, self.count_val(1) as nat).reset_count()
        } else if kk == 'k' {
            self.repeat(Step::Up, self.count_val(1) as nat).reset_count()
        } else if kk == 'w' || kk == 'W' {
            self.repeat(Step::WordFwd, self.count_val(1) as nat).reset_count()
        } else if kk == 'b' || kk == 'B' {
            self.repeat(Step::WordBack, self.count_val(1) as nat).reset_count()
        } else if kk == 'e' || kk == 'E' {
            self.repeat(Step::WordEnd, self.count_val(1) as nat).reset_count()
        } else if kk == '$' {
            EditorModel { cursor_c: self.cur_len() as usize, ..self }
        } else if kk == '^' {
            self.first_nonblank()
        } else if kk == 'H' {
            self.with_cursor(self.scroll_top, 0)
        } else if kk == 'M' {
            let r = (self.scroll_top + half) as usize;
            self.with_cursor(if r >= self.lines.len() { last } else { r }, 0)
        } else if kk == 'L' {
            let r = (self.scroll_top + self.view_height - 1) as usize;
            self.with_cursor(if r >= self.lines.len() { last } else { r }, 0)
        } else if kk == 'G' {
            let n = self.count_val(0);
            if n > 0 {
                self.goto_line(goto_arg(n)).reset_count()
            } else {
                self.goto_line(((self.lines.len() as i64) - 1) as i64).reset_count()
            }
        } else if kk == '{' {
            self.prev_para()
        } else if kk == '}' {
            self.next_para()
        } else if kk == '\u{04}' {
            let st = (self.scroll_top + half) as usize;
            EditorModel { scroll_top: st, cursor_r: (st + half) as usize, ..self }
        } else if kk == '\u{15}' {
            let st = usub(self.scroll_top, half);
            EditorModel { scroll_top: st, cursor_r: st, ..self }
        } else if kk == '\u{06}' {
            let st = (self.scroll_top + self.view_height) as usize;
            let r = (st + 1) as usize;
            EditorModel { scroll_top: st, cursor_r: if r >= self.lines.len() { last } else { r }, ..self }
        } else if kk == '\u{02}' {
            let st = usub(self.scroll_top, self.view_height);
            EditorModel { scroll_top: st, cursor_r: st, ..self }
        } else if kk == '%' {
            self.match_bracket().reset()
        } else if kk == ';' {
            self.repeat_find(1i32)
        } else if kk == ',' {
            self.repeat_find(-1i32)
        } else {
            self
        }
    }

    /// The state with no count.
    pub open spec fn reset_count(self) -> Self {
        EditorModel { count: Seq::<char>::empty(), ..self }
    }

    /// The line under the cursor with the characters from `from` to `to` removed.
    pub open spec fn cut(self, from: usize, to: usize) -> Self {
        let l = self.cur_line();
        self.set_cur(char_slice_spec(l, 0, from) + char_slice_spec(l, to, usize::MAX))
    }

    /// The state after a key that edits, yanks, searches, sets a mark or starts a command.
    pub open spec fn edit_key(self, kk: char) -> Self {
        let c = self.cursor_c;
        let l = self.cur_len();
        if kk == 'o' {
            let u = self.undo_save();
            EditorModel {
                lines: u.lines.insert(self.cursor_r + 1, Seq::<char>::empty()),
                cursor_r: (self.cursor_r + 1) as usize,
                cursor_c: 0,
                mode: Mode::Insert,
                ..u
            }
        } else if kk == 'O' {
            let u = self.undo_save();
            EditorModel {
                lines: u.lines.insert(self.cursor_r as int, Seq::<char>::empty()),
                cursor_c: 0,
                mode: Mode::Insert,
                ..u
            }
        } else if kk == 'x' {
            let n = self.count_val(1);
            if l > 0 && c < l {
                let end = if c + n < l { (c + n) as usize } else { l as usize };
                self.undo_save().cut(c, end).reset_count()
            } else {
                self.reset_count()
            }
        } else if kk == 'X' {
            let n = self.count_val(1);
            if c > 0 {
                let rn = if n < c { n } else { c };
                EditorModel { cursor_c: (c - rn) as usize, ..self.undo_save().cut((c - rn) as usize, c) }.reset_count()
            } else {
                self.reset_count()
            }
        } else if kk == 's' {
            let u = self.undo_save();
            let v = if l > 0 && c < l { u.cut(c, (c + 1) as usize) } else { u };
            v.with_mode(Mode::Insert)
        } else if kk == 'S' {
            EditorModel { cursor_c: 0, ..self.undo_save().set_cur(Seq::<char>::empty()) }.with_mode(Mode::Insert)
        } else if kk == 'D' {
            self.undo_save().set_cur(char_slice_spec(self.cur_line(), 0, c))
        } else if kk == 'C' {
            self.undo_save().set_cur(char_slice_spec(self.cur_line(), 0, c)).with_mode(Mode::Insert)
        } else if kk == 'J' {
            self.join_lines()
        } else if kk == '~' {
            self.repeat_edit(Edit::Tilde, self.count_val(1) as nat).reset_count()
        } else if kk == 'r' {
            EditorModel { pending: Pending::Replace, ..self }
        } else if kk == 'p' {
            self.repeat_edit(Edit::PasteAfter, self.count_val(1) as nat).reset_count()
        } else if kk == 'P' {
            self.repeat_edit(Edit::PasteBefore, self.count_val(1) as nat).reset_count()
        } else if kk == 'y' || kk == 'd' || kk == 'c' {
            EditorModel { pending: Pending::Operator(kk), ..self }
        } else if kk == 'f' || kk == 'F' || kk == 't' || kk == 'T' {
            EditorModel { pending: Pending::Find(kk), ..self }
        } else if kk == 'n' {
            if self.search_pat.len() > 0 { self.find_match(self.search_dir) } else { self }
        } else if kk == 'N' {
            if self.search_pat.len() > 0 { self.find_match((-self.search_dir) as i32) } else { self }
        } else if kk == '*' || kk == '#' {
            let w = word_under_spec(self.cur_line(), c as int);
            let dir: i32 = if kk == '*' { 1i32 } else { -1i32 };
            if w.len() > 0 {
                EditorModel { search_pat: w, search_dir: dir, ..self }.find_match(dir)
            } else {
                self
            }
        } else if kk == 'u' {
            self.undo()
        } else if kk == '\u{12}' {
            self.redo()
        } else if kk == 'm' {
            EditorModel { pending: Pending::SetMark, ..self }
        } else if kk == '`' {
            EditorModel { pending: Pending::JumpExact, ..self }
        } else if kk == '\'' {
            EditorModel { pending: Pending::JumpLine, ..self }
        } else if kk == 'g' {
            EditorModel { pending: Pending::Goto, ..self }.reset_count()
        } else if kk == 'z' {
            EditorModel { pending: Pending::Scroll, ..self }.reset_count()
        } else if kk == 'Z' {
            EditorModel { pending: Pending::Quit, ..self }
        } else {
            let s = if self.count.len() > 0 { self.with_status("Unknown command"@) } else { self };
            s.reset_count()
        }
    }

    /// The state and the action after a key in normal mode.
    pub open spec fn normal_key(self, key: Key) -> (Self, Action) {
        if self.pending != Pending::Idle {
            self.pending_key(key)
        } else {
            match key {
                Key::Eof => if self.count.len() > 0 {
                    (self.with_status("Unknown command"@).reset_count(), Action::Continue)
                } else {
                    (self, Action::Continue)
                },
                Key::Ch(kk) => if kk == '/' {
                    (self, Action::SearchPrompt(1i32))
                } else if kk == '?' {
                    (self, Action::SearchPrompt(-1i32))
                } else if kk == ':' {
                    (self, Action::CommandPrompt)
                } else if Self::is_motion_key(kk) {
                    (self.motion_key(kk).clamp(), Action::Continue)
                } else {
                    (self.edit_key(kk).clamp(), Action::Continue)
                },
            }
        }
    }

    /// A key in normal mode runs without an arithmetic or slicing fault: the counts given to
    /// `G` and `gg`, the scrolling keys, a count of `x` and a character-wise paste stay within
    /// `usize` and `i64`, `N` can negate the search direction, and an operator's motion meets
    /// `apply_op_ok`.
    pub open spec fn normal_key_ok(self, key: Key) -> bool {
        let half = self.view_height / 2;
        if self.pending != Pending::Idle {
            match self.pending {
                Pending::Operator(op) => match key {
                    Key::Ch(kk) => (!is_digit_spec(kk) && is_op_motion(kk)) ==> self.apply_op_ok(op, kk),
                    Key::Eof => true,
                },
                Pending::Goto => key == Key::Ch('g') ==> (self.count_val(1) as i64) != i64::MIN,
                Pending::Scroll => key == Key::Ch('z') ==> self.scroll_top + half <= usize::MAX,
                _ => true,
            }
        } else {
            match key {
                Key::Eof => true,
                Key::Ch(kk) => {
                    &&& kk == 'M' ==> self.scroll_top + half <= usize::MAX
                    &&& kk == 'L' ==> 1 <= self.scroll_top + self.view_height <= usize::MAX
                    &&& kk == 'G' ==> (self.count_val(0) > 0 ==> (self.count_val(0) as i64) != i64::MIN)
                    &&& kk == '\u{04}' ==> self.scroll_top + half + half <= usize::MAX
                    &&& kk == '\u{06}' ==> self.scroll_top + self.view_height + 1 <= usize::MAX
                    &&& kk == 'x' ==> self.cursor_c + self.count_val(1) <= usize::MAX
                    &&& (kk == 'p' || kk == 'P') ==> (self.cursor_c + self.clipboard.len() <= usize::MAX
                        || self.cursor_c <= self.cur_len())
                    &&& kk == 'N' ==> self.search_dir != i32::MIN
                },
            }
        }
    }
}


impl Editor {
    /// Forgets the pending key and the count.
    fn reset(&mut self)
        ensures
            final(self)@ == old(self)@.reset(),
    {
        self.pending = Pending::Idle;
        self.count.clear();
    }

    /// Forgets the count.
    fn reset_count(&mut self)
        ensures
            final(self)@ == old(self)@.reset_count(),
    {
        self.count.clear();
    }

    /// Removes the characters from `from` to `to` of the line under the cursor.
    fn cut(&mut self, from: usize, to: usize)
        ensures
            final(self)@ == old(self)@.cut(from, to),
    {
        let cr = self.cur_line();
        let mut nl = char_slice(cr.as_slice(), 0, from);
        let mut tail = char_slice(cr.as_slice(), to, usize::MAX);
        nl.append(&mut tail);
        self.set_cur(nl);
    }

    /// An edit repeated `n` times.
    fn repeat_edit(&mut self, e: Edit, n: usize)
        requires
            old(self)@.ready(),
            e != Edit::Tilde ==> (old(self)@.cursor_c + old(self)@.clipboard.len() <= usize::MAX
                || old(self)@.cursor_c <= old(self)@.cur_len()),
        ensures
            final(self)@ == old(self)@.repeat_edit(e, n as nat),
    {
        let ghost m = self@;
        proof {
            lemma_line_len(m, m.cursor_r as int);
        }
        for i in 0..n
            invariant
                m == old(self)@,
                self@ == m.repeat_edit(e, i as nat),
                self@.placed(),
                e != Edit::Tilde ==> (self@.cursor_c + self@.clipboard.len() <= usize::MAX
                    || self@.cursor_c <= self@.cur_len()),
                e == Edit::Tilde ==> self.cursor_r == m.cursor_r && self@.cur_len() == m.cur_len()
                    && self.cursor_c <= (if m.cursor_c > m.cur_len() { m.cursor_c as nat } else { m.cur_len() }),
                m.cur_len() <= isize::MAX,
                m.cursor_c <= isize::MAX,
        {
            match e {
                Edit::Tilde => {
                    let l = self.cur_len();
                    if self.cursor_c < l {
                        let ghost before = self@;
                        self.togg_case();
                        proof {
                            assert(self@.cur_len() == before.cur_len());
                        }
                        self.cursor_c = self.cursor_c + 1;
                    }
                },
                Edit::PasteAfter => self.paste_after(),
                Edit::PasteBefore => self.paste_before(),
            }
        }
    }

    /// A key that completes a pending command.
    fn pending_key(&mut self, key: Key) -> (a: Action)
        requires
            old(self)@.ready(),
            old(self)@.pending != Pending::Idle,
            old(self)@.normal_key_ok(key),
        ensures
            (final(self)@, a) == old(self)@.pending_key(key),
    {
        match self.pending {
            Pending::Operator(op) => {
                match key {
                    Key::Eof => {
                        self.pending = Pending::Idle;
                    },
                    Key::Ch(kk) => {
                        if '0' <= kk && kk <= '9' {
                            self.count.push(kk);
                            return Action::Continue;
                        }
                        if kk == 'w' || kk == 'W' || kk == 'b' || kk == 'B' || kk == 'e' || kk == 'E'
                            || kk == '$' || kk == '^' || kk == '0' || kk == 'G' || kk == 'g' || kk
                            == '}' || kk == '{' || kk == 'j' || kk == 'k' || kk == 'd' || kk == 'y'
                            || kk == 'c' {
                            self.apply_op(op, kk);
                            self.reset();
                        } else {
                            self.pending = Pending::Idle;
                        }
                    },
                }
                Action::Continue
            },
            Pending::Replace => {
                match key {
                    Key::Ch(kk) => {
                        let l = self.cur_len();
                        if l > 0 && self.cursor_c < l {
                            self.undo_save();
                            let c = self.cursor_c;
                            self.set_char(c, kk);
                        }
                    },
                    Key::Eof => {},
                }
                self.pending = Pending::Idle;
                Action::Continue
            },
            Pending::Find(f) => {
                match key {
                    Key::Ch(kk) => {
                        if f == 'f' {
                            self.do_find(kk, 1, false);
                        } else if f == 'F' {
                            self.do_find(kk, -1, false);
                        } else if f == 't' {
                            self.do_find(kk, 1, true);
                        } else if f == 'T' {
                            self.do_find(kk, -1, true);
                        }
                    },
                    Key::Eof => {},
                }
                self.reset();
                Action::Continue
            },
            Pending::Goto => {
                if key == Key::Ch('g') {
                    let n = self.count_val(1);
                    let k = n as i64;
                    self.goto_line(k - 1);
                    self.reset();
                } else {
                    self.pending = Pending::Idle;
                }
                Action::Continue
            },
            Pending::Scroll => {
                let half = self.view_height / 2;
                if key == Key::Ch('t') {
                    self.scroll_top = self.cursor_r;
                } else if key == Key::Ch('z') {
                    if self.scroll_top + half < self.lines.len() {
                        self.scroll_top = self.cursor_r.saturating_sub(half);
                    }
                } else if key == Key::Ch('b') {
                    self.scroll_top = (self.cursor_r + 1).saturating_sub(self.view_height);
                }
                self.reset();
                Action::Continue
            },
            Pending::SetMark => {
                if let Key::Ch(kk) = key {
                    if crate::text::is_alpha(kk) {
                        self.marks.insert(kk as u32, (self.cursor_r, self.cursor_c));
                    }
                }
                self.pending = Pending::Idle;
                Action::Continue
            },
            Pending::JumpExact | Pending::JumpLine => {
                if let Key::Ch(kk) = key {
                    if crate::text::is_alpha(kk) {
                        let k = kk as u32;
                        match self.marks.get(&k) {
                            Some(p) => {
                                let (r, c) = *p;
                                self.cursor_r = r;
                                self.cursor_c = 0;
                                if self.pending == Pending::JumpExact {
                                    self.cursor_c = c;
                                }
                            },
                            None => {},
                        }
                    }
                }
                self.pending = Pending::Idle;
                Action::Continue
            },
            Pending::Quit => {
                self.pending = Pending::Idle;
                if key == Key::Ch('Z') {
                    Action::SaveAndQuit
                } else {
                    Action::Continue
                }
            },
            Pending::Idle => Action::Continue,
        }
    }
}


impl Editor {
    /// A key that moves the cursor, scrolls or enters insert mode.
    fn motion_key(&mut self, kk: char)
        requires
            old(self)@.ready(),
            old(self)@.pending == Pending::Idle,
            old(self)@.normal_key_ok(Key::Ch(kk)),
        ensures
            final(self)@ == old(self)@.motion_key(kk),
    {
        let half = self.view_height / 2;
        let n_lines = self.lines.len();
        if kk == 'i' {
            self.mode = Mode::Insert;
        } else if kk == 'a' {
            self.mode = Mode::Insert;
            self.cursor_c = self.cursor_c + 1;
        } else if kk == 'I' {
            self.mode = Mode::Insert;
            self.cursor_c = 0;
        } else if kk == 'A' {
            self.mode = Mode::Insert;
            self.cursor_c = self.cur_len();
        } else if '0' <= kk && kk <= '9' {
            if kk == '0' && self.count.len() == 0 {
                self.cursor_c = 0;
            } else {
                self.count.push(kk);
            }
        } else if kk == 'h' {
            let n = self.count_val(1);
            self.repeat_step(Step::Left, n);
            self.reset_count();
        } else if kk == 'l' {
            let n = self.count_val(1);
            self.repeat_step(Step::Right, n);
            self.reset_count();
        } else if kk == 'j' {
            let n = self.count_val(1);
            self.repeat_step(Step::Down, n);
            self.reset_count();
        } else if kk == 'k' {
            let n = self.count_val(1);
            self.repeat_step(Step::Up, n);
            self.reset_count();
        } else if kk == 'w' || kk == 'W' {
            let n = self.count_val(1);
            self.repeat_step(Step::WordFwd, n);
            self.reset_count();
        } else if kk == 'b' || kk == 'B' {
            let n = self.count_val(1);
            self.repeat_step(Step::WordBack, n);
            self.reset_count();
        } else if kk == 'e' || kk == 'E' {
            let n = self.count_val(1);
            self.repeat_step(Step::WordEnd, n);
            self.reset_count();
        } else if kk == '$' {
            let l = self.cur_len();
            self.cursor_c = l;
        } else if kk == '^' {
            self.first_nonblank();
        } else if kk == 'H' {
            self.cursor_r = self.scroll_top;
            self.cursor_c = 0;
        } else if kk == 'M' {
            self.cursor_r = self.scroll_top + half;
            if self.cursor_r >= n_lines {
                self.cursor_r = n_lines - 1;
            }
            self.cursor_c = 0;
        } else if kk == 'L' {
            self.cursor_r = self.scroll_top + self.view_height - 1;
            if self.cursor_r >= n_lines {
                self.cursor_r = n_lines - 1;
            }
            self.cursor_c = 0;
        } else if kk == 'G' {
            let n = self.count_val(0);
            if n > 0 {
                let k = n as i64;
                self.goto_line(k - 1);
            } else {
                let k = n_lines as i64;
                self.goto_line(k - 1);
            }
            self.reset_count();
        } else if kk == '{' {
            self.prev_para();
        } else if kk == '}' {
            self.next_para();
        } else if kk == '\u{04}' {
            self.scroll_top = self.scroll_top + half;
            self.cursor_r = self.scroll_top + half;
        } else if kk == '\u{15}' {
            self.scroll_top = self.scroll_top.saturating_sub(half);
            self.cursor_r = self.scroll_top;
        } else if kk == '\u{06}' {
            self.scroll_top = self.scroll_top + self.view_height;
            self.cursor_r = self.scroll_top + 1;
            if self.cursor_r >= n_lines {
                self.cursor_r = n_lines - 1;
            }
        } else if kk == '\u{02}' {
            self.scroll_top = self.scroll_top.saturating_sub(self.view_height);
            self.cursor_r = self.scroll_top;
        } else if kk == '%' {
            self.match_bracket();
            self.reset();
        } else if kk == ';' {
            self.repeat_find(1);
        } else if kk == ',' {
            self.repeat_find(-1);
        }
    }
}


impl Editor {
    /// A key that edits, yanks, searches, sets a mark or starts a command.
    #[verifier::spinoff_prover]
    #[verifier::rlimit(40)]
    fn edit_key(&mut self, kk: char)
        requires
            old(self)@.ready(),
            old(self)@.pending == Pending::Idle,
            old(self)@.normal_key_ok(Key::Ch(kk)),
        ensures
            final(self)@ == old(self)@.edit_key(kk),
    {
        let c = self.cursor_c;
        let l = self.cur_len();
        proof {
            lemma_line_len(self@, self.cursor_r as int);
        }
        if kk == 'o' {
            self.undo_save();
            let r = self.cursor_r;
            let ghost before = self.lines@;
            self.lines.insert(r + 1, Vec::new());
            assert(lines_view(self.lines@) =~= lines_view(before).insert(r + 1, Seq::<char>::empty()));
            self.cursor_r = r + 1;
            self.cursor_c = 0;
            self.mode = Mode::Insert;
        } else if kk == 'O' {
            self.undo_save();
            let r = self.cursor_r;
            let ghost before = self.lines@;
            self.lines.insert(r, Vec::new());
            assert(lines_view(self.lines@) =~= lines_view(before).insert(r as int, Seq::<char>::empty()));
            self.cursor_c = 0;
            self.mode = Mode::Insert;
        } else if kk == 'x' {
            let n = self.count_val(1);
            if l > 0 && c < l {
                self.undo_save();
                let end = if c + n < l {
                    c + n
                } else {
                    l
                };
                self.cut(c, end);
            }
            self.reset_count();
        } else if kk == 'X' {
            let n = self.count_val(1);
            if c > 0 {
                self.undo_save();
                let rn = if n < c {
                    n
                } else {
                    c
                };
                self.cut(c - rn, c);
                self.cursor_c = c - rn;
            }
            self.reset_count();
        } else if kk == 's' {
            self.undo_save();
            if l > 0 && c < l {
                self.cut(c, c + 1);
            }
            self.mode = Mode::Insert;
        } else if kk == 'S' {
            self.undo_save();
            self.set_cur(Vec::new());
            self.cursor_c = 0;
            self.mode = Mode::Insert;
        } else if kk == 'D' || kk == 'C' {
            self.undo_save();
            let cr = self.cur_line();
            let head = char_slice(cr.as_slice(), 0, c);
            self.set_cur(head);
            if kk == 'C' {
                self.mode = Mode::Insert;
            }
        } else if kk == 'J' {
            self.join_lines();
        } else if kk == '~' {
            let n = self.count_val(1);
            self.repeat_edit(Edit::Tilde, n);
            self.reset_count();
        } else if kk == 'r' {
            self.pending = Pending::Replace;
        } else if kk == 'p' {
            let n = self.count_val(1);
            self.repeat_edit(Edit::PasteAfter, n);
            self.reset_count();
        } else if kk == 'P' {
            let n = self.count_val(1);
            self.repeat_edit(Edit::PasteBefore, n);
            self.reset_count();
        } else if kk == 'y' || kk == 'd' || kk == 'c' {
            self.pending = Pending::Operator(kk);
        } else if kk == 'f' || kk == 'F' || kk == 't' || kk == 'T' {
            self.pending = Pending::Find(kk);
        } else if kk == 'n' || kk == 'N' {
            if self.search_pat.len() > 0 {
                let dir = if kk == 'n' {
                    self.search_dir
                } else {
                    -self.search_dir
                };
                self.find_match(dir);
            }
        } else if kk == '*' || kk == '#' {
            let w = self.word_under();
            if w.len() > 0 {
                let dir: i32 = if kk == '*' {
                    1
                } else {
                    -1
                };
                self.search_pat = w;
                self.search_dir = dir;
                self.find_match(dir);
            }
        } else if kk == 'u' {
            self.undo();
        } else if kk == '\u{12}' {
            self.redo();
        } else if kk == 'm' {
            self.pending = Pending::SetMark;
        } else if kk == '`' {
            self.pending = Pending::JumpExact;
        } else if kk == '\'' {
            self.pending = Pending::JumpLine;
        } else if kk == 'g' {
            self.pending = Pending::Goto;
            self.reset_count();
        } else if kk == 'z' {
            self.pending = Pending::Scroll;
            self.reset_count();
        } else if kk == 'Z' {
            self.pending = Pending::Quit;
        } else {
            if self.count.len() > 0 {
                self.status_msg = str_chars("Unknown command");
            }
            self.reset_count();
        }
    }

    /// One key in normal mode: the new state, and the outside work it asks for.
    pub fn normal_key(&mut self, key: Key) -> (a: Action)
        requires
            old(self)@.ready(),
            old(self)@.normal_key_ok(key),
        ensures
            (final(self)@, a) == old(self)@.normal_key(key),
    {
        if self.pending != Pending::Idle {
            return self.pending_key(key);
        }
        match key {
            Key::Eof => {
                if self.count.len() > 0 {
                    self.status_msg = str_chars("Unknown command");
                    self.reset_count();
                }
                Action::Continue
            },
            Key::Ch(kk) => {
                if kk == '/' {
                    return Action::SearchPrompt(1);
                } else if kk == '?' {
                    return Action::SearchPrompt(-1);
                } else if kk == ':' {
                    return Action::CommandPrompt;
                }
                if kk == 'i' || kk == 'a' || kk == 'I' || kk == 'A' || ('0' <= kk && kk <= '9') || kk
                    == 'h' || kk == 'l' || kk == 'j' || kk == 'k' || kk == 'w' || kk == 'W' || kk
                    == 'b' || kk == 'B' || kk == 'e' || kk == 'E' || kk == '$' || kk == '^' || kk
                    == 'H' || kk == 'M' || kk == 'L' || kk == 'G' || kk == '{' || kk == '}' || kk
                    == '\u{04}' || kk == '\u{15}' || kk == '\u{06}' || kk == '\u{02}' || kk == '%'
                    || kk == ';' || kk == ',' {
                    self.motion_key(kk);
                } else {
                    self.edit_key(kk);
                }
                self.clamp();
                Action::Continue
            },
        }
    }
}


/// What one key does to the line being typed at a prompt.
#[derive(Clone, Copy, PartialEq, Eq, Structural, Debug)]
pub enum PromptEvent {
    /// The line is complete.
    Submit,
    /// The prompt was left with Escape; the line is now empty.
    Cancel,
    /// The last character was erased (the screen erases it too).
    Erased,
    /// Nothing changed (an erase on an empty line).
    Unchanged,
    /// The character was added (the screen shows it).
    Typed(char),
}

/// The line being typed at a prompt, after one key, and what happened.
pub open spec fn prompt_spec(buf: Seq<char>, key: Key) -> (Seq<char>, PromptEvent) {
    match key {
        Key::Eof => (buf, PromptEvent::Submit),
        Key::Ch(c) => if c == '\n' {
            (buf, PromptEvent::Submit)
        } else if c == '\u{7f}' || c == '\u{08}' {
            if buf.len() > 0 {
                (buf.drop_last(), PromptEvent::Erased)
            } else {
                (buf, PromptEvent::Unchanged)
            }
        } else if c == '\u{1b}' {
            (Seq::<char>::empty(), PromptEvent::Cancel)
        } else {
            (buf.push(c), PromptEvent::Typed(c))
        },
    }
}

/// One key typed at a `:` or search prompt.
pub fn prompt_key(buf: &mut Vec<char>, key: Key) -> (e: PromptEvent)
    ensures
        (final(buf)@, e) == prompt_spec(old(buf)@, key),
{
    match key {
        Key::Eof => PromptEvent::Submit,
        Key::Ch(c) => {
            if c == '\n' {
                PromptEvent::Submit
            } else if c == '\u{7f}' || c == '\u{08}' {
                if buf.len() > 0 {
                    buf.pop();
                    PromptEvent::Erased
                } else {
                    PromptEvent::Unchanged
                }
            } else if c == '\u{1b}' {
                buf.clear();
                PromptEvent::Cancel
            } else {
                buf.push(c);
                PromptEvent::Typed(c)
            }
        },
    }
}

impl EditorModel {
    /// The state after a key in insert mode: Backspace erases the character before the cursor
    /// (at the start of a line, joins it to the line above); Enter splits the line; Ctrl-W
    /// erases the word before the cursor; Ctrl-U erases up to the cursor; any other
    /// character is inserted.
    pub open spec fn insert_key(self, key: Key) -> Self {
        let line = self.cur_line();
        let c = self.cursor_c;
        let r = self.cursor_r;
        match key {
            Key::Ch(k) => if k == '\u{7f}' || k == '\u{08}' {
                if c > 0 {
                    EditorModel {
                        cursor_c: (c - 1) as usize,
                        ..self.set_cur(char_take(line, c - 1) + char_skip(line, c as int))
                    }
                } else if r > 0 {
                    let prev = self.lines[r - 1];
                    EditorModel {
                        lines: self.lines.update(r - 1, prev + line).remove(r as int),
                        cursor_r: (r - 1) as usize,
                        cursor_c: prev.len() as usize,
                        ..self
                    }
                } else {
                    self
                }
            } else if k == '\n' {
                self.split_line()
            } else if k == '\u{17}' {
                let wc = back_word(line, back_space(line, c as int));
                if wc < c {
                    EditorModel {
                        cursor_c: wc as usize,
                        ..self.set_cur(char_slice_spec(line, 0, wc as usize) + char_slice_spec(line, c, usize::MAX))
                    }
                } else {
                    self
                }
            } else if k == '\u{15}' {
                if c > 0 {
                    EditorModel { cursor_c: 0, ..self.set_cur(char_slice_spec(line, c, usize::MAX)) }
                } else {
                    self
                }
            } else {
                EditorModel {
                    cursor_c: (c + 1) as usize,
                    ..self.set_cur(char_take(line, c as int).push(k) + char_skip(line, c as int))
                }
            },
            Key::Eof => self.split_line(),
        }
    }

    /// The line split at the cursor; the cursor at the start of the new line.
    pub open spec fn split_line(self) -> Self {
        let line = self.cur_line();
        let c = self.cursor_c as int;
        let s = self.set_cur(char_take(line, c));
        EditorModel {
            lines: s.lines.insert(self.cursor_r + 1, char_skip(line, c)),
            cursor_r: (self.cursor_r + 1) as usize,
            cursor_c: 0,
            ..s
        }
    }

    /// The state after an escape sequence `[A`..`[D` (arrow keys) or a plain Escape (back to
    /// normal mode, no pending key, no count), then the column limited to the line.
    pub open spec fn handle_esc(self, b0: u8, b1: u8) -> Self {
        let s = if b0 == 0x5b && b1 == 0x41 {
            if self.cursor_r > 0 { EditorModel { cursor_r: (self.cursor_r - 1) as usize, ..self } } else { self }
        } else if b0 == 0x5b && b1 == 0x42 {
            if self.cursor_r + 1 < self.lines.len() {
                EditorModel { cursor_r: (self.cursor_r + 1) as usize, ..self }
            } else {
                self
            }
        } else if b0 == 0x5b && b1 == 0x43 {
            if self.cursor_c < self.cur_len() { EditorModel { cursor_c: (self.cursor_c + 1) as usize, ..self } } else { self }
        } else if b0 == 0x5b && b1 == 0x44 {
            if self.cursor_c > 0 { EditorModel { cursor_c: (self.cursor_c - 1) as usize, ..self } } else { self }
        } else {
            self.with_mode(Mode::Normal).reset()
        };
        s.clamp()
    }
}

impl Editor {
    /// One key in insert mode.
    pub fn insert_key(&mut self, key: Key)
        requires
            old(self)@.ready(),
        ensures
            final(self)@ == old(self)@.insert_key(key),
    {
        let line = self.cur_line();
        let c = self.cursor_c;
        let r = self.cursor_r;
        proof {
            lemma_line_len(self@, r as int);
        }
        match key {
            Key::Ch(k) => {
                if k == '\u{7f}' || k == '\u{08}' {
                    if c > 0 {
                        let mut nl = char_slice(line.as_slice(), 0, c - 1);
                        let mut tail = char_slice(line.as_slice(), c, usize::MAX);
                        nl.append(&mut tail);
                        assert(nl@ =~= char_take(line@, c - 1) + char_skip(line@, c as int));
                        self.set_cur(nl);
                        self.cursor_c = c - 1;
                    } else if r > 0 {
                        assert(self@.lines[r - 1] == self.lines@[r - 1]@);
                        let plen = self.lines[r - 1].len();
                        let mut joined: Vec<char> = Vec::new();
                        crate::text::push_range(&mut joined, self.lines[r - 1].as_slice(), 0, plen);
                        crate::text::push_range(&mut joined, line.as_slice(), 0, line.len());
                        let ghost before = lines_view(self.lines@);
                        assert(joined@ =~= before[r - 1] + line@);
                        self.lines.set(r - 1, joined);
                        self.lines.remove(r);
                        assert(lines_view(self.lines@) =~= before.update(
                            r - 1,
                            before[r - 1] + line@,
                        ).remove(r as int));
                        self.cursor_r = r - 1;
                        self.cursor_c = plen;
                    }
                } else if k == '\n' {
                    self.split_line();
                } else if k == '\u{17}' {
                    let wc0 = exec_back_space(line.as_slice(), c);
                    let wc = exec_back_word(line.as_slice(), wc0);
                    if wc < c {
                        let mut nl = char_slice(line.as_slice(), 0, wc);
                        let mut tail = char_slice(line.as_slice(), c, usize::MAX);
                        nl.append(&mut tail);
                        self.set_cur(nl);
                        self.cursor_c = wc;
                    }
                } else if k == '\u{15}' {
                    if c > 0 {
                        let nl = char_slice(line.as_slice(), c, usize::MAX);
                        self.set_cur(nl);
                        self.cursor_c = 0;
                    }
                } else {
                    let mut nl = char_slice(line.as_slice(), 0, c);
                    nl.push(k);
                    let mut tail = char_slice(line.as_slice(), c, usize::MAX);
                    nl.append(&mut tail);
                    assert(nl@ =~= char_take(line@, c as int).push(k) + char_skip(line@, c as int));
                    self.set_cur(nl);
                    self.cursor_c = c + 1;
                }
            },
            Key::Eof => {
                self.split_line();
            },
        }
    }

    /// Splits the line at the cursor.
    fn split_line(&mut self)
        requires
            old(self)@.placed(),
        ensures
            final(self)@ == old(self)@.split_line(),
    {
        let line = self.cur_line();
        let c = self.cursor_c;
        let left = char_slice(line.as_slice(), 0, c);
        let right = char_slice(line.as_slice(), c, usize::MAX);
        assert(line@.skip(0) =~= line@);
        let nlen = self.lines.len();
        let ll = line.len();
        assert(char_skip(line@, 0) == line@);
        assert(left@ =~= char_take(line@, c as int));
        assert(right@ =~= char_skip(line@, c as int));
        self.set_cur(left);
        let r = self.cursor_r;
        let ghost before = lines_view(self.lines@);
        self.lines.insert(r + 1, right);
        assert(lines_view(self.lines@) =~= before.insert(r + 1, char_skip(line@, c as int)));
        self.cursor_r = r + 1;
        self.cursor_c = 0;
    }

    /// The bytes that follow an Escape: an arrow key moves, anything else leaves insert mode.
    pub fn handle_esc(&mut self, seq: [u8; 2])
        requires
            old(self)@.lines.len() >= 1,
        ensures
            final(self)@ == old(self)@.handle_esc(seq@[0], seq@[1]),
    {
        let b0 = seq[0];
        let b1 = seq[1];
        if b0 == 0x5b && b1 == 0x41 {
            if self.cursor_r > 0 {
                self.cursor_r = self.cursor_r - 1;
            }
        } else if b0 == 0x5b && b1 == 0x42 {
            if self.cursor_r < self.lines.len() - 1 {
                self.cursor_r = self.cursor_r + 1;
            }
        } else if b0 == 0x5b && b1 == 0x43 {
            let l = self.cur_len();
            if self.cursor_c < l {
                self.cursor_c = self.cursor_c + 1;
            }
        } else if b0 == 0x5b && b1 == 0x44 {
            if self.cursor_c > 0 {
                self.cursor_c = self.cursor_c - 1;
            }
        } else {
            self.mode = Mode::Normal;
            self.reset();
        }
        self.clamp();
    }
}


/// The digits that a command line starts with.
pub open spec fn leading_digits(cmd: Seq<char>) -> Seq<char> {
    cmd.take(crate::text::prefix_run(cmd, |c: char| is_digit_spec(c)) as int)
}

/// The line number that a `:N` command names: its leading digits, or 1 where they do not fit.
pub open spec fn command_line_number(cmd: Seq<char>) -> usize {
    match parse_uint_spec(leading_digits(cmd), usize::MAX as nat) {
        Some(v) => v as usize,
        None => 1,
    }
}

/// The lines that the text of a file holds: its pieces between newlines, without a last
/// empty piece; none for an empty text.
pub open spec fn text_lines(content: Seq<char>) -> Seq<Seq<char>> {
    if content.len() == 0 {
        Seq::<Seq<char>>::empty()
    } else {
        clip_lines_spec(content)
    }
}

impl EditorModel {
    /// A `:` command can run without a fault: a line number's `i64` form is not `i64::MIN`.
    pub open spec fn command_ok(self, cmd: Seq<char>) -> bool {
        (cmd.len() > 0 && is_digit_spec(cmd[0])) ==> (command_line_number(cmd) as i64) != i64::MIN
    }

    /// The state and the action after the `:` command `cmd`: `w` saves, `q`/`q!` quit,
    /// `wq`/`x`/`wq!` save and quit, an empty command clears the status, `N...` goes to line
    /// N, anything else is reported as unknown; then normal mode.
    pub open spec fn execute_command(self, cmd: Seq<char>) -> (Self, Action) {
        let (s, a) = if cmd == "w"@ {
            (self, Action::Save)
        } else if cmd == "q"@ || cmd == "q!"@ {
            (self, Action::Quit)
        } else if cmd == "wq"@ || cmd == "x"@ || cmd == "wq!"@ {
            (self, Action::SaveAndQuit)
        } else if cmd.len() == 0 {
            (self.with_status(Seq::<char>::empty()), Action::Continue)
        } else if is_digit_spec(cmd[0]) {
            (
                self.goto_line(goto_arg(command_line_number(cmd))).with_status("line "@ + cmd),
                Action::Continue,
            )
        } else {
            (self.with_status("Unknown command: :"@ + cmd), Action::Continue)
        };
        (s.with_mode(Mode::Normal).clamp(), a)
    }

    /// The state after a search prompt returned `pat` (forward for `dir` 1): a non-empty
    /// pattern becomes the search and is searched for; then normal mode.
    pub open spec fn finish_search(self, pat: Seq<char>, dir: i32) -> Self {
        let s = if pat.len() > 0 {
            EditorModel { search_pat: pat, search_dir: dir, ..self }.find_match(dir)
        } else {
            self
        };
        s.with_mode(Mode::Normal).clamp()
    }

    /// The state after the file was written.
    pub open spec fn mark_saved(self) -> Self {
        self.with_status(seq!['"'] + self.file + "\" written"@)
    }

    /// The text that saving writes: the lines joined with newlines, and a final newline.
    pub open spec fn file_content(self) -> Seq<char> {
        join_nl(self.lines) + seq!['\n']
    }
}

impl Editor {
    /// Runs the `:` command `cmd`; the action tells the caller what to do outside.
    pub fn execute_command(&mut self, cmd: &[char]) -> (a: Action)
        requires
            old(self)@.ready(),
            old(self)@.command_ok(cmd@),
        ensures
            (final(self)@, a) == old(self)@.execute_command(cmd@),
    {
        let w = str_chars("w");
        let q = str_chars("q");
        let qb = str_chars("q!");
        let wq = str_chars("wq");
        let x = str_chars("x");
        let wqb = str_chars("wq!");
        let a = if crate::text::same_chars(cmd, w.as_slice()) {
            Action::Save
        } else if crate::text::same_chars(cmd, q.as_slice()) || crate::text::same_chars(cmd, qb.as_slice()) {
            Action::Quit
        } else if crate::text::same_chars(cmd, wq.as_slice()) || crate::text::same_chars(cmd, x.as_slice())
            || crate::text::same_chars(cmd, wqb.as_slice()) {
            Action::SaveAndQuit
        } else if cmd.len() == 0 {
            self.status_msg = Vec::new();
            Action::Continue
        } else if crate::text::is_digit(cmd[0]) {
            let mut k: usize = 0;
            while k < cmd.len() && crate::text::is_digit(cmd[k])
                invariant
                    k <= cmd@.len(),
                    forall|j: int| 0 <= j < k ==> is_digit_spec(#[trigger] cmd@[j]),
                decreases cmd@.len() - k,
            {
                k = k + 1;
            }
            proof {
                crate::text::lemma_prefix_run(cmd@, |c: char| is_digit_spec(c), k as int);
            }
            let mut prefix: Vec<char> = Vec::new();
            crate::text::push_range(&mut prefix, cmd, 0, k);
            assert(prefix@ =~= leading_digits(cmd@));
            let num = match parse_usize(prefix.as_slice()) {
                Some(v) => v,
                None => 1,
            };
            let n = num as i64;
            self.goto_line(n - 1);
            let mut msg = str_chars("line ");
            crate::text::push_range(&mut msg, cmd, 0, cmd.len());
            assert(cmd@.subrange(0, cmd@.len() as int) =~= cmd@);
            self.status_msg = msg;
            Action::Continue
        } else {
            let mut msg = str_chars("Unknown command: :");
            crate::text::push_range(&mut msg, cmd, 0, cmd.len());
            assert(cmd@.subrange(0, cmd@.len() as int) =~= cmd@);
            self.status_msg = msg;
            Action::Continue
        };
        self.mode = Mode::Normal;
        self.clamp();
        a
    }

    /// Finishes a search prompt that returned `pat` (forward for `dir` 1).
    pub fn finish_search(&mut self, pat: Vec<char>, dir: i32)
        requires
            old(self)@.ready(),
        ensures
            final(self)@ == old(self)@.finish_search(pat@, dir),
    {
        if pat.len() > 0 {
            self.search_pat = pat;
            self.search_dir = dir;
            self.find_match(dir);
        }
        self.mode = Mode::Normal;
        self.clamp();
    }

    /// Reports that the file was written.
    pub fn mark_saved(&mut self)
        ensures
            final(self)@ == old(self)@.mark_saved(),
    {
        let mut msg: Vec<char> = Vec::new();
        msg.push('"');
        crate::text::push_range(&mut msg, self.file.as_slice(), 0, self.file.len());
        push_str(&mut msg, "\" written");
        assert(self.file@.subrange(0, self.file@.len() as int) =~= self.file@);
        self.status_msg = msg;
    }

    /// The text that saving writes: the lines joined with newlines, and a final newline.
    pub fn file_content(&self) -> (r: String)
        ensures
            r@ == self@.file_content(),
    {
        let mut out: Vec<char> = Vec::new();
        for i in 0..self.lines.len()
            invariant
                i > 0 ==> out@ == join_nl(self@.lines.take(i as int)),
                i == 0 ==> out@.len() == 0,
        {
            assert(self@.lines[i as int] == self.lines@[i as int]@);
            if i > 0 {
                out.push('\n');
            }
            let li = &self.lines[i];
            crate::text::push_range(&mut out, li.as_slice(), 0, li.len());
            proof {
                let t = self@.lines.take(i + 1);
                assert(t.drop_last() =~= self@.lines.take(i as int));
                assert(li@.subrange(0, li@.len() as int) =~= li@);
                if i == 0 {
                    assert(t.len() == 1);
                    assert(out@ =~= li@);
                }
            }
        }
        assert(self@.lines.take(self@.lines.len() as int) =~= self@.lines);
        if self.lines.len() == 0 {
            assert(out@ =~= join_nl(self@.lines));
        }
        out.push('\n');
        crate::text::chars_string(out.as_slice())
    }
}

/// The lines that the text of a file holds.
pub fn text_to_lines(content: &[char]) -> (r: Vec<Vec<char>>)
    ensures
        lines_view(r@) == text_lines(content@),
{
    if content.len() == 0 {
        return Vec::new();
    }
    let mut holder: Vec<char> = Vec::new();
    crate::text::push_range(&mut holder, content, 0, content.len());
    assert(holder@ =~= content@);
    let e = Editor::new("", Vec::new());
    let mut e2 = e;
    e2.clipboard = holder;
    e2.clipboard_lines()
}

/// What std's `String::from_utf8_lossy` gives for a byte string.
pub uninterp spec fn lossy_utf8(b: Seq<u8>) -> Seq<char>;

/// Decodes bytes as UTF-8 with std's `String::from_utf8_lossy` (invalid sequences become
/// U+FFFD). Claimed: the result is `lossy_utf8` of the bytes; on valid UTF-8 it is the
/// decoded text.
#[verifier::external_body]
fn utf8_lossy(b: &[u8]) -> (r: String)
    ensures
        r@ == lossy_utf8(b@),
        vstd::utf8::valid_utf8(b@) ==> r@ == vstd::utf8::decode_utf8(b@),
{
    String::from_utf8_lossy(b).into_owned()
}

/// The lines of a file's bytes, decoded as UTF-8 with invalid sequences replaced.
pub fn load_lines(bytes: &[u8]) -> (r: Vec<Vec<char>>)
    ensures
        lines_view(r@) == text_lines(lossy_utf8(bytes@)),
        vstd::utf8::valid_utf8(bytes@) ==> lines_view(r@) == text_lines(vstd::utf8::decode_utf8(bytes@)),
{
    let s = utf8_lossy(bytes);
    let c = str_chars(s.as_str());
    text_to_lines(c.as_slice())
}

/// Decodes bytes as UTF-8 with std's `String::from_utf8`. Claimed: a string exactly for
/// valid UTF-8, and then the decoded text.
#[verifier::external_body]
fn utf8_strict(b: &[u8]) -> (r: Option<String>)
    ensures
        r is Some <==> vstd::utf8::valid_utf8(b@),
        r matches Some(s) ==> s@ == vstd::utf8::decode_utf8(b@),
{
    String::from_utf8(b.to_vec()).ok()
}

/// The number of bytes of the UTF-8 sequence that a byte starts (1 for any byte that does
/// not start a longer one).
pub open spec fn seq_len_spec(b: u8) -> usize {
    if 0xC2 <= b <= 0xDF {
        2
    } else if 0xE0 <= b <= 0xEF {
        3
    } else if 0xF0 <= b <= 0xF4 {
        4
    } else {
        1
    }
}

/// The number of bytes of the UTF-8 sequence that a byte starts.
pub fn utf8_seq_len(b: u8) -> (n: usize)
    ensures
        n == seq_len_spec(b),
{
    if 0xC2 <= b && b <= 0xDF {
        2
    } else if 0xE0 <= b && b <= 0xEF {
        3
    } else if 0xF0 <= b && b <= 0xF4 {
        4
    } else {
        1
    }
}

/// The key that read bytes make: the character they encode, or the first byte taken as a
/// character where they are not valid UTF-8.
pub open spec fn key_char_spec(b: Seq<u8>) -> char {
    if vstd::utf8::valid_utf8(b) && vstd::utf8::decode_utf8(b).len() > 0 {
        vstd::utf8::decode_utf8(b)[0]
    } else {
        (b[0] as u32) as char
    }
}

/// The key that read bytes make.
pub fn decode_key(bytes: &[u8]) -> (c: char)
    requires
        bytes@.len() >= 1,
    ensures
        c == key_char_spec(bytes@),
{
    match utf8_strict(bytes) {
        Some(s) => {
            let cs = str_chars(s.as_str());
            if cs.len() > 0 {
                cs[0]
            } else {
                bytes[0] as char
            }
        },
        None => bytes[0] as char,
    }
}

} // verus!
