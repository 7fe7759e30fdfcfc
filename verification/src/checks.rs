//! Run-time tests of the conditions under which the editor's operations are defined, for
//! callers that cannot prove them: each returns exactly whether the condition holds.

use vstd::prelude::*;
use crate::editor::{
    Editor, EditorModel, Key, Pending, clone_lines, history_view, is_line_motion, is_op_motion, lines_view,
};
use crate::text::{is_digit_spec, utf8_len};

verus! {

fn clone_text(v: &Vec<char>) -> (r: Vec<char>)
    ensures
        r@ == v@,
{
    let mut out: Vec<char> = Vec::new();
    crate::text::push_range(&mut out, v.as_slice(), 0, v.len());
    assert(v@.subrange(0, v@.len() as int) =~= v@);
    out
}

fn copy_history(h: &Vec<Vec<Vec<char>>>) -> (r: Vec<Vec<Vec<char>>>)
    ensures
        history_view(r@) == history_view(h@),
{
    let mut out: Vec<Vec<Vec<char>>> = Vec::new();
    for i in 0..h.len()
        invariant
            history_view(out@) == history_view(h@).take(i as int),
    {
        let b = clone_lines(&h[i]);
        let ghost prev = out@;
        assert(history_view(prev).len() == prev.len());
        assert(prev.len() == i);
        out.push(b);
        assert forall|k: int| 0 <= k < i + 1 implies history_view(out@)[k] == history_view(
            h@,
        ).take(i + 1)[k] by {
            if k < i {
                assert(out@[k] == prev[k]);
                assert(history_view(prev)[k] == history_view(h@).take(i as int)[k]);
            }
        }
        assert(history_view(out@) =~= history_view(h@).take(i + 1));
    }
    assert(history_view(h@).take(h@.len() as int) =~= history_view(h@));
    out
}

impl Editor {
    /// A copy of the editor's state.
    pub fn snapshot(&self) -> (r: Editor)
        ensures
            r@ == self@,
    {
        Editor {
            file: clone_text(&self.file),
            filetype: self.filetype.clone(),
            lines: clone_lines(&self.lines),
            cursor_r: self.cursor_r,
            cursor_c: self.cursor_c,
            scroll_top: self.scroll_top,
            mode: self.mode,
            status_msg: clone_text(&self.status_msg),
            term_rows: self.term_rows,
            view_height: self.view_height,
            count: clone_text(&self.count),
            pending: self.pending,
            search_pat: clone_text(&self.search_pat),
            search_dir: self.search_dir,
            last_find_char: self.last_find_char,
            last_find_dir: self.last_find_dir,
            last_find_until: self.last_find_until,
            marks: self.marks.clone(),
            clipboard: clone_text(&self.clipboard),
            clipboard_kind: self.clipboard_kind,
            undo_stack: copy_history(&self.undo_stack),
            redo_stack: copy_history(&self.redo_stack),
        }
    }

    /// Whether the cursor can be used: the buffer holds lines (no more than an `isize`
    /// counts), the cursor's row is one of them, its column fits an `isize`, and every line's
    /// UTF-8 length fits an `isize`.
    pub fn is_ready(&self) -> (b: bool)
        ensures
            b == self@.ready(),
    {
        let n = self.lines.len();
        if n == 0 || n > isize::MAX as usize || self.cursor_r >= n || self.cursor_c
            > isize::MAX as usize {
            return false;
        }
        let cap: u64 = (isize::MAX as u64) + 1;
        for i in 0..n
            invariant
                n == self.lines@.len(),
                cap == isize::MAX + 1,
                forall|k: int| 0 <= k < i ==> utf8_len(#[trigger] self@.lines[k]) <= isize::MAX,
        {
            let li = &self.lines[i];
            let w = crate::text::utf8_prefix_len_capped(li.as_slice(), li.len(), cap);
            proof {
                assert(li@.take(li@.len() as int) =~= li@);
                assert(self@.lines[i as int] == li@);
            }
            if w >= cap {
                return false;
            }
        }
        true
    }

    /// Whether the operator `op` with the motion `mot` runs without a fault (see
    /// `apply_op_ok`).
    fn op_ok(&self, op: char, mot: char) -> (b: bool)
        requires
            self@.ready(),
        ensures
            b == self@.apply_op_ok(op, mot),
    {
        let c = self.count_val(1);
        let n = if c < 1 {
            1
        } else {
            c
        };
        if mot == 'G' && (n as i64) == i64::MIN {
            return false;
        }
        let line_motion = mot == 'G' || mot == 'g' || mot == '}' || mot == '{' || mot == 'j'
            || mot == 'k' || mot == 'd' || mot == 'y' || mot == 'c';
        assert(line_motion == is_line_motion(mot));
        if (line_motion && op != 'd' && op != 'c') || (!line_motion && (op == 'd' || op == 'c')) {
            let mut snap = self.snapshot();
            snap.op_motion(mot, n);
            snap.cursor_r >= self.cursor_r
        } else {
            true
        }
    }

    /// Whether the key runs in normal mode without a fault (see `normal_key_ok`).
    pub fn key_ok(&self, key: Key) -> (b: bool)
        requires
            self@.ready(),
        ensures
            b == self@.normal_key_ok(key),
    {
        let half = self.view_height / 2;
        match self.pending {
            Pending::Operator(op) => match key {
                Key::Ch(kk) => {
                    let motion = kk == 'w' || kk == 'W' || kk == 'b' || kk == 'B' || kk == 'e'
                        || kk == 'E' || kk == '$' || kk == '^' || kk == '0' || kk == 'G' || kk
                        == 'g' || kk == '}' || kk == '{' || kk == 'j' || kk == 'k' || kk == 'd'
                        || kk == 'y' || kk == 'c';
                    assert(motion == is_op_motion(kk));
                    if !crate::text::is_digit(kk) && motion {
                        self.op_ok(op, kk)
                    } else {
                        true
                    }
                },
                Key::Eof => true,
            },
            Pending::Goto => key != Key::Ch('g') || (self.count_val(1) as i64) != i64::MIN,
            Pending::Scroll => key != Key::Ch('z') || self.scroll_top <= usize::MAX - half,
            Pending::Idle => match key {
                Key::Eof => true,
                Key::Ch(kk) => {
                    if kk == 'M' {
                        self.scroll_top <= usize::MAX - half
                    } else if kk == 'L' {
                        self.scroll_top <= usize::MAX - self.view_height && (self.scroll_top
                            >= 1 || self.view_height >= 1)
                    } else if kk == 'G' {
                        let c = self.count_val(0);
                        c == 0 || (c as i64) != i64::MIN
                    } else if kk == '\u{04}' {
                        half <= usize::MAX / 2 && self.scroll_top <= usize::MAX - 2 * half
                    } else if kk == '\u{06}' {
                        self.view_height < usize::MAX && self.scroll_top <= usize::MAX - (
                        self.view_height + 1)
                    } else if kk == 'x' {
                        self.cursor_c <= usize::MAX - self.count_val(1)
                    } else if kk == 'p' || kk == 'P' {
                        let l = self.cur_len();
                        self.cursor_c <= usize::MAX - self.clipboard.len() || self.cursor_c <= l
                    } else if kk == 'N' {
                        self.search_dir != i32::MIN
                    } else {
                        true
                    }
                },
            },
            _ => true,
        }
    }

    /// Whether the `:` command runs without a fault (see `command_ok`).
    pub fn command_fits(&self, cmd: &[char]) -> (b: bool)
        ensures
            b == self@.command_ok(cmd@),
    {
        if cmd.len() == 0 || !crate::text::is_digit(cmd[0]) {
            return true;
        }
        let mut k: usize = 0;
        while k < cmd.len() && crate::text::is_digit(cmd[k])
            invariant
                k <= cmd@.len(),
                forall|j: int| 0 <= j < k ==> is_digit_spec(#[trigger] cmd@[j]),
            decreases cmd@.len() - k,
        {
            k = k + 1;
        }
        proof {
            crate::text::lemma_prefix_run(cmd@, |c: char| is_digit_spec(c), k as int);
        }
        let mut prefix: Vec<char> = Vec::new();
        crate::text::push_range(&mut prefix, cmd, 0, k);
        assert(prefix@ =~= crate::editor::leading_digits(cmd@));
        let num = match crate::text::parse_usize(prefix.as_slice()) {
            Some(v) => v,
            None => 1,
        };
        (num as i64) != i64::MIN
    }
}

} // verus!
