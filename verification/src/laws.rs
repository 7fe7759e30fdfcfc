//! What the editor promises across operations: undo and redo take each other back, undo
//! brings back the buffer that was saved before a change, no key leaves the editor without a
//! line, the cursor stays on a line except on the keys named, `f` and `F` find the nearest
//! occurrence, searches land on the nearest matching row, Backspace takes back what was just
//! typed, and loading the text that saving writes gives the buffer back.

use vstd::prelude::*;
use crate::editor::{
    EditorModel, Edit, Key, Pending, Step, blank_spec, join_nl, split_nl, text_lines, usub,
    search_fwd, search_back, find_fwd_from, find_back_from, offset_in, last_before, back_space,
    back_word, bracket_start, bracket_target, ClipKind, first_blank_from, last_blank_at_or_before,
    line_at_spec, para_back_scan, skip_nonspace, skip_space, word_end_pos, word_fwd_pos,
    next_word_start,
};

verus! {

/// Redo takes back an undo: the buffer and both histories are as before.
pub proof fn lemma_undo_then_redo(s: EditorModel)
    requires
        s.undo_stack.len() > 0,
    ensures
        s.undo().redo().lines == s.lines,
        s.undo().redo().undo_stack == s.undo_stack,
        s.undo().redo().redo_stack == s.redo_stack,
{
    assert(s.undo().redo_stack.drop_last() =~= s.redo_stack);
    assert(s.undo().undo_stack.push(s.undo().lines) =~= s.undo_stack);
}

/// Undo takes back a redo: the buffer and both histories are as before.
pub proof fn lemma_redo_then_undo(s: EditorModel)
    requires
        s.redo_stack.len() > 0,
    ensures
        s.redo().undo().lines == s.lines,
        s.redo().undo().undo_stack == s.undo_stack,
        s.redo().undo().redo_stack == s.redo_stack,
{
    assert(s.redo().undo_stack.drop_last() =~= s.undo_stack);
    assert(s.redo().redo_stack.push(s.redo().lines) =~= s.redo_stack);
}

/// After the buffer was saved for undo and then replaced by any other buffer `b`, undo
/// brings back the saved buffer, and redo then brings back `b`.
pub proof fn lemma_undo_restores_saved(s: EditorModel, b: Seq<Seq<char>>)
    ensures
        (EditorModel { lines: b, ..s.undo_save() }).undo().lines == s.lines,
        (EditorModel { lines: b, ..s.undo_save() }).undo().redo().lines == b,
{
}

/// The buffer and the history that a state keeps: what a key leaves alone when it only
/// moves the cursor, scrolls, searches or changes a mode.
pub open spec fn same_text(a: EditorModel, b: EditorModel) -> bool {
    &&& a.lines == b.lines
    &&& a.undo_stack == b.undo_stack
    &&& a.redo_stack == b.redo_stack
}

proof fn lemma_repeat_same_text(s: EditorModel, st: Step, k: nat)
    ensures
        same_text(s.repeat(st, k), s),
    decreases k,
{
    if k > 0 {
        lemma_repeat_same_text(s, st, (k - 1) as nat);
    }
}

proof fn lemma_motion_same_text(s: EditorModel, kk: char)
    requires
        EditorModel::is_motion_key(kk),
    ensures
        same_text(s.motion_key(kk), s),
{
    let n = s.count_val(1) as nat;
    lemma_repeat_same_text(s, Step::Left, n);
    lemma_repeat_same_text(s, Step::Right, n);
    lemma_repeat_same_text(s, Step::Down, n);
    lemma_repeat_same_text(s, Step::Up, n);
    lemma_repeat_same_text(s, Step::WordFwd, n);
    lemma_repeat_same_text(s, Step::WordBack, n);
    lemma_repeat_same_text(s, Step::WordEnd, n);
}

/// The result of an edit that saved the buffer before changing it.
pub open spec fn saved_before(s: EditorModel, t: EditorModel) -> bool {
    t.lines != s.lines ==> t.undo_stack == s.undo_stack.push(s.lines) && t.redo_stack.len() == 0
}

proof fn lemma_paste_saved(s: EditorModel, e: Edit, k: nat)
    requires
        e != Edit::Tilde,
        k <= 1,
    ensures
        saved_before(s, s.repeat_edit(e, k)),
{
    if k == 1 {
        assert(s.repeat_edit(e, 1) == s.repeat_edit(e, 0).edit_step(e));
    }
}

proof fn lemma_edit_saved(s: EditorModel, kk: char)
    requires
        kk != 'u' && kk != '\u{12}' && kk != '~',
        (kk == 'p' || kk == 'P') ==> s.count_val(1) <= 1,
    ensures
        saved_before(s, s.edit_key(kk)),
{
    if kk == 'p' {
        lemma_paste_saved(s, Edit::PasteAfter, s.count_val(1) as nat);
    } else if kk == 'P' {
        lemma_paste_saved(s, Edit::PasteBefore, s.count_val(1) as nat);
    }
}

proof fn lemma_line_op_saved(s: EditorModel, m: EditorModel, op: char, mot: char)
    requires
        same_text(m, s),
    ensures
        saved_before(s, m.line_op(op, mot, s.cursor_r, s.cursor_c)),
{
}

proof fn lemma_apply_op_saved(s: EditorModel, op: char, mot: char)
    ensures
        saved_before(s, s.apply_op(op, mot)),
{
    let n = s.op_count();
    let m = s.op_motion(mot, n);
    lemma_repeat_same_text(s, Step::WordFwd, n as nat);
    lemma_repeat_same_text(s, Step::WordBack, n as nat);
    lemma_repeat_same_text(s, Step::WordEnd, n as nat);
    lemma_repeat_same_text(s, Step::Down, n as nat);
    lemma_repeat_same_text(s, Step::Up, n as nat);
    lemma_repeat_same_text(s, Step::Down, (n - 1) as nat);
    assert(same_text(m, s));
    lemma_line_op_saved(s, m, op, mot);
}

/// The keys whose change of the buffer a single `u` takes back: in normal mode every key
/// but `u`, Ctrl-R, `~` (which changes case without saving for undo), and `p` or `P` under
/// a count above one (each paste is saved on its own); any key that completes a pending
/// command.
pub open spec fn undoable_key(s: EditorModel, key: Key) -> bool {
    match key {
        Key::Eof => true,
        Key::Ch(kk) => s.pending != Pending::Idle || (kk != 'u' && kk != '\u{12}' && kk != '~' && (
        (kk != 'p' && kk != 'P') || s.count_val(1) <= 1)),
    }
}

/// A key in normal mode that changes the buffer first saves the buffer as it was for undo
/// and drops the redo history, so that `u` brings the text back as it was before the key.
#[verifier::spinoff_prover]
#[verifier::rlimit(60)]
pub proof fn lemma_change_is_undoable(s: EditorModel, key: Key)
    requires
        undoable_key(s, key),
    ensures
        saved_before(s, s.normal_key(key).0),
        s.normal_key(key).0.lines != s.lines ==> s.normal_key(key).0.undo().lines == s.lines,
{
    let t = s.normal_key(key).0;
    if s.pending != Pending::Idle {
        match s.pending {
            Pending::Operator(op) => match key {
                Key::Ch(kk) => {
                    lemma_apply_op_saved(s, op, kk);
                },
                Key::Eof => {},
            },
            _ => {},
        }
    } else {
        match key {
            Key::Eof => {},
            Key::Ch(kk) => {
                if kk == '/' || kk == '?' || kk == ':' {
                } else if EditorModel::is_motion_key(kk) {
                    lemma_motion_same_text(s, kk);
                } else {
                    lemma_edit_saved(s, kk);
                }
            },
        }
    }
    if t.lines != s.lines {
        assert(t.undo_stack.len() > 0);
        assert(t.undo_stack.last() == s.lines);
    }
}

/// Every buffer of the state holds a line: the current one and each saved for undo or redo.
pub open spec fn has_lines(s: EditorModel) -> bool {
    &&& s.lines.len() >= 1
    &&& forall|i: int| 0 <= i < s.undo_stack.len() ==> (#[trigger] s.undo_stack[i]).len() >= 1
    &&& forall|i: int| 0 <= i < s.redo_stack.len() ==> (#[trigger] s.redo_stack[i]).len() >= 1
}

proof fn lemma_save_has_lines(s: EditorModel)
    requires
        has_lines(s),
    ensures
        has_lines(s.undo_save()),
{
    let u = s.undo_save();
    assert forall|i: int| 0 <= i < u.undo_stack.len() implies (#[trigger] u.undo_stack[i]).len() >= 1 by {
        if i < s.undo_stack.len() {
            assert(u.undo_stack[i] == s.undo_stack[i]);
        }
    }
}

proof fn lemma_undo_has_lines(s: EditorModel)
    requires
        has_lines(s),
    ensures
        has_lines(s.undo()),
        has_lines(s.redo()),
{
    if s.undo_stack.len() > 0 {
        let t = s.undo();
        assert(s.undo_stack[s.undo_stack.len() - 1].len() >= 1);
        assert forall|i: int| 0 <= i < t.undo_stack.len() implies (#[trigger] t.undo_stack[i]).len() >= 1 by {
            assert(t.undo_stack[i] == s.undo_stack[i]);
        }
        assert forall|i: int| 0 <= i < t.redo_stack.len() implies (#[trigger] t.redo_stack[i]).len() >= 1 by {
            if i < s.redo_stack.len() {
                assert(t.redo_stack[i] == s.redo_stack[i]);
            }
        }
    }
    if s.redo_stack.len() > 0 {
        let t = s.redo();
        assert(s.redo_stack[s.redo_stack.len() - 1].len() >= 1);
        assert forall|i: int| 0 <= i < t.redo_stack.len() implies (#[trigger] t.redo_stack[i]).len() >= 1 by {
            assert(t.redo_stack[i] == s.redo_stack[i]);
        }
        assert forall|i: int| 0 <= i < t.undo_stack.len() implies (#[trigger] t.undo_stack[i]).len() >= 1 by {
            if i < s.undo_stack.len() {
                assert(t.undo_stack[i] == s.undo_stack[i]);
            }
        }
    }
}

proof fn lemma_next_word_row(lines: Seq<Seq<char>>, r: int)
    requires
        0 <= r < lines.len(),
    ensures
        r <= next_word_start(lines, r).0 < lines.len(),
    decreases lines.len() - r,
{
    let l = lines[r];
    let c = skip_space(l, 0);
    if !(c < l.len()) && r != lines.len() - 1 {
        lemma_next_word_row(lines, r + 1);
    }
}

proof fn lemma_word_fwd_row(lines: Seq<Seq<char>>, r: int, c: int)
    requires
        0 <= r < lines.len(),
    ensures
        r <= word_fwd_pos(lines, r, c).0 < lines.len(),
{
    let l = lines[r];
    let c2 = skip_space(l, skip_nonspace(l, c));
    if c2 >= l.len() && r != lines.len() - 1 {
        lemma_next_word_row(lines, r + 1);
    }
}

proof fn lemma_word_end_row(lines: Seq<Seq<char>>, r: int, c: int, orig: (int, int))
    requires
        0 <= r < lines.len(),
        0 <= orig.0 < lines.len(),
    ensures
        0 <= word_end_pos(lines, r, c, orig).0 < lines.len(),
    decreases lines.len() - r,
{
    let l = lines[r];
    let c1 = skip_space(l, c);
    if c1 >= l.len() && r != lines.len() - 1 {
        lemma_word_end_row(lines, r + 1, 0, (r + 1, 0));
    }
}

proof fn lemma_first_blank_row(lines: Seq<Seq<char>>, r: int)
    ensures
        first_blank_from(lines, r) matches Some(b) ==> r <= b < lines.len(),
    decreases lines.len() - r,
{
    if 0 <= r < lines.len() && !blank_spec(lines[r]) {
        lemma_first_blank_row(lines, r + 1);
    }
}

proof fn lemma_last_blank_row(lines: Seq<Seq<char>>, r: int)
    ensures
        last_blank_at_or_before(lines, r) matches Some(b) ==> 0 <= b <= r,
    decreases r + 1,
{
    if r >= 0 && !blank_spec(lines[r]) {
        lemma_last_blank_row(lines, r - 1);
    }
}

proof fn lemma_para_back_scan_row(lines: Seq<Seq<char>>, r: int)
    ensures
        para_back_scan(lines, r) <= r,
    decreases r + 2,
{
    if r >= 0 {
        let r1 = if !blank_spec(line_at_spec(lines, r)) { r - 1 } else { r };
        if !blank_spec(line_at_spec(lines, r1)) {
            lemma_para_back_scan_row(lines, r1 - 1);
        }
    }
}

proof fn lemma_step_row(s: EditorModel, st: Step)
    requires
        s.placed(),
    ensures
        s.step(st).placed(),
        same_text(s.step(st), s),
{
    let r = s.cursor_r as int;
    let c = s.cursor_c as int;
    lemma_word_fwd_row(s.lines, r, c);
    lemma_word_end_row(s.lines, r, c, (r, c));
}

proof fn lemma_repeat_row(s: EditorModel, st: Step, k: nat)
    requires
        s.placed(),
    ensures
        s.repeat(st, k).placed(),
    decreases k,
{
    if k > 0 {
        lemma_repeat_row(s, st, (k - 1) as nat);
        lemma_step_row(s.repeat(st, (k - 1) as nat), st);
    }
}

proof fn lemma_op_motion_row(s: EditorModel, mot: char, n: usize)
    requires
        s.placed(),
    ensures
        s.op_motion(mot, n).placed(),
{
    let k = n as nat;
    lemma_repeat_row(s, Step::WordFwd, k);
    lemma_repeat_row(s, Step::WordBack, k);
    lemma_repeat_row(s, Step::WordEnd, k);
    lemma_repeat_row(s, Step::Down, k);
    lemma_repeat_row(s, Step::Up, k);
    lemma_repeat_row(s, Step::Down, (n - 1) as nat);
    let r = s.cursor_r as int;
    lemma_first_blank_row(s.lines, r);
    lemma_para_back_scan_row(s.lines, r);
    lemma_last_blank_row(s.lines, para_back_scan(s.lines, r));
}

/// The buffer holds a line, the cursor's row is one of them, and every saved buffer holds
/// a line.
pub open spec fn on_a_line(s: EditorModel) -> bool {
    has_lines(s) && s.placed()
}

proof fn lemma_paste_on_a_line(s: EditorModel)
    requires
        on_a_line(s),
    ensures
        on_a_line(s.paste_after()),
        on_a_line(s.paste_before()),
{
    if s.clipboard.len() > 0 {
        crate::editor::lemma_clip_lines_nonempty(s.clipboard);
        lemma_save_has_lines(s);
    }
}

proof fn lemma_repeat_edit_on_a_line(s: EditorModel, e: Edit, k: nat)
    requires
        on_a_line(s),
    ensures
        on_a_line(s.repeat_edit(e, k)),
    decreases k,
{
    if k > 0 {
        lemma_repeat_edit_on_a_line(s, e, (k - 1) as nat);
        let p = s.repeat_edit(e, (k - 1) as nat);
        lemma_paste_on_a_line(p);
    }
}

proof fn lemma_delete_lines_has_lines(s: EditorModel, sr: usize, er: usize)
    requires
        has_lines(s),
    ensures
        has_lines(s.delete_lines_range(sr, er)),
{
    lemma_save_has_lines(s);
}

proof fn lemma_delete_chars_has_lines(m: EditorModel, op: char, sr: usize, sc: usize)
    requires
        has_lines(m),
        sr < m.lines.len(),
        sr <= m.cursor_r < m.lines.len(),
    ensures
        has_lines(m.delete_chars(op, sr, sc)),
{
}

proof fn lemma_apply_op_has_lines(s: EditorModel, op: char, mot: char)
    requires
        has_lines(s),
        s.placed(),
        s.apply_op_ok(op, mot),
    ensures
        has_lines(s.apply_op(op, mot)),
{
    let n = s.op_count();
    let m = s.op_motion(mot, n);
    lemma_repeat_same_text(s, Step::WordFwd, n as nat);
    lemma_repeat_same_text(s, Step::WordBack, n as nat);
    lemma_repeat_same_text(s, Step::WordEnd, n as nat);
    lemma_repeat_same_text(s, Step::Down, n as nat);
    lemma_repeat_same_text(s, Step::Up, n as nat);
    lemma_repeat_same_text(s, Step::Down, (n - 1) as nat);
    assert(same_text(m, s));
    lemma_op_motion_row(s, mot, n);
    lemma_save_has_lines(m);
    lemma_delete_lines_has_lines(m, s.cursor_r, m.cursor_r);
    lemma_delete_lines_has_lines(m, s.cursor_r, (m.lines.len() - 1) as usize);
    lemma_delete_lines_has_lines(m, 0, m.cursor_r);
    lemma_delete_lines_has_lines(m, m.cursor_r, s.cursor_r);
    if !crate::editor::is_line_motion(mot) && (op == 'd' || op == 'c') {
        lemma_save_has_lines(m);
        lemma_delete_chars_has_lines(m.undo_save(), op, s.cursor_r, s.cursor_c);
    }
}

#[verifier::spinoff_prover]
#[verifier::rlimit(60)]
proof fn lemma_edit_has_lines(s: EditorModel, kk: char)
    requires
        on_a_line(s),
    ensures
        has_lines(s.edit_key(kk)),
{
    lemma_save_has_lines(s);
    lemma_undo_has_lines(s);
    let n = s.count_val(1) as nat;
    lemma_repeat_edit_on_a_line(s, Edit::Tilde, n);
    lemma_repeat_edit_on_a_line(s, Edit::PasteAfter, n);
    lemma_repeat_edit_on_a_line(s, Edit::PasteBefore, n);
}

proof fn lemma_operator_has_lines(s: EditorModel, op: char, key: Key)
    requires
        has_lines(s),
        s.ready(),
        s.pending == Pending::Operator(op),
        s.normal_key_ok(key),
    ensures
        has_lines(s.pending_key(key).0),
{
    match key {
        Key::Ch(kk) => {
            if !crate::text::is_digit_spec(kk) && crate::editor::is_op_motion(kk) {
                lemma_apply_op_has_lines(s, op, kk);
                assert(s.pending_key(key).0 == s.apply_op(op, kk).reset());
            } else {
                assert(same_text(s.pending_key(key).0, s));
            }
        },
        Key::Eof => {},
    }
}

#[verifier::spinoff_prover]
#[verifier::rlimit(60)]
proof fn lemma_pending_has_lines(s: EditorModel, key: Key)
    requires
        has_lines(s),
        s.ready(),
        s.pending != Pending::Idle,
        s.normal_key_ok(key),
    ensures
        has_lines(s.pending_key(key).0),
{
    match s.pending {
        Pending::Operator(op) => {
            lemma_operator_has_lines(s, op, key);
        },
        Pending::Replace => {
            lemma_save_has_lines(s);
        },
        _ => {
            assert(same_text(s.pending_key(key).0, s));
        },
    }
}

proof fn lemma_idle_has_lines(s: EditorModel, kk: char)
    requires
        has_lines(s),
        s.ready(),
        s.pending == Pending::Idle,
    ensures
        has_lines(s.normal_key(Key::Ch(kk)).0),
{
    if EditorModel::is_motion_key(kk) {
        lemma_motion_same_text(s, kk);
    } else {
        lemma_edit_has_lines(s, kk);
    }
}

proof fn lemma_insert_has_lines(s: EditorModel, key: Key)
    requires
        has_lines(s),
        s.ready(),
    ensures
        has_lines(s.insert_key(key)),
{
}

proof fn lemma_esc_has_lines(s: EditorModel, b0: u8, b1: u8)
    requires
        has_lines(s),
    ensures
        has_lines(s.handle_esc(b0, b1)),
{
    assert(same_text(s.handle_esc(b0, b1), s));
}

proof fn lemma_command_has_lines(s: EditorModel, cmd: Seq<char>)
    requires
        has_lines(s),
    ensures
        has_lines(s.execute_command(cmd).0),
{
    assert(same_text(s.execute_command(cmd).0, s));
}

proof fn lemma_search_has_lines(s: EditorModel, pat: Seq<char>, dir: i32)
    requires
        has_lines(s),
    ensures
        has_lines(s.finish_search(pat, dir)),
{
    assert(same_text(s.finish_search(pat, dir), s));
}

proof fn lemma_normal_has_lines(s: EditorModel, key: Key)
    requires
        has_lines(s),
        s.ready(),
        s.normal_key_ok(key),
    ensures
        has_lines(s.normal_key(key).0),
{
    if s.pending != Pending::Idle {
        lemma_pending_has_lines(s, key);
    } else {
        match key {
            Key::Ch(kk) => lemma_idle_has_lines(s, kk),
            Key::Eof => {},
        }
    }
}

/// No key leaves the editor without a line: where the buffer and every buffer saved for undo
/// or redo hold a line, they still do after any key that normal mode accepts, any key in
/// insert mode, an escape sequence, a `:` command or a search.
pub proof fn lemma_keys_keep_a_line(s: EditorModel, key: Key, b0: u8, b1: u8, cmd: Seq<char>, pat: Seq<
    char,
>, dir: i32)
    requires
        has_lines(s),
        s.ready(),
        s.normal_key_ok(key),
    ensures
        has_lines(s.normal_key(key).0),
        has_lines(s.insert_key(key)),
        has_lines(s.handle_esc(b0, b1)),
        has_lines(s.execute_command(cmd).0),
        has_lines(s.finish_search(pat, dir)),
{
    lemma_normal_has_lines(s, key);
    lemma_insert_has_lines(s, key);
    lemma_esc_has_lines(s, b0, b1);
    lemma_command_has_lines(s, cmd);
    lemma_search_has_lines(s, pat, dir);
}

/// No line of the buffer holds a newline.
pub open spec fn no_newlines(ls: Seq<Seq<char>>) -> bool {
    forall|i: int, k: int| 0 <= i < ls.len() && 0 <= k < ls[i].len() ==> ls[i][k] != '\n'
}

proof fn lemma_join_first(ls: Seq<Seq<char>>)
    requires
        ls.len() >= 2,
    ensures
        join_nl(ls) == ls[0] + seq!['\n'] + join_nl(ls.drop_first()),
    decreases ls.len(),
{
    let d = ls.drop_last();
    let f = ls.drop_first();
    assert(d[0] == ls[0]);
    assert(f.last() == ls.last());
    if ls.len() == 2 {
        assert(d.len() == 1);
        assert(f.len() == 1);
        assert(f[0] == ls[1]);
        assert(ls.last() == ls[1]);
        assert(join_nl(d) == d[0]);
        assert(join_nl(f) == f[0]);
        assert(join_nl(ls) == join_nl(d) + seq!['\n'] + ls.last());
    } else {
        assert(join_nl(f) == join_nl(f.drop_last()) + seq!['\n'] + f.last());
        assert(join_nl(ls) == join_nl(d) + seq!['\n'] + ls.last());
        lemma_join_first(d);
        assert(f.drop_last() =~= d.drop_first());
        assert(join_nl(ls) =~= ls[0] + seq!['\n'] + join_nl(f));
    }
}

proof fn lemma_split_line(l: Seq<char>, rest: Seq<char>)
    requires
        forall|k: int| 0 <= k < l.len() ==> l[k] != '\n',
    ensures
        split_nl(l + seq!['\n'] + rest) == seq![l] + split_nl(rest),
{
    let s = l + seq!['\n'] + rest;
    assert forall|k: int| 0 <= k < l.len() implies #[trigger] s[k] != '\n' by {
        assert(s[k] == l[k]);
    }
    assert(s[l.len() as int] == '\n');
    crate::text::lemma_prefix_run(s, |c: char| c != '\n', l.len() as int);
    assert(s.take(l.len() as int) =~= l);
    assert(s.skip(l.len() as int + 1) =~= rest);
}

proof fn lemma_split_join(ls: Seq<Seq<char>>)
    requires
        ls.len() >= 1,
        no_newlines(ls),
    ensures
        split_nl(join_nl(ls) + seq!['\n']) == ls.push(Seq::<char>::empty()),
    decreases ls.len(),
{
    let e = Seq::<char>::empty();
    assert(ls[0].len() >= 0);
    assert forall|k: int| 0 <= k < ls[0].len() implies ls[0][k] != '\n' by {
        assert(ls[0][k] != '\n');
    }
    assert(split_nl(e) == seq![e]);
    if ls.len() == 1 {
        lemma_split_line(ls[0], e);
        assert(ls[0] + seq!['\n'] + e =~= ls[0] + seq!['\n']);
        assert(seq![ls[0]] + seq![e] =~= ls.push(e));
    } else {
        lemma_join_first(ls);
        let r = ls.drop_first();
        assert forall|i: int, k: int| 0 <= i < r.len() && 0 <= k < r[i].len() implies r[i][k] != '\n' by {
            assert(r[i] == ls[i + 1]);
        }
        lemma_split_join(r);
        assert(join_nl(ls) + seq!['\n'] =~= ls[0] + seq!['\n'] + (join_nl(r) + seq!['\n']));
        lemma_split_line(ls[0], join_nl(r) + seq!['\n']);
        assert(seq![ls[0]] + r.push(e) =~= ls.push(e));
    }
}

/// Loading the text that saving writes gives the buffer back, wherever the buffer holds a
/// line and no line holds a newline: the UTF-8 bytes of the saved text are valid, and the
/// lines that `load_lines` finds in them are the buffer's.
pub proof fn lemma_save_then_load(m: EditorModel)
    requires
        m.lines.len() >= 1,
        no_newlines(m.lines),
    ensures
        text_lines(m.file_content()) == m.lines,
        vstd::utf8::valid_utf8(vstd::utf8::encode_utf8(m.file_content())),
        text_lines(vstd::utf8::decode_utf8(vstd::utf8::encode_utf8(m.file_content()))) == m.lines,
{
    vstd::utf8::encode_utf8_valid_utf8(m.file_content());
    vstd::utf8::encode_utf8_decode_utf8(m.file_content());
    lemma_split_join(m.lines);
    let e = Seq::<char>::empty();
    let v = split_nl(m.file_content());
    assert(v == m.lines.push(e));
    assert(v.last() == e);
    assert(v.drop_last() =~= m.lines);
}

proof fn lemma_search_fwd_row(lines: Seq<Seq<char>>, pat: Seq<char>, i: int, r: int, c: int)
    requires
        0 <= i,
    ensures
        search_fwd(lines, pat, i, r, c) matches Some(p) ==> i <= p.0 < lines.len(),
    decreases lines.len() - i,
{
    if i < lines.len() {
        lemma_search_fwd_row(lines, pat, i + 1, r, c);
    }
}

proof fn lemma_search_back_row(lines: Seq<Seq<char>>, pat: Seq<char>, i: int, r: int, c: int)
    requires
        i < lines.len(),
    ensures
        search_back(lines, pat, i, r, c) matches Some(p) ==> 0 <= p.0 <= i,
    decreases i + 1,
{
    if i >= 0 {
        lemma_search_back_row(lines, pat, i - 1, r, c);
    }
}

proof fn lemma_find_match_placed(s: EditorModel, dir: i32)
    requires
        s.placed(),
    ensures
        s.find_match(dir).placed(),
        same_text(s.find_match(dir), s),
{
    let pat = crate::text::lower_seq(s.search_pat);
    let r = s.cursor_r as int;
    let c = s.cursor_c as int;
    lemma_search_fwd_row(s.lines, pat, r, r, c);
    lemma_search_back_row(s.lines, pat, r, r, c);
}

/// The keys on which normal mode moves the cursor past the last line: `H`, Ctrl-U and
/// Ctrl-B where the top of the screen is past it, Ctrl-D where the row half a page below the
/// new top is past it, and a jump to a mark whose row is past it.
pub open spec fn leaves_buffer(s: EditorModel, key: Key) -> bool {
    let half = s.view_height / 2;
    let n = s.lines.len();
    match key {
        Key::Eof => false,
        Key::Ch(kk) => if s.pending == Pending::Idle {
            ||| kk == 'H' && s.scroll_top >= n
            ||| kk == '\u{04}' && s.scroll_top + half + half >= n
            ||| kk == '\u{15}' && usub(s.scroll_top, half) >= n
            ||| kk == '\u{02}' && usub(s.scroll_top, s.view_height) >= n
        } else if s.pending == Pending::JumpExact || s.pending == Pending::JumpLine {
            crate::text::is_alpha_spec(kk) && s.marks.contains_key(kk as u32) && s.marks[kk as u32].0 >= n
        } else {
            false
        },
    }
}

#[verifier::spinoff_prover]
proof fn lemma_motion_placed(s: EditorModel, kk: char)
    requires
        s.placed(),
        EditorModel::is_motion_key(kk),
        !leaves_buffer(s, Key::Ch(kk)),
        s.pending == Pending::Idle,
    ensures
        s.motion_key(kk).placed(),
{
    let n = s.count_val(1) as nat;
    lemma_repeat_row(s, Step::Left, n);
    lemma_repeat_row(s, Step::Right, n);
    lemma_repeat_row(s, Step::Down, n);
    lemma_repeat_row(s, Step::Up, n);
    lemma_repeat_row(s, Step::WordFwd, n);
    lemma_repeat_row(s, Step::WordBack, n);
    lemma_repeat_row(s, Step::WordEnd, n);
    let r = s.cursor_r as int;
    lemma_first_blank_row(s.lines, r);
    lemma_para_back_scan_row(s.lines, r);
    lemma_last_blank_row(s.lines, para_back_scan(s.lines, r));
}

proof fn lemma_undo_placed(s: EditorModel)
    requires
        has_lines(s),
        s.placed(),
    ensures
        s.undo().placed(),
        s.redo().placed(),
{
    if s.undo_stack.len() > 0 {
        assert(s.undo_stack[s.undo_stack.len() - 1].len() >= 1);
    }
    if s.redo_stack.len() > 0 {
        assert(s.redo_stack[s.redo_stack.len() - 1].len() >= 1);
    }
}

#[verifier::spinoff_prover]
#[verifier::rlimit(60)]
proof fn lemma_edit_placed(s: EditorModel, kk: char)
    requires
        on_a_line(s),
    ensures
        s.edit_key(kk).placed(),
{
    lemma_undo_placed(s);
    let n = s.count_val(1) as nat;
    lemma_repeat_edit_on_a_line(s, Edit::Tilde, n);
    lemma_repeat_edit_on_a_line(s, Edit::PasteAfter, n);
    lemma_repeat_edit_on_a_line(s, Edit::PasteBefore, n);
    lemma_find_match_placed(s, s.search_dir);
    lemma_find_match_placed(s, (-s.search_dir) as i32);
    let w = crate::editor::word_under_spec(s.cur_line(), s.cursor_c as int);
    lemma_find_match_placed(EditorModel { search_pat: w, search_dir: 1i32, ..s }, 1i32);
    lemma_find_match_placed(EditorModel { search_pat: w, search_dir: -1i32, ..s }, -1i32);
}

proof fn lemma_line_op_placed(m: EditorModel, op: char, mot: char, sr: usize, sc: usize)
    requires
        m.placed(),
        sr < m.lines.len(),
    ensures
        m.line_op(op, mot, sr, sc).placed(),
{
}

proof fn lemma_delete_chars_placed(m: EditorModel, op: char, sr: usize, sc: usize)
    requires
        m.placed(),
        sr <= m.cursor_r,
    ensures
        m.delete_chars(op, sr, sc).placed(),
{
}

#[verifier::spinoff_prover]
proof fn lemma_apply_op_placed(s: EditorModel, op: char, mot: char)
    requires
        s.placed(),
        s.apply_op_ok(op, mot),
    ensures
        s.apply_op(op, mot).placed(),
{
    let n = s.op_count();
    let m = s.op_motion(mot, n);
    lemma_repeat_same_text(s, Step::WordFwd, n as nat);
    lemma_repeat_same_text(s, Step::WordBack, n as nat);
    lemma_repeat_same_text(s, Step::WordEnd, n as nat);
    lemma_repeat_same_text(s, Step::Down, n as nat);
    lemma_repeat_same_text(s, Step::Up, n as nat);
    lemma_repeat_same_text(s, Step::Down, (n - 1) as nat);
    assert(same_text(m, s));
    lemma_op_motion_row(s, mot, n);
    lemma_line_op_placed(m, op, mot, s.cursor_r, s.cursor_c);
    if !crate::editor::is_line_motion(mot) && (op == 'd' || op == 'c') {
        lemma_delete_chars_placed(m.undo_save(), op, s.cursor_r, s.cursor_c);
    }
}

proof fn lemma_operator_placed(s: EditorModel, op: char, key: Key)
    requires
        s.placed(),
        s.pending == Pending::Operator(op),
        s.normal_key_ok(key),
    ensures
        s.pending_key(key).0.placed(),
{
    match key {
        Key::Ch(kk) => {
            if !crate::text::is_digit_spec(kk) && crate::editor::is_op_motion(kk) {
                lemma_apply_op_placed(s, op, kk);
                assert(s.pending_key(key).0 == s.apply_op(op, kk).reset());
            }
        },
        Key::Eof => {},
    }
}

proof fn lemma_find_pending_placed(s: EditorModel, f: char, key: Key)
    requires
        s.placed(),
        s.pending == Pending::Find(f),
    ensures
        s.pending_key(key).0.placed(),
{
}

proof fn lemma_jump_placed(s: EditorModel, key: Key)
    requires
        s.placed(),
        s.pending == Pending::JumpExact || s.pending == Pending::JumpLine,
        !leaves_buffer(s, key),
    ensures
        s.pending_key(key).0.placed(),
{
}

proof fn lemma_other_pending_placed(s: EditorModel, key: Key)
    requires
        s.placed(),
        s.pending == Pending::Replace || s.pending == Pending::Goto || s.pending == Pending::Scroll
            || s.pending == Pending::SetMark || s.pending == Pending::Quit,
    ensures
        s.pending_key(key).0.placed(),
{
}

proof fn lemma_pending_placed(s: EditorModel, key: Key)
    requires
        s.placed(),
        s.pending != Pending::Idle,
        s.normal_key_ok(key),
        !leaves_buffer(s, key),
    ensures
        s.pending_key(key).0.placed(),
{
    match s.pending {
        Pending::Operator(op) => lemma_operator_placed(s, op, key),
        Pending::Find(f) => lemma_find_pending_placed(s, f, key),
        Pending::JumpExact => lemma_jump_placed(s, key),
        Pending::JumpLine => lemma_jump_placed(s, key),
        _ => lemma_other_pending_placed(s, key),
    }
}

proof fn lemma_normal_placed(s: EditorModel, key: Key)
    requires
        on_a_line(s),
        s.normal_key_ok(key),
        !leaves_buffer(s, key),
    ensures
        s.normal_key(key).0.placed(),
{
    if s.pending != Pending::Idle {
        lemma_pending_placed(s, key);
    } else {
        match key {
            Key::Ch(kk) => {
                if EditorModel::is_motion_key(kk) {
                    lemma_motion_placed(s, kk);
                } else {
                    lemma_edit_placed(s, kk);
                }
            },
            Key::Eof => {},
        }
    }
}

proof fn lemma_insert_placed(s: EditorModel, key: Key)
    requires
        s.ready(),
    ensures
        s.insert_key(key).placed(),
{
}

proof fn lemma_esc_placed(s: EditorModel, b0: u8, b1: u8)
    requires
        s.placed(),
    ensures
        s.handle_esc(b0, b1).placed(),
{
}

proof fn lemma_command_placed(s: EditorModel, cmd: Seq<char>)
    requires
        s.placed(),
    ensures
        s.execute_command(cmd).0.placed(),
{
}

proof fn lemma_search_placed(s: EditorModel, pat: Seq<char>, dir: i32)
    requires
        s.placed(),
    ensures
        s.finish_search(pat, dir).placed(),
{
    lemma_find_match_placed(EditorModel { search_pat: pat, search_dir: dir, ..s }, dir);
}

/// The cursor stays on a line: where the buffer and every saved buffer hold a line and the
/// cursor's row is one of the buffer's, this still holds after any key that normal mode
/// accepts other than those that `leaves_buffer` names, any key in insert mode, an escape
/// sequence, a `:` command or a search.
pub proof fn lemma_cursor_stays_on_a_line(s: EditorModel, key: Key, b0: u8, b1: u8, cmd: Seq<
    char,
>, pat: Seq<char>, dir: i32)
    requires
        has_lines(s),
        s.ready(),
        s.normal_key_ok(key),
        !leaves_buffer(s, key),
    ensures
        on_a_line(s.normal_key(key).0),
        on_a_line(s.insert_key(key)),
        on_a_line(s.handle_esc(b0, b1)),
        on_a_line(s.execute_command(cmd).0),
        on_a_line(s.finish_search(pat, dir)),
{
    lemma_keys_keep_a_line(s, key, b0, b1, cmd, pat, dir);
    lemma_normal_placed(s, key);
    lemma_insert_placed(s, key);
    lemma_esc_placed(s, b0, b1);
    lemma_command_placed(s, cmd);
    lemma_search_placed(s, pat, dir);
}

proof fn lemma_find_fwd_first(l: Seq<char>, i: int, ch: char)
    requires
        0 <= i,
    ensures
        find_fwd_from(l, i, ch) matches Some(f) ==> i <= f < l.len() && l[f] == ch && forall|k: int|
            i <= k < f ==> l[k] != ch,
        find_fwd_from(l, i, ch) is None ==> forall|k: int| i <= k < l.len() ==> l[k] != ch,
    decreases l.len() - i,
{
    if i < l.len() && l[i] != ch {
        lemma_find_fwd_first(l, i + 1, ch);
    }
}

proof fn lemma_find_back_last(l: Seq<char>, i: int, ch: char)
    requires
        i < l.len(),
    ensures
        find_back_from(l, i, ch) matches Some(f) ==> 0 <= f <= i && l[f] == ch && forall|k: int|
            f < k <= i ==> l[k] != ch,
        find_back_from(l, i, ch) is None ==> forall|k: int| 0 <= k <= i ==> l[k] != ch,
    decreases i + 1,
{
    if i >= 0 && l[i] != ch {
        lemma_find_back_last(l, i - 1, ch);
    }
}

/// `f` moves the cursor onto the first occurrence of the character after the cursor on its
/// line, and `F` onto the last one before it; where there is none, the cursor stays (its
/// column limited to the line).
pub proof fn lemma_find_char(s: EditorModel, ch: char)
    requires
        s.ready(),
        s.cursor_c < s.cur_len(),
    ensures
        ({
            let l = s.cur_line();
            let t = s.do_find(ch, 1i32, false);
            if exists|k: int| s.cursor_c < k < l.len() && l[k] == ch {
                &&& s.cursor_c < t.cursor_c < l.len()
                &&& l[t.cursor_c as int] == ch
                &&& forall|k: int| s.cursor_c < k < t.cursor_c ==> l[k] != ch
            } else {
                t.cursor_c == s.cursor_c
            }
        }),
        ({
            let l = s.cur_line();
            let t = s.do_find(ch, -1i32, false);
            if exists|k: int| 0 <= k < s.cursor_c && l[k] == ch {
                &&& t.cursor_c < s.cursor_c
                &&& l[t.cursor_c as int] == ch
                &&& forall|k: int| t.cursor_c < k < s.cursor_c ==> l[k] != ch
            } else {
                t.cursor_c == s.cursor_c
            }
        }),
{
    let l = s.cur_line();
    crate::editor::lemma_line_len(s, s.cursor_r as int);
    lemma_find_fwd_first(l, s.cursor_c + 1, ch);
    lemma_find_back_last(l, s.cursor_c - 1, ch);
}

/// Backspace takes back what was just typed in insert mode: a typed character, or a line
/// split by Enter; the buffer and the cursor are as before.
pub proof fn lemma_backspace_undoes_typing(s: EditorModel, ch: char)
    requires
        s.ready(),
        s.cursor_c <= s.cur_len(),
        ch != '\u{7f}' && ch != '\u{08}' && ch != '\u{17}' && ch != '\u{15}',
    ensures
        ({
            let t = s.insert_key(Key::Ch(ch)).insert_key(Key::Ch('\u{7f}'));
            t.lines == s.lines && t.cursor_r == s.cursor_r && t.cursor_c == s.cursor_c
        }),
{
    let line = s.cur_line();
    let c = s.cursor_c as int;
    let r = s.cursor_r as int;
    let t1 = s.insert_key(Key::Ch(ch));
    assert(line.take(c) + line.skip(c) =~= line);
    if ch == '\n' {
        assert(t1 == s.split_line());
        assert(t1.lines == s.lines.update(r, line.take(c)).insert(r + 1, line.skip(c)));
        assert(t1.cursor_r == r + 1 && t1.cursor_c == 0);
        assert(t1.cur_line() == line.skip(c));
        let t = t1.insert_key(Key::Ch('\u{7f}'));
        assert(t1.lines[r] == line.take(c));
        assert(t.lines =~= s.lines);
    } else {
        let nl = line.take(c).push(ch) + line.skip(c);
        assert(t1.lines == s.lines.update(r, nl));
        assert(t1.cursor_c == c + 1);
        assert(t1.cur_line() == nl);
        assert(nl.take(c) =~= line.take(c));
        assert(nl.skip(c + 1) =~= line.skip(c));
        let t = t1.insert_key(Key::Ch('\u{7f}'));
        assert(t.lines =~= s.lines);
    }
}

/// The column where row `i` matches a forward search from `(r, c)`, if it does: the row
/// `r` is searched from the column after `c`, other rows from column 0, in lower case.
pub open spec fn fwd_row_match(lines: Seq<Seq<char>>, pat: Seq<char>, i: int, r: int, c: int) -> Option<
    int,
> {
    let ll = crate::text::lower_seq(lines[i]);
    let s = if i == r { c + 1 } else { 0 };
    if s > ll.len() {
        None
    } else {
        match offset_in(ll, s, pat) {
            Some(off) => Some(s + off),
            None => None,
        }
    }
}

/// A forward search from row `i` lands on the nearest row at or after `i` that matches, at
/// its match, and finds nothing only where no such row matches.
pub proof fn lemma_search_fwd_nearest(lines: Seq<Seq<char>>, pat: Seq<char>, i: int, r: int, c: int)
    requires
        0 <= i,
    ensures
        search_fwd(lines, pat, i, r, c) matches Some(p) ==> {
            &&& i <= p.0 < lines.len()
            &&& fwd_row_match(lines, pat, p.0, r, c) == Some(p.1)
            &&& forall|k: int| i <= k < p.0 ==> #[trigger] fwd_row_match(lines, pat, k, r, c) is None
        },
        search_fwd(lines, pat, i, r, c) is None ==> forall|k: int|
            i <= k < lines.len() ==> #[trigger] fwd_row_match(lines, pat, k, r, c) is None,
    decreases lines.len() - i,
{
    if i < lines.len() {
        lemma_search_fwd_nearest(lines, pat, i + 1, r, c);
    }
}

/// No match from column `from` on starts before `limit`.
pub open spec fn none_before(ll: Seq<char>, pat: Seq<char>, from: int, limit: int) -> bool {
    from >= limit || match offset_in(ll, from, pat) {
        Some(o) => from + o >= limit,
        None => true,
    }
}

/// Searching a line backward from `limit` lands on the last match before it: a match found
/// from some column at or after `s`, after which no further match starts before the limit;
/// where there is none, the earlier result `found` stands.
pub proof fn lemma_last_before(ll: Seq<char>, pat: Seq<char>, s: int, limit: int, found: Option<int>)
    requires
        0 <= s,
    ensures
        (last_before(ll, pat, s, limit, found) == found && none_before(ll, pat, s, limit)) || (
        last_before(ll, pat, s, limit, found) matches Some(f) && s <= f < limit && none_before(
            ll,
            pat,
            f + 1,
            limit,
        ) && exists|s0: int| s <= s0 <= f && #[trigger] offset_in(ll, s0, pat) == Some(f - s0)),
    decreases limit - s,
{
    if s < limit {
        match offset_in(ll, s, pat) {
            Some(off) => {
                if s + off < limit {
                    lemma_last_before(ll, pat, s + off + 1, limit, Some(s + off));
                    let res = last_before(ll, pat, s, limit, found);
                    if res == Some(s + off) && none_before(ll, pat, s + off + 1, limit) {
                        assert(offset_in(ll, s, pat) == Some((s + off) - s));
                    } else {
                        let f = res->0;
                        let s0 = choose|s0: int| s + off + 1 <= s0 <= f && #[trigger] offset_in(ll, s0, pat)
                            == Some(f - s0);
                        assert(s <= s0);
                    }
                }
            },
            None => {},
        }
    }
}

/// The column where row `i` matches a backward search from `(r, c)`, if it does: the last
/// match of the lower-cased row before the cursor's column on row `r`, before its end
/// elsewhere.
pub open spec fn back_row_match(lines: Seq<Seq<char>>, pat: Seq<char>, i: int, r: int, c: int) -> Option<
    int,
> {
    let ll = crate::text::lower_seq(lines[i]);
    let limit = if i == r { c } else { ll.len() as int };
    last_before(ll, pat, 0, limit, None)
}

/// A backward search from row `i` lands on the nearest row at or before `i` that matches,
/// at its match, and finds nothing only where no such row matches.
pub proof fn lemma_search_back_nearest(lines: Seq<Seq<char>>, pat: Seq<char>, i: int, r: int, c: int)
    requires
        i < lines.len(),
    ensures
        search_back(lines, pat, i, r, c) matches Some(p) ==> {
            &&& 0 <= p.0 <= i
            &&& back_row_match(lines, pat, p.0, r, c) == Some(p.1)
            &&& forall|k: int| p.0 < k <= i ==> #[trigger] back_row_match(lines, pat, k, r, c) is None
        },
        search_back(lines, pat, i, r, c) is None ==> forall|k: int|
            0 <= k <= i ==> #[trigger] back_row_match(lines, pat, k, r, c) is None,
    decreases i + 1,
{
    if i >= 0 {
        lemma_search_back_nearest(lines, pat, i - 1, r, c);
    }
}

proof fn lemma_back_space(l: Seq<char>, c: int)
    requires
        0 <= c <= l.len(),
    ensures
        0 <= back_space(l, c) <= c,
        forall|k: int| back_space(l, c) <= k < c ==> l[k] == ' ',
        back_space(l, c) == 0 || l[back_space(l, c) - 1] != ' ',
    decreases c,
{
    if c > 0 && l[c - 1] == ' ' {
        lemma_back_space(l, c - 1);
    }
}

proof fn lemma_back_word(l: Seq<char>, c: int)
    requires
        0 <= c <= l.len(),
    ensures
        0 <= back_word(l, c) <= c,
        forall|k: int| back_word(l, c) <= k < c ==> l[k] != ' ',
        back_word(l, c) == 0 || l[back_word(l, c) - 1] == ' ',
    decreases c,
{
    if c > 0 && l[c - 1] != ' ' {
        lemma_back_word(l, c - 1);
    }
}

/// `b` moves to the start of the previous word: from a column `c` of row `r` with a non-space
/// somewhere before it, the cursor stays on row `r` or goes to the row above (only from the
/// first word of a row after the first); where it stays on the row, it moves strictly left,
/// onto a non-space that starts a word (column 0, or a space before it); on the first row
/// it always stays.
pub proof fn lemma_word_back_moves_left(s: EditorModel)
    requires
        s.cursor_r < s.lines.len(),
        s.cursor_c <= s.cur_len(),
        exists|j: int| 0 <= j < s.cursor_c && s.cur_line()[j] != ' ',
    ensures
        ({
            let t = s.word_back();
            let l = s.cur_line();
            let c = s.cursor_c as int;
            &&& t.cursor_r == s.cursor_r || (s.cursor_r > 0 && t.cursor_r == s.cursor_r - 1)
            &&& s.cursor_r == 0 ==> t.cursor_r == s.cursor_r
            &&& t.cursor_r == s.cursor_r ==> {
                &&& t.cursor_c < c
                &&& l[t.cursor_c as int] != ' '
                &&& (t.cursor_c == 0 || l[t.cursor_c - 1] == ' ')
            }
        }),
{
    let l = s.cur_line();
    let c = s.cursor_c as int;
    let j = choose|j: int| 0 <= j < c && l[j] != ' ';
    lemma_back_space(l, c);
    let b = back_space(l, c);
    assert(b > j);
    lemma_back_word(l, b);
    let w = back_word(l, b);
    assert(w < b);
    assert(l[w] != ' ');
}

/// The balance of a stretch of text: how many more `open` than `close` it holds.
pub open spec fn balance(x: Seq<char>, open: char, close: char) -> int
    decreases x.len(),
{
    if x.len() == 0 {
        0
    } else {
        (if x[0] == open { 1int } else if x[0] == close { -1int } else { 0int }) + balance(
            x.drop_first(),
            open,
            close,
        )
    }
}

proof fn lemma_match_fwd(l: Seq<char>, i: int, open: char, close: char, d: nat)
    requires
        0 <= i,
        open != close,
    ensures
        crate::editor::match_fwd(l, i, open, close, d) matches Some(t) ==> {
            &&& i <= t < l.len()
            &&& l[t] == close
            &&& d + balance(l.subrange(i, t), open, close) == 0
            &&& forall|j: int| i <= j <= t ==> d + #[trigger] balance(l.subrange(i, j), open, close) >= 0
            &&& forall|j: int| i <= j < t && l[j] == close ==> d + #[trigger] balance(l.subrange(i, j), open, close) > 0
        },
    decreases l.len() - i,
{
    if i < l.len() {
        let nd: int = if l[i] == close { d - 1 } else if l[i] == open { d + 1int } else { d as int };
        if !(l[i] == close && d == 0) {
            lemma_match_fwd(l, i + 1, open, close, nd as nat);
        }
        match crate::editor::match_fwd(l, i, open, close, d) {
            Some(t) => {
                assert(l.subrange(i, i) =~= Seq::<char>::empty());
                if t > i {
                    assert forall|j: int| i < j <= t implies balance(l.subrange(i, j), open, close)
                        == (if l[i] == open { 1int } else if l[i] == close { -1int } else { 0int })
                        + balance(l.subrange(i + 1, j), open, close) by {
                        assert(l.subrange(i, j).drop_first() =~= l.subrange(i + 1, j));
                        assert(l.subrange(i, j)[0] == l[i]);
                    }
                }
            },
            None => {},
        }
    }
}

proof fn lemma_balance_push(x: Seq<char>, a: char, open: char, close: char)
    ensures
        balance(x.push(a), open, close) == balance(x, open, close) + (if a == open { 1int } else if a
            == close { -1int } else { 0int }),
    decreases x.len(),
{
    if x.len() > 0 {
        assert(x.push(a).drop_first() =~= x.drop_first().push(a));
        assert(x.push(a)[0] == x[0]);
        lemma_balance_push(x.drop_first(), a, open, close);
    } else {
        assert(x.push(a).drop_first() =~= Seq::<char>::empty());
        assert(x.push(a)[0] == a);
        assert(x =~= Seq::<char>::empty());
        assert(balance(Seq::<char>::empty(), open, close) == 0);
    }
}

proof fn lemma_match_back(l: Seq<char>, i: int, open: char, close: char, d: nat)
    requires
        i < l.len(),
        open != close,
    ensures
        crate::editor::match_back(l, i, open, close, d) matches Some(t) ==> {
            &&& 0 <= t <= i
            &&& l[t] == open
            &&& balance(l.subrange(t + 1, i + 1), open, close) == d
            &&& forall|j: int| t + 1 <= j <= i + 1 ==> #[trigger] balance(l.subrange(j, i + 1), open, close) <= d
        },
    decreases i + 1,
{
    if i >= 0 {
        let nd: int = if l[i] == open { d - 1 } else if l[i] == close { d + 1int } else { d as int };
        if !(l[i] == open && d == 0) {
            lemma_match_back(l, i - 1, open, close, nd as nat);
        }
        match crate::editor::match_back(l, i, open, close, d) {
            Some(t) => {
                assert(l.subrange(i + 1, i + 1) =~= Seq::<char>::empty());
                assert forall|j: int| t + 1 <= j <= i implies #[trigger] balance(l.subrange(j, i + 1), open, close)
                    == balance(l.subrange(j, i), open, close) + (if l[i] == open { 1int } else if l[i]
                    == close { -1int } else { 0int }) by {
                    assert(l.subrange(j, i + 1) =~= l.subrange(j, i).push(l[i]));
                    lemma_balance_push(l.subrange(j, i), l[i], open, close);
                }
            },
            None => {},
        }
    }
}

/// `%` from a closing bracket lands on the bracket that opens it: where the first bracket at
/// or after the cursor is a closing one at `s` and `%` finds a target `t`, then `t < s`,
/// `l[t]` is the opening bracket of that kind, the text strictly between holds as many
/// opening as closing brackets of that kind, and no suffix of it holds more opening than
/// closing ones.
pub proof fn lemma_bracket_opens(l: Seq<char>, c: int)
    requires
        0 <= c,
        bracket_start(l, c) matches Some(s) && (l[s] == ')' || l[s] == ']' || l[s] == '}'),
        bracket_target(l, c) is Some,
    ensures
        ({
            let s = bracket_start(l, c)->0;
            let t = bracket_target(l, c)->0;
            let close = l[s];
            let open = if close == ')' { '(' } else if close == ']' { '[' } else { '{' };
            &&& 0 <= t < s
            &&& l[t] == open
            &&& balance(l.subrange(t + 1, s), open, close) == 0
            &&& forall|j: int| t + 1 <= j <= s ==> #[trigger] balance(l.subrange(j, s), open, close) <= 0
        }),
{
    let s = bracket_start(l, c)->0;
    crate::editor::lemma_bracket_found(l, c);
    let close = l[s];
    let open = if close == ')' { '(' } else if close == ']' { '[' } else { '{' };
    lemma_match_back(l, s - 1, open, close, 0);
}

/// `%` from an opening bracket lands on the bracket that closes it: where the first bracket
/// at or after the cursor is an opening one at `s` and `%` finds a target `t`, then `t > s`,
/// `l[t]` is the closing bracket of that kind, the text strictly between holds as many
/// opening as closing brackets of that kind, no prefix of it holds more closing than
/// opening ones, and no closing bracket before `t` closes the one at `s`.
pub proof fn lemma_bracket_closes(l: Seq<char>, c: int)
    requires
        0 <= c,
        bracket_start(l, c) matches Some(s) && (l[s] == '(' || l[s] == '[' || l[s] == '{'),
        bracket_target(l, c) is Some,
    ensures
        ({
            let s = bracket_start(l, c)->0;
            let t = bracket_target(l, c)->0;
            let open = l[s];
            let close = if open == '(' { ')' } else if open == '[' { ']' } else { '}' };
            &&& s < t < l.len()
            &&& l[t] == close
            &&& balance(l.subrange(s + 1, t), open, close) == 0
            &&& forall|j: int| s + 1 <= j <= t ==> #[trigger] balance(l.subrange(s + 1, j), open, close) >= 0
            &&& forall|j: int| s + 1 <= j < t && l[j] == close ==> #[trigger] balance(l.subrange(s + 1, j), open, close) > 0
        }),
{
    let s = bracket_start(l, c)->0;
    crate::editor::lemma_bracket_found(l, c);
    let open = l[s];
    let close = if open == '(' { ')' } else if open == '[' { ']' } else { '}' };
    lemma_match_fwd(l, s + 1, open, close, 0);
}

/// A search ignores case: it goes where the same search for any pattern with the same
/// ASCII lower-case form goes.
pub proof fn lemma_search_ignores_case(s: EditorModel, p: Seq<char>, dir: i32)
    requires
        crate::text::lower_seq(p) == crate::text::lower_seq(s.search_pat),
    ensures
        (EditorModel { search_pat: p, ..s }).search_target(dir) == s.search_target(dir),
{
}

/// A forward search finds a row below the cursor whose text holds the pattern ignoring
/// ASCII case: the search then has a target, on a row between the cursor's and that one.
pub proof fn lemma_search_finds_lower_row(s: EditorModel, i: int, k: int)
    requires
        s.search_pat.len() > 0,
        s.cursor_r < i < s.lines.len(),
        crate::text::occurs_at(crate::text::lower_seq(s.lines[i]), crate::text::lower_seq(s.search_pat), k),
    ensures
        s.search_target(1i32) matches Some(p) && s.cursor_r <= p.0 <= i,
{
    let pat = crate::text::lower_seq(s.search_pat);
    let ll = crate::text::lower_seq(s.lines[i]);
    let r = s.cursor_r as int;
    let c = s.cursor_c as int;
    assert(pat.len() == s.search_pat.len());
    assert(crate::editor::char_skip(ll, 0) =~= ll);
    crate::text::lemma_find_from_le(ll, pat, 0, k);
    assert(fwd_row_match(s.lines, pat, i, r, c) is Some);
    lemma_search_fwd_nearest(s.lines, pat, r, r, c);
}

/// A character-wise yank takes exactly the characters of the cursor's row from the cursor's
/// column up to where the motion lands (none where the motion lands at or before it), and
/// leaves the buffer and the cursor where they were.
pub proof fn lemma_yank_takes_the_span(s: EditorModel, mot: char)
    requires
        s.ready(),
        s.cursor_c <= s.cur_len(),
        crate::editor::is_op_motion(mot),
        !crate::editor::is_line_motion(mot),
        s.apply_op_ok('y', mot),
    ensures
        ({
            let t = s.apply_op('y', mot);
            let ec = s.op_motion(mot, s.op_count()).cursor_c as int;
            let sc = s.cursor_c as int;
            let l = s.cur_line();
            let hi = if ec < l.len() { ec } else { l.len() as int };
            &&& t.lines == s.lines
            &&& t.cursor_r == s.cursor_r && t.cursor_c == s.cursor_c
            &&& t.clipboard_kind == ClipKind::Chars
            &&& t.clipboard == (if ec > sc { l.subrange(sc, hi) } else { Seq::<char>::empty() })
            &&& t.clipboard.len() == (if hi > sc { hi - sc } else { 0 })
        }),
{
    let n = s.op_count();
    let m = s.op_motion(mot, n);
    lemma_repeat_same_text(s, Step::WordFwd, n as nat);
    lemma_repeat_same_text(s, Step::WordBack, n as nat);
    lemma_repeat_same_text(s, Step::WordEnd, n as nat);
    assert(same_text(m, s));
    let l = s.cur_line();
    let sc = s.cursor_c as int;
    let ec = m.cursor_c as int;
    assert(m.lines[s.cursor_r as int] == l);
    let rest = crate::editor::char_skip(l, sc);
    assert(rest =~= l.subrange(sc, l.len() as int));
    let hi = if ec < l.len() { ec } else { l.len() as int };
    crate::editor::lemma_line_len(s, s.cursor_r as int);
    if ec > sc {
        if m.cursor_c == usize::MAX {
            assert(crate::editor::char_slice_spec(l, s.cursor_c, m.cursor_c) == rest);
        } else {
            assert(crate::editor::char_slice_spec(l, s.cursor_c, m.cursor_c) == crate::editor::char_take(
                rest,
                ec - sc,
            ));
        }
        assert(crate::editor::char_slice_spec(l, s.cursor_c, m.cursor_c) =~= l.subrange(sc, hi));
    } else {
        assert(crate::editor::char_slice_spec(l, s.cursor_c, s.cursor_c) =~= Seq::<char>::empty());
    }
}

} // verus!
