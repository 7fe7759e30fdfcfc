//! Drawing the editor: tab expansion, display columns, the size of the file in
//! human units, and the escape sequences of a whole screen.

use vstd::prelude::*;
use crate::editor::{Editor, EditorModel, Mode, join_nl};
use crate::syntax::{highlight_line, highlight_spec};
use crate::text::{chars_string, decimal, push_str, u64_decimal, utf8_len};

verus! {

/// The width of a tab stop.
pub const TABSTOP: usize = 4;

/// The columns that a character takes at display column `col`: a tab reaches the next
/// tab stop, any other character takes one.
pub open spec fn advance(c: char, col: nat) -> nat {
    if c == '\t' {
        (TABSTOP - col % (TABSTOP as nat)) as nat
    } else {
        1
    }
}

/// The display column after the characters of `s`.
pub open spec fn col_after(s: Seq<char>) -> nat
    decreases s.len(),
{
    if s.len() == 0 {
        0
    } else {
        let c = col_after(s.drop_last());
        c + advance(s.last(), c)
    }
}

/// `n` spaces.
pub open spec fn spaces(n: nat) -> Seq<char> {
    Seq::new(n, |i: int| ' ')
}

/// The line as it is shown: each tab replaced by the spaces up to the next tab stop.
pub open spec fn expand_tabs_spec(s: Seq<char>) -> Seq<char>
    decreases s.len(),
{
    if s.len() == 0 {
        Seq::<char>::empty()
    } else {
        let prev = expand_tabs_spec(s.drop_last());
        if s.last() == '\t' {
            prev + spaces(advance('\t', col_after(s.drop_last())))
        } else {
            prev.push(s.last())
        }
    }
}

/// The display column of the character at index `max_idx` of the line (the column after
/// the whole line where it is shorter).
pub open spec fn disp_col_spec(line: Seq<char>, max_idx: usize) -> nat {
    if max_idx < line.len() {
        col_after(line.take(max_idx as int))
    } else {
        col_after(line)
    }
}

/// A longer prefix never ends at an earlier column.
pub proof fn lemma_col_after_mono(s: Seq<char>, i: int, j: int)
    requires
        0 <= i <= j <= s.len(),
    ensures
        col_after(s.take(i)) <= col_after(s.take(j)),
    decreases j - i,
{
    if i < j {
        lemma_col_after_mono(s, i, j - 1);
        assert(s.take(j).drop_last() =~= s.take(j - 1));
    }
}

/// The shown line is as wide as the display column after the line: the cursor is drawn
/// where its character is shown.
pub proof fn lemma_expanded_width(s: Seq<char>)
    ensures
        expand_tabs_spec(s).len() == col_after(s),
    decreases s.len(),
{
    if s.len() > 0 {
        lemma_expanded_width(s.drop_last());
    }
}

proof fn lemma_col_after_no_tabs(s: Seq<char>)
    requires
        forall|i: int| 0 <= i < s.len() ==> s[i] != '\t',
    ensures
        col_after(s) == s.len(),
    decreases s.len(),
{
    if s.len() > 0 {
        assert(s.last() == s[s.len() - 1]);
        lemma_col_after_no_tabs(s.drop_last());
    }
}

/// The display column of the character at index `k` is the width of the shown text of the
/// characters before it; it never decreases as `k` grows; on a line without tabs it is `k`
/// (the line's length where `k` is past it).
pub proof fn lemma_disp_col(line: Seq<char>, k1: usize, k2: usize)
    requires
        line.len() <= usize::MAX,
    ensures
        disp_col_spec(line, k1) == expand_tabs_spec(crate::editor::char_slice_spec(line, 0, k1)).len(),
        k1 <= k2 ==> disp_col_spec(line, k1) <= disp_col_spec(line, k2),
        (forall|i: int| 0 <= i < line.len() ==> line[i] != '\t') ==> disp_col_spec(line, k1) == if k1
            < line.len() {
            k1 as nat
        } else {
            line.len()
        },
{
    let n = line.len() as int;
    let m1: int = if k1 < n { k1 as int } else { n };
    let m2: int = if k2 < n { k2 as int } else { n };
    assert(line.take(n) =~= line);
    assert(line.skip(0) =~= line);
    let rest = crate::editor::char_skip(line, 0);
    assert(rest =~= line);
    if k1 == usize::MAX {
        assert(crate::editor::char_slice_spec(line, 0, k1) == rest);
    } else {
        assert(crate::editor::char_slice_spec(line, 0, k1) == crate::editor::char_take(rest, k1 as int));
    }
    assert(crate::editor::char_slice_spec(line, 0, k1) =~= line.take(m1));
    assert(disp_col_spec(line, k1) == col_after(line.take(m1)));
    assert(disp_col_spec(line, k2) == col_after(line.take(m2)));
    lemma_expanded_width(line.take(m1));
    if k1 <= k2 {
        lemma_col_after_mono(line, m1, m2);
    }
    if forall|i: int| 0 <= i < line.len() ==> line[i] != '\t' {
        lemma_col_after_no_tabs(line.take(m1));
    }
}

/// The line as it is shown, with tabs expanded to the next tab stop.
pub fn expand_tabs_display(s: &[char]) -> (r: Vec<char>)
    ensures
        r@ == expand_tabs_spec(s@),
{
    let mut out: Vec<char> = Vec::new();
    let mut col_mod: usize = 0;
    for i in 0..s.len()
        invariant
            out@ == expand_tabs_spec(s@.take(i as int)),
            col_mod == col_after(s@.take(i as int)) % 4,
    {
        let ghost t = s@.take(i + 1);
        proof {
            assert(t.drop_last() =~= s@.take(i as int));
            assert(t.last() == s@[i as int]);
        }
        let c = s[i];
        if c == '\t' {
            let n = TABSTOP - col_mod;
            let ghost before = out@;
            for k in 0..n
                invariant
                    n == TABSTOP - col_mod,
                    out@ == before + spaces(k as nat),
            {
                out.push(' ');
                assert(spaces((k + 1) as nat) =~= spaces(k as nat).push(' '));
            }
            col_mod = 0;
            proof {
                let c0 = col_after(s@.take(i as int));
                assert(col_after(t) == c0 + (4 - c0 % 4));
                assert((c0 + (4 - c0 % 4)) % 4 == 0) by (nonlinear_arith);
            }
        } else {
            out.push(c);
            col_mod = (col_mod + 1) % 4;
        }
    }
    assert(s@.take(s@.len() as int) =~= s@);
    out
}

/// The display column of the character at index `max_idx` of the line.
pub fn disp_col(line: &[char], max_idx: usize) -> (r: usize)
    requires
        disp_col_spec(line@, max_idx) <= usize::MAX,
    ensures
        r == disp_col_spec(line@, max_idx),
{
    let stop = if max_idx < line.len() { max_idx } else { line.len() };
    let ghost lim = line@.take(stop as int);
    assert(lim == (if max_idx < line@.len() { line@.take(max_idx as int) } else { line@.take(line@.len() as int) }));
    assert(line@.take(line@.len() as int) =~= line@);
    let mut col: usize = 0;
    for i in 0..stop
        invariant
            stop <= line@.len(),
            col_after(line@.take(stop as int)) <= usize::MAX,
            col == col_after(line@.take(i as int)),
    {
        proof {
            assert(line@.take(i + 1).drop_last() =~= line@.take(i as int));
            lemma_col_after_mono(line@, i + 1, stop as int);
        }
        if line[i] == '\t' {
            col = col + (TABSTOP - col % TABSTOP);
        } else {
            col = col + 1;
        }
    }
    col
}

/// The size of a file of `b` bytes in the largest unit below 1024 of it: bytes, KiB,
/// MiB or GiB (rounded down).
pub open spec fn size_hint_spec(b: nat) -> Seq<char> {
    if b < 1024 {
        decimal(b) + " B"@
    } else if b < 0x10_0000 {
        decimal(b / 1024) + " KiB"@
    } else if b < 0x4000_0000 {
        decimal(b / 0x10_0000) + " MiB"@
    } else {
        decimal(b / 0x4000_0000) + " GiB"@
    }
}

impl EditorModel {
    /// The number of bytes of the UTF-8 text that saving writes.
    pub open spec fn text_bytes(self) -> nat {
        utf8_len(self.file_content())
    }
}

proof fn lemma_newline_len()
    ensures
        utf8_len(seq!['\n']) == 1,
{
    crate::text::lemma_utf8_len_push(Seq::<char>::empty(), '\n');
    assert(Seq::<char>::empty().push('\n') =~= seq!['\n']);
    assert(vstd::utf8::encode_utf8(Seq::<char>::empty()).len() == 0);
}

proof fn lemma_join_step(ls: Seq<Seq<char>>, i: int)
    requires
        0 <= i < ls.len(),
    ensures
        utf8_len(join_nl(ls.take(i + 1))) == if i == 0 {
            utf8_len(ls[0])
        } else {
            utf8_len(join_nl(ls.take(i))) + 1 + utf8_len(ls[i])
        },
{
    let t = ls.take(i + 1);
    if i == 0 {
        assert(t.len() == 1);
        assert(t[0] == ls[0]);
    } else {
        assert(t.drop_last() =~= ls.take(i));
        assert(t.last() == ls[i]);
        let j = join_nl(ls.take(i));
        crate::text::lemma_utf8_len_concat(j + seq!['\n'], ls[i]);
        crate::text::lemma_utf8_len_concat(j, seq!['\n']);
        lemma_newline_len();
    }
}

proof fn lemma_join_mono(ls: Seq<Seq<char>>, i: int)
    requires
        0 <= i <= ls.len(),
    ensures
        utf8_len(join_nl(ls.take(i))) <= utf8_len(join_nl(ls)),
    decreases ls.len() - i,
{
    if i == ls.len() {
        assert(ls.take(i) =~= ls);
    } else {
        lemma_join_step(ls, i);
        lemma_join_mono(ls, i + 1);
        if i == 0 {
            assert(ls.take(0) =~= Seq::<Seq<char>>::empty());
            assert(vstd::utf8::encode_utf8(Seq::<char>::empty()).len() == 0);
        }
    }
}

proof fn lemma_text_bytes(m: EditorModel)
    ensures
        m.text_bytes() == utf8_len(join_nl(m.lines)) + 1,
{
    crate::text::lemma_utf8_len_concat(join_nl(m.lines), seq!['\n']);
    lemma_newline_len();
}

impl Editor {
    /// The size of the file as saving would write it, in a human unit.
    pub fn file_size_hint(&self) -> (r: String)
        requires
            self@.text_bytes() < 0x100_0000_0000,
        ensures
            r@ == size_hint_spec(self@.text_bytes()),
    {
        let ghost ls = self@.lines;
        proof {
            lemma_text_bytes(self@);
            assert(ls.take(0) =~= Seq::<Seq<char>>::empty());
            assert(vstd::utf8::encode_utf8(Seq::<char>::empty()).len() == 0);
        }
        let mut bytes: u64 = 0;
        for i in 0..self.lines.len()
            invariant
                ls == self@.lines,
                ls.len() == self.lines@.len(),
                utf8_len(join_nl(ls)) < 0x100_0000_0000,
                bytes as nat == utf8_len(join_nl(ls.take(i as int))),
        {
            proof {
                lemma_join_step(ls, i as int);
                lemma_join_mono(ls, i + 1);
                assert(ls[i as int] == self.lines@[i as int]@);
            }
            if i > 0 {
                bytes = bytes + 1;
            }
            let li = &self.lines[i];
            let w = crate::text::utf8_prefix_len_capped(li.as_slice(), li.len(), 0x100_0000_0000);
            proof {
                assert(li@.take(li@.len() as int) =~= li@);
            }
            bytes = bytes + w;
        }
        proof {
            assert(ls.take(ls.len() as int) =~= ls);
        }
        bytes = bytes + 1;
        let (n, unit) = if bytes < 1024 {
            (bytes, " B")
        } else if bytes < 0x10_0000 {
            (bytes / 1024, " KiB")
        } else if bytes < 0x4000_0000 {
            (bytes / 0x10_0000, " MiB")
        } else {
            (bytes / 0x4000_0000, " GiB")
        };
        let mut out = u64_decimal(n);
        push_str(&mut out, unit);
        chars_string(out.as_slice())
    }
}

/// The escape sequence that moves the terminal cursor to the start of screen row `row`
/// (rows are counted from 1).
pub open spec fn goto_row(row: nat) -> Seq<char> {
    "\x1b["@ + decimal(row) + ";1H"@
}

/// The escape sequence that sets the cursor shape: a bar while inserting, a block otherwise.
pub open spec fn cursor_shape(mode: Mode) -> Seq<char> {
    match mode {
        Mode::Insert => "\x1b[6 q"@,
        Mode::Normal => "\x1b[2 q"@,
    }
}

/// The name of a mode in the status line.
pub open spec fn mode_name(mode: Mode) -> Seq<char> {
    match mode {
        Mode::Insert => "INSERT"@,
        Mode::Normal => "NORMAL"@,
    }
}

/// The rule drawn above the status line.
pub open spec fn separator() -> Seq<char> {
    "--------------------------------------------------------"@
}

/// `a - 1`, or 0 for 0.
pub open spec fn pred_sat(a: usize) -> nat {
    if a >= 1 {
        (a - 1) as nat
    } else {
        0
    }
}

impl EditorModel {
    /// The screen rows that the text takes on a terminal of `rows` rows: two fewer, and none
    /// where there are fewer than two.
    pub open spec fn view_rows(rows: usize) -> usize {
        if rows >= 2 {
            (rows - 2) as usize
        } else {
            0
        }
    }

    /// The state before drawing on a terminal of `rows` rows: the text area scrolled just
    /// enough for the cursor's line to be in it.
    pub open spec fn scrolled(self, rows: usize) -> Self {
        let vh = Self::view_rows(rows);
        let top = if self.cursor_r < self.scroll_top {
            self.cursor_r
        } else if self.cursor_r >= self.scroll_top + vh {
            (self.cursor_r + 1 - vh) as usize
        } else {
            self.scroll_top
        };
        EditorModel { term_rows: rows, view_height: vh, scroll_top: top, ..self }
    }

    /// Drawing on a terminal of `rows` rows runs without an arithmetic or indexing fault:
    /// the text area has a row where the cursor is below its top, the scroll positions stay
    /// within `usize`, the file is under 1 TiB and the cursor's display column fits.
    pub open spec fn draw_ok(self, rows: usize) -> bool {
        let vh = Self::view_rows(rows);
        &&& self.cursor_r >= self.scroll_top ==> self.scroll_top + vh <= usize::MAX
        &&& vh == 0 ==> self.cursor_r < self.scroll_top
        &&& self.scrolled(rows).scroll_top + vh <= usize::MAX
        &&& self.text_bytes() < 0x100_0000_0000
        &&& disp_col_spec(self.cur_line(), self.cursor_c) < usize::MAX
    }

    /// Screen row `i` (from 0) of the text area: the line it shows, tabs expanded and
    /// coloured, or `~` past the end of the buffer.
    pub open spec fn row_text(self, i: nat) -> Seq<char> {
        let idx = self.scroll_top + i;
        goto_row(i + 1) + "\x1b[K"@ + (if idx < self.lines.len() {
            highlight_spec(self.filetype, expand_tabs_spec(self.lines[idx]))
        } else {
            "~"@
        })
    }

    /// The first `n` rows of the text area.
    pub open spec fn rows_text(self, n: nat) -> Seq<char>
        decreases n,
    {
        if n == 0 {
            Seq::<char>::empty()
        } else {
            self.rows_text((n - 1) as nat) + self.row_text((n - 1) as nat)
        }
    }

    /// The status line: the mode, the file, its type and size, and the status message.
    pub open spec fn status_line(self) -> Seq<char> {
        goto_row(self.term_rows as nat) + "\x1b[7m -- "@ + mode_name(self.mode) + " -- | "@ + self.file
            + " ["@ + self.filetype + " "@ + size_hint_spec(self.text_bytes()) + "] | "@
            + self.status_msg + "\x1b[K\x1b[0m"@
    }

    /// The rule above the status line.
    pub open spec fn rule_line(self) -> Seq<char> {
        goto_row(pred_sat(self.term_rows)) + separator() + "\x1b[K"@
    }

    /// The escape sequence that puts the terminal cursor on the cursor's character.
    pub open spec fn cursor_place(self) -> Seq<char> {
        "\x1b["@ + decimal((self.cursor_r - self.scroll_top + 1) as nat) + ";"@ + decimal(
            disp_col_spec(self.cur_line(), self.cursor_c) + 1,
        ) + "H"@
    }

    /// What drawing writes to the terminal: the cursor shape, the text area, the rule, the
    /// status line, and the cursor placed on its character.
    pub open spec fn screen(self) -> Seq<char> {
        cursor_shape(self.mode) + "\x1b[H"@ + self.rows_text(self.view_height as nat)
            + self.rule_line() + self.status_line() + self.cursor_place()
    }
}

fn push_goto_row(out: &mut Vec<char>, row: u64)
    ensures
        final(out)@ == old(out)@ + goto_row(row as nat),
{
    push_str(out, "\x1b[");
    let mut d = u64_decimal(row);
    out.append(&mut d);
    push_str(out, ";1H");
}

impl Editor {
    /// Scrolls the text area of a terminal of `rows` rows to the cursor's line.
    fn scroll_to_cursor(&mut self, rows: usize)
        requires
            old(self)@.draw_ok(rows),
        ensures
            final(self)@ == old(self)@.scrolled(rows),
    {
        self.term_rows = rows;
        self.view_height = if rows >= 2 { rows - 2 } else { 0 };
        if self.cursor_r < self.scroll_top {
            self.scroll_top = self.cursor_r;
        } else if self.cursor_r >= self.scroll_top + self.view_height {
            self.scroll_top = self.cursor_r + 1 - self.view_height;
        }
    }

    /// Appends one row of the text area.
    fn draw_row(&self, buf: &mut Vec<char>, i: usize)
        requires
            self.scroll_top + i <= usize::MAX,
            i < usize::MAX,
        ensures
            final(buf)@ == old(buf)@ + self@.row_text(i as nat),
    {
        let line_idx = self.scroll_top + i;
        push_goto_row(buf, (i + 1) as u64);
        push_str(buf, "\x1b[K");
        if line_idx < self.lines.len() {
            let shown = expand_tabs_display(self.lines[line_idx].as_slice());
            let ss = chars_string(shown.as_slice());
            let h = highlight_line(self.filetype.as_str(), ss.as_str());
            let mut hv = crate::text::str_chars(h.as_str());
            buf.append(&mut hv);
            assert(self@.lines[line_idx as int] == self.lines@[line_idx as int]@);
        } else {
            push_str(buf, "~");
        }
        assert(final(buf)@ =~= old(buf)@ + self@.row_text(i as nat));
    }

    /// Appends the rows of the text area.
    fn draw_rows(&self, buf: &mut Vec<char>)
        requires
            self.scroll_top + self.view_height <= usize::MAX,
        ensures
            final(buf)@ == old(buf)@ + self@.rows_text(self.view_height as nat),
    {
        let ghost head = buf@;
        assert(head =~= head + self@.rows_text(0));
        for i in 0..self.view_height
            invariant
                self.scroll_top + self.view_height <= usize::MAX,
                buf@ == head + self@.rows_text(i as nat),
        {
            self.draw_row(buf, i);
            assert(head + self@.rows_text((i + 1) as nat) =~= head + self@.rows_text(i as nat)
                + self@.row_text(i as nat));
        }
    }

    /// Appends the rule above the status line.
    fn draw_rule(&self, buf: &mut Vec<char>)
        ensures
            final(buf)@ == old(buf)@ + self@.rule_line(),
    {
        let sep_row = if self.term_rows >= 1 { self.term_rows - 1 } else { 0 };
        push_goto_row(buf, sep_row as u64);
        push_str(buf, "--------------------------------------------------------");
        push_str(buf, "\x1b[K");
        assert(final(buf)@ =~= old(buf)@ + self@.rule_line());
    }

    /// Appends the status line.
    #[verifier::spinoff_prover]
    fn draw_status_line(&self, buf: &mut Vec<char>)
        requires
            self@.text_bytes() < 0x100_0000_0000,
        ensures
            final(buf)@ == old(buf)@ + self@.status_line(),
    {
        push_goto_row(buf, self.term_rows as u64);
        push_str(buf, "\x1b[7m -- ");
        let name = match self.mode {
            Mode::Insert => "INSERT",
            Mode::Normal => "NORMAL",
        };
        push_str(buf, name);
        push_str(buf, " -- | ");
        crate::text::push_range(buf, self.file.as_slice(), 0, self.file.len());
        push_str(buf, " [");
        let mut ft = crate::text::str_chars(self.filetype.as_str());
        buf.append(&mut ft);
        push_str(buf, " ");
        let hint = self.file_size_hint();
        let mut hv = crate::text::str_chars(hint.as_str());
        buf.append(&mut hv);
        push_str(buf, "] | ");
        crate::text::push_range(buf, self.status_msg.as_slice(), 0, self.status_msg.len());
        push_str(buf, "\x1b[K\x1b[0m");
        proof {
            assert(self.file@.subrange(0, self.file@.len() as int) =~= self.file@);
            assert(self.status_msg@.subrange(0, self.status_msg@.len() as int) =~= self.status_msg@);
            assert(final(buf)@ =~= old(buf)@ + self@.status_line());
        }
    }

    /// Appends the placing of the terminal cursor.
    fn draw_cursor(&self, buf: &mut Vec<char>)
        requires
            self@.placed(),
            self.cursor_r >= self.scroll_top,
            disp_col_spec(self@.cur_line(), self.cursor_c) < usize::MAX,
        ensures
            final(buf)@ == old(buf)@ + self@.cursor_place(),
    {
        let n = self.lines.len();
        assert(self.cursor_r < n);
        let screen_r = self.cursor_r - self.scroll_top + 1;
        let cur = &self.lines[self.cursor_r];
        assert(cur@ == self@.cur_line());
        let screen_c = disp_col(cur.as_slice(), self.cursor_c) + 1;
        push_str(buf, "\x1b[");
        let mut d1 = u64_decimal(screen_r as u64);
        buf.append(&mut d1);
        push_str(buf, ";");
        let mut d2 = u64_decimal(screen_c as u64);
        buf.append(&mut d2);
        push_str(buf, "H");
        assert(final(buf)@ =~= old(buf)@ + self@.cursor_place());
    }

    /// Draws the editor on a terminal of `rows` rows: scrolls the text area to the cursor's
    /// line and returns what is to be written to the terminal.
    pub fn redraw(&mut self, rows: usize) -> (screen: String)
        requires
            old(self)@.placed(),
            old(self)@.draw_ok(rows),
        ensures
            final(self)@ == old(self)@.scrolled(rows),
            screen@ == final(self)@.screen(),
            final(self).view_height >= 1 ==> final(self).scroll_top <= final(self).cursor_r
                < final(self).scroll_top + final(self).view_height,
    {
        self.scroll_to_cursor(rows);
        let mut buf: Vec<char> = Vec::new();
        let shape = match self.mode {
            Mode::Insert => "\x1b[6 q",
            Mode::Normal => "\x1b[2 q",
        };
        push_str(&mut buf, shape);
        push_str(&mut buf, "\x1b[H");
        assert(buf@ =~= cursor_shape(self@.mode) + "\x1b[H"@);
        self.draw_rows(&mut buf);
        self.draw_rule(&mut buf);
        self.draw_status_line(&mut buf);
        self.draw_cursor(&mut buf);
        chars_string(buf.as_slice())
    }
}

impl Editor {
    /// Whether saving writes fewer than 1 TiB.
    fn text_under_tib(&self) -> (b: bool)
        ensures
            b == (self@.text_bytes() < 0x100_0000_0000),
    {
        let ghost ls = self@.lines;
        let limit: u64 = 0x100_0000_0000;
        proof {
            lemma_text_bytes(self@);
            assert(ls.take(0) =~= Seq::<Seq<char>>::empty());
            assert(vstd::utf8::encode_utf8(Seq::<char>::empty()).len() == 0);
        }
        let mut bytes: u64 = 0;
        for i in 0..self.lines.len()
            invariant
                ls == self@.lines,
                ls.len() == self.lines@.len(),
                limit == 0x100_0000_0000,
                self@.text_bytes() == utf8_len(join_nl(ls)) + 1,
                bytes as nat == utf8_len(join_nl(ls.take(i as int))),
                bytes < limit,
        {
            proof {
                lemma_join_step(ls, i as int);
                lemma_join_mono(ls, i + 1);
                assert(ls[i as int] == self.lines@[i as int]@);
            }
            let li = &self.lines[i];
            let w = crate::text::utf8_prefix_len_capped(li.as_slice(), li.len(), limit);
            proof {
                assert(li@.take(li@.len() as int) =~= li@);
            }
            let sep: u64 = if i > 0 { 1 } else { 0 };
            let next = bytes + sep + w;
            if next >= limit {
                return false;
            }
            bytes = next;
        }
        proof {
            assert(ls.take(ls.len() as int) =~= ls);
        }
        bytes + 1 < limit
    }

    /// Whether the display column of the cursor is below `usize::MAX`.
    fn cursor_col_fits(&self) -> (b: bool)
        requires
            self@.placed(),
        ensures
            b == (disp_col_spec(self@.cur_line(), self.cursor_c) < usize::MAX),
    {
        let line = &self.lines[self.cursor_r];
        assert(line@ == self@.cur_line());
        let stop = if self.cursor_c < line.len() { self.cursor_c } else { line.len() };
        assert(line@.take(line@.len() as int) =~= line@);
        let mut col: usize = 0;
        for i in 0..stop
            invariant
                stop <= line@.len(),
                line@ == self@.cur_line(),
                disp_col_spec(line@, self.cursor_c) == col_after(line@.take(stop as int)),
                col == col_after(line@.take(i as int)),
                col < usize::MAX,
        {
            proof {
                assert(line@.take(i + 1).drop_last() =~= line@.take(i as int));
                lemma_col_after_mono(line@, i + 1, stop as int);
            }
            let adv = if line[i] == '\t' { TABSTOP - col % TABSTOP } else { 1 };
            proof {
                assert(line@.take(i + 1).last() == line@[i as int]);
                assert(col_after(line@.take(i + 1)) == col + adv);
            }
            if col >= usize::MAX - adv {
                return false;
            }
            col = col + adv;
        }
        true
    }

    /// Whether drawing on a terminal of `rows` rows runs without a fault (see `draw_ok`).
    pub fn can_draw(&self, rows: usize) -> (b: bool)
        requires
            self@.placed(),
        ensures
            b == self@.draw_ok(rows),
    {
        let n = self.lines.len();
        assert(self.cursor_r < n);
        let vh = if rows >= 2 { rows - 2 } else { 0 };
        if self.cursor_r >= self.scroll_top && self.scroll_top > usize::MAX - vh {
            return false;
        }
        if vh == 0 && self.cursor_r >= self.scroll_top {
            return false;
        }
        let top = if self.cursor_r < self.scroll_top {
            self.cursor_r
        } else if self.cursor_r >= self.scroll_top + vh {
            self.cursor_r + 1 - vh
        } else {
            self.scroll_top
        };
        if top > usize::MAX - vh {
            return false;
        }
        if !self.text_under_tib() {
            return false;
        }
        self.cursor_col_fits()
    }
}

} // verus!
