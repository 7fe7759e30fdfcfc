//! File-type detection and single-line syntax colouring with ANSI escapes.

use vstd::prelude::*;
use crate::text::{
    chars_string, ends_with, has_prefix, has_suffix, is_alnum, is_alnum_spec, lemma_prefix_run,
    prefix_run, push_range, push_str, same_chars, starts_with, str_chars,
};

verus! {

/// A blank that may lead a line: a space or a tab.
pub open spec fn is_ws_spec(c: char) -> bool {
    c == ' ' || c == '\t'
}

/// A character of a make target name.
pub open spec fn make_char_spec(c: char) -> bool {
    is_alnum_spec(c) || c == '_' || c == '.' || c == '-'
}

/// A character of a make variable name.
pub open spec fn ident_char_spec(c: char) -> bool {
    is_alnum_spec(c) || c == '_'
}

/// The file type of a path: `bash` for shell scripts, `make` for makefiles, `plain` otherwise.
pub open spec fn filetype_spec(path: Seq<char>) -> Seq<char> {
    if ends_with(path, ".sh"@) || ends_with(path, ".bash"@) {
        "bash"@
    } else if path == "Makefile"@ || path == "makefile"@ || ends_with(path, ".mk"@) {
        "make"@
    } else {
        "plain"@
    }
}

/// The shell keywords that are coloured, in the order they are tried.
pub open spec fn bash_keywords() -> Seq<Seq<char>> {
    seq![
        "if"@, "then"@, "else"@, "elif"@, "fi"@, "for"@, "while"@, "do"@, "done"@,
        "case"@, "esac"@, "function"@, "return"@, "exit"@,
    ]
}

/// The shell builtins that are coloured, in the order they are tried.
pub open spec fn bash_builtins() -> Seq<Seq<char>> {
    seq![
        "echo"@, "cd"@, "read"@, "local"@, "export"@, "source"@, "set"@, "trap"@, "shift"@,
        "exec"@,
    ]
}

/// `rest` begins with the word `w`, and the word ends there: at the end of the
/// line, at a blank or at a `;`.
pub open spec fn word_fits(rest: Seq<char>, w: Seq<char>) -> bool {
    starts_with(rest, w) && {
        let tail = rest.skip(w.len() as int);
        tail.len() == 0 || is_ws_spec(tail[0]) || tail[0] == ';'
    }
}

/// The index of the first word, from index `i` on, that `rest` begins with as a whole word.
pub open spec fn first_word_from(rest: Seq<char>, words: Seq<Seq<char>>, i: int) -> Option<int>
    decreases words.len() - i,
{
    if i < 0 || i >= words.len() {
        None
    } else if word_fits(rest, words[i]) {
        Some(i)
    } else {
        first_word_from(rest, words, i + 1)
    }
}

/// The index of the first word of `words` that `rest` begins with as a whole word.
pub open spec fn first_word(rest: Seq<char>, words: Seq<Seq<char>>) -> Option<int> {
    first_word_from(rest, words, 0)
}

/// The number of leading blanks of a line.
pub open spec fn lead_ws(line: Seq<char>) -> nat {
    prefix_run(line, |c: char| is_ws_spec(c))
}

/// A line of a shell script with the keyword or builtin at index `i` of `words`
/// coloured with `colour`.
pub open spec fn colour_word(
    line: Seq<char>,
    ws: int,
    words: Seq<Seq<char>>,
    i: int,
    colour: Seq<char>,
) -> Seq<char> {
    let rest = line.skip(ws);
    line.take(ws) + colour + words[i] + "\x1b[0m"@ + rest.skip(words[i].len() as int)
}

/// The coloured form of one line of a file of type `ft`.
pub open spec fn highlight_spec(ft: Seq<char>, line: Seq<char>) -> Seq<char> {
    if ft == "plain"@ {
        line
    } else {
        let ws = lead_ws(line) as int;
        let rest = line.skip(ws);
        if rest.len() > 0 && rest[0] == '#' {
            line.take(ws) + "\x1b[90m"@ + line.skip(ws) + "\x1b[0m"@
        } else if ft == "make"@ {
            let n = prefix_run(rest, |c: char| make_char_spec(c)) as int;
            let m = prefix_run(rest, |c: char| ident_char_spec(c)) as int;
            let after = rest.skip(m);
            let s = lead_ws(after) as int;
            if n > 0 && n < rest.len() && rest[n] == ':' {
                "\x1b[33;1m"@ + rest.take(n) + "\x1b[0m"@ + seq![':'] + rest.skip(n + 1)
            } else if m > 0 && s < after.len() && after[s] == '=' {
                "\x1b[36m"@ + rest.take(m) + "\x1b[0m"@ + rest.skip(m)
            } else {
                line
            }
        } else if ft == "bash"@ {
            match first_word(rest, bash_keywords()) {
                Some(i) => colour_word(line, ws, bash_keywords(), i, "\x1b[35;1m"@),
                None => match first_word(rest, bash_builtins()) {
                    Some(i) => colour_word(line, ws, bash_builtins(), i, "\x1b[34;1m"@),
                    None => line,
                },
            }
        } else {
            line
        }
    }
}

/// The file type of a path, from its name: `"bash"`, `"make"` or `"plain"`.
pub fn detect_filetype(path: &str) -> (r: &'static str)
    ensures
        r@ == filetype_spec(path@),
{
    let p = str_chars(path);
    let sh = str_chars(".sh");
    let bash = str_chars(".bash");
    let mk = str_chars(".mk");
    let upper = str_chars("Makefile");
    let lower = str_chars("makefile");
    if has_suffix(p.as_slice(), sh.as_slice()) || has_suffix(p.as_slice(), bash.as_slice()) {
        "bash"
    } else if same_chars(p.as_slice(), upper.as_slice()) || same_chars(p.as_slice(), lower.as_slice())
        || has_suffix(p.as_slice(), mk.as_slice()) {
        "make"
    } else {
        "plain"
    }
}

/// A blank that may lead a line: a space or a tab.
fn is_ws(c: char) -> (b: bool)
    ensures
        b == is_ws_spec(c),
{
    c == ' ' || c == '\t'
}

/// The number of leading blanks of a line; the rest of the line starts there.
fn leading_ws(line: &[char]) -> (n: usize)
    ensures
        n == lead_ws(line@),
        n <= line@.len(),
{
    run_while(line, |c: char| -> (b: bool) ensures b == is_ws_spec(c) { is_ws(c) }, Ghost(|c: char| is_ws_spec(c)))
}

/// A character of a make target name.
fn make_char(c: char) -> (b: bool)
    ensures
        b == make_char_spec(c),
{
    is_alnum(c) || c == '_' || c == '.' || c == '-'
}

/// The length of the longest prefix of `s` whose characters all satisfy `pred`.
fn run_while<F: Fn(char) -> bool>(s: &[char], pred: F, Ghost(p): Ghost<spec_fn(char) -> bool>) -> (n: usize)
    requires
        forall|c: char| pred.requires((c,)),
        forall|c: char, b: bool| pred.ensures((c,), b) ==> b == p(c),
    ensures
        n == prefix_run(s@, p),
        n <= s@.len(),
{
    let mut i: usize = 0;
    while i < s.len()
        invariant
            i <= s@.len(),
            forall|c: char| pred.requires((c,)),
            forall|c: char, b: bool| pred.ensures((c,), b) ==> b == p(c),
            forall|k: int| 0 <= k < i ==> p(#[trigger] s@[k]),
        ensures
            i <= s@.len(),
            forall|k: int| 0 <= k < i ==> p(#[trigger] s@[k]),
            i == s@.len() || !p(s@[i as int]),
        decreases s.len() - i,
    {
        if !pred(s[i]) {
            break;
        }
        i = i + 1;
    }
    proof {
        lemma_prefix_run(s@, p, i as int);
    }
    i
}

/// Skipping words that do not fit does not change the first fitting word.
proof fn lemma_first_word_skip(rest: Seq<char>, words: Seq<Seq<char>>, j: int, i: int)
    requires
        0 <= j <= i <= words.len(),
        forall|k: int| j <= k < i ==> !word_fits(rest, #[trigger] words[k]),
    ensures
        first_word_from(rest, words, j) == first_word_from(rest, words, i),
    decreases i - j,
{
    if j < i {
        lemma_first_word_skip(rest, words, j + 1, i);
    }
}

/// The index of the first word of `words` with which `rest` begins as a whole word.
fn keyword_match(rest: &[char], words: &[&str]) -> (r: Option<usize>)
    ensures
        r matches Some(i) ==> first_word(rest@, words@.map_values(|w: &str| w@)) == Some(i as int),
        r is None ==> first_word(rest@, words@.map_values(|w: &str| w@)) is None,
        r matches Some(i) ==> i < words@.len() && word_fits(rest@, words@[i as int]@),
{
    let ghost ws = words@.map_values(|w: &str| w@);
    for i in 0..words.len()
        invariant
            ws == words@.map_values(|w: &str| w@),
            forall|k: int| 0 <= k < i ==> !word_fits(rest@, #[trigger] ws[k]),
    {
        let w = str_chars(words[i]);
        assert(w@ == ws[i as int]);
        if has_prefix(rest, w.as_slice()) {
            let wl = w.len();
            let ok = wl == rest.len() || is_ws(rest[wl]) || rest[wl] == ';';
            assert(rest@.skip(wl as int).len() > 0 ==> rest@.skip(wl as int)[0] == rest@[wl as int]);
            if ok {
                proof {
                    lemma_first_word_skip(rest@, ws, 0, i as int);
                }
                return Some(i);
            }
        }
    }
    proof {
        lemma_first_word_skip(rest@, ws, 0, words@.len() as int);
    }
    None
}

/// The coloured form of one line of a file of type `ft` (`"bash"`, `"make"` or `"plain"`):
/// comments in grey; in makefiles target names in yellow and variable names in cyan;
/// in shell scripts a leading keyword in magenta or a leading builtin in blue.
pub fn highlight_line(ft: &str, line: &str) -> (r: String)
    ensures
        r@ == highlight_spec(ft@, line@),
{
    let f = str_chars(ft);
    let l = str_chars(line);
    if same_chars(f.as_slice(), str_chars("plain").as_slice()) {
        return chars_string(l.as_slice());
    }
    let ws = leading_ws(l.as_slice());
    let mut rest: Vec<char> = Vec::new();
    push_range(&mut rest, l.as_slice(), ws, l.len());
    assert(rest@ == l@.skip(ws as int));
    if rest.len() > 0 && rest[0] == '#' {
        let mut out: Vec<char> = Vec::new();
        push_range(&mut out, l.as_slice(), 0, ws);
        push_str(&mut out, "\x1b[90m");
        push_range(&mut out, l.as_slice(), ws, l.len());
        push_str(&mut out, "\x1b[0m");
        return chars_string(out.as_slice());
    }
    if same_chars(f.as_slice(), str_chars("make").as_slice()) {
        let n = run_while(rest.as_slice(), |c: char| -> (b: bool) ensures b == make_char_spec(c) { make_char(c) }, Ghost(|c: char| make_char_spec(c)));
        if n > 0 && n < rest.len() && rest[n] == ':' {
            let mut out: Vec<char> = Vec::new();
            push_str(&mut out, "\x1b[33;1m");
            push_range(&mut out, rest.as_slice(), 0, n);
            push_str(&mut out, "\x1b[0m");
            out.push(':');
            push_range(&mut out, rest.as_slice(), n + 1, rest.len());
            return chars_string(out.as_slice());
        }
        let m = run_while(rest.as_slice(), |c: char| -> (b: bool) ensures b == ident_char_spec(c) { is_alnum(c) || c == '_' }, Ghost(|c: char| ident_char_spec(c)));
        if m > 0 {
            let mut after: Vec<char> = Vec::new();
            push_range(&mut after, rest.as_slice(), m, rest.len());
            let s = leading_ws(after.as_slice());
            if s < after.len() && after[s] == '=' {
                let mut out: Vec<char> = Vec::new();
                push_str(&mut out, "\x1b[36m");
                push_range(&mut out, rest.as_slice(), 0, m);
                push_str(&mut out, "\x1b[0m");
                push_range(&mut out, rest.as_slice(), m, rest.len());
                return chars_string(out.as_slice());
            }
        }
    } else if same_chars(f.as_slice(), str_chars("bash").as_slice()) {
        let keywords: [&str; 14] = [
            "if", "then", "else", "elif", "fi", "for", "while", "do", "done", "case", "esac",
            "function", "return", "exit",
        ];
        assert(keywords@.map_values(|w: &str| w@) =~= bash_keywords());
        if let Some(i) = keyword_match(rest.as_slice(), keywords.as_slice()) {
            return colour_keyword(l.as_slice(), ws, &rest, keywords[i], "\x1b[35;1m");
        }
        let builtins: [&str; 10] = [
            "echo", "cd", "read", "local", "export", "source", "set", "trap", "shift", "exec",
        ];
        assert(builtins@.map_values(|w: &str| w@) =~= bash_builtins());
        if let Some(i) = keyword_match(rest.as_slice(), builtins.as_slice()) {
            return colour_keyword(l.as_slice(), ws, &rest, builtins[i], "\x1b[34;1m");
        }
    }
    chars_string(l.as_slice())
}

/// The line with the word `w`, which `rest` (the line after its `ws` leading blanks)
/// begins with, coloured with `colour`.
fn colour_keyword(line: &[char], ws: usize, rest: &Vec<char>, w: &str, colour: &str) -> (r: String)
    requires
        ws <= line@.len(),
        rest@ == line@.skip(ws as int),
        starts_with(rest@, w@),
    ensures
        r@ == line@.take(ws as int) + colour@ + w@ + "\x1b[0m"@ + rest@.skip(w@.len() as int),
{
    let wl = w.unicode_len();
    let mut out: Vec<char> = Vec::new();
    push_range(&mut out, line, 0, ws);
    push_str(&mut out, colour);
    push_str(&mut out, w);
    push_str(&mut out, "\x1b[0m");
    push_range(&mut out, rest.as_slice(), wl, rest.len());
    assert(line@.subrange(0, ws as int) == line@.take(ws as int));
    assert(rest@.subrange(wl as int, rest@.len() as int) == rest@.skip(wl as int));
    chars_string(out.as_slice())
}

} // verus!
