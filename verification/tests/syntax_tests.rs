use mw::syntax::{detect_filetype, highlight_line};

#[test]
fn filetypes_by_name() {
    assert_eq!(detect_filetype("a.sh"), "bash");
    assert_eq!(detect_filetype("b.bash"), "bash");
    assert_eq!(detect_filetype("Makefile"), "make");
    assert_eq!(detect_filetype("makefile"), "make");
    assert_eq!(detect_filetype("x.mk"), "make");
    assert_eq!(detect_filetype("dir/Makefile"), "plain");
    assert_eq!(detect_filetype("t.txt"), "plain");
}

#[test]
fn plain_lines_are_unchanged() {
    assert_eq!(highlight_line("plain", "# not a comment here"), "# not a comment here");
}

#[test]
fn comments_are_grey() {
    assert_eq!(highlight_line("bash", "  # hi"), "  \x1b[90m# hi\x1b[0m");
    assert_eq!(highlight_line("make", "#x"), "\x1b[90m#x\x1b[0m");
}

#[test]
fn shell_keywords_and_builtins() {
    assert_eq!(
        highlight_line("bash", "if true; then"),
        "\x1b[35;1mif\x1b[0m true; then"
    );
    assert_eq!(highlight_line("bash", "  done"), "  \x1b[35;1mdone\x1b[0m");
    assert_eq!(highlight_line("bash", "echo hi"), "\x1b[34;1mecho\x1b[0m hi");
    assert_eq!(highlight_line("bash", "fi;"), "\x1b[35;1mfi\x1b[0m;");
    assert_eq!(highlight_line("bash", "iffy"), "iffy");
}

#[test]
fn make_targets_and_variables() {
    assert_eq!(highlight_line("make", "all: x"), "\x1b[33;1mall\x1b[0m: x");
    assert_eq!(highlight_line("make", "  lib.o: y"), "\x1b[33;1mlib.o\x1b[0m: y");
    assert_eq!(highlight_line("make", "CC = gcc"), "\x1b[36mCC\x1b[0m = gcc");
    assert_eq!(highlight_line("make", "\tgcc -o x"), "\tgcc -o x");
}
