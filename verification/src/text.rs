//! Character-level helpers shared by the editor, the syntax colouring and the database.

use vstd::prelude::*;

verus! {

/// Appends one character to a `String` (std's `String::push`).
/// Claimed: the new contents are the old contents followed by `c`.
#[verifier::external_body]
pub(crate) fn push_char(s: &mut String, c: char)
    ensures
        final(s)@ == old(s)@.push(c),
{
    s.push(c)
}

/// The characters of a string slice, in order.
pub fn str_chars(s: &str) -> (v: Vec<char>)
    ensures
        v@ == s@,
{
    let n = s.unicode_len();
    let mut v: Vec<char> = Vec::new();
    for i in 0..n
        invariant
            n == s@.len(),
            v@ == s@.take(i as int),
    {
        v.push(s.get_char(i));
        assert(s@.take(i + 1) == s@.take(i as int).push(s@[i as int]));
    }
    assert(s@.take(n as int) == s@);
    v
}

/// A `String` holding the given characters.
pub fn chars_string(v: &[char]) -> (s: String)
    ensures
        s@ == v@,
{
    let mut s = String::new();
    for i in 0..v.len()
        invariant
            s@ == v@.take(i as int),
    {
        push_char(&mut s, v[i]);
        assert(v@.take(i + 1) == v@.take(i as int).push(v@[i as int]));
    }
    assert(v@.take(v@.len() as int) == v@);
    s
}


/// `c` is an ASCII decimal digit.
pub open spec fn is_digit_spec(c: char) -> bool {
    '0' <= c <= '9'
}

/// `c` is an ASCII letter.
pub open spec fn is_alpha_spec(c: char) -> bool {
    ('a' <= c <= 'z') || ('A' <= c <= 'Z')
}

/// `c` is an ASCII letter or digit.
pub open spec fn is_alnum_spec(c: char) -> bool {
    is_alpha_spec(c) || is_digit_spec(c)
}

/// `c` is an ASCII lower-case letter.
pub open spec fn is_lower_spec(c: char) -> bool {
    'a' <= c <= 'z'
}

/// `c` is an ASCII upper-case letter.
pub open spec fn is_upper_spec(c: char) -> bool {
    'A' <= c <= 'Z'
}

/// The ASCII upper-case form of `c`; other characters are unchanged.
pub open spec fn upper_spec(c: char) -> char {
    if is_lower_spec(c) {
        ((c as u32) - 32) as char
    } else {
        c
    }
}

/// The ASCII lower-case form of `c`; other characters are unchanged.
pub open spec fn lower_spec(c: char) -> char {
    if is_upper_spec(c) {
        ((c as u32) + 32) as char
    } else {
        c
    }
}

pub fn is_digit(c: char) -> (b: bool)
    ensures
        b == is_digit_spec(c),
{
    '0' <= c && c <= '9'
}

pub fn is_alpha(c: char) -> (b: bool)
    ensures
        b == is_alpha_spec(c),
{
    ('a' <= c && c <= 'z') || ('A' <= c && c <= 'Z')
}

pub fn is_alnum(c: char) -> (b: bool)
    ensures
        b == is_alnum_spec(c),
{
    is_alpha(c) || is_digit(c)
}

pub fn to_upper(c: char) -> (r: char)
    ensures
        r == upper_spec(c),
{
    if 'a' <= c && c <= 'z' {
        let b = (c as u8) - 32;
        b as char
    } else {
        c
    }
}

pub fn to_lower(c: char) -> (r: char)
    ensures
        r == lower_spec(c),
{
    if 'A' <= c && c <= 'Z' {
        let b = (c as u8) + 32;
        b as char
    } else {
        c
    }
}


/// The character of the decimal digit `d` (`d < 10`).
pub open spec fn digit_char(d: nat) -> char {
    ((('0' as u32) as nat) + d) as char
}

/// The value of a decimal digit character.
pub open spec fn digit_value(c: char) -> nat {
    ((c as u32) - ('0' as u32)) as nat
}

/// The usual decimal notation of `n`, without leading zeros.
pub open spec fn decimal(n: nat) -> Seq<char>
    decreases n,
{
    if n < 10 {
        seq![digit_char(n)]
    } else {
        decimal(n / 10).push(digit_char(n % 10))
    }
}

/// Every character of `s` is a decimal digit.
pub open spec fn all_digits(s: Seq<char>) -> bool {
    forall|i: int| 0 <= i < s.len() ==> is_digit_spec(#[trigger] s[i])
}

/// The number that the digit string `s` denotes (0 for the empty string).
pub open spec fn digits_value(s: Seq<char>) -> nat
    decreases s.len(),
{
    if s.len() == 0 {
        0
    } else {
        digits_value(s.drop_last()) * 10 + digit_value(s.last())
    }
}

/// What std's `str::parse` gives for an unsigned integer type whose largest value is `max`:
/// an optional `+`, then at least one decimal digit and nothing else, and a value that fits.
pub open spec fn parse_uint_spec(s: Seq<char>, max: nat) -> Option<nat> {
    let t = if s.len() > 0 && s[0] == '+' { s.drop_first() } else { s };
    if t.len() > 0 && all_digits(t) && digits_value(t) <= max {
        Some(digits_value(t))
    } else {
        None
    }
}

/// A longer prefix of a digit string never denotes a smaller number.
proof fn lemma_digits_prefix_mono(t: Seq<char>, i: int, j: int)
    requires
        all_digits(t),
        0 <= i <= j <= t.len(),
    ensures
        digits_value(t.take(i)) <= digits_value(t.take(j)),
    decreases j - i,
{
    if i < j {
        lemma_digits_prefix_mono(t, i, j - 1);
        assert(t.take(j).drop_last() == t.take(j - 1));
    }
}

proof fn lemma_digits_take_step(t: Seq<char>, k: int)
    requires
        0 <= k < t.len(),
    ensures
        digits_value(t.take(k + 1)) == digits_value(t.take(k)) * 10 + digit_value(t[k]),
{
    assert(t.take(k + 1).drop_last() == t.take(k));
    assert(t.take(k + 1).last() == t[k]);
}

/// The decimal notation of `n`.
pub fn u64_decimal(n: u64) -> (v: Vec<char>)
    ensures
        v@ == decimal(n as nat),
    decreases n,
{
    let d = ((n % 10) as u8 + 48) as char;
    if n < 10 {
        let mut v: Vec<char> = Vec::new();
        v.push(d);
        v
    } else {
        let mut v = u64_decimal(n / 10);
        v.push(d);
        v
    }
}

/// Parses an unsigned 64-bit number as std's `str::parse::<u64>` does.
pub fn parse_u64(s: &[char]) -> (r: Option<u64>)
    ensures
        r matches Some(v) ==> parse_uint_spec(s@, u64::MAX as nat) == Some(v as nat),
        r is None ==> parse_uint_spec(s@, u64::MAX as nat) is None,
{
    let ghost t = if s@.len() > 0 && s@[0] == '+' { s@.drop_first() } else { s@ };
    let start: usize = if s.len() > 0 && s[0] == '+' { 1 } else { 0 };
    if start >= s.len() {
        return None;
    }
    let mut i = start;
    while i < s.len()
        invariant
            start <= i <= s.len(),
            t == s@.subrange(start as int, s@.len() as int),
            t == (if s@.len() > 0 && s@[0] == '+' { s@.drop_first() } else { s@ }),
            forall|k: int| start <= k < i ==> is_digit_spec(#[trigger] s@[k]),
        decreases s.len() - i,
    {
        if !is_digit(s[i]) {
            assert(t[i - start] == s@[i as int]);
            assert(!all_digits(t));
            assert(parse_uint_spec(s@, u64::MAX as nat) is None);
            return None;
        }
        i = i + 1;
    }
    assert(all_digits(t)) by {
        assert forall|k: int| 0 <= k < t.len() implies is_digit_spec(#[trigger] t[k]) by {
            assert(t[k] == s@[k + start]);
        }
    }
    let mut acc: u64 = 0;
    let mut j = start;
    while j < s.len()
        invariant
            start <= j <= s.len(),
            t == s@.subrange(start as int, s@.len() as int),
            t == (if s@.len() > 0 && s@[0] == '+' { s@.drop_first() } else { s@ }),
            all_digits(t),
            acc as nat == digits_value(t.take(j - start)),
        decreases s.len() - j,
    {
        let ghost k = j - start;
        assert(t.take(k + 1).drop_last() == t.take(k));
        assert(t[k] == s@[j as int]);
        assert(is_digit_spec(t[k]));
        let d = (s[j] as u32 - 48) as u64;
        assert(d as nat == digit_value(t[k]));
        proof {
            lemma_digits_take_step(t, k);
        }
        match acc.checked_mul(10) {
            Some(m) => match m.checked_add(d) {
                Some(a) => {
                    acc = a;
                },
                None => {
                    proof {
                        lemma_digits_prefix_mono(t, k + 1, t.len() as int);
                        assert(t.take(t.len() as int) == t);
                    }
                    return None;
                },
            },
            None => {
                proof {
                    lemma_digits_prefix_mono(t, k + 1, t.len() as int);
                    assert(t.take(t.len() as int) == t);
                }
                return None;
            },
        }
        j = j + 1;
    }
    assert(t.take(t.len() as int) == t);
    Some(acc)
}

/// The decimal notation of `n` is a non-empty string of digits that denotes `n`.
pub proof fn lemma_decimal(n: nat)
    ensures
        decimal(n).len() >= 1,
        all_digits(decimal(n)),
        digits_value(decimal(n)) == n,
    decreases n,
{
    let k = n % 10;
    assert(digit_value(digit_char(k)) == k);
    if n < 10 {
        assert(decimal(n).drop_last() =~= Seq::<char>::empty());
        assert(digits_value(Seq::<char>::empty()) == 0);
    } else {
        lemma_decimal(n / 10);
        let d = decimal(n / 10);
        let s = d.push(digit_char(n % 10));
        assert(s.drop_last() =~= d);
        assert(n == (n / 10) * 10 + k);
        assert(s.last() == digit_char(k));
        assert(digits_value(s) == digits_value(d) * 10 + digit_value(digit_char(k)));
        assert forall|i: int| 0 <= i < s.len() implies is_digit_spec(#[trigger] s[i]) by {
            if i < d.len() {
                assert(s[i] == d[i]);
            }
        }
    }
}

/// Parsing the decimal notation of a number that fits gives the number back.
pub proof fn lemma_parse_decimal(n: nat, max: nat)
    requires
        n <= max,
    ensures
        parse_uint_spec(decimal(n), max) == Some(n),
{
    lemma_decimal(n);
    assert(is_digit_spec(decimal(n)[0]));
}

/// Parses an unsigned `usize` number as std's `str::parse::<usize>` does.
pub fn parse_usize(s: &[char]) -> (r: Option<usize>)
    ensures
        r matches Some(v) ==> parse_uint_spec(s@, usize::MAX as nat) == Some(v as nat),
        r is None ==> parse_uint_spec(s@, usize::MAX as nat) is None,
{
    match parse_u64(s) {
        Some(v) => {
            if v <= usize::MAX as u64 {
                Some(v as usize)
            } else {
                None
            }
        },
        None => {
            None
        },
    }
}


/// `p` is a prefix of `s`.
pub open spec fn starts_with(s: Seq<char>, p: Seq<char>) -> bool {
    p.len() <= s.len() && s.take(p.len() as int) == p
}

/// `p` is a suffix of `s`.
pub open spec fn ends_with(s: Seq<char>, p: Seq<char>) -> bool {
    p.len() <= s.len() && s.skip(s.len() - p.len()) == p
}

/// The length of the longest prefix of `s` whose characters all satisfy `p`.
pub open spec fn prefix_run(s: Seq<char>, p: spec_fn(char) -> bool) -> nat
    decreases s.len(),
{
    if s.len() == 0 || !p(s[0]) {
        0
    } else {
        1 + prefix_run(s.drop_first(), p)
    }
}

/// `prefix_run` is the first index whose character fails `p`.
pub proof fn lemma_prefix_run(s: Seq<char>, p: spec_fn(char) -> bool, i: int)
    requires
        0 <= i <= s.len(),
        forall|k: int| 0 <= k < i ==> p(#[trigger] s[k]),
        i == s.len() || !p(s[i]),
    ensures
        prefix_run(s, p) == i,
    decreases i,
{
    if i > 0 {
        lemma_prefix_run(s.drop_first(), p, i - 1);
    }
}

/// The two character sequences are equal.
pub fn same_chars(a: &[char], b: &[char]) -> (r: bool)
    ensures
        r == (a@ == b@),
{
    if a.len() != b.len() {
        return false;
    }
    for i in 0..a.len()
        invariant
            a@.len() == b@.len(),
            forall|k: int| 0 <= k < i ==> a@[k] == b@[k],
    {
        if a[i] != b[i] {
            return false;
        }
    }
    assert(a@ =~= b@);
    true
}

/// `p` is a prefix of `s`.
pub fn has_prefix(s: &[char], p: &[char]) -> (r: bool)
    ensures
        r == starts_with(s@, p@),
{
    if p.len() > s.len() {
        return false;
    }
    for i in 0..p.len()
        invariant
            p@.len() <= s@.len(),
            forall|k: int| 0 <= k < i ==> s@[k] == p@[k],
    {
        if s[i] != p[i] {
            assert(s@.take(p@.len() as int)[i as int] != p@[i as int]);
            return false;
        }
    }
    assert(s@.take(p@.len() as int) =~= p@);
    true
}

/// `p` is a suffix of `s`.
pub fn has_suffix(s: &[char], p: &[char]) -> (r: bool)
    ensures
        r == ends_with(s@, p@),
{
    if p.len() > s.len() {
        return false;
    }
    let off = s.len() - p.len();
    for i in 0..p.len()
        invariant
            p@.len() <= s@.len(),
            p@.len() == p.len(),
            s@.len() == s.len(),
            off == s@.len() - p@.len(),
            forall|k: int| 0 <= k < i ==> s@[off + k] == p@[k],
    {
        if s[off + i] != p[i] {
            assert(s@.skip(off as int)[i as int] != p@[i as int]);
            return false;
        }
    }
    assert(s@.skip(off as int) =~= p@);
    true
}

/// Appends the characters of `s` to `out`.
pub fn push_str(out: &mut Vec<char>, s: &str)
    ensures
        final(out)@ == old(out)@ + s@,
{
    let mut v = str_chars(s);
    out.append(&mut v);
}

/// Appends the characters `s[from..to]` to `out`.
pub fn push_range(out: &mut Vec<char>, s: &[char], from: usize, to: usize)
    requires
        from <= to <= s@.len(),
    ensures
        final(out)@ == old(out)@ + s@.subrange(from as int, to as int),
{
    let ghost o = out@;
    for i in from..to
        invariant
            from <= to <= s@.len(),
            out@ == o + s@.subrange(from as int, i as int),
    {
        out.push(s[i]);
        assert(s@.subrange(from as int, i + 1) == s@.subrange(from as int, i as int).push(s@[i as int]));
    }
}


/// `needle` occurs in `hay` starting at index `i`.
pub open spec fn occurs_at(hay: Seq<char>, needle: Seq<char>, i: int) -> bool {
    0 <= i && i + needle.len() <= hay.len() && hay.subrange(i, i + needle.len()) == needle
}

/// The first index, from `i` on, at which `needle` occurs in `hay`.
pub open spec fn find_from(hay: Seq<char>, needle: Seq<char>, i: int) -> Option<int>
    decreases hay.len() + 1 - i,
{
    if i < 0 || i > hay.len() {
        None
    } else if occurs_at(hay, needle, i) {
        Some(i)
    } else {
        find_from(hay, needle, i + 1)
    }
}

/// Searching from `i` finds an occurrence at or before any occurrence `k` from `i` on.
pub proof fn lemma_find_from_le(hay: Seq<char>, needle: Seq<char>, i: int, k: int)
    requires
        0 <= i <= k,
        occurs_at(hay, needle, k),
    ensures
        find_from(hay, needle, i) matches Some(f) && i <= f <= k,
    decreases k - i,
{
    if !occurs_at(hay, needle, i) {
        lemma_find_from_le(hay, needle, i + 1, k);
    }
}

/// The first index at which `needle` occurs in `hay` (an empty needle occurs at 0).
pub open spec fn find_first(hay: Seq<char>, needle: Seq<char>) -> Option<int> {
    find_from(hay, needle, 0)
}

proof fn lemma_find_skip(hay: Seq<char>, needle: Seq<char>, j: int, i: int)
    requires
        0 <= j <= i <= hay.len() + 1,
        forall|k: int| j <= k < i ==> !occurs_at(hay, needle, k),
    ensures
        find_from(hay, needle, j) == find_from(hay, needle, i),
    decreases i - j,
{
    if j < i {
        lemma_find_skip(hay, needle, j + 1, i);
    }
}

/// A result of `find_from` is an occurrence at or after the start.
pub proof fn lemma_find_from_found(hay: Seq<char>, needle: Seq<char>, i: int)
    requires
        find_from(hay, needle, i) is Some,
    ensures
        i <= find_from(hay, needle, i)->0,
        occurs_at(hay, needle, find_from(hay, needle, i)->0),
    decreases hay.len() + 1 - i,
{
    if i >= 0 && i <= hay.len() && !occurs_at(hay, needle, i) {
        lemma_find_from_found(hay, needle, i + 1);
    }
}

/// `needle` occurs in `hay` at index `i`.
pub fn matches_at(hay: &[char], needle: &[char], i: usize) -> (r: bool)
    ensures
        r == occurs_at(hay@, needle@, i as int),
{
    if i > hay.len() || needle.len() > hay.len() - i {
        return false;
    }
    for k in 0..needle.len()
        invariant
            i + needle@.len() <= hay@.len(),
            hay@.len() == hay.len(),
            needle@.len() == needle.len(),
            forall|m: int| 0 <= m < k ==> hay@[i + m] == needle@[m],
    {
        if hay[i + k] != needle[k] {
            assert(hay@.subrange(i as int, i + needle@.len())[k as int] != needle@[k as int]);
            return false;
        }
    }
    assert(hay@.subrange(i as int, i + needle@.len()) =~= needle@);
    true
}

/// The first index, from `start` on, at which `needle` occurs in `hay`.
pub fn find_chars_from(hay: &[char], needle: &[char], start: usize) -> (r: Option<usize>)
    ensures
        r matches Some(i) ==> find_from(hay@, needle@, start as int) == Some(i as int),
        r is None ==> find_from(hay@, needle@, start as int) is None,
{
    if start > hay.len() {
        return None;
    }
    let mut i = start;
    while i <= hay.len()
        invariant
            start <= i <= hay@.len() + 1,
            forall|k: int| start <= k < i ==> !occurs_at(hay@, needle@, k),
        decreases hay@.len() + 1 - i,
    {
        if matches_at(hay, needle, i) {
            proof {
                lemma_find_skip(hay@, needle@, start as int, i as int);
            }
            return Some(i);
        }
        if i == hay.len() {
            proof {
                lemma_find_skip(hay@, needle@, start as int, i + 1);
            }
            return None;
        }
        i = i + 1;
    }
    proof {
        lemma_find_skip(hay@, needle@, start as int, i as int);
    }
    None
}

/// The number of bytes of the UTF-8 encoding of `s`.
pub open spec fn utf8_len(s: Seq<char>) -> nat {
    vstd::utf8::encode_utf8(s).len()
}

/// The number of bytes of the UTF-8 encoding of `c`.
pub open spec fn char_utf8_len(c: char) -> nat {
    vstd::utf8::encode_scalar(c as u32).len()
}

/// The encoding of a sequence is that of its first part followed by that of the rest.
pub proof fn lemma_utf8_len_push(s: Seq<char>, c: char)
    ensures
        utf8_len(s.push(c)) == utf8_len(s) + char_utf8_len(c),
    decreases s.len(),
{
    let e = vstd::utf8::encode_utf8(Seq::<char>::empty());
    assert(e.len() == 0);
    if s.len() == 0 {
        assert(s.push(c).drop_first() =~= Seq::<char>::empty());
        assert(s.push(c)[0] == c);
        assert(utf8_len(s.push(c)) == char_utf8_len(c) + utf8_len(s.push(c).drop_first()));
    } else {
        assert(s.push(c).drop_first() =~= s.drop_first().push(c));
        assert(s.push(c)[0] == s[0]);
        lemma_utf8_len_push(s.drop_first(), c);
        assert(utf8_len(s.push(c)) == char_utf8_len(s[0]) + utf8_len(s.push(c).drop_first()));
        assert(utf8_len(s) == char_utf8_len(s[0]) + utf8_len(s.drop_first()));
    }
}

/// The number of bytes of the UTF-8 encoding of `c`.
pub fn char_width(c: char) -> (w: usize)
    ensures
        w == char_utf8_len(c),
        1 <= w <= 4,
{
    proof {
        vstd::utf8::char_is_scalar(c);
    }
    let u = c as u32;
    if u <= 0x7F {
        1
    } else if u <= 0x7FF {
        2
    } else if u <= 0xFFFF {
        3
    } else {
        4
    }
}

/// The byte length of the UTF-8 encoding of `s.take(n)`, or `cap` where that is larger.
pub fn utf8_prefix_len_capped(s: &[char], n: usize, cap: u64) -> (r: u64)
    requires
        n <= s@.len(),
        cap <= u64::MAX - 4,
    ensures
        r == if utf8_len(s@.take(n as int)) < cap { utf8_len(s@.take(n as int)) } else { cap as nat },
{
    if cap == 0 {
        return 0;
    }
    let mut acc: u64 = 0;
    let mut i: usize = 0;
    assert(s@.take(0) =~= Seq::<char>::empty());
    assert(vstd::utf8::encode_utf8(Seq::<char>::empty()).len() == 0);
    while i < n
        invariant
            i <= n <= s@.len(),
            cap <= u64::MAX - 4,
            acc as nat == utf8_len(s@.take(i as int)),
            acc < cap,
        decreases n - i,
    {
        let w = char_width(s[i]);
        proof {
            assert(s@.take(i + 1) == s@.take(i as int).push(s@[i as int]));
            lemma_utf8_len_push(s@.take(i as int), s@[i as int]);
        }
        acc = acc + w as u64;
        i = i + 1;
        if acc >= cap {
            proof {
                lemma_utf8_len_mono(s@, i as int, n as int);
            }
            return cap;
        }
    }
    acc
}

/// A longer prefix never has a shorter encoding.
pub proof fn lemma_utf8_len_mono(s: Seq<char>, i: int, j: int)
    requires
        0 <= i <= j <= s.len(),
    ensures
        utf8_len(s.take(i)) <= utf8_len(s.take(j)),
    decreases j - i,
{
    if i < j {
        lemma_utf8_len_mono(s, i, j - 1);
        assert(s.take(j) == s.take(j - 1).push(s[j - 1]));
        lemma_utf8_len_push(s.take(j - 1), s[j - 1]);
    }
}


/// Every character takes at least one byte.
pub proof fn lemma_utf8_len_ge(s: Seq<char>)
    ensures
        utf8_len(s) >= s.len(),
    decreases s.len(),
{
    if s.len() > 0 {
        assert(s == s.drop_last().push(s.last()));
        lemma_utf8_len_push(s.drop_last(), s.last());
        lemma_utf8_len_ge(s.drop_last());
        vstd::utf8::char_is_scalar(s.last());
    }
}

/// The encoding of a concatenation is the concatenation of the encodings.
pub proof fn lemma_utf8_len_concat(a: Seq<char>, b: Seq<char>)
    ensures
        utf8_len(a + b) == utf8_len(a) + utf8_len(b),
    decreases b.len(),
{
    if b.len() == 0 {
        assert(a + b =~= a);
    } else {
        lemma_utf8_len_concat(a, b.drop_last());
        assert(a + b =~= (a + b.drop_last()).push(b.last()));
        assert(b =~= b.drop_last().push(b.last()));
        lemma_utf8_len_push(a + b.drop_last(), b.last());
        lemma_utf8_len_push(b.drop_last(), b.last());
    }
}

/// The ASCII lower-case form of every character.
pub open spec fn lower_seq(s: Seq<char>) -> Seq<char> {
    s.map_values(|c: char| lower_spec(c))
}

/// ASCII lower-casing keeps the length of the encoding.
pub proof fn lemma_utf8_len_lower(s: Seq<char>)
    ensures
        utf8_len(lower_seq(s)) == utf8_len(s),
    decreases s.len(),
{
    if s.len() > 0 {
        let t = s.drop_last();
        lemma_utf8_len_lower(t);
        assert(s =~= t.push(s.last()));
        assert(lower_seq(s) =~= lower_seq(t).push(lower_spec(s.last())));
        lemma_utf8_len_push(t, s.last());
        lemma_utf8_len_push(lower_seq(t), lower_spec(s.last()));
        let c = s.last();
        if is_upper_spec(c) {
            assert(lower_spec(c) as u32 <= 0x7F);
        }
    }
}

/// The ASCII lower-case form of every character of `s`.
pub fn lower_chars(s: &[char]) -> (r: Vec<char>)
    ensures
        r@ == lower_seq(s@),
{
    let mut out: Vec<char> = Vec::new();
    for i in 0..s.len()
        invariant
            out@ == lower_seq(s@.take(i as int)),
    {
        out.push(to_lower(s[i]));
        assert(lower_seq(s@.take(i + 1)) =~= lower_seq(s@.take(i as int)).push(lower_spec(s@[i as int])));
    }
    assert(s@.take(s@.len() as int) =~= s@);
    out
}

/// The byte length of the UTF-8 encoding of `s.take(n)`.
pub fn utf8_prefix_len(s: &[char], n: usize) -> (r: usize)
    requires
        n <= s@.len(),
        utf8_len(s@) <= usize::MAX,
    ensures
        r == utf8_len(s@.take(n as int)),
{
    let mut acc: usize = 0;
    let mut i: usize = 0;
    assert(s@.take(0) =~= Seq::<char>::empty());
    assert(vstd::utf8::encode_utf8(Seq::<char>::empty()).len() == 0);
    while i < n
        invariant
            i <= n <= s@.len(),
            utf8_len(s@) <= usize::MAX,
            acc as nat == utf8_len(s@.take(i as int)),
        decreases n - i,
    {
        let w = char_width(s[i]);
        proof {
            assert(s@.take(i + 1) == s@.take(i as int).push(s@[i as int]));
            lemma_utf8_len_push(s@.take(i as int), s@[i as int]);
            lemma_utf8_len_mono(s@, i + 1, s@.len() as int);
            assert(s@.take(s@.len() as int) =~= s@);
        }
        acc = acc + w;
        i = i + 1;
    }
    acc
}

} // verus!
