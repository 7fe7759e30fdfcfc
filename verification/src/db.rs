//! The file-memory database: entries of a score and a path, ranked by how
//! often and how recently a path was opened ("frecency"), and matched against
//! short queries.

use vstd::prelude::*;
use crate::text::{
    chars_string, decimal, find_chars_from, find_first, lemma_find_from_found, parse_u64,
    parse_uint_spec, prefix_run, str_chars, u64_decimal, utf8_len, utf8_prefix_len_capped,
};

verus! {

/// What std's `str::to_lowercase` gives for a string (full Unicode lower-casing).
pub uninterp spec fn lowercase(s: Seq<char>) -> Seq<char>;

/// Lower-cases a string with std's `str::to_lowercase`.
/// Claimed: the result is `lowercase` of the argument, a function of the argument alone.
#[verifier::external_body]
fn str_lowercase(s: &str) -> (r: String)
    ensures
        r@ == lowercase(s@),
{
    s.to_lowercase()
}

/// The last `/`-separated segment of a path (the whole path when it holds no `/`).
pub open spec fn basename(s: Seq<char>) -> Seq<char>
    decreases s.len(),
{
    if s.len() == 0 {
        s
    } else if s.last() == '/' {
        Seq::<char>::empty()
    } else {
        basename(s.drop_last()).push(s.last())
    }
}

/// `q` is a subsequence of `c`: its characters occur in `c` in order.
pub open spec fn is_subseq(q: Seq<char>, c: Seq<char>) -> bool
    decreases c.len(),
{
    if q.len() == 0 {
        true
    } else if c.len() == 0 {
        false
    } else if q[0] == c[0] {
        is_subseq(q.drop_first(), c.drop_first())
    } else {
        is_subseq(q, c.drop_first())
    }
}

/// `a - b`, or 0 where `b` is not smaller.
pub open spec fn sat_sub(a: nat, b: nat) -> nat {
    if b < a {
        (a - b) as nat
    } else {
        0
    }
}

/// How well the lower-cased query `ql` matches a path whose lower-cased form is `cl` and
/// whose lower-cased last segment is `bl`: 1000 for the whole last segment; 500 less the
/// byte offset of the first occurrence in the last segment; 200 less the byte offset of the
/// first occurrence in the path; 50 when the query's characters occur in order in the path;
/// 0 otherwise.
pub open spec fn score_spec(bl: Seq<char>, cl: Seq<char>, ql: Seq<char>) -> nat {
    match find_first(bl, ql) {
        Some(i) => if bl == ql {
            1000
        } else {
            sat_sub(500, utf8_len(bl.take(i)))
        },
        None => match find_first(cl, ql) {
            Some(i) => sat_sub(200, utf8_len(cl.take(i))),
            None => if is_subseq(ql, cl) {
                50
            } else {
                0
            },
        },
    }
}

/// The match score of a query against a candidate path, as `db_score_match` defines it.
pub open spec fn match_score(query: Seq<char>, cand: Seq<char>) -> nat {
    score_spec(lowercase(basename(cand)), lowercase(cand), lowercase(query))
}

proof fn lemma_basename_at(s: Seq<char>, i: int)
    requires
        0 <= i <= s.len(),
        forall|k: int| i <= k < s.len() ==> #[trigger] s[k] != '/',
        i == 0 || s[i - 1] == '/',
    ensures
        basename(s) == s.skip(i),
    decreases s.len(),
{
    if s.len() == i {
        if s.len() > 0 {
            assert(s.skip(i) =~= Seq::<char>::empty());
        }
    } else {
        lemma_basename_at(s.drop_last(), i);
        assert(s.skip(i) =~= s.drop_last().skip(i).push(s.last()));
    }
}

/// The last `/`-separated segment of a path.
fn basename_chars(s: &[char]) -> (r: Vec<char>)
    ensures
        r@ == basename(s@),
{
    let mut i = s.len();
    while i > 0 && s[i - 1] != '/'
        invariant
            i <= s@.len(),
            forall|k: int| i <= k < s@.len() ==> #[trigger] s@[k] != '/',
        decreases i,
    {
        i = i - 1;
    }
    proof {
        lemma_basename_at(s@, i as int);
    }
    let mut r: Vec<char> = Vec::new();
    crate::text::push_range(&mut r, s, i, s.len());
    r
}

/// `q` is a subsequence of `c`.
fn subsequence(q: &[char], c: &[char]) -> (r: bool)
    ensures
        r == is_subseq(q@, c@),
{
    let mut pj: usize = 0;
    let mut qi: usize = 0;
    assert(q@.skip(0) =~= q@);
    assert(c@.skip(0) =~= c@);
    while qi < q.len()
        invariant
            qi <= q@.len(),
            pj <= c@.len(),
            is_subseq(q@, c@) == is_subseq(q@.skip(qi as int), c@.skip(pj as int)),
        decreases q@.len() - qi,
    {
        let ch = q[qi];
        let mut ok = false;
        while pj < c.len()
            invariant_except_break
                !ok,
                is_subseq(q@, c@) == is_subseq(q@.skip(qi as int), c@.skip(pj as int)),
            invariant
                qi < q@.len(),
                ch == q@[qi as int],
                pj <= c@.len(),
            ensures
                !ok ==> pj == c@.len() && is_subseq(q@, c@) == is_subseq(
                    q@.skip(qi as int),
                    c@.skip(pj as int),
                ),
                ok ==> pj <= c@.len() && is_subseq(q@, c@) == is_subseq(
                    q@.skip(qi + 1),
                    c@.skip(pj as int),
                ),
            decreases c@.len() - pj,
        {
            assert(q@.skip(qi as int)[0] == ch);
            assert(c@.skip(pj as int)[0] == c@[pj as int]);
            assert(q@.skip(qi as int).drop_first() == q@.skip(qi + 1));
            assert(c@.skip(pj as int).drop_first() == c@.skip(pj + 1));
            if c[pj] == ch {
                assert(is_subseq(q@.skip(qi as int), c@.skip(pj as int)) == is_subseq(
                    q@.skip(qi + 1),
                    c@.skip(pj + 1),
                ));
                pj = pj + 1;
                ok = true;
                break;
            }
            assert(is_subseq(q@.skip(qi as int), c@.skip(pj as int)) == is_subseq(
                q@.skip(qi as int),
                c@.skip(pj + 1),
            ));
            pj = pj + 1;
        }
        if !ok {
            assert(c@.skip(pj as int).len() == 0);
            return false;
        }
        qi = qi + 1;
    }
    assert(q@.skip(qi as int).len() == 0);
    true
}

/// The match score computed on already lower-cased strings: `bl` the last segment of the
/// path, `cl` the path, `ql` the query (see `score_spec`).
pub fn score_lowered(bl: &[char], cl: &[char], ql: &[char]) -> (r: u64)
    ensures
        r as nat == score_spec(bl@, cl@, ql@),
{
    match find_chars_from(bl, ql, 0) {
        Some(i) => {
            proof {
                lemma_find_from_found(bl@, ql@, 0);
            }
            if crate::text::same_chars(bl, ql) {
                return 1000;
            }
            let pos = utf8_prefix_len_capped(bl, i, 500);
            500 - pos
        },
        None => match find_chars_from(cl, ql, 0) {
            Some(i) => {
                proof {
                    lemma_find_from_found(cl@, ql@, 0);
                }
                let pos = utf8_prefix_len_capped(cl, i, 200);
                200 - pos
            },
            None => {
                if subsequence(ql, cl) {
                    50
                } else {
                    0
                }
            },
        },
    }
}

/// How well `query` matches the path `cand` (0: not at all), ignoring case.
pub fn db_score_match(query: &str, cand: &str) -> (r: u64)
    ensures
        r as nat == match_score(query@, cand@),
{
    let cc = str_chars(cand);
    let base = chars_string(basename_chars(cc.as_slice()).as_slice());
    let bl = str_chars(str_lowercase(base.as_str()).as_str());
    let cl = str_chars(str_lowercase(cand).as_str());
    let ql = str_chars(str_lowercase(query).as_str());
    score_lowered(bl.as_slice(), cl.as_slice(), ql.as_slice())
}


/// A database entry as the contracts see it: a score and a path.
pub type EntryV = (u64, Seq<char>);

/// The entries as the contracts see them.
pub open spec fn ev(es: Seq<(u64, String)>) -> Seq<EntryV> {
    es.map_values(|e: (u64, String)| (e.0, e.1@))
}

/// The number of leading entries whose score is at least `k`.
pub open spec fn count_at_least(s: Seq<EntryV>, k: u64) -> nat
    decreases s.len(),
{
    if s.len() == 0 || s[0].0 < k {
        0
    } else {
        1 + count_at_least(s.drop_first(), k)
    }
}

/// `x` inserted into `s` after the leading entries whose score is at least its own.
pub open spec fn insert_desc(s: Seq<EntryV>, x: EntryV) -> Seq<EntryV> {
    let p = count_at_least(s, x.0) as int;
    s.take(p) + seq![x] + s.skip(p)
}

/// The entries ordered by descending score; entries of equal score keep their order.
pub open spec fn sort_desc(s: Seq<EntryV>) -> Seq<EntryV>
    decreases s.len(),
{
    if s.len() == 0 {
        s
    } else {
        insert_desc(sort_desc(s.drop_last()), s.last())
    }
}

/// The scores never increase along the sequence.
pub open spec fn sorted_desc(s: Seq<EntryV>) -> bool {
    forall|i: int, j: int| 0 <= i < j < s.len() ==> s[i].0 >= s[j].0
}

proof fn lemma_count_at_least(s: Seq<EntryV>, k: u64, i: int)
    requires
        0 <= i <= s.len(),
        forall|m: int| 0 <= m < i ==> (#[trigger] s[m]).0 >= k,
        i == s.len() || s[i].0 < k,
    ensures
        count_at_least(s, k) == i,
    decreases i,
{
    if i > 0 {
        lemma_count_at_least(s.drop_first(), k, i - 1);
    }
}

/// `a * b`, or `u64::MAX` where that is larger.
pub open spec fn sat_mul(a: u64, b: u64) -> u64 {
    if a * b <= u64::MAX {
        (a * b) as u64
    } else {
        u64::MAX
    }
}

fn saturating_mul(a: u64, b: u64) -> (r: u64)
    ensures
        r == sat_mul(a, b),
{
    match a.checked_mul(b) {
        Some(m) => m,
        None => u64::MAX,
    }
}

/// The new score of the path that is opened again.
pub open spec fn bumped(score: u64) -> u64 {
    (sat_mul(score, 9) / 10 + 10) as u64
}

/// The new score of every other path: it ages by a twentieth, but never below 1.
pub open spec fn aged(score: u64) -> u64 {
    let a = sat_mul(score, 19) / 20;
    if a < 1 {
        1
    } else {
        a as u64
    }
}

/// Some entry of `es` names `path`.
pub open spec fn has_path(es: Seq<EntryV>, path: Seq<char>) -> bool {
    exists|i: int| 0 <= i < es.len() && (#[trigger] es[i]).1 == path
}

/// The database after `path` was opened: its score is bumped (or it enters with 10),
/// every other score ages, and the entries are ordered by descending score.
pub open spec fn add_spec(es: Seq<EntryV>, path: Seq<char>) -> Seq<EntryV> {
    if path.len() == 0 {
        es
    } else {
        let updated = es.map_values(add_fn(path));
        let all = if has_path(es, path) { updated } else { updated.push((10u64, path)) };
        sort_desc(all)
    }
}

/// The database after `path` was given the score `score` (it enters if absent),
/// ordered by descending score.
pub open spec fn set_score_spec(es: Seq<EntryV>, path: Seq<char>, score: u64) -> Seq<EntryV> {
    if path.len() == 0 {
        es
    } else {
        let updated = es.map_values(set_fn(path, score));
        let all = if has_path(es, path) { updated } else { updated.push((score, path)) };
        sort_desc(all)
    }
}

/// The database without the entries of `path`, in the same order.
pub open spec fn remove_spec(es: Seq<EntryV>, path: Seq<char>) -> Seq<EntryV> {
    if path.len() == 0 {
        es
    } else {
        es.filter(keep_fn(path))
    }
}

/// The update of each entry when `path` is opened.
pub open spec fn add_fn(path: Seq<char>) -> spec_fn(EntryV) -> EntryV {
    |e: EntryV| if e.1 == path { (bumped(e.0), e.1) } else { (aged(e.0), e.1) }
}

/// The update of each entry when `path` is given the score `score`.
pub open spec fn set_fn(path: Seq<char>, score: u64) -> spec_fn(EntryV) -> EntryV {
    |e: EntryV| if e.1 == path { (score, e.1) } else { e }
}

/// The entries that do not name `path`.
pub open spec fn keep_fn(path: Seq<char>) -> spec_fn(EntryV) -> bool {
    |e: EntryV| e.1 != path
}

/// Inserts `x` into `out` after the leading entries whose score is at least its own.
fn insert_by_score(out: &mut Vec<(u64, String)>, x: (u64, String))
    ensures
        ev(final(out)@) == insert_desc(ev(old(out)@), (x.0, x.1@)),
{
    let ghost o = ev(out@);
    let mut p: usize = 0;
    while p < out.len() && out[p].0 >= x.0
        invariant
            p <= out@.len(),
            o == ev(out@),
            forall|m: int| 0 <= m < p ==> (#[trigger] o[m]).0 >= x.0,
        decreases out@.len() - p,
    {
        p = p + 1;
    }
    proof {
        lemma_count_at_least(o, x.0, p as int);
    }
    let ghost xv = (x.0, x.1@);
    out.insert(p, x);
    assert(ev(out@) =~= o.take(p as int) + seq![xv] + o.skip(p as int));
}

/// The entries ordered by descending score; entries of equal score keep their order.
pub fn sort_by_score_desc(v: Vec<(u64, String)>) -> (r: Vec<(u64, String)>)
    ensures
        ev(r@) == sort_desc(ev(v@)),
{
    let ghost orig = ev(v@);
    let mut src = v;
    let mut out: Vec<(u64, String)> = Vec::new();
    let ghost mut i: int = 0;
    assert(orig.take(0) =~= Seq::<EntryV>::empty());
    while src.len() > 0
        invariant
            0 <= i <= orig.len(),
            ev(src@) == orig.skip(i),
            ev(out@) == sort_desc(orig.take(i)),
        decreases src@.len(),
    {
        assert(ev(src@).len() == src@.len());
        assert(i < orig.len());
        let ghost before = src@;
        let x = src.remove(0);
        proof {
            assert forall|k: int| 0 <= k < src@.len() implies ev(src@)[k] == orig.skip(i + 1)[k] by {
                assert(src@[k] == before[k + 1]);
                assert(ev(before)[k + 1] == orig.skip(i)[k + 1]);
            }
            assert(orig.skip(i)[0] == (x.0, x.1@));
            assert(orig.take(i + 1).drop_last() =~= orig.take(i));
            assert(orig.take(i + 1).last() == orig[i]);
            assert(ev(src@) =~= orig.skip(i + 1));
        }
        insert_by_score(&mut out, x);
        proof {
            i = i + 1;
        }
    }
    assert(orig.take(i) =~= orig);
    out
}


proof fn lemma_has_path_step(es: Seq<EntryV>, path: Seq<char>, i: int)
    requires
        0 <= i < es.len(),
    ensures
        has_path(es.take(i + 1), path) == (has_path(es.take(i), path) || es[i].1 == path),
{
    if has_path(es.take(i + 1), path) && es[i].1 != path {
        let k = choose|k: int| 0 <= k < i + 1 && (#[trigger] es.take(i + 1)[k]).1 == path;
        assert(es.take(i)[k] == es[k]);
    }
    if has_path(es.take(i), path) {
        let k = choose|k: int| 0 <= k < i && (#[trigger] es.take(i)[k]).1 == path;
        assert(es.take(i + 1)[k] == es[k]);
    }
    if es[i].1 == path {
        assert(es.take(i + 1)[i] == es[i]);
    }
}

/// The database after `path` was opened: the entries of `path` have their score
/// bumped (`score * 9 / 10 + 10`), every other score ages (`score * 19 / 20`, at least 1),
/// a new path enters with 10, and the entries are ordered by descending score.
/// An empty path leaves the database unchanged.
pub fn db_add_path(entries: Vec<(u64, String)>, path: &str) -> (r: Vec<(u64, String)>)
    ensures
        ev(r@) == add_spec(ev(entries@), path@),
{
    if path.is_empty() {
        return entries;
    }
    let ps = String::from_str(path);
    let ghost es = ev(entries@);
    let ghost p = path@;
    let mut src = entries;
    let mut out: Vec<(u64, String)> = Vec::new();
    let mut found = false;
    let ghost mut i: int = 0;
    assert(es.take(0) =~= Seq::<EntryV>::empty());
    while src.len() > 0
        invariant
            0 <= i <= es.len(),
            ps@ == p,
            ev(src@) == es.skip(i),
            ev(out@) == es.take(i).map_values(add_fn(p)),
            found == has_path(es.take(i), p),
        decreases src@.len(),
    {
        assert(ev(src@).len() == src@.len());
        let ghost before = src@;
        let (score, entry) = src.remove(0);
        proof {
            assert(es.skip(i)[0] == (score, entry@));
            assert forall|k: int| 0 <= k < src@.len() implies ev(src@)[k] == es.skip(i + 1)[k] by {
                assert(src@[k] == before[k + 1]);
                assert(ev(before)[k + 1] == es.skip(i)[k + 1]);
            }
            lemma_has_path_step(es, p, i);
        }
        let is_path = entry == ps;
        if is_path {
            out.push((saturating_mul(score, 9) / 10 + 10, entry));
            found = true;
        } else {
            let mut a = saturating_mul(score, 19) / 20;
            if a < 1 {
                a = 1;
            }
            out.push((a, entry));
        }
        proof {
            assert(es.take(i + 1).map_values(add_fn(p)) =~= es.take(i).map_values(
                add_fn(p),
            ).push(add_fn(p)(es[i])));
            assert(ev(out@) =~= es.take(i + 1).map_values(add_fn(p)));
            i = i + 1;
        }
    }
    assert(ev(src@).len() == src@.len());
    assert(i == es.len());
    assert(es.take(i) =~= es);
    if !found {
        out.push((10, ps));
        assert(ev(out@) =~= es.map_values(add_fn(p)).push((10u64, p)));
    }
    sort_by_score_desc(out)
}

/// The database after `path` was given the score `score` (a new path enters with it),
/// ordered by descending score. An empty path leaves the database unchanged.
pub fn db_set_score(entries: Vec<(u64, String)>, path: &str, score: u64) -> (r: Vec<(u64, String)>)
    ensures
        ev(r@) == set_score_spec(ev(entries@), path@, score),
{
    if path.is_empty() {
        return entries;
    }
    let ps = String::from_str(path);
    let ghost es = ev(entries@);
    let ghost p = path@;
    let mut src = entries;
    let mut out: Vec<(u64, String)> = Vec::new();
    let mut found = false;
    let ghost mut i: int = 0;
    assert(es.take(0) =~= Seq::<EntryV>::empty());
    while src.len() > 0
        invariant
            0 <= i <= es.len(),
            ps@ == p,
            ev(src@) == es.skip(i),
            ev(out@) == es.take(i).map_values(set_fn(p, score)),
            found == has_path(es.take(i), p),
        decreases src@.len(),
    {
        assert(ev(src@).len() == src@.len());
        let ghost before = src@;
        let (s, entry) = src.remove(0);
        proof {
            assert(es.skip(i)[0] == (s, entry@));
            assert forall|k: int| 0 <= k < src@.len() implies ev(src@)[k] == es.skip(i + 1)[k] by {
                assert(src@[k] == before[k + 1]);
                assert(ev(before)[k + 1] == es.skip(i)[k + 1]);
            }
            lemma_has_path_step(es, p, i);
        }
        let is_path = entry == ps;
        if is_path {
            out.push((score, entry));
            found = true;
        } else {
            out.push((s, entry));
        }
        proof {
            assert(es.take(i + 1).map_values(set_fn(p, score)) =~= es.take(
                i,
            ).map_values(set_fn(p, score)).push(set_fn(p, score)(es[i])));
            assert(ev(out@) =~= es.take(i + 1).map_values(set_fn(p, score)));
            i = i + 1;
        }
    }
    assert(ev(src@).len() == src@.len());
    assert(i == es.len());
    assert(es.take(i) =~= es);
    if !found {
        out.push((score, ps));
        assert(ev(out@) =~= es.map_values(set_fn(p, score)).push((score, p)));
    }
    sort_by_score_desc(out)
}

/// The database without the entries of `path`, in the same order.
/// An empty path leaves the database unchanged.
pub fn db_remove_path(entries: Vec<(u64, String)>, path: &str) -> (r: Vec<(u64, String)>)
    ensures
        ev(r@) == remove_spec(ev(entries@), path@),
{
    if path.is_empty() {
        return entries;
    }
    let ps = String::from_str(path);
    let ghost es = ev(entries@);
    let ghost p = path@;
    let mut src = entries;
    let mut out: Vec<(u64, String)> = Vec::new();
    let ghost mut i: int = 0;
    assert(es.take(0) =~= Seq::<EntryV>::empty());
    while src.len() > 0
        invariant
            0 <= i <= es.len(),
            ps@ == p,
            ev(src@) == es.skip(i),
            ev(out@) == es.take(i).filter(keep_fn(p)),
        decreases src@.len(),
    {
        assert(ev(src@).len() == src@.len());
        let ghost before = src@;
        let e = src.remove(0);
        proof {
            assert(es.skip(i)[0] == (e.0, e.1@));
            assert forall|k: int| 0 <= k < src@.len() implies ev(src@)[k] == es.skip(i + 1)[k] by {
                assert(src@[k] == before[k + 1]);
                assert(ev(before)[k + 1] == es.skip(i)[k + 1]);
            }
            assert(es.take(i + 1).drop_last() =~= es.take(i));
            assert(es.take(i + 1).last() == es[i]);
            reveal_with_fuel(Seq::filter, 1);
        }
        let keep = e.1 != ps;
        if keep {
            out.push(e);
        }
        proof {
            assert(ev(out@) =~= es.take(i + 1).filter(keep_fn(p)));
            i = i + 1;
        }
    }
    assert(ev(src@).len() == src@.len());
    assert(i == es.len());
    assert(es.take(i) =~= es);
    out
}


/// Matching ignores case: the score of a query against a path depends on the query only
/// through its lower-cased form, and on the path only through the lower-cased forms of the
/// path and of its last segment.
pub proof fn lemma_score_ignores_case(q: Seq<char>, q2: Seq<char>, c: Seq<char>, c2: Seq<char>)
    requires
        lowercase(q) == lowercase(q2),
        lowercase(c) == lowercase(c2),
        lowercase(basename(c)) == lowercase(basename(c2)),
    ensures
        match_score(q, c) == match_score(q2, c2),
{
}

/// A query that occurs in the lower-cased path (and not in its lower-cased last segment)
/// scores 200 less the byte offset of its first occurrence, so at least 200 less the offset
/// of any occurrence: above 0 where that offset is under 200.
pub proof fn lemma_score_path_occurrence(q: Seq<char>, c: Seq<char>, k: int)
    requires
        find_first(lowercase(basename(c)), lowercase(q)) is None,
        0 <= k,
        crate::text::occurs_at(lowercase(c), lowercase(q), k),
    ensures
        match_score(q, c) + utf8_len(lowercase(c).take(k)) >= 200,
        utf8_len(lowercase(c).take(k)) < 200 ==> match_score(q, c) > 0,
{
    let cl = lowercase(c);
    let ql = lowercase(q);
    crate::text::lemma_find_from_le(cl, ql, 0, k);
    let f = find_first(cl, ql)->0;
    assert(k <= cl.len());
    crate::text::lemma_utf8_len_mono(cl, f, k);
}

/// Every score is at most 1000.
pub proof fn lemma_match_score_bound(query: Seq<char>, cand: Seq<char>)
    ensures
        match_score(query, cand) <= 1000,
{
}

proof fn lemma_count_at_least_props(s: Seq<EntryV>, k: u64)
    ensures
        count_at_least(s, k) <= s.len(),
        forall|m: int| 0 <= m < count_at_least(s, k) ==> (#[trigger] s[m]).0 >= k,
        count_at_least(s, k) < s.len() ==> s[count_at_least(s, k) as int].0 < k,
    decreases s.len(),
{
    if s.len() > 0 && s[0].0 >= k {
        let t = s.drop_first();
        lemma_count_at_least_props(t, k);
        let p = count_at_least(t, k);
        assert forall|m: int| 0 <= m < p + 1 implies (#[trigger] s[m]).0 >= k by {
            if m > 0 {
                assert(s[m] == t[m - 1]);
            }
        }
        if p + 1 < s.len() {
            assert(s[p as int + 1] == t[p as int]);
        }
    }
}

proof fn lemma_insert_desc(s: Seq<EntryV>, x: EntryV)
    requires
        sorted_desc(s),
    ensures
        sorted_desc(insert_desc(s, x)),
        insert_desc(s, x).to_multiset() == s.to_multiset().insert(x),
{
    let p = count_at_least(s, x.0) as int;
    lemma_count_at_least_props(s, x.0);
    let r = insert_desc(s, x);
    assert(r =~= s.insert(p, x));
    vstd::seq_lib::to_multiset_insert(s, p, x);
    assert forall|i: int, j: int| 0 <= i < j < r.len() implies r[i].0 >= r[j].0 by {
        if j < p {
            assert(r[i] == s[i]);
            assert(r[j] == s[j]);
        } else if j == p {
            assert(r[i] == s[i]);
        } else if i == p {
            assert(r[j] == s[j - 1]);
            assert(s[p].0 < x.0);
            assert(s[p].0 >= s[j - 1].0);
        } else if i < p {
            assert(r[i] == s[i]);
            assert(r[j] == s[j - 1]);
        } else {
            assert(r[i] == s[i - 1]);
            assert(r[j] == s[j - 1]);
        }
    }
}

/// Sorting orders the entries by descending score and keeps every entry: the result is
/// sorted and holds the same entries, each as many times.
pub proof fn lemma_sort_desc(s: Seq<EntryV>)
    ensures
        sorted_desc(sort_desc(s)),
        sort_desc(s).to_multiset() == s.to_multiset(),
    decreases s.len(),
{
    if s.len() > 0 {
        lemma_sort_desc(s.drop_last());
        lemma_insert_desc(sort_desc(s.drop_last()), s.last());
        vstd::seq_lib::to_multiset_build(s.drop_last(), s.last());
        assert(s.drop_last().push(s.last()) =~= s);
    }
}

/// The entries of score `k`.
pub open spec fn score_is(k: u64) -> spec_fn(EntryV) -> bool {
    |e: EntryV| e.0 == k
}

proof fn lemma_filter_none(s: Seq<EntryV>, k: u64)
    requires
        forall|i: int| 0 <= i < s.len() ==> (#[trigger] s[i]).0 != k,
    ensures
        s.filter(score_is(k)) == Seq::<EntryV>::empty(),
    decreases s.len(),
{
    reveal(Seq::filter);
    if s.len() > 0 {
        lemma_filter_none(s.drop_last(), k);
        assert(s.last() == s[s.len() - 1]);
    }
}

/// Sorting is stable: the entries of any one score come out in the order in which they
/// went in.
#[verifier::spinoff_prover]
pub proof fn lemma_sort_stable(s: Seq<EntryV>, k: u64)
    ensures
        sort_desc(s).filter(score_is(k)) == s.filter(score_is(k)),
    decreases s.len(),
{
    reveal(Seq::filter);
    if s.len() > 0 {
        let init = s.drop_last();
        let t = sort_desc(init);
        let x = s.last();
        lemma_sort_stable(init, k);
        lemma_sort_desc(init);
        let p = count_at_least(t, x.0) as int;
        lemma_count_at_least_props(t, x.0);
        let a = t.take(p);
        let b = t.skip(p);
        assert(insert_desc(t, x) == a + seq![x] + b);
        Seq::filter_distributes_over_add(a + seq![x], b, score_is(k));
        Seq::filter_distributes_over_add(a, seq![x], score_is(k));
        Seq::filter_distributes_over_add(a, b, score_is(k));
        assert(a + b =~= t);
        assert(seq![x].drop_last() =~= Seq::<EntryV>::empty());
        assert(Seq::<EntryV>::empty().filter(score_is(k)) =~= Seq::<EntryV>::empty());
        if k == x.0 {
            assert forall|i: int| 0 <= i < b.len() implies (#[trigger] b[i]).0 != k by {
                assert(b[i] == t[p + i]);
                assert(t[p].0 >= t[p + i].0);
            }
            lemma_filter_none(b, k);
            assert forall|i: int| 0 <= i < a.len() implies (#[trigger] a[i]).0 >= k by {
                assert(a[i] == t[i]);
            }
            if p < t.len() {
                assert(t[p].0 < x.0);
            }
            assert(a.filter(score_is(k)) + b.filter(score_is(k)) =~= a.filter(score_is(k)));
            assert(seq![x].filter(score_is(k)) =~= seq![x]);
            assert(a.filter(score_is(k)) + seq![x] =~= a.filter(score_is(k)).push(x));
        } else {
            assert(seq![x].filter(score_is(k)) =~= Seq::<EntryV>::empty());
            assert(a.filter(score_is(k)) + Seq::<EntryV>::empty() =~= a.filter(score_is(k)));
        }
    }
}

proof fn lemma_sorted_keeps(s: Seq<EntryV>, x: EntryV)
    requires
        s.contains(x),
    ensures
        sort_desc(s).contains(x),
        sort_desc(s).len() == s.len(),
{
    lemma_sort_desc(s);
    vstd::seq_lib::to_multiset_contains(s, x);
    vstd::seq_lib::to_multiset_contains(sort_desc(s), x);
    vstd::seq_lib::to_multiset_len(s);
    vstd::seq_lib::to_multiset_len(sort_desc(s));
}

proof fn lemma_sorted_len(s: Seq<EntryV>)
    ensures
        sort_desc(s).len() == s.len(),
{
    lemma_sort_desc(s);
    vstd::seq_lib::to_multiset_len(s);
    vstd::seq_lib::to_multiset_len(sort_desc(s));
}

/// Opening a path: the database is ordered by descending score, every entry stays with
/// its score updated (bumped for the path, aged for the others), a new path enters with
/// score 10, and the path is then in the database.
#[verifier::spinoff_prover]
pub proof fn lemma_add_path(es: Seq<EntryV>, p: Seq<char>)
    requires
        p.len() > 0,
    ensures
        sorted_desc(add_spec(es, p)),
        has_path(add_spec(es, p), p),
        forall|i: int| 0 <= i < es.len() ==> add_spec(es, p).contains(#[trigger] add_fn(p)(es[i])),
        !has_path(es, p) ==> add_spec(es, p).contains((10u64, p)),
        add_spec(es, p).len() == if has_path(es, p) { es.len() } else { es.len() + 1 },
{
    let updated = es.map_values(add_fn(p));
    let all = if has_path(es, p) { updated } else { updated.push((10u64, p)) };
    lemma_sort_desc(all);
    lemma_sorted_len(all);
    assert forall|i: int| 0 <= i < es.len() implies add_spec(es, p).contains(#[trigger] add_fn(p)(es[i])) by {
        assert(all[i] == add_fn(p)(es[i]));
        assert(all.contains(all[i]));
        lemma_sorted_keeps(all, all[i]);
    }
    if has_path(es, p) {
        let i = choose|i: int| 0 <= i < es.len() && (#[trigger] es[i]).1 == p;
        assert(all[i] == add_fn(p)(es[i]));
        assert(all.contains(all[i]));
        lemma_sorted_keeps(all, all[i]);
        let j = choose|j: int| 0 <= j < add_spec(es, p).len() && add_spec(es, p)[j] == all[i];
        assert(add_spec(es, p)[j].1 == p);
    } else {
        assert(all[es.len() as int] == (10u64, p));
        assert(all.contains(all[es.len() as int]));
        lemma_sorted_keeps(all, (10u64, p));
        let j = choose|j: int| 0 <= j < add_spec(es, p).len() && add_spec(es, p)[j] == (10u64, p);
        assert(add_spec(es, p)[j].1 == p);
    }
}

/// Setting the score of a path: the database is ordered by descending score, the path is
/// in it with that score, every other entry stays as it was, and the number of entries
/// grows by one exactly for a new path.
#[verifier::spinoff_prover]
pub proof fn lemma_set_score(es: Seq<EntryV>, p: Seq<char>, score: u64)
    requires
        p.len() > 0,
    ensures
        sorted_desc(set_score_spec(es, p, score)),
        set_score_spec(es, p, score).contains((score, p)),
        forall|i: int| 0 <= i < es.len() && es[i].1 != p ==> set_score_spec(es, p, score).contains(
            #[trigger] es[i],
        ),
        set_score_spec(es, p, score).len() == if has_path(es, p) { es.len() } else { es.len() + 1 },
{
    let updated = es.map_values(set_fn(p, score));
    let all = if has_path(es, p) { updated } else { updated.push((score, p)) };
    lemma_sort_desc(all);
    lemma_sorted_len(all);
    assert forall|i: int| 0 <= i < es.len() && es[i].1 != p implies set_score_spec(es, p, score).contains(
        #[trigger] es[i],
    ) by {
        assert(all[i] == es[i]);
        assert(all.contains(all[i]));
        lemma_sorted_keeps(all, all[i]);
    }
    if has_path(es, p) {
        let i = choose|i: int| 0 <= i < es.len() && (#[trigger] es[i]).1 == p;
        assert(all[i] == (score, p));
        assert(all.contains(all[i]));
        lemma_sorted_keeps(all, (score, p));
    } else {
        assert(all[es.len() as int] == (score, p));
        assert(all.contains(all[es.len() as int]));
        lemma_sorted_keeps(all, (score, p));
    }
}

proof fn lemma_sort_sorted(s: Seq<EntryV>)
    requires
        sorted_desc(s),
    ensures
        sort_desc(s) == s,
    decreases s.len(),
{
    if s.len() > 0 {
        let init = s.drop_last();
        assert(sorted_desc(init)) by {
            assert forall|i: int, j: int| 0 <= i < j < init.len() implies init[i].0 >= init[j].0 by {
                assert(init[i] == s[i] && init[j] == s[j]);
            }
        }
        lemma_sort_sorted(init);
        let x = s.last();
        assert forall|m: int| 0 <= m < init.len() implies (#[trigger] init[m]).0 >= x.0 by {
            assert(init[m] == s[m]);
        }
        lemma_count_at_least(init, x.0, init.len() as int);
        assert(init.take(init.len() as int) =~= init);
        assert(init.skip(init.len() as int) =~= Seq::<EntryV>::empty());
        assert(init + seq![x] + Seq::<EntryV>::empty() =~= s);
    }
}

/// Setting the score of a path twice is setting it once: a second identical call changes
/// nothing.
#[verifier::spinoff_prover]
pub proof fn lemma_set_score_twice(es: Seq<EntryV>, p: Seq<char>, score: u64)
    ensures
        set_score_spec(set_score_spec(es, p, score), p, score) == set_score_spec(es, p, score),
{
    if p.len() > 0 {
        let updated = es.map_values(set_fn(p, score));
        let all = if has_path(es, p) { updated } else { updated.push((score, p)) };
        let t = set_score_spec(es, p, score);
        lemma_sort_desc(all);
        lemma_set_score(es, p, score);
        assert(has_path(t, p)) by {
            let j = choose|j: int| 0 <= j < t.len() && t[j] == (score, p);
            assert(t[j].1 == p);
        }
        assert forall|j: int| 0 <= j < t.len() && (#[trigger] t[j]).1 == p implies t[j].0 == score by {
            assert(t.contains(t[j]));
            lemma_contains_sorted(all, t[j]);
            let k = choose|k: int| 0 <= k < all.len() && all[k] == t[j];
            if k < es.len() {
                assert(all[k] == set_fn(p, score)(es[k]));
            }
        }
        let u = t.map_values(set_fn(p, score));
        assert(u =~= t) by {
            assert forall|j: int| 0 <= j < t.len() implies u[j] == t[j] by {
                if t[j].1 == p {
                    assert(t[j].0 == score);
                }
            }
        }
        lemma_sort_sorted(t);
    }
}

/// Removing a path: no entry of it is left, and every other entry stays, in the same order.
pub proof fn lemma_remove_path(es: Seq<EntryV>, p: Seq<char>)
    requires
        p.len() > 0,
    ensures
        !has_path(remove_spec(es, p), p),
        forall|i: int| 0 <= i < es.len() && es[i].1 != p ==> remove_spec(es, p).contains(#[trigger] es[i]),
        remove_spec(es, p) == es.filter(keep_fn(p)),
{
    broadcast use vstd::seq_lib::group_filter_ensures;

    let r = remove_spec(es, p);
    if has_path(r, p) {
        let i = choose|i: int| 0 <= i < r.len() && (#[trigger] r[i]).1 == p;
        assert(keep_fn(p)(r[i]));
    }
    assert forall|i: int| 0 <= i < es.len() && es[i].1 != p implies remove_spec(es, p).contains(#[trigger] es[i]) by {
        assert(keep_fn(p)(es[i]));
    }
}

/// Adding twice the match score to the score of any matching entry stays within `u64`
/// (beyond it the totals of the ranking would overflow).
pub open spec fn totals_fit(es: Seq<EntryV>, q: Seq<char>) -> bool {
    forall|i: int|
        0 <= i < es.len() && match_score(q, (#[trigger] es[i]).1) > 0 ==> es[i].0 + 2
            * match_score(q, es[i].1) <= u64::MAX
}

/// The best match so far, scanning the entries in order: the total `2 * match + score`
/// and the path of the first entry with the largest total among the matching ones.
pub open spec fn query_best(es: Seq<EntryV>, q: Seq<char>) -> (nat, Seq<char>)
    decreases es.len(),
{
    if es.len() == 0 {
        (0, Seq::<char>::empty())
    } else {
        let prev = query_best(es.drop_last(), q);
        let e = es.last();
        let m = match_score(q, e.1);
        if m > 0 && 2 * m + e.0 > prev.0 {
            ((2 * m + e.0) as nat, e.1)
        } else {
            prev
        }
    }
}

/// The path that a query picks from the database, if any.
pub open spec fn query_spec(es: Seq<EntryV>, q: Seq<char>) -> Option<Seq<char>> {
    if q.len() == 0 {
        None
    } else {
        let b = query_best(es, q).1;
        if b.len() == 0 {
            None
        } else {
            Some(b)
        }
    }
}

/// The total by which a query ranks an entry: twice its match score plus its score.
pub open spec fn total(q: Seq<char>, e: EntryV) -> nat {
    2 * match_score(q, e.1) + e.0 as nat
}

/// Every path of the entries is non-empty (as every path read from the database file is).
pub open spec fn paths_nonempty(es: Seq<EntryV>) -> bool {
    forall|i: int| 0 <= i < es.len() ==> (#[trigger] es[i]).1.len() > 0
}

#[verifier::spinoff_prover]
proof fn lemma_query_best(es: Seq<EntryV>, q: Seq<char>)
    requires
        paths_nonempty(es),
    ensures
        query_best(es, q).1.len() == 0 ==> query_best(es, q).0 == 0 && forall|j: int|
            0 <= j < es.len() ==> match_score(q, (#[trigger] es[j]).1) == 0,
        query_best(es, q).1.len() > 0 ==> exists|i: int|
            0 <= i < es.len() && (#[trigger] es[i]).1 == query_best(es, q).1 && match_score(q, es[i].1)
                > 0 && query_best(es, q).0 == total(q, es[i]),
        forall|j: int|
            0 <= j < es.len() && match_score(q, (#[trigger] es[j]).1) > 0 ==> total(q, es[j])
                <= query_best(es, q).0,
    decreases es.len(),
{
    if es.len() > 0 {
        let init = es.drop_last();
        assert forall|i: int| 0 <= i < init.len() implies (#[trigger] init[i]).1.len() > 0 by {
            assert(init[i] == es[i]);
        }
        lemma_query_best(init, q);
        let prev = query_best(init, q);
        let e = es.last();
        let n = es.len() - 1;
        assert(es[n] == e);
        if match_score(q, e.1) > 0 && total(q, e) > prev.0 {
            assert(query_best(es, q) == (total(q, e), e.1));
            assert forall|j: int| 0 <= j < es.len() && match_score(q, (#[trigger] es[j]).1) > 0 implies total(q, es[j])
                <= query_best(es, q).0 by {
                if j < n {
                    assert(es[j] == init[j]);
                }
            }
            assert(es[n].1 == query_best(es, q).1);
        } else {
            assert(query_best(es, q) == prev);
            assert forall|j: int| 0 <= j < es.len() && match_score(q, (#[trigger] es[j]).1) > 0 implies total(q, es[j])
                <= query_best(es, q).0 by {
                if j < n {
                    assert(es[j] == init[j]);
                }
            }
            if prev.1.len() == 0 {
                assert forall|j: int| 0 <= j < es.len() implies match_score(q, (#[trigger] es[j]).1) == 0 by {
                    if j < n {
                        assert(es[j] == init[j]);
                    } else {
                        assert(e.0 >= 0);
                    }
                }
            } else {
                let i = choose|i: int|
                    0 <= i < init.len() && (#[trigger] init[i]).1 == prev.1 && match_score(q, init[i].1) > 0
                        && prev.0 == total(q, init[i]);
                assert(es[i] == init[i]);
            }
        }
    }
}

/// A query picks a matching entry with the largest total `2 * match + score`, and picks
/// nothing only where no entry matches.
pub proof fn lemma_query_picks_best(es: Seq<EntryV>, q: Seq<char>)
    requires
        q.len() > 0,
        paths_nonempty(es),
    ensures
        query_spec(es, q) is None <==> forall|j: int|
            0 <= j < es.len() ==> match_score(q, (#[trigger] es[j]).1) == 0,
        query_spec(es, q) matches Some(p) ==> exists|i: int|
            0 <= i < es.len() && (#[trigger] es[i]).1 == p && match_score(q, p) > 0 && forall|j: int|
                0 <= j < es.len() && match_score(q, (#[trigger] es[j]).1) > 0 ==> total(q, es[j])
                    <= total(q, es[i]),
{
    lemma_query_best(es, q);
    let b = query_best(es, q);
    if b.1.len() > 0 {
        let i = choose|i: int|
            0 <= i < es.len() && (#[trigger] es[i]).1 == b.1 && match_score(q, es[i].1) > 0 && b.0
                == total(q, es[i]);
        assert(match_score(q, es[i].1) > 0);
    }
}

/// The path of the first entry with the largest total `2 * match + score` among those that
/// `query` matches; `None` for an empty query or where none matches.
pub fn db_query_path(entries: &Vec<(u64, String)>, query: &str) -> (r: Option<String>)
    requires
        query@.len() > 0 ==> totals_fit(ev(entries@), query@),
    ensures
        r matches Some(s) ==> query_spec(ev(entries@), query@) == Some(s@),
        r is None ==> query_spec(ev(entries@), query@) is None,
{
    if query.is_empty() {
        return None;
    }
    assert(query@.len() > 0);
    let ghost es = ev(entries@);
    let mut best = String::new();
    let mut best_match: u64 = 0;
    for i in 0..entries.len()
        invariant
            es == ev(entries@),
            totals_fit(es, query@),
            query_best(es.take(i as int), query@) == (best_match as nat, best@),
    {
        let m = db_score_match(query, entries[i].1.as_str());
        proof {
            lemma_match_score_bound(query@, entries@[i as int].1@);
            assert(es[i as int] == (entries@[i as int].0, entries@[i as int].1@));
            assert(es.take(i + 1).drop_last() =~= es.take(i as int));
            assert(es.take(i + 1).last() == es[i as int]);
        }
        if m > 0 {
            let total = m * 2 + entries[i].0;
            if total > best_match {
                best_match = total;
                best = entries[i].1.clone();
            }
        }
    }
    assert(es.take(entries@.len() as int) =~= es);
    if best.as_str().is_empty() {
        None
    } else {
        Some(best)
    }
}

/// The entries whose presence flag is set.
pub open spec fn present_only(es: Seq<EntryV>, present: Seq<bool>) -> Seq<EntryV>
    decreases es.len(),
{
    if es.len() == 0 || present.len() == 0 {
        Seq::<EntryV>::empty()
    } else {
        let prev = present_only(es.drop_last(), present.drop_last());
        if present.last() {
            prev.push(es.last())
        } else {
            prev
        }
    }
}

/// The ranked candidates of a query: the matching entries with their total
/// `2 * match + score`, in database order.
pub open spec fn candidates(es: Seq<EntryV>, q: Seq<char>) -> Seq<EntryV>
    decreases es.len(),
{
    if es.len() == 0 {
        Seq::<EntryV>::empty()
    } else {
        let prev = candidates(es.drop_last(), q);
        let e = es.last();
        let m = match_score(q, e.1);
        if m > 0 {
            prev.push(((2 * m + e.0) as u64, e.1))
        } else {
            prev
        }
    }
}

/// The path a query resolves to: among the entries whose path is present, the first of the
/// matching ones ordered by descending total `2 * match + score`.
pub open spec fn resolve_spec(es: Seq<EntryV>, q: Seq<char>, present: Seq<bool>) -> Option<
    Seq<char>,
> {
    if q.len() == 0 {
        None
    } else {
        let ranked = sort_desc(candidates(present_only(es, present), q));
        if ranked.len() == 0 {
            None
        } else {
            Some(ranked[0].1)
        }
    }
}

/// `x` is the entry of some index whose presence flag is set.
pub open spec fn present_entry(es: Seq<EntryV>, present: Seq<bool>, x: EntryV) -> bool {
    exists|i: int| 0 <= i < es.len() && present[i] && x == #[trigger] es[i]
}

proof fn lemma_present_only_from(es: Seq<EntryV>, present: Seq<bool>)
    requires
        present.len() == es.len(),
    ensures
        forall|k: int|
            0 <= k < present_only(es, present).len() ==> #[trigger] present_entry(
                es,
                present,
                present_only(es, present)[k],
            ),
    decreases es.len(),
{
    if es.len() > 0 {
        let ie = es.drop_last();
        let ip = present.drop_last();
        lemma_present_only_from(ie, ip);
        let prev = present_only(ie, ip);
        let po = present_only(es, present);
        let n = es.len() - 1;
        assert(es[n] == es.last());
        assert(present[n] == present.last());
        assert forall|k: int| 0 <= k < po.len() implies #[trigger] present_entry(es, present, po[k]) by {
            if k < prev.len() {
                assert(po[k] == prev[k]);
                assert(present_entry(ie, ip, prev[k]));
                let i = choose|i: int| 0 <= i < ie.len() && ip[i] && prev[k] == #[trigger] ie[i];
                assert(es[i] == ie[i] && present[i] == ip[i]);
            } else {
                assert(po[k] == es[n]);
            }
        }
    }
}

proof fn lemma_present_only_keeps(es: Seq<EntryV>, present: Seq<bool>)
    requires
        present.len() == es.len(),
    ensures
        forall|i: int| 0 <= i < es.len() && present[i] ==> present_only(es, present).contains(#[trigger] es[i]),
    decreases es.len(),
{
    if es.len() > 0 {
        let ie = es.drop_last();
        let ip = present.drop_last();
        lemma_present_only_keeps(ie, ip);
        let prev = present_only(ie, ip);
        let po = present_only(es, present);
        let n = es.len() - 1;
        assert forall|i: int| 0 <= i < es.len() && present[i] implies po.contains(#[trigger] es[i]) by {
            if i < n {
                assert(es[i] == ie[i] && present[i] == ip[i]);
                assert(prev.contains(ie[i]));
                let k = choose|k: int| 0 <= k < prev.len() && prev[k] == ie[i];
                assert(po[k] == prev[k]);
            } else {
                assert(po[prev.len() as int] == es[n]);
            }
        }
    }
}

proof fn lemma_present_only(es: Seq<EntryV>, present: Seq<bool>)
    requires
        present.len() == es.len(),
    ensures
        forall|k: int|
            0 <= k < present_only(es, present).len() ==> #[trigger] present_entry(
                es,
                present,
                present_only(es, present)[k],
            ),
        forall|i: int| 0 <= i < es.len() && present[i] ==> present_only(es, present).contains(#[trigger] es[i]),
{
    lemma_present_only_from(es, present);
    lemma_present_only_keeps(es, present);
}

/// `c` is the candidate that some matching entry of `xs` makes: its total and its path.
pub open spec fn candidate_of(xs: Seq<EntryV>, q: Seq<char>, c: EntryV) -> bool {
    exists|i: int|
        0 <= i < xs.len() && match_score(q, xs[i].1) > 0 && c == ((total(q, #[trigger] xs[i])) as u64, xs[i].1)
}

#[verifier::spinoff_prover]
proof fn lemma_candidates(xs: Seq<EntryV>, q: Seq<char>)
    ensures
        forall|k: int|
            0 <= k < candidates(xs, q).len() ==> #[trigger] candidate_of(xs, q, candidates(xs, q)[k]),
        forall|i: int|
            0 <= i < xs.len() && match_score(q, xs[i].1) > 0 ==> candidates(xs, q).contains(
                ((total(q, #[trigger] xs[i])) as u64, xs[i].1),
            ),
    decreases xs.len(),
{
    if xs.len() > 0 {
        let init = xs.drop_last();
        lemma_candidates(init, q);
        let prev = candidates(init, q);
        let c = candidates(xs, q);
        let n = xs.len() - 1;
        assert forall|k: int| 0 <= k < c.len() implies #[trigger] candidate_of(xs, q, c[k]) by {
            if k < prev.len() {
                assert(c[k] == prev[k]);
                assert(candidate_of(init, q, prev[k]));
                let i = choose|i: int|
                    0 <= i < init.len() && match_score(q, init[i].1) > 0 && prev[k] == (
                    (total(q, #[trigger] init[i])) as u64,
                    init[i].1,
                );
                assert(xs[i] == init[i]);
            } else {
                assert(c[k] == ((total(q, xs[n])) as u64, xs[n].1));
            }
        }
        assert forall|i: int| 0 <= i < xs.len() && match_score(q, xs[i].1) > 0 implies c.contains(
            ((total(q, #[trigger] xs[i])) as u64, xs[i].1),
        ) by {
            if i < n {
                assert(xs[i] == init[i]);
                let x = ((total(q, init[i])) as u64, init[i].1);
                assert(prev.contains(x));
                let k = choose|k: int| 0 <= k < prev.len() && prev[k] == x;
                assert(c[k] == prev[k]);
            } else {
                assert(c[prev.len() as int] == ((total(q, xs[n])) as u64, xs[n].1));
            }
        }
    }
}

proof fn lemma_contains_sorted(s: Seq<EntryV>, x: EntryV)
    ensures
        s.contains(x) <==> sort_desc(s).contains(x),
{
    lemma_sort_desc(s);
    vstd::seq_lib::to_multiset_contains(s, x);
    vstd::seq_lib::to_multiset_contains(sort_desc(s), x);
}

/// A query resolves to a present entry that matches and has the largest total
/// `2 * match + score` among the present matching ones, and to nothing only where no present
/// entry matches.
#[verifier::spinoff_prover]
pub proof fn lemma_resolve_picks_best(es: Seq<EntryV>, q: Seq<char>, present: Seq<bool>)
    requires
        q.len() > 0,
        present.len() == es.len(),
        totals_fit(es, q),
    ensures
        resolve_spec(es, q, present) is None <==> forall|j: int|
            0 <= j < es.len() && present[j] ==> match_score(q, (#[trigger] es[j]).1) == 0,
        resolve_spec(es, q, present) matches Some(p) ==> exists|i: int|
            0 <= i < es.len() && present[i] && (#[trigger] es[i]).1 == p && match_score(q, p) > 0
                && forall|j: int|
                0 <= j < es.len() && present[j] && match_score(q, (#[trigger] es[j]).1) > 0 ==> total(
                    q,
                    es[j],
                ) <= total(q, es[i]),
{
    let po = present_only(es, present);
    let c = candidates(po, q);
    let r = sort_desc(c);
    lemma_present_only(es, present);
    lemma_candidates(po, q);
    lemma_sort_desc(c);
    lemma_sorted_len(c);
    assert forall|j: int| 0 <= j < es.len() && present[j] && match_score(q, (#[trigger] es[j]).1) > 0 implies r.contains(
        ((total(q, es[j])) as u64, es[j].1),
    ) by {
        assert(po.contains(es[j]));
        let k = choose|k: int| 0 <= k < po.len() && po[k] == es[j];
        assert(c.contains(((total(q, po[k])) as u64, po[k].1)));
        lemma_contains_sorted(c, ((total(q, es[j])) as u64, es[j].1));
    }
    if r.len() > 0 {
        assert(r.contains(r[0]));
        lemma_contains_sorted(c, r[0]);
        let k = choose|k: int| 0 <= k < c.len() && c[k] == r[0];
        assert(candidate_of(po, q, c[k]));
        let i1 = choose|i: int|
            0 <= i < po.len() && match_score(q, po[i].1) > 0 && c[k] == (
            (total(q, #[trigger] po[i])) as u64,
            po[i].1,
        );
        assert(present_entry(es, present, po[i1]));
        let i = choose|i: int| 0 <= i < es.len() && present[i] && po[i1] == #[trigger] es[i];
        assert(es[i].0 + 2 * match_score(q, es[i].1) <= u64::MAX);
        assert forall|j: int|
            0 <= j < es.len() && present[j] && match_score(q, (#[trigger] es[j]).1) > 0 implies total(
                q,
                es[j],
            ) <= total(q, es[i]) by {
            let x = ((total(q, es[j])) as u64, es[j].1);
            assert(r.contains(x));
            let m = choose|m: int| 0 <= m < r.len() && r[m] == x;
            assert(es[j].0 + 2 * match_score(q, es[j].1) <= u64::MAX);
            if m > 0 {
                assert(r[0].0 >= r[m].0);
            }
        }
    } else {
        assert forall|j: int| 0 <= j < es.len() && present[j] implies match_score(q, (#[trigger] es[j]).1) == 0 by {
            if match_score(q, es[j].1) > 0 {
                assert(r.contains(((total(q, es[j])) as u64, es[j].1)));
            }
        }
    }
}

/// The path that `query` resolves to: the best-ranked matching entry among those whose path
/// is present (`present[i]` tells whether the path of `entries[i]` exists).
pub fn resolve_query(entries: &Vec<(u64, String)>, query: &str, present: &Vec<bool>) -> (r: Option<
    String,
>)
    requires
        present@.len() == entries@.len(),
        query@.len() > 0 ==> totals_fit(ev(entries@), query@),
    ensures
        r matches Some(s) ==> resolve_spec(ev(entries@), query@, present@) == Some(s@),
        r is None ==> resolve_spec(ev(entries@), query@, present@) is None,
{
    if query.is_empty() {
        return None;
    }
    assert(query@.len() > 0);
    let ghost es = ev(entries@);
    let mut cands: Vec<(u64, String)> = Vec::new();
    for i in 0..entries.len()
        invariant
            es == ev(entries@),
            present@.len() == entries@.len(),
            totals_fit(es, query@),
            ev(cands@) == candidates(present_only(es.take(i as int), present@.take(i as int)), query@),
    {
        proof {
            assert(es[i as int] == (entries@[i as int].0, entries@[i as int].1@));
            assert(es.take(i + 1).drop_last() =~= es.take(i as int));
            assert(es.take(i + 1).last() == es[i as int]);
            assert(present@.take(i + 1).drop_last() =~= present@.take(i as int));
            assert(present@.take(i + 1).last() == present@[i as int]);
            let po = present_only(es.take(i as int), present@.take(i as int));
            assert(po.push(es[i as int]).drop_last() =~= po);
            assert(po.push(es[i as int]).last() == es[i as int]);
        }
        if present[i] {
            let m = db_score_match(query, entries[i].1.as_str());
            proof {
                lemma_match_score_bound(query@, entries@[i as int].1@);
            }
            if m > 0 {
                let total = m * 2 + entries[i].0;
                cands.push((total, entries[i].1.clone()));
            }
        }
    }
    assert(es.take(entries@.len() as int) =~= es);
    assert(present@.take(entries@.len() as int) =~= present@);
    let ranked = sort_by_score_desc(cands);
    if ranked.len() == 0 {
        None
    } else {
        assert(ev(ranked@)[0] == (ranked@[0].0, ranked@[0].1@));
        Some(ranked[0].1.clone())
    }
}


/// A Unicode white-space character, as std's `char::is_whitespace` defines it
/// (the `White_Space` property).
pub open spec fn is_space_spec(c: char) -> bool {
    ('\t' <= c <= '\r') || c == ' ' || c == '\u{85}' || c == '\u{a0}' || c == '\u{1680}' || (
    '\u{2000}' <= c <= '\u{200a}') || c == '\u{2028}' || c == '\u{2029}' || c == '\u{202f}' || c
        == '\u{205f}' || c == '\u{3000}'
}

/// A Unicode white-space character.
pub fn is_space(c: char) -> (b: bool)
    ensures
        b == is_space_spec(c),
{
    ('\t' <= c && c <= '\r') || c == ' ' || c == '\u{85}' || c == '\u{a0}' || c == '\u{1680}' || (
    '\u{2000}' <= c && c <= '\u{200a}') || c == '\u{2028}' || c == '\u{2029}' || c == '\u{202f}'
        || c == '\u{205f}' || c == '\u{3000}'
}

/// `s` without its trailing white space.
pub open spec fn trim_end(s: Seq<char>) -> Seq<char>
    decreases s.len(),
{
    if s.len() > 0 && is_space_spec(s.last()) {
        trim_end(s.drop_last())
    } else {
        s
    }
}

/// `s` without its leading white space.
pub open spec fn trim_start(s: Seq<char>) -> Seq<char> {
    s.skip(prefix_run(s, |c: char| is_space_spec(c)) as int)
}

/// A line without the carriage return that ends it, if any.
pub open spec fn strip_cr(l: Seq<char>) -> Seq<char> {
    if l.len() > 0 && l.last() == '\r' {
        l.drop_last()
    } else {
        l
    }
}

/// The index of the first newline of `s` (its length when it holds none).
pub open spec fn line_end(s: Seq<char>) -> nat {
    prefix_run(s, |c: char| c != '\n')
}

/// The lines of a text as std's `str::lines` gives them: split at each newline, a carriage
/// return before a newline dropped, and no empty line after a final newline.
pub open spec fn lines_spec(s: Seq<char>) -> Seq<Seq<char>>
    decreases s.len(),
{
    if s.len() == 0 {
        Seq::<Seq<char>>::empty()
    } else {
        let i = line_end(s) as int;
        if i >= s.len() {
            seq![s]
        } else {
            seq![strip_cr(s.take(i))] + lines_spec(s.skip(i + 1))
        }
    }
}

/// The entry that one line of the database file holds: leading white space skipped, the
/// score up to the first space (0 where it is not a number), the path after it without its
/// trailing white space; no entry where that path is empty.
pub open spec fn parse_line_spec(line: Seq<char>) -> Option<EntryV> {
    let t = trim_start(line);
    let sp = prefix_run(t, |c: char| c != ' ') as int;
    let path = if sp < t.len() { trim_end(t.skip(sp + 1)) } else { Seq::<char>::empty() };
    if path.len() == 0 {
        None
    } else {
        let score = match parse_uint_spec(t.take(sp), u64::MAX as nat) {
            Some(v) => v as u64,
            None => 0u64,
        };
        Some((score, path))
    }
}

/// The entries that the lines hold, in order.
pub open spec fn parse_lines(ls: Seq<Seq<char>>) -> Seq<EntryV>
    decreases ls.len(),
{
    if ls.len() == 0 {
        Seq::<EntryV>::empty()
    } else {
        let rest = parse_lines(ls.drop_first());
        match parse_line_spec(ls[0]) {
            Some(e) => seq![e] + rest,
            None => rest,
        }
    }
}

/// The entries that the text of a database file holds.
pub open spec fn parse_spec(content: Seq<char>) -> Seq<EntryV> {
    parse_lines(lines_spec(content))
}

/// One line of the database file: the score, a space, the path and a newline.
pub open spec fn format_line(e: EntryV) -> Seq<char> {
    decimal(e.0 as nat) + seq![' '] + e.1 + seq!['\n']
}

/// The text of the database file for the entries.
pub open spec fn format_spec(es: Seq<EntryV>) -> Seq<char>
    decreases es.len(),
{
    if es.len() == 0 {
        Seq::<char>::empty()
    } else {
        format_line(es[0]) + format_spec(es.drop_first())
    }
}

proof fn lemma_trim_end_at(s: Seq<char>, i: int)
    requires
        0 <= i <= s.len(),
        forall|k: int| i <= k < s.len() ==> is_space_spec(#[trigger] s[k]),
        i == 0 || !is_space_spec(s[i - 1]),
    ensures
        trim_end(s) == s.take(i),
    decreases s.len(),
{
    if s.len() == i {
        assert(s.take(i) =~= s);
    } else {
        lemma_trim_end_at(s.drop_last(), i);
        assert(s.drop_last().take(i) =~= s.take(i));
    }
}

/// A path that a line of the database file holds and gives back: not empty, without a
/// newline, and not ending in white space.
pub open spec fn storable(p: Seq<char>) -> bool {
    &&& p.len() > 0
    &&& forall|k: int| 0 <= k < p.len() ==> p[k] != '\n'
    &&& !is_space_spec(p.last())
}

/// Every path of the entries is storable.
pub open spec fn all_storable(es: Seq<EntryV>) -> bool {
    forall|i: int| 0 <= i < es.len() ==> storable(#[trigger] es[i].1)
}

proof fn lemma_parse_line_format(e: EntryV)
    requires
        storable(e.1),
    ensures
        parse_line_spec(decimal(e.0 as nat) + seq![' '] + e.1) == Some(e),
{
    let d = decimal(e.0 as nat);
    let l = d + seq![' '] + e.1;
    crate::text::lemma_decimal(e.0 as nat);
    crate::text::lemma_parse_decimal(e.0 as nat, u64::MAX as nat);
    assert(crate::text::is_digit_spec(d[0]));
    assert(l[0] == d[0]);
    crate::text::lemma_prefix_run(l, |c: char| is_space_spec(c), 0);
    assert(l.skip(0) =~= l);
    assert forall|k: int| 0 <= k < d.len() implies #[trigger] l[k] != ' ' by {
        assert(l[k] == d[k]);
        assert(crate::text::is_digit_spec(d[k]));
    }
    assert(l[d.len() as int] == ' ');
    crate::text::lemma_prefix_run(l, |c: char| c != ' ', d.len() as int);
    assert(l.skip(d.len() as int + 1) =~= e.1);
    lemma_trim_end_at(e.1, e.1.len() as int);
    assert(e.1.take(e.1.len() as int) =~= e.1);
    assert(l.take(d.len() as int) =~= d);
}

/// Reading the database file gives back the entries that were written to it, wherever
/// every path is storable: `db_parse(db_format(es))` holds the entries of `es`, in order.
#[verifier::spinoff_prover]
pub proof fn lemma_parse_format(es: Seq<EntryV>)
    requires
        all_storable(es),
    ensures
        parse_spec(format_spec(es)) == es,
    decreases es.len(),
{
    if es.len() == 0 {
        assert(lines_spec(Seq::<char>::empty()) =~= Seq::<Seq<char>>::empty());
        assert(parse_lines(Seq::<Seq<char>>::empty()) =~= Seq::<EntryV>::empty());
    } else {
        let e = es[0];
        let rest = es.drop_first();
        assert forall|i: int| 0 <= i < rest.len() implies storable(#[trigger] rest[i].1) by {
            assert(rest[i] == es[i + 1]);
        }
        lemma_parse_format(rest);
        let d = decimal(e.0 as nat);
        let l = d + seq![' '] + e.1;
        let r = format_spec(rest);
        let s = format_spec(es);
        assert(s =~= l + seq!['\n'] + r);
        crate::text::lemma_decimal(e.0 as nat);
        assert(storable(es[0].1));
        assert forall|k: int| 0 <= k < l.len() implies #[trigger] s[k] != '\n' by {
            if k < d.len() {
                assert(s[k] == d[k]);
                assert(crate::text::is_digit_spec(d[k]));
            } else if k > d.len() {
                assert(s[k] == e.1[k - d.len() - 1]);
            }
        }
        assert(s[l.len() as int] == '\n');
        crate::text::lemma_prefix_run(s, |c: char| c != '\n', l.len() as int);
        assert(s.take(l.len() as int) =~= l);
        assert(s.skip(l.len() as int + 1) =~= r);
        assert(l.last() == e.1.last());
        assert(strip_cr(l) == l);
        lemma_parse_line_format(e);
        let ls = lines_spec(s);
        assert(ls =~= seq![l] + lines_spec(r));
        assert(ls[0] == l);
        assert(ls.drop_first() =~= lines_spec(r));
        assert(parse_lines(ls) == seq![e] + parse_lines(lines_spec(r)));
        assert(seq![e] + rest =~= es);
    }
}

/// The entry that one line of the database file holds, if any.
fn parse_line(line: &[char]) -> (r: Option<(u64, String)>)
    ensures
        r matches Some(e) ==> parse_line_spec(line@) == Some((e.0, e.1@)),
        r is None ==> parse_line_spec(line@) is None,
{
    let mut a: usize = 0;
    while a < line.len() && is_space(line[a])
        invariant
            a <= line@.len(),
            forall|k: int| 0 <= k < a ==> is_space_spec(#[trigger] line@[k]),
        decreases line@.len() - a,
    {
        a = a + 1;
    }
    proof {
        crate::text::lemma_prefix_run(line@, |c: char| is_space_spec(c), a as int);
    }
    let ghost t = line@.skip(a as int);
    let mut sp = a;
    while sp < line.len() && line[sp] != ' '
        invariant
            a <= sp <= line@.len(),
            t == line@.skip(a as int),
            forall|k: int| a <= k < sp ==> #[trigger] line@[k] != ' ',
        decreases line@.len() - sp,
    {
        sp = sp + 1;
    }
    proof {
        assert forall|k: int| 0 <= k < sp - a implies #[trigger] t[k] != ' ' by {
            assert(t[k] == line@[a + k]);
        }
        if sp < line@.len() {
            assert(t[sp - a] == line@[sp as int]);
        }
        crate::text::lemma_prefix_run(t, |c: char| c != ' ', sp - a);
    }
    if sp >= line.len() {
        return None;
    }
    let mut e = line.len();
    while e > sp + 1 && is_space(line[e - 1])
        invariant
            sp + 1 <= e <= line@.len(),
            forall|k: int| e <= k < line@.len() ==> is_space_spec(#[trigger] line@[k]),
        decreases e,
    {
        e = e - 1;
    }
    let ghost rest = t.skip(sp - a + 1);
    proof {
        assert(rest =~= line@.skip(sp + 1));
        assert forall|k: int| e - sp - 1 <= k < rest.len() implies is_space_spec(#[trigger] rest[k]) by {
            assert(rest[k] == line@[sp + 1 + k]);
        }
        if e > sp + 1 {
            assert(rest[e - sp - 2] == line@[e - 1]);
        }
        lemma_trim_end_at(rest, e - sp - 1);
    }
    if e == sp + 1 {
        return None;
    }
    let mut num: Vec<char> = Vec::new();
    crate::text::push_range(&mut num, line, a, sp);
    assert(num@ =~= t.take(sp - a));
    let score = match parse_u64(num.as_slice()) {
        Some(v) => v,
        None => 0,
    };
    let mut path: Vec<char> = Vec::new();
    crate::text::push_range(&mut path, line, sp + 1, e);
    assert(path@ =~= rest.take(e - sp - 1));
    Some((score, chars_string(path.as_slice())))
}

/// The entries that the text of a database file holds, in order: one per line, skipping
/// lines without a path.
pub fn db_parse(content: &str) -> (r: Vec<(u64, String)>)
    ensures
        ev(r@) == parse_spec(content@),
{
    let c = str_chars(content);
    let mut out: Vec<(u64, String)> = Vec::new();
    let mut k: usize = 0;
    assert(c@.skip(0) =~= c@);
    assert(ev(out@) + parse_lines(lines_spec(c@)) =~= parse_lines(lines_spec(c@)));
    while k < c.len()
        invariant
            k <= c@.len(),
            c@ == content@,
            ev(out@) + parse_lines(lines_spec(c@.skip(k as int))) == parse_lines(lines_spec(c@)),
        decreases c@.len() - k,
    {
        let ghost s = c@.skip(k as int);
        let mut j = k;
        while j < c.len() && c[j] != '\n'
            invariant
                k <= j <= c@.len(),
                s == c@.skip(k as int),
                forall|m: int| k <= m < j ==> #[trigger] c@[m] != '\n',
            decreases c@.len() - j,
        {
            j = j + 1;
        }
        proof {
            assert forall|m: int| 0 <= m < j - k implies #[trigger] s[m] != '\n' by {
                assert(s[m] == c@[k + m]);
            }
            if j < c@.len() {
                assert(s[j - k] == c@[j as int]);
            }
            crate::text::lemma_prefix_run(s, |ch: char| ch != '\n', j - k);
        }
        let mut line: Vec<char> = Vec::new();
        crate::text::push_range(&mut line, c.as_slice(), k, j);
        assert(line@ =~= s.take(j - k));
        if j < c.len() && line.len() > 0 && line[line.len() - 1] == '\r' {
            line.pop();
        }
        assert(j < c@.len() ==> line@ == strip_cr(s.take(j - k)));
        assert(j >= c@.len() ==> line@ == s);
        let parsed = parse_line(line.as_slice());
        let ghost ls = lines_spec(s);
        let ghost old_out = ev(out@);
        let ghost opt = match parse_line_spec(line@) {
            Some(e) => seq![e],
            None => Seq::<EntryV>::empty(),
        };
        proof {
            assert(ls[0] == line@);
            assert(ls.len() > 0);
            assert(parse_lines(ls) == opt + parse_lines(ls.drop_first()));
            if j < c@.len() {
                assert(ls.drop_first() == lines_spec(s.skip(j - k + 1)));
                assert(s.skip(j - k + 1) =~= c@.skip(j + 1));
            } else {
                assert(ls.drop_first() =~= Seq::<Seq<char>>::empty());
            }
        }
        match parsed {
            Some(e) => {
                out.push(e);
            },
            None => {},
        }
        assert(ev(out@) =~= old_out + opt);
        if j >= c.len() {
            proof {
                assert(lines_spec(c@.skip(c@.len() as int)) =~= Seq::<Seq<char>>::empty());
                assert(ev(out@) =~= parse_lines(lines_spec(c@)));
                assert(ev(out@) == parse_spec(content@));
            }
            return out;
        }
        k = j + 1;
        proof {
            assert(ev(out@) + parse_lines(lines_spec(c@.skip(k as int))) =~= parse_lines(
                lines_spec(c@),
            ));
        }
    }
    proof {
        assert(c@.skip(k as int) =~= Seq::<char>::empty());
        assert(ev(out@) =~= parse_lines(lines_spec(c@)));
    }
    out
}

/// The text of the database file for the entries: one line `score path` each.
pub fn db_format(entries: &Vec<(u64, String)>) -> (r: String)
    ensures
        r@ == format_spec(ev(entries@)),
{
    let ghost es = ev(entries@);
    let mut out: Vec<char> = Vec::new();
    let mut i: usize = entries.len();
    let mut suffix: Vec<char> = Vec::new();
    assert(es.skip(es.len() as int) =~= Seq::<EntryV>::empty());
    while i > 0
        invariant
            i <= entries@.len(),
            es == ev(entries@),
            suffix@ == format_spec(es.skip(i as int)),
        decreases i,
    {
        i = i - 1;
        let mut line = u64_decimal(entries[i].0);
        line.push(' ');
        let mut p = str_chars(entries[i].1.as_str());
        line.append(&mut p);
        line.push('\n');
        line.append(&mut suffix);
        suffix = line;
        proof {
            assert(es.skip(i as int).drop_first() =~= es.skip(i + 1));
            assert(es.skip(i as int)[0] == es[i as int]);
        }
    }
    assert(es.skip(0) =~= es);
    chars_string(suffix.as_slice())
}

/// Whether the ranking totals of a query fit in `u64`: for every entry that the query
/// matches, its score plus twice the match score.
pub fn totals_fit_check(entries: &Vec<(u64, String)>, query: &str) -> (b: bool)
    ensures
        b == totals_fit(ev(entries@), query@),
{
    let ghost es = ev(entries@);
    for i in 0..entries.len()
        invariant
            es == ev(entries@),
            forall|k: int|
                0 <= k < i && match_score(query@, (#[trigger] es[k]).1) > 0 ==> es[k].0 + 2
                    * match_score(query@, es[k].1) <= u64::MAX,
    {
        let m = db_score_match(query, entries[i].1.as_str());
        proof {
            lemma_match_score_bound(query@, entries@[i as int].1@);
            assert(es[i as int] == (entries@[i as int].0, entries@[i as int].1@));
        }
        if m > 0 && entries[i].0 > u64::MAX - 2 * m {
            return false;
        }
    }
    true
}

/// The path that `query` picks (see `db_query_path`), or `None` where the query is not
/// empty and a ranking total does not fit in `u64`.
pub fn db_query_checked(entries: &Vec<(u64, String)>, query: &str) -> (r: Option<Option<String>>)
    ensures
        r is None <==> (query@.len() > 0 && !totals_fit(ev(entries@), query@)),
        r matches Some(Some(s)) ==> query_spec(ev(entries@), query@) == Some(s@),
        r matches Some(None) ==> query_spec(ev(entries@), query@) is None,
{
    if query.is_empty() || totals_fit_check(entries, query) {
        Some(db_query_path(entries, query))
    } else {
        None
    }
}

/// The path that `query` resolves to (see `resolve_query`), or `None` where the query is
/// not empty and a ranking total does not fit in `u64`.
pub fn resolve_checked(entries: &Vec<(u64, String)>, query: &str, present: &Vec<bool>) -> (r: Option<
    Option<String>,
>)
    requires
        present@.len() == entries@.len(),
    ensures
        r is None <==> (query@.len() > 0 && !totals_fit(ev(entries@), query@)),
        r matches Some(Some(s)) ==> resolve_spec(ev(entries@), query@, present@) == Some(s@),
        r matches Some(None) ==> resolve_spec(ev(entries@), query@, present@) is None,
{
    if query.is_empty() || totals_fit_check(entries, query) {
        Some(resolve_query(entries, query, present))
    } else {
        None
    }
}

/// One line of the listing of the database: the score, a tab, the path, and ` (missing)`
/// where the path is not present.
pub open spec fn listing_line(e: EntryV, present: bool) -> Seq<char> {
    decimal(e.0 as nat) + seq!['\t'] + e.1 + (if present {
        Seq::<char>::empty()
    } else {
        " (missing)"@
    }) + seq!['\n']
}

/// The listing of the entries, one line each, in order (`present[i]` tells whether the path
/// of entry `i` is present).
pub open spec fn listing_spec(es: Seq<EntryV>, present: Seq<bool>) -> Seq<char>
    decreases es.len(),
{
    if es.len() == 0 {
        Seq::<char>::empty()
    } else {
        listing_spec(es.drop_last(), present) + listing_line(es.last(), present[es.len() - 1])
    }
}

/// The listing of the database: one line `score<TAB>path` per entry, the path followed by
/// ` (missing)` where it is not present.
pub fn db_listing(entries: &Vec<(u64, String)>, present: &Vec<bool>) -> (r: String)
    requires
        present@.len() == entries@.len(),
    ensures
        r@ == listing_spec(ev(entries@), present@),
{
    let ghost es = ev(entries@);
    let mut out: Vec<char> = Vec::new();
    for i in 0..entries.len()
        invariant
            es == ev(entries@),
            present@.len() == entries@.len(),
            out@ == listing_spec(es.take(i as int), present@),
    {
        let ghost before = out@;
        let mut d = u64_decimal(entries[i].0);
        out.append(&mut d);
        out.push('\t');
        let mut p = str_chars(entries[i].1.as_str());
        out.append(&mut p);
        if !present[i] {
            let mut m = str_chars(" (missing)");
            out.append(&mut m);
        }
        out.push('\n');
        proof {
            let t = es.take(i + 1);
            assert(t.drop_last() =~= es.take(i as int));
            assert(t.last() == es[i as int]);
            assert(es[i as int] == (entries@[i as int].0, entries@[i as int].1@));
            assert(out@ =~= before + listing_line(es[i as int], present@[i as int]));
        }
    }
    assert(es.take(entries@.len() as int) =~= es);
    chars_string(out.as_slice())
}

} // verus!
