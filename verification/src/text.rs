//! Character-level text utilities with Unicode `White_Space` semantics.
use vstd::prelude::*;
use vstd::utf8::{encode_utf8, decode_utf8, is_char_boundary};

verus! {

/// The Unicode `White_Space` property, which is what `char::is_whitespace`
/// (and therefore `str::trim` and `str::split_whitespace`) tests.
pub open spec fn is_white_space(c: char) -> bool {
    let u = c as u32;
    ||| 0x9 <= u <= 0xd
    ||| u == 0x20
    ||| u == 0x85
    ||| u == 0xa0
    ||| u == 0x1680
    ||| 0x2000 <= u <= 0x200a
    ||| u == 0x2028
    ||| u == 0x2029
    ||| u == 0x202f
    ||| u == 0x205f
    ||| u == 0x3000
}

/// `s` without its leading white space.
pub open spec fn trim_start(s: Seq<char>) -> Seq<char>
    decreases s.len(),
{
    if s.len() > 0 && is_white_space(s[0]) {
        trim_start(s.drop_first())
    } else {
        s
    }
}

/// `s` without its trailing white space.
pub open spec fn trim_end(s: Seq<char>) -> Seq<char>
    decreases s.len(),
{
    if s.len() > 0 && is_white_space(s.last()) {
        trim_end(s.drop_last())
    } else {
        s
    }
}

/// `s` without leading and trailing white space.
pub open spec fn trim(s: Seq<char>) -> Seq<char> {
    trim_end(trim_start(s))
}

pub fn is_white_space_char(c: char) -> (r: bool)
    ensures
        r == is_white_space(c),
{
    let u = c as u32;
    (0x9 <= u && u <= 0xd) || u == 0x20 || u == 0x85 || u == 0xa0 || u == 0x1680 || (0x2000 <= u
        && u <= 0x200a) || u == 0x2028 || u == 0x2029 || u == 0x202f || u == 0x205f || u == 0x3000
}

/// Appends one character (`String::push`).
#[verifier::external_body]
pub(crate) fn push_char(s: &mut String, c: char)
    ensures
        final(s)@ == old(s)@.push(c),
{
    s.push(c);
}

/// The characters of `s`, in order.
pub fn chars_of(s: &str) -> (v: Vec<char>)
    ensures
        v@ == s@,
{
    let mut v: Vec<char> = Vec::new();
    for c in it: s.chars()
        invariant
            v@ == it.seq().take(it.index() as int),
    {
        v.push(c);
    }
    v
}


/// A `String` holding `cs[lo..hi]`.
pub fn string_from_range(cs: &Vec<char>, lo: usize, hi: usize) -> (r: String)
    requires
        lo <= hi <= cs.len(),
    ensures
        r@ == cs@.subrange(lo as int, hi as int),
{
    let mut r = String::new();
    let mut i = lo;
    while i < hi
        invariant
            lo <= i <= hi <= cs.len(),
            r@ == cs@.subrange(lo as int, i as int),
        decreases hi - i,
    {
        push_char(&mut r, cs[i]);
        assert(cs@.subrange(lo as int, i + 1) == cs@.subrange(lo as int, i as int).push(cs@[i as int]));
        i = i + 1;
    }
    r
}

proof fn lemma_trim_start_step(s: Seq<char>, i: int)
    requires
        0 <= i < s.len(),
        is_white_space(s[i]),
    ensures
        trim_start(s.subrange(i, s.len() as int)) == trim_start(s.subrange(i + 1, s.len() as int)),
{
    assert(s.subrange(i, s.len() as int).drop_first() == s.subrange(i + 1, s.len() as int));
}

proof fn lemma_trim_end_step(s: Seq<char>, lo: int, hi: int)
    requires
        0 <= lo < hi <= s.len(),
        is_white_space(s[hi - 1]),
    ensures
        trim_end(s.subrange(lo, hi)) == trim_end(s.subrange(lo, hi - 1)),
{
    assert(s.subrange(lo, hi).drop_last() == s.subrange(lo, hi - 1));
}

/// Bounds `(lo, hi)` such that `cs[lo..hi]` is `cs` with surrounding white space removed.
pub fn trim_bounds(cs: &Vec<char>) -> (r: (usize, usize))
    ensures
        r.0 <= r.1 <= cs.len(),
        cs@.subrange(r.0 as int, r.1 as int) == trim(cs@),
        cs@.subrange(r.0 as int, cs.len() as int) == trim_start(cs@),
{
    let n = cs.len();
    let mut lo: usize = 0;
    assert(cs@.subrange(0, n as int) == cs@);
    while lo < n && is_white_space_char(cs[lo])
        invariant
            lo <= n == cs.len(),
            trim_start(cs@) == trim_start(cs@.subrange(lo as int, n as int)),
        decreases n - lo,
    {
        proof {
            lemma_trim_start_step(cs@, lo as int);
        }
        lo = lo + 1;
    }
    let ghost rest = cs@.subrange(lo as int, n as int);
    assert(trim_start(rest) == rest);
    let mut hi: usize = n;
    while hi > lo && is_white_space_char(cs[hi - 1])
        invariant
            lo <= hi <= n == cs.len(),
            trim_end(rest) == trim_end(cs@.subrange(lo as int, hi as int)),
            rest == cs@.subrange(lo as int, n as int),
        decreases hi,
    {
        proof {
            lemma_trim_end_step(cs@, lo as int, hi as int);
        }
        hi = hi - 1;
    }
    assert(trim_end(cs@.subrange(lo as int, hi as int)) == cs@.subrange(lo as int, hi as int));
    (lo, hi)
}

/// `str::trim`, as an owned string.
pub fn trim_str(s: &str) -> (r: String)
    ensures
        r@ == trim(s@),
{
    let cs = chars_of(s);
    let (lo, hi) = trim_bounds(&cs);
    string_from_range(&cs, lo, hi)
}

/// `str::trim_start`, as an owned string.
pub fn trim_start_str(s: &str) -> (r: String)
    ensures
        r@ == trim_start(s@),
{
    let cs = chars_of(s);
    let (lo, _hi) = trim_bounds(&cs);
    string_from_range(&cs, lo, cs.len())
}


/// Whether `pat` occurs in `s` starting at index `i`.
pub open spec fn occurs_at(s: Seq<char>, pat: Seq<char>, i: int) -> bool {
    0 <= i && i + pat.len() <= s.len() && s.subrange(i, i + pat.len()) == pat
}

/// `s` with every occurrence of `pat` removed, matching left to right without
/// overlap (`str::replace(pat, "")`).
pub open spec fn remove_all(s: Seq<char>, pat: Seq<char>) -> Seq<char>
    decreases s.len(),
{
    if pat.len() == 0 || s.len() == 0 {
        s
    } else if occurs_at(s, pat, 0) {
        remove_all(s.skip(pat.len() as int), pat)
    } else {
        seq![s[0]] + remove_all(s.drop_first(), pat)
    }
}

/// `s` with trailing copies of `pat` stripped, as many as there are
/// (`str::trim_end_matches`).
pub open spec fn trim_end_matches(s: Seq<char>, pat: Seq<char>) -> Seq<char>
    decreases s.len(),
{
    if pat.len() > 0 && occurs_at(s, pat, s.len() - pat.len()) {
        trim_end_matches(s.take(s.len() - pat.len()), pat)
    } else {
        s
    }
}

/// The part of `s` after the rightmost occurrence of `pat`, or all of `s`
/// when `pat` does not occur. For a pattern that cannot overlap itself this
/// is the last piece of `str::split(pat)`.
pub open spec fn after_last(s: Seq<char>, pat: Seq<char>) -> Seq<char>
    decreases s.len(),
{
    if s.len() == 0 || s.len() < pat.len() {
        s
    } else if occurs_at(s, pat, s.len() - pat.len()) {
        seq![]
    } else {
        after_last(s.drop_last(), pat).push(s.last())
    }
}

/// `parts` joined with `sep` between consecutive parts.
pub open spec fn join(parts: Seq<Seq<char>>, sep: Seq<char>) -> Seq<char>
    decreases parts.len(),
{
    if parts.len() == 0 {
        seq![]
    } else if parts.len() == 1 {
        parts[0]
    } else {
        join(parts.drop_last(), sep) + sep + parts.last()
    }
}

/// Whether `pat` occurs in `cs` at index `i`.
pub fn occurs_at_exec(cs: &Vec<char>, pat: &Vec<char>, i: usize) -> (r: bool)
    ensures
        r == occurs_at(cs@, pat@, i as int),
{
    if i > cs.len() || pat.len() > cs.len() - i {
        return false;
    }
    let mut k: usize = 0;
    while k < pat.len()
        invariant
            i + pat.len() <= cs.len(),
            k <= pat.len(),
            forall|j: int| 0 <= j < k ==> cs@[i + j] == pat@[j],
        decreases pat.len() - k,
    {
        if cs[i + k] != pat[k] {
            assert(cs@.subrange(i as int, i + pat.len())[k as int] != pat@[k as int]);
            return false;
        }
        k = k + 1;
    }
    assert(cs@.subrange(i as int, i + pat.len()) == pat@);
    true
}

proof fn lemma_remove_all_skip(s: Seq<char>, pat: Seq<char>, i: int)
    requires
        pat.len() > 0,
        0 <= i < s.len(),
    ensures
        occurs_at(s, pat, i) ==> remove_all(s.skip(i), pat) == remove_all(s.skip(i + pat.len()), pat),
        !occurs_at(s, pat, i) ==> remove_all(s.skip(i), pat) == seq![s[i]] + remove_all(s.skip(i + 1), pat),
{
    let t = s.skip(i);
    assert(t.len() > 0);
    if occurs_at(s, pat, i) {
        assert(t.subrange(0, pat.len() as int) == s.subrange(i, i + pat.len()));
        assert(occurs_at(t, pat, 0));
        assert(t.skip(pat.len() as int) == s.skip(i + pat.len()));
    } else {
        if occurs_at(t, pat, 0) {
            assert(t.subrange(0, pat.len() as int) == s.subrange(i, i + pat.len()));
        }
        assert(t.drop_first() == s.skip(i + 1));
    }
}

/// `s.replace(pat, "")`: every left-to-right, non-overlapping occurrence of
/// `pat` removed.
pub fn remove_all_str(s: &str, pat: &str) -> (r: String)
    ensures
        r@ == remove_all(s@, pat@),
{
    let cs = chars_of(s);
    let ps = chars_of(pat);
    if ps.len() == 0 {
        return string_from_range(&cs, 0, cs.len());
    }
    let mut out = String::new();
    let mut i: usize = 0;
    assert(cs@.skip(0) == cs@);
    while i < cs.len()
        invariant
            ps@ == pat@,
            cs@ == s@,
            ps.len() > 0,
            i <= cs.len(),
            out@ + remove_all(cs@.skip(i as int), ps@) == remove_all(cs@, ps@),
        decreases cs.len() - i,
    {
        proof {
            lemma_remove_all_skip(cs@, ps@, i as int);
        }
        if occurs_at_exec(&cs, &ps, i) {
            i = i + ps.len();
        } else {
            let ghost before = out@;
            push_char(&mut out, cs[i]);
            assert(before + (seq![cs@[i as int]] + remove_all(cs@.skip(i + 1), ps@)) == out@
                + remove_all(cs@.skip(i + 1), ps@));
            i = i + 1;
        }
    }
    assert(cs@.skip(i as int).len() == 0);
    out
}

/// `s.trim_end_matches(pat)`.
pub fn trim_end_matches_str(s: &str, pat: &str) -> (r: String)
    ensures
        r@ == trim_end_matches(s@, pat@),
{
    let cs = chars_of(s);
    let ps = chars_of(pat);
    let mut end = cs.len();
    assert(cs@.take(end as int) == cs@);
    while ps.len() > 0 && ps.len() <= end && occurs_at_exec(&cs, &ps, end - ps.len())
        invariant
            ps@ == pat@,
            cs@ == s@,
            end <= cs.len(),
            trim_end_matches(cs@, ps@) == trim_end_matches(cs@.take(end as int), ps@),
        decreases end,
    {
        let ghost t = cs@.take(end as int);
        assert(t.subrange(end - ps.len(), end as int) == cs@.subrange(end - ps.len(), end as int));
        assert(t.take(end - ps.len()) == cs@.take(end - ps.len()));
        end = end - ps.len();
    }
    proof {
        let t = cs@.take(end as int);
        if ps.len() > 0 && ps.len() <= end {
            assert(t.subrange(end - ps.len(), end as int) == cs@.subrange(end - ps.len(), end as int));
        }
    }
    string_from_range(&cs, 0, end)
}

proof fn lemma_after_last_prefix(s: Seq<char>, pat: Seq<char>, e: int)
    requires
        pat.len() <= e <= s.len(),
        forall|i: int| e - pat.len() < i <= s.len() - pat.len() ==> !#[trigger] occurs_at(s, pat, i),
    ensures
        after_last(s, pat) == after_last(s.take(e), pat) + s.subrange(e, s.len() as int),
    decreases s.len() - e,
{
    if e == s.len() {
        assert(s.take(e) == s);
        assert(s.subrange(e, s.len() as int) == Seq::<char>::empty());
    } else {
        let t = s.drop_last();
        assert forall|i: int| e - pat.len() < i <= t.len() - pat.len() implies !#[trigger] occurs_at(t, pat, i) by {
            if occurs_at(t, pat, i) {
                assert(t.subrange(i, i + pat.len()) == s.subrange(i, i + pat.len()));
                assert(occurs_at(s, pat, i));
            }
        }
        lemma_after_last_prefix(t, pat, e);
        assert(t.take(e) == s.take(e));
        assert(!occurs_at(s, pat, s.len() - pat.len()));
        assert(t.subrange(e, t.len() as int).push(s.last()) == s.subrange(e, s.len() as int));
    }
}

/// The part of `s` after the rightmost occurrence of `pat` (all of `s` when
/// there is none).
pub fn after_last_str(s: &str, pat: &str) -> (r: String)
    ensures
        r@ == after_last(s@, pat@),
{
    let cs = chars_of(s);
    let ps = chars_of(pat);
    if ps.len() > cs.len() {
        return string_from_range(&cs, 0, cs.len());
    }
    let mut e = cs.len();
    while e >= ps.len() && !occurs_at_exec(&cs, &ps, e - ps.len())
        invariant
            ps@ == pat@,
            cs@ == s@,
            ps.len() <= cs.len(),
            e <= cs.len(),
            forall|i: int| e - ps.len() < i <= cs.len() - ps.len() ==> !#[trigger] occurs_at(cs@, ps@, i),
        decreases e,
    {
        proof {
            if ps.len() == 0 {
                assert(cs@.subrange(e as int, e as int) =~= ps@);
            }
        }
        e = e - 1;
    }
    proof {
        if e >= ps.len() {
            lemma_after_last_prefix(cs@, ps@, e as int);
            let t = cs@.take(e as int);
            assert(t.subrange(e - ps.len(), e as int) == cs@.subrange(e - ps.len(), e as int));
            assert(after_last(t, ps@) == Seq::<char>::empty());
            assert(Seq::<char>::empty() + cs@.subrange(e as int, cs.len() as int) == cs@.subrange(e as int, cs.len() as int));
        } else {
            let p = ps.len() as int;
            assert(!occurs_at(cs@, ps@, 0));
            lemma_after_last_prefix(cs@, ps@, p);
            let t = cs@.take(p);
            assert(t.subrange(0, p) == cs@.subrange(0, p));
            assert(!occurs_at(t, ps@, 0));
            assert(after_last(t.drop_last(), ps@) == t.drop_last());
            assert(t.drop_last().push(t.last()) == t);
            assert(after_last(t, ps@) == t);
            assert(cs@.take(p) + cs@.subrange(p, cs.len() as int) == cs@);
        }
    }
    if e >= ps.len() {
        string_from_range(&cs, e, cs.len())
    } else {
        string_from_range(&cs, 0, cs.len())
    }
}


/// The views of a sequence of strings.
pub open spec fn views(v: Seq<String>) -> Seq<Seq<char>> {
    v.map_values(|x: String| x@)
}

/// `parts.join(sep)`.
pub fn join_strings(parts: &Vec<String>, sep: &str) -> (r: String)
    ensures
        r@ == join(views(parts@), sep@),
{
    let mut r = String::new();
    let ghost pv = views(parts@);
    let mut i: usize = 0;
    while i < parts.len()
        invariant
            i <= parts.len(),
            pv == views(parts@),
            pv.len() == parts.len(),
            r@ == join(pv.take(i as int), sep@),
        decreases parts.len() - i,
    {
        assert(pv.take(i + 1).drop_last() == pv.take(i as int));
        assert(pv.take(i + 1).last() == parts@[i as int]@);
        if i != 0 {
            r.append(sep);
        } else {
            assert(pv.take(1)[0] == parts@[0]@);
        }
        r.append(parts[i].as_str());
        i = i + 1;
    }
    assert(pv.take(parts.len() as int) == pv);
    r
}

/// The maximal runs of non-white-space characters of `s`, in order
/// (`str::split_whitespace`).
pub open spec fn words(s: Seq<char>) -> Seq<Seq<char>>
    decreases s.len(),
{
    if s.len() == 0 {
        seq![]
    } else if is_white_space(s.last()) {
        words(s.drop_last())
    } else if s.len() >= 2 && !is_white_space(s[s.len() - 2]) && words(s.drop_last()).len() > 0 {
        let w = words(s.drop_last());
        w.update(w.len() - 1, w.last().push(s.last()))
    } else {
        words(s.drop_last()).push(seq![s.last()])
    }
}

/// The words of `s` joined by single spaces
/// (`s.split_whitespace().collect::<Vec<_>>().join(" ")`).
pub open spec fn collapse_white_space(s: Seq<char>) -> Seq<char> {
    join(words(s), seq![' '])
}

/// The words of `s`.
pub fn words_of(s: &str) -> (r: Vec<String>)
    ensures
        views(r@) == words(s@),
{
    let cs = chars_of(s);
    let mut out: Vec<String> = Vec::new();
    let mut cur = String::new();
    let mut i: usize = 0;
    assert(cs@.take(0) == Seq::<char>::empty());
    while i < cs.len()
        invariant
            cs@ == s@,
            i <= cs.len(),
            cur@.len() > 0 <==> (i > 0 && !is_white_space(cs@[i - 1])),
            cur@.len() > 0 ==> words(cs@.take(i as int)) == views(out@).push(cur@),
            cur@.len() == 0 ==> words(cs@.take(i as int)) == views(out@),
        decreases cs.len() - i,
    {
        let c = cs[i];
        let ghost t = cs@.take(i + 1);
        assert(t.drop_last() == cs@.take(i as int));
        assert(t.last() == c);
        if is_white_space_char(c) {
            if !cur.as_str().is_empty() {
                let ghost before = views(out@);
                out.push(cur);
                assert(views(out@) == before.push(out@.last()@));
                cur = String::new();
            }
        } else {
            if !cur.as_str().is_empty() {
                assert(t[t.len() - 2] == cs@[i - 1]);
                assert(words(cs@.take(i as int)).len() > 0);
                let ghost w = words(cs@.take(i as int));
                push_char(&mut cur, c);
                assert(w.update(w.len() - 1, w.last().push(c)) == views(out@).push(cur@));
            } else {
                if i >= 1 {
                    assert(t[t.len() - 2] == cs@[i - 1]);
                }
                push_char(&mut cur, c);
                assert(cur@ == seq![c]);
            }
        }
        i = i + 1;
    }
    assert(cs@.take(cs.len() as int) == cs@);
    if !cur.as_str().is_empty() {
        let ghost before = views(out@);
        out.push(cur);
        assert(views(out@) == before.push(out@.last()@));
    }
    out
}

/// `s.split_whitespace().collect::<Vec<_>>().join(" ")`.
pub fn collapse_white_space_str(s: &str) -> (r: String)
    ensures
        r@ == collapse_white_space(s@),
{
    let ws = words_of(s);
    let sep = " ";
    proof {
        reveal_strlit(" ");
    }
    let r = join_strings(&ws, sep);
    assert(sep@ == seq![' ']);
    r
}

/// The pieces of `s` between line feeds (`str::split('\n')`).
pub open spec fn split_lines(s: Seq<char>) -> Seq<Seq<char>>
    decreases s.len(),
{
    if s.len() == 0 {
        seq![seq![]]
    } else {
        let p = split_lines(s.drop_last());
        if s.last() == '\n' {
            p.push(seq![])
        } else if p.len() > 0 {
            p.update(p.len() - 1, p.last().push(s.last()))
        } else {
            seq![seq![s.last()]]
        }
    }
}

/// The trimmed lines of `lines` that are not blank, in order.
pub open spec fn trimmed_nonblank(lines: Seq<Seq<char>>) -> Seq<Seq<char>>
    decreases lines.len(),
{
    if lines.len() == 0 {
        seq![]
    } else if trim(lines.last()).len() > 0 {
        trimmed_nonblank(lines.drop_last()).push(trim(lines.last()))
    } else {
        trimmed_nonblank(lines.drop_last())
    }
}

/// The non-blank lines of `s`, trimmed. Trimming removes any carriage return
/// that ends a line, so this equals
/// `s.lines().map(str::trim).filter(|l| !l.is_empty())`.
pub open spec fn nonblank_lines(s: Seq<char>) -> Seq<Seq<char>> {
    trimmed_nonblank(split_lines(s))
}

proof fn lemma_split_lines_nonempty(s: Seq<char>)
    ensures
        split_lines(s).len() > 0,
    decreases s.len(),
{
    if s.len() > 0 {
        lemma_split_lines_nonempty(s.drop_last());
    }
}

/// The non-blank lines of `s`, each trimmed.
pub fn nonblank_lines_of(s: &str) -> (r: Vec<String>)
    ensures
        views(r@) == nonblank_lines(s@),
{
    let cs = chars_of(s);
    let mut out: Vec<String> = Vec::new();
    let mut cur = String::new();
    let ghost mut done: Seq<Seq<char>> = seq![];
    let mut i: usize = 0;
    assert(cs@.take(0) == Seq::<char>::empty());
    while i < cs.len()
        invariant
            cs@ == s@,
            i <= cs.len(),
            split_lines(cs@.take(i as int)) == done.push(cur@),
            views(out@) == trimmed_nonblank(done),
        decreases cs.len() - i,
    {
        let c = cs[i];
        let ghost t = cs@.take(i + 1);
        assert(t.drop_last() == cs@.take(i as int));
        proof {
            lemma_split_lines_nonempty(cs@.take(i as int));
        }
        if c == '\n' {
            let line = trim_str(cur.as_str());
            proof {
                assert(done.push(cur@).drop_last() == done);
                assert(done.push(cur@).last() == cur@);
            }
            if !line.as_str().is_empty() {
                let ghost before = views(out@);
                out.push(line);
                assert(views(out@) == before.push(out@.last()@));
            }
            proof {
                done = done.push(cur@);
            }
            cur = String::new();
            assert(split_lines(t) == done.push(cur@));
        } else {
            let ghost p = done.push(cur@);
            push_char(&mut cur, c);
            assert(p.update(p.len() - 1, p.last().push(c)) == done.push(cur@));
        }
        i = i + 1;
    }
    assert(cs@.take(cs.len() as int) == cs@);
    let line = trim_str(cur.as_str());
    proof {
        assert(done.push(cur@).drop_last() == done);
        assert(done.push(cur@).last() == cur@);
    }
    if !line.as_str().is_empty() {
        let ghost before = views(out@);
        out.push(line);
        assert(views(out@) == before.push(out@.last()@));
    }
    out
}


/// The length of `s` in UTF-8 bytes (`str::len`).
pub open spec fn byte_len(s: Seq<char>) -> int {
    encode_utf8(s).len() as int
}

/// Whether byte offset `n` of `s` falls between characters.
pub open spec fn at_char_boundary(s: Seq<char>, n: int) -> bool {
    is_char_boundary(encode_utf8(s), n)
}

/// The text in the first `n` UTF-8 bytes of `s` (`&s[..n]`).
pub open spec fn byte_prefix(s: Seq<char>, n: int) -> Seq<char> {
    decode_utf8(encode_utf8(s).take(n))
}

/// The text in the first `n` bytes of `s`, for `n` on a character boundary.
pub fn byte_prefix_str(s: &str, n: usize) -> (r: String)
    requires
        at_char_boundary(s@, n as int),
    ensures
        r@ == byte_prefix(s@, n as int),
{
    let (a, _b) = s.split_at(n);
    proof {
        vstd::utf8::encode_utf8_decode_utf8(a@);
        assert(encode_utf8(s@).subrange(0, n as int) == encode_utf8(s@).take(n as int));
    }
    a.to_owned()
}

/// The UTF-8 length of `s`.
pub fn byte_len_of(s: &str) -> (r: usize)
    ensures
        r == byte_len(s@),
{
    s.as_bytes().len()
}


/// `str::trim_end`, as an owned string.
pub fn trim_end_str(s: &str) -> (r: String)
    ensures
        r@ == trim_end(s@),
{
    let cs = chars_of(s);
    let n = cs.len();
    let mut hi: usize = n;
    assert(cs@.subrange(0, n as int) == cs@);
    while hi > 0 && is_white_space_char(cs[hi - 1])
        invariant
            hi <= n == cs.len(),
            trim_end(cs@) == trim_end(cs@.subrange(0, hi as int)),
        decreases hi,
    {
        proof {
            lemma_trim_end_step(cs@, 0, hi as int);
        }
        hi = hi - 1;
    }
    assert(trim_end(cs@.subrange(0, hi as int)) == cs@.subrange(0, hi as int));
    string_from_range(&cs, 0, hi)
}

} // verus!
