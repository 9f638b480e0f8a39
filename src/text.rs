//! Character-level helpers: whitespace, trimming and searching in strings.
use vstd::prelude::*;

verus! {

/// The Unicode `White_Space` property, which `char::is_whitespace` tests.
pub open spec fn is_ws(c: char) -> bool {
    let u = c as int;
    (0x9 <= u && u <= 0xd) || u == 0x20 || u == 0x85 || u == 0xa0 || u == 0x1680 || (0x2000 <= u
        && u <= 0x200a) || u == 0x2028 || u == 0x2029 || u == 0x202f || u == 0x205f || u == 0x3000
}

/// `s` with its leading whitespace removed.
pub open spec fn trim_start(s: Seq<char>) -> Seq<char>
    decreases s.len(),
{
    if s.len() > 0 && is_ws(s[0]) {
        trim_start(s.drop_first())
    } else {
        s
    }
}

/// `s` with its trailing whitespace removed.
pub open spec fn trim_end(s: Seq<char>) -> Seq<char>
    decreases s.len(),
{
    if s.len() > 0 && is_ws(s.last()) {
        trim_end(s.drop_last())
    } else {
        s
    }
}

/// `s` with whitespace removed at both ends.
pub open spec fn trim(s: Seq<char>) -> Seq<char> {
    trim_end(trim_start(s))
}

/// Whether `s` holds whitespace only (or nothing).
pub open spec fn is_blank(s: Seq<char>) -> bool {
    trim(s).len() == 0
}

/// A string of whitespace only, the empty one included, is blank.
pub proof fn lemma_whitespace_is_blank(s: Seq<char>)
    requires
        forall|i: int| 0 <= i < s.len() ==> is_ws(#[trigger] s[i]),
    ensures
        is_blank(s),
    decreases s.len(),
{
    if s.len() > 0 {
        assert forall|i: int| 0 <= i < s.drop_first().len() implies is_ws(
            #[trigger] s.drop_first()[i],
        ) by {
            assert(s.drop_first()[i] == s[i + 1]);
        }
        lemma_whitespace_is_blank(s.drop_first());
        assert(trim_start(s) == trim_start(s.drop_first()));
    } else {
        assert(trim_start(s) == s);
        assert(trim_end(s) == s);
    }
}

/// Tests a character for the Unicode `White_Space` property.
pub fn is_whitespace(c: char) -> (r: bool)
    ensures
        r == is_ws(c),
{
    let u = c as u32;
    (0x9 <= u && u <= 0xd) || u == 0x20 || u == 0x85 || u == 0xa0 || u == 0x1680 || (0x2000 <= u
        && u <= 0x200a) || u == 0x2028 || u == 0x2029 || u == 0x202f || u == 0x205f || u == 0x3000
}

/// Removes the whitespace at both ends of `s`.
pub fn trim_str(s: &str) -> (r: &str)
    ensures
        r@ == trim(s@),
{
    let n = s.unicode_len();
    let mut lo: usize = 0;
    assert(s@.subrange(0, n as int) =~= s@);
    while lo < n && is_whitespace(s.get_char(lo))
        invariant
            lo <= n,
            n == s@.len(),
            trim_start(s@) == trim_start(s@.subrange(lo as int, n as int)),
        decreases n - lo,
    {
        assert(s@.subrange(lo as int, n as int).drop_first() =~= s@.subrange(
            lo + 1,
            n as int,
        ));
        lo = lo + 1;
    }
    assert(trim_start(s@) == s@.subrange(lo as int, n as int));
    let mut hi: usize = n;
    while hi > lo && is_whitespace(s.get_char(hi - 1))
        invariant
            lo <= hi <= n,
            n == s@.len(),
            trim(s@) == trim_end(s@.subrange(lo as int, hi as int)),
        decreases hi - lo,
    {
        assert(s@.subrange(lo as int, hi as int).drop_last() =~= s@.subrange(
            lo as int,
            hi - 1,
        ));
        hi = hi - 1;
    }
    proof {
        let t = s@.subrange(lo as int, hi as int);
        assert(t.len() == 0 || !is_ws(t.last()));
    }
    s.substring_char(lo, hi)
}

/// Whether `s` is empty once trimmed.
pub fn is_blank_str(s: &str) -> (r: bool)
    ensures
        r == is_blank(s@),
{
    trim_str(s).unicode_len() == 0
}

/// Position of the first `c` in `s`, or `s.len()` where there is none.
pub open spec fn find(s: Seq<char>, c: char) -> nat
    decreases s.len(),
{
    if s.len() == 0 {
        0
    } else if s[0] == c {
        0
    } else {
        1 + find(s.drop_first(), c)
    }
}

/// `find` is the first position holding `c`.
pub proof fn lemma_find(s: Seq<char>, c: char)
    ensures
        find(s, c) <= s.len(),
        find(s, c) < s.len() ==> s[find(s, c) as int] == c,
        forall|j: int| 0 <= j < find(s, c) ==> s[j] != c,
    decreases s.len(),
{
    if s.len() > 0 && s[0] != c {
        lemma_find(s.drop_first(), c);
        assert forall|j: int| 0 <= j < find(s, c) implies s[j] != c by {
            if j > 0 {
                assert(s[j] == s.drop_first()[j - 1]);
            }
        }
    }
}

/// A position before which no `c` stands, and which holds `c` or ends `s`, is `find`.
pub proof fn lemma_find_at(s: Seq<char>, c: char, i: int)
    requires
        0 <= i <= s.len(),
        forall|j: int| 0 <= j < i ==> s[j] != c,
        i == s.len() || s[i] == c,
    ensures
        find(s, c) == i,
    decreases s.len(),
{
    if s.len() > 0 && i > 0 {
        assert forall|j: int| 0 <= j < i - 1 implies s.drop_first()[j] != c by {
            assert(s.drop_first()[j] == s[j + 1]);
        }
        lemma_find_at(s.drop_first(), c, i - 1);
    }
}

/// Finds the first `c` in `s` at or after `start`; `s@.len()` where there is none.
pub fn find_char_from(s: &str, c: char, start: usize) -> (r: usize)
    requires
        start <= s@.len(),
    ensures
        r == start + find(s@.subrange(start as int, s@.len() as int), c),
{
    let n = s.unicode_len();
    let mut i: usize = start;
    while i < n && s.get_char(i) != c
        invariant
            start <= i <= n,
            n == s@.len(),
            forall|j: int| start <= j < i ==> s@[j] != c,
        decreases n - i,
    {
        i = i + 1;
    }
    proof {
        let t = s@.subrange(start as int, n as int);
        lemma_find_at(t, c, i - start);
    }
    i
}

/// Lexicographic order on character sequences, by code point.
pub open spec fn seq_lt(a: Seq<char>, b: Seq<char>) -> bool
    decreases a.len(),
{
    if a.len() == 0 {
        b.len() > 0
    } else if b.len() == 0 {
        false
    } else if a[0] != b[0] {
        (a[0] as int) < (b[0] as int)
    } else {
        seq_lt(a.drop_first(), b.drop_first())
    }
}

/// No sequence is below itself.
pub proof fn lemma_lt_irreflexive(a: Seq<char>)
    ensures
        !seq_lt(a, a),
    decreases a.len(),
{
    if a.len() > 0 {
        lemma_lt_irreflexive(a.drop_first());
    }
}

/// The order is transitive.
pub proof fn lemma_lt_transitive(a: Seq<char>, b: Seq<char>, c: Seq<char>)
    requires
        seq_lt(a, b),
        seq_lt(b, c),
    ensures
        seq_lt(a, c),
    decreases a.len(),
{
    if a.len() > 0 && b.len() > 0 && c.len() > 0 && a[0] == b[0] && b[0] == c[0] {
        lemma_lt_transitive(a.drop_first(), b.drop_first(), c.drop_first());
    }
}

/// Two different sequences are ordered one way or the other.
pub proof fn lemma_lt_total(a: Seq<char>, b: Seq<char>)
    ensures
        a == b || seq_lt(a, b) || seq_lt(b, a),
    decreases a.len(),
{
    if a.len() > 0 && b.len() > 0 && a[0] == b[0] {
        lemma_lt_total(a.drop_first(), b.drop_first());
        if a.drop_first() == b.drop_first() {
            assert(a =~= seq![a[0]] + a.drop_first());
            assert(b =~= seq![b[0]] + b.drop_first());
        }
    } else if a.len() == 0 && b.len() == 0 {
        assert(a =~= b);
    } else if a.len() > 0 && b.len() > 0 {
        assert((a[0] as int) != (b[0] as int));
    }
}

/// Compares two strings: negative when `a` comes first, zero when they are
/// equal, positive when `b` comes first.
pub fn compare_str(a: &str, b: &str) -> (r: i8)
    ensures
        r < 0 <==> seq_lt(a@, b@),
        r == 0 <==> a@ == b@,
        r > 0 <==> seq_lt(b@, a@),
{
    let na = a.unicode_len();
    let nb = b.unicode_len();
    let mut i: usize = 0;
    assert(a@.subrange(0, na as int) =~= a@);
    assert(b@.subrange(0, nb as int) =~= b@);
    while i < na && i < nb && a.get_char(i) == b.get_char(i)
        invariant
            i <= na,
            i <= nb,
            na == a@.len(),
            nb == b@.len(),
            seq_lt(a@, b@) == seq_lt(a@.subrange(i as int, na as int), b@.subrange(i as int, nb as int)),
            seq_lt(b@, a@) == seq_lt(b@.subrange(i as int, nb as int), a@.subrange(i as int, na as int)),
            (a@ == b@) == (a@.subrange(i as int, na as int) == b@.subrange(i as int, nb as int)),
        decreases na - i,
    {
        proof {
            let sa = a@.subrange(i as int, na as int);
            let sb = b@.subrange(i as int, nb as int);
            assert(sa.drop_first() =~= a@.subrange(i + 1, na as int));
            assert(sb.drop_first() =~= b@.subrange(i + 1, nb as int));
            assert(sa =~= seq![sa[0]] + sa.drop_first());
            assert(sb =~= seq![sb[0]] + sb.drop_first());
            if sa.drop_first() == sb.drop_first() {
                assert(sa == sb);
            }
        }
        i = i + 1;
    }
    let ghost sa = a@.subrange(i as int, na as int);
    let ghost sb = b@.subrange(i as int, nb as int);
    if i < na && i < nb {
        let ca = a.get_char(i);
        let cb = b.get_char(i);
        assert(sa[0] != sb[0]);
        if (ca as u32) < (cb as u32) {
            -1
        } else {
            1
        }
    } else if i < na {
        assert(sa != sb);
        1
    } else if i < nb {
        assert(sa != sb);
        -1
    } else {
        assert(sa =~= sb);
        0
    }
}

/// Whether `p` occurs in `s` at position `i`.
pub fn matches_at(s: &str, p: &str, i: usize) -> (r: bool)
    requires
        i + p@.len() <= s@.len(),
    ensures
        r == (s@.subrange(i as int, i + p@.len()) == p@),
{
    let n = s.unicode_len();
    let m = p.unicode_len();
    let mut j: usize = 0;
    while j < m
        invariant
            n == s@.len(),
            j <= m,
            m == p@.len(),
            i + m <= s@.len(),
            forall|k: int| 0 <= k < j ==> s@[i + k] == p@[k],
        decreases m - j,
    {
        if s.get_char(i + j) != p.get_char(j) {
            assert(s@.subrange(i as int, i + m)[j as int] != p@[j as int]);
            return false;
        }
        j = j + 1;
    }
    assert(s@.subrange(i as int, i + m) =~= p@);
    true
}

/// `cur` as a one-element sequence when it is not empty; nothing otherwise.
pub open spec fn flush(cur: Seq<char>) -> Seq<Seq<char>> {
    if cur.len() > 0 {
        seq![cur]
    } else {
        seq![]
    }
}

/// `line` without a final carriage return.
pub open spec fn strip_cr(line: Seq<char>) -> Seq<char> {
    if line.len() > 0 && line.last() == '\r' {
        line.drop_last()
    } else {
        line
    }
}

/// The lines of `s` when the line under construction so far is `cur`, as
/// `str::lines` gives them: split at each `\n`, a `\r` right before it
/// dropped, and no empty last line after a final `\n`.
pub open spec fn lines_from(s: Seq<char>, cur: Seq<char>) -> Seq<Seq<char>>
    decreases s.len(),
{
    if s.len() == 0 {
        flush(cur)
    } else if s[0] == '\n' {
        seq![strip_cr(cur)] + lines_from(s.drop_first(), seq![])
    } else {
        lines_from(s.drop_first(), cur.push(s[0]))
    }
}

/// The lines of `s`.
pub open spec fn lines_of(s: Seq<char>) -> Seq<Seq<char>> {
    lines_from(s, seq![])
}

/// The views of a sequence of strings.
pub open spec fn views(v: Seq<String>) -> Seq<Seq<char>> {
    v.map_values(|x: String| x@)
}

/// Splits `s` into its lines.
pub fn split_lines(s: &str) -> (r: Vec<String>)
    ensures
        views(r@) == lines_of(s@),
{
    let n = s.unicode_len();
    let mut r: Vec<String> = Vec::new();
    let mut start: usize = 0;
    let mut i: usize = 0;
    assert(s@.subrange(0, n as int) =~= s@);
    assert(s@.subrange(0, 0) =~= Seq::<char>::empty());
    while i < n
        invariant
            start <= i <= n,
            n == s@.len(),
            views(r@) + lines_from(s@.subrange(i as int, n as int), s@.subrange(
                start as int,
                i as int,
            )) == lines_of(s@),
        decreases n - i,
    {
        let ghost t = s@.subrange(i as int, n as int);
        let ghost cur = s@.subrange(start as int, i as int);
        assert(t.drop_first() =~= s@.subrange(i + 1, n as int));
        if s.get_char(i) == '\n' {
            let end: usize = if i > start && s.get_char(i - 1) == '\r' {
                i - 1
            } else {
                i
            };
            let line = String::from_str(s.substring_char(start, end));
            assert(line@ =~= strip_cr(cur));
            let ghost before = views(r@);
            r.push(line);
            assert(views(r@) =~= before + seq![line@]);
            assert(s@.subrange(i + 1, i + 1) =~= Seq::<char>::empty());
            assert(views(r@) + lines_from(t.drop_first(), seq![]) =~= before + (seq![strip_cr(cur)]
                + lines_from(t.drop_first(), seq![])));
            start = i + 1;
        } else {
            assert(cur.push(t[0]) =~= s@.subrange(start as int, i + 1));
        }
        i = i + 1;
    }
    let ghost cur = s@.subrange(start as int, n as int);
    if start < n {
        let line = String::from_str(s.substring_char(start, n));
        let ghost before = views(r@);
        r.push(line);
        assert(views(r@) =~= before + seq![line@]);
    } else {
        assert(views(r@) + flush(cur) =~= views(r@));
    }
    r
}

/// The maximal runs of non-whitespace characters of `s`, when the run under
/// construction so far is `cur`, as `str::split_whitespace` gives them.
pub open spec fn words_from(s: Seq<char>, cur: Seq<char>) -> Seq<Seq<char>>
    decreases s.len(),
{
    if s.len() == 0 {
        flush(cur)
    } else if is_ws(s[0]) {
        flush(cur) + words_from(s.drop_first(), seq![])
    } else {
        words_from(s.drop_first(), cur.push(s[0]))
    }
}

/// The whitespace-separated words of `s`.
pub open spec fn words_of(s: Seq<char>) -> Seq<Seq<char>> {
    words_from(s, seq![])
}

/// Splits `s` at whitespace, dropping empty pieces.
pub fn split_words(s: &str) -> (r: Vec<String>)
    ensures
        views(r@) == words_of(s@),
{
    let n = s.unicode_len();
    let mut r: Vec<String> = Vec::new();
    let mut start: usize = 0;
    let mut i: usize = 0;
    assert(s@.subrange(0, n as int) =~= s@);
    assert(s@.subrange(0, 0) =~= Seq::<char>::empty());
    while i < n
        invariant
            start <= i <= n,
            n == s@.len(),
            views(r@) + words_from(s@.subrange(i as int, n as int), s@.subrange(
                start as int,
                i as int,
            )) == words_of(s@),
        decreases n - i,
    {
        let ghost t = s@.subrange(i as int, n as int);
        let ghost cur = s@.subrange(start as int, i as int);
        assert(t.drop_first() =~= s@.subrange(i + 1, n as int));
        if is_whitespace(s.get_char(i)) {
            let ghost before = views(r@);
            if start < i {
                let word = String::from_str(s.substring_char(start, i));
                r.push(word);
                assert(views(r@) =~= before + seq![word@]);
            } else {
                assert(views(r@) =~= before + flush(cur));
            }
            assert(s@.subrange(i + 1, i + 1) =~= Seq::<char>::empty());
            assert(views(r@) + words_from(t.drop_first(), seq![]) =~= before + (flush(cur)
                + words_from(t.drop_first(), seq![])));
            start = i + 1;
        } else {
            assert(cur.push(t[0]) =~= s@.subrange(start as int, i + 1));
        }
        i = i + 1;
    }
    let ghost cur = s@.subrange(start as int, n as int);
    if start < n {
        let word = String::from_str(s.substring_char(start, n));
        let ghost before = views(r@);
        r.push(word);
        assert(views(r@) =~= before + seq![word@]);
    } else {
        assert(views(r@) + flush(cur) =~= views(r@));
    }
    r
}

/// `dir` joined with the relative file name `file`, with one `/` between
/// them unless `dir` is empty or already ends in `/`.
pub open spec fn join_path(dir: Seq<char>, file: Seq<char>) -> Seq<char> {
    if dir.len() == 0 || dir.last() == '/' {
        dir + file
    } else {
        dir + seq!['/'] + file
    }
}

/// Joins directory `dir` and the relative file name `file`.
pub fn join_str(dir: &str, file: &str) -> (r: String)
    ensures
        r@ == join_path(dir@, file@),
{
    let mut r = String::from_str(dir);
    let n = dir.unicode_len();
    if n > 0 && dir.get_char(n - 1) != '/' {
        r.append("/");
    }
    r.append(file);
    proof {
        reveal_strlit("/");
    }
    r
}

} // verus!
