//! The settings store: a mapping from keys to values, kept sorted by key, with
//! its text form of one `key=value` line per entry.
use vstd::prelude::*;
use crate::text::{
    compare_str, find, find_char_from, lemma_find_at, lemma_lt_irreflexive, lemma_lt_total,
    lemma_lt_transitive, lines_from, lines_of, seq_lt, split_lines, strip_cr, views,
};

verus! {

/// A key and its value, as character sequences.
pub type Pair = (Seq<char>, Seq<char>);

/// Whether the keys of `e` stand in strictly increasing order.
pub open spec fn sorted_keys(e: Seq<Pair>) -> bool {
    forall|i: int, j: int| 0 <= i < j < e.len() ==> seq_lt(e[i].0, e[j].0)
}

/// The mapping that results from inserting the pairs of `e` in order.
pub open spec fn map_of(e: Seq<Pair>) -> Map<Seq<char>, Seq<char>>
    decreases e.len(),
{
    if e.len() == 0 {
        Map::empty()
    } else {
        map_of(e.drop_last()).insert(e.last().0, e.last().1)
    }
}

/// The line that holds one pair in the settings text, without its newline.
pub open spec fn pair_line(p: Pair) -> Seq<char> {
    p.0 + seq!['='] + p.1
}

/// The settings text of `e`: one `key=value` line per pair, in order.
pub open spec fn render_pairs(e: Seq<Pair>) -> Seq<char>
    decreases e.len(),
{
    if e.len() == 0 {
        seq![]
    } else {
        pair_line(e[0]) + seq!['\n'] + render_pairs(e.drop_first())
    }
}

/// Whether line `l` holds an entry, that is, an `=`.
pub open spec fn entry_line(l: Seq<char>) -> bool {
    find(l, '=') < l.len()
}

/// The key of an entry line: what stands before its first `=`.
pub open spec fn line_key(l: Seq<char>) -> Seq<char> {
    l.subrange(0, find(l, '=') as int)
}

/// The value of an entry line: what follows its first `=`.
pub open spec fn line_value(l: Seq<char>) -> Seq<char> {
    l.subrange(find(l, '=') as int + 1, l.len() as int)
}

/// The settings that lines `ls` hold; of two entries with one key, the later wins.
pub open spec fn parse_lines(ls: Seq<Seq<char>>) -> Map<Seq<char>, Seq<char>>
    decreases ls.len(),
{
    if ls.len() == 0 {
        Map::empty()
    } else {
        let m = parse_lines(ls.drop_last());
        let l = ls.last();
        if entry_line(l) {
            m.insert(line_key(l), line_value(l))
        } else {
            m
        }
    }
}

/// The settings that a settings text holds.
pub open spec fn parse_text(t: Seq<char>) -> Map<Seq<char>, Seq<char>> {
    parse_lines(lines_of(t))
}

/// The pairs of views of a list of string pairs.
pub open spec fn pairs_of(v: Seq<(String, String)>) -> Seq<Pair> {
    v.map_values(|p: (String, String)| (p.0@, p.1@))
}

/// A mapping from keys to values, kept as pairs sorted by key.
#[derive(Clone)]
pub struct Settings {
    entries: Vec<(String, String)>,
}

impl View for Settings {
    type V = Map<Seq<char>, Seq<char>>;

    open spec fn view(&self) -> Map<Seq<char>, Seq<char>> {
        map_of(self.pairs())
    }
}

/// In a list with distinct keys, each pair gives the value of its key, and
/// the keys of the list are the keys of the mapping.
pub proof fn lemma_map_of(e: Seq<Pair>)
    requires
        sorted_keys(e),
    ensures
        forall|i: int|
            0 <= i < e.len() ==> #[trigger] map_of(e).contains_key(e[i].0) && map_of(e)[e[i].0]
                == e[i].1,
        forall|k: Seq<char>|
            #[trigger] map_of(e).contains_key(k) ==> exists|i: int| 0 <= i < e.len() && e[i].0 == k,
    decreases e.len(),
{
    if e.len() > 0 {
        let d = e.drop_last();
        assert(sorted_keys(d));
        lemma_map_of(d);
        assert forall|i: int| 0 <= i < e.len() implies #[trigger] map_of(e).contains_key(e[i].0)
            && map_of(e)[e[i].0] == e[i].1 by {
            if i < e.len() - 1 {
                assert(d[i] == e[i]);
                assert(map_of(d).contains_key(d[i].0));
                assert(seq_lt(e[i].0, e.last().0));
                lemma_lt_irreflexive(e[i].0);
            }
        }
        assert forall|k: Seq<char>| #[trigger] map_of(e).contains_key(k) implies exists|i: int|
            0 <= i < e.len() && e[i].0 == k by {
            if k != e.last().0 {
                assert(map_of(d).contains_key(k));
                let i = choose|i: int| 0 <= i < d.len() && d[i].0 == k;
                assert(e[i] == d[i]);
            } else {
                assert(e[e.len() - 1].0 == k);
            }
        }
    }
}

impl Settings {
    /// The pairs, in key order.
    pub closed spec fn pairs(&self) -> Seq<Pair> {
        pairs_of(self.entries@)
    }

    /// The keys stand in strictly increasing order.
    pub open spec fn wf(&self) -> bool {
        sorted_keys(self.pairs())
    }

    /// No settings at all.
    pub fn new() -> (r: Settings)
        ensures
            r.wf(),
            r@ == Map::<Seq<char>, Seq<char>>::empty(),
            r.pairs().len() == 0,
    {
        let r = Settings { entries: Vec::new() };
        assert(r.pairs().len() == 0);
        r
    }

    /// The key and value of each entry, in key order.
    pub fn entries(&self) -> (r: &Vec<(String, String)>)
        ensures
            pairs_of(r@) == self.pairs(),
    {
        &self.entries
    }

    /// The value of `key`, if it has one.
    pub fn get(&self, key: &str) -> (r: Option<&String>)
        requires
            self.wf(),
        ensures
            match r {
                Some(v) => self@.contains_key(key@) && self@[key@] == v@,
                None => !self@.contains_key(key@),
            },
    {
        let n = self.entries.len();
        let mut i: usize = 0;
        while i < n
            invariant
                i <= n,
                n == self.entries@.len(),
                self.wf(),
                forall|j: int| 0 <= j < i ==> self.pairs()[j].0 != key@,
            decreases n - i,
        {
            if compare_str(self.entries[i].0.as_str(), key) == 0 {
                proof {
                    lemma_map_of(self.pairs());
                    assert(self.pairs()[i as int].0 == key@);
                    assert(map_of(self.pairs()).contains_key(self.pairs()[i as int].0));
                }
                return Some(&self.entries[i].1);
            }
            i = i + 1;
        }
        proof {
            lemma_map_of(self.pairs());
            if self@.contains_key(key@) {
                let j = choose|j: int| 0 <= j < self.pairs().len() && self.pairs()[j].0 == key@;
            }
        }
        None
    }

    /// Sets `key` to `value`, in place of any value it had.
    pub fn insert(&mut self, key: &str, value: &str)
        requires
            old(self).wf(),
        ensures
            final(self).wf(),
            final(self)@ == old(self)@.insert(key@, value@),
    {
        let ghost e = self.pairs();
        proof {
            lemma_map_of(e);
        }
        let n = self.entries.len();
        let mut p: usize = 0;
        while p < n && compare_str(self.entries[p].0.as_str(), key) < 0
            invariant
                p <= n,
                n == self.entries@.len(),
                e == self.pairs(),
                forall|j: int| 0 <= j < p ==> seq_lt(e[j].0, key@),
            decreases n - p,
        {
            p = p + 1;
        }
        let item = (String::from_str(key), String::from_str(value));
        let ghost kv: Pair = (key@, value@);
        if p < n && compare_str(self.entries[p].0.as_str(), key) == 0 {
            self.entries.set(p, item);
            proof {
                let f = self.pairs();
                assert(f =~= e.update(p as int, kv));
                assert forall|i: int, j: int| 0 <= i < j < f.len() implies seq_lt(
                    f[i].0,
                    f[j].0,
                ) by {
                    assert(e[i].0 == f[i].0 || i == p);
                    assert(e[j].0 == f[j].0 || j == p);
                }
                lemma_map_of(f);
                assert forall|k: Seq<char>| #[trigger]
                    map_of(f).contains_key(k) <==> map_of(e).insert(key@, value@).contains_key(
                        k,
                    ) by {
                    if k == key@ {
                        assert(map_of(f).contains_key(f[p as int].0));
                    } else if map_of(e).contains_key(k) {
                        let i = choose|i: int| 0 <= i < e.len() && e[i].0 == k;
                        assert(f[i].0 == k);
                        assert(map_of(f).contains_key(f[i].0));
                    }
                    if map_of(f).contains_key(k) {
                        let i = choose|i: int| 0 <= i < f.len() && f[i].0 == k;
                        if i != p {
                            assert(e[i].0 == k);
                            assert(map_of(e).contains_key(e[i].0));
                        }
                    }
                }
                assert forall|k: Seq<char>| #[trigger]
                    map_of(f).contains_key(k) implies map_of(f)[k] == map_of(e).insert(
                    key@,
                    value@,
                )[k] by {
                    let i = choose|i: int| 0 <= i < f.len() && f[i].0 == k;
                    assert(map_of(f).contains_key(f[i].0));
                    if i != p {
                        assert(e[i] == f[i]);
                        assert(map_of(e).contains_key(e[i].0));
                        if k == key@ {
                            lemma_lt_irreflexive(k);
                            assert(f[p as int].0 == k);
                        }
                    }
                }
                assert(map_of(f) =~= map_of(e).insert(key@, value@));
            }
        } else {
            self.entries.insert(p, item);
            proof {
                let f = self.pairs();
                assert(f =~= e.insert(p as int, kv));
                if p < n {
                    lemma_lt_total(key@, e[p as int].0);
                }
                assert forall|i: int, j: int| 0 <= i < j < f.len() implies seq_lt(
                    f[i].0,
                    f[j].0,
                ) by {
                    if j == p {
                        assert(seq_lt(e[i].0, key@));
                    } else if i == p {
                        assert(f[j] == e[j - 1]);
                        if j - 1 > p {
                            lemma_lt_transitive(key@, e[p as int].0, e[j - 1].0);
                        }
                    } else if j < p {
                        assert(f[i] == e[i] && f[j] == e[j]);
                    } else if i < p {
                        assert(f[i] == e[i] && f[j] == e[j - 1]);
                    } else {
                        assert(f[i] == e[i - 1] && f[j] == e[j - 1]);
                    }
                }
                lemma_map_of(f);
                assert forall|i: int| 0 <= i < e.len() implies e[i].0 != key@ by {
                    if i < p {
                        lemma_lt_irreflexive(key@);
                    } else {
                        if i > p {
                            lemma_lt_transitive(key@, e[p as int].0, e[i].0);
                        }
                        lemma_lt_irreflexive(key@);
                    }
                }
                assert forall|k: Seq<char>| #[trigger]
                    map_of(f).contains_key(k) <==> map_of(e).insert(key@, value@).contains_key(
                        k,
                    ) by {
                    if k == key@ {
                        assert(map_of(f).contains_key(f[p as int].0));
                    } else if map_of(e).contains_key(k) {
                        let i = choose|i: int| 0 <= i < e.len() && e[i].0 == k;
                        if i < p {
                            assert(f[i].0 == k);
                            assert(map_of(f).contains_key(f[i].0));
                        } else {
                            assert(f[i + 1].0 == k);
                            assert(map_of(f).contains_key(f[i + 1].0));
                        }
                    }
                    if map_of(f).contains_key(k) {
                        let i = choose|i: int| 0 <= i < f.len() && f[i].0 == k;
                        if i < p {
                            assert(e[i].0 == k);
                            assert(map_of(e).contains_key(e[i].0));
                        } else if i > p {
                            assert(e[i - 1].0 == k);
                            assert(map_of(e).contains_key(e[i - 1].0));
                        }
                    }
                }
                assert forall|k: Seq<char>| #[trigger]
                    map_of(f).contains_key(k) implies map_of(f)[k] == map_of(e).insert(
                    key@,
                    value@,
                )[k] by {
                    let i = choose|i: int| 0 <= i < f.len() && f[i].0 == k;
                    if i < p {
                        assert(e[i] == f[i]);
                    } else if i > p {
                        assert(e[i - 1] == f[i]);
                    }
                }
                assert(map_of(f) =~= map_of(e).insert(key@, value@));
            }
        }
    }
}

impl Settings {
    /// The settings that a settings text holds: each line with an `=` gives
    /// the pair of what stands before its first `=` and what follows it, as
    /// they are; other lines are ignored, and of two lines with one key the
    /// later wins.
    pub fn parse(text: &str) -> (r: Settings)
        ensures
            r.wf(),
            r@ == parse_text(text@),
    {
        let lines = split_lines(text);
        let mut r = Settings::new();
        let mut i: usize = 0;
        assert(views(lines@).subrange(0, 0) =~= Seq::<Seq<char>>::empty());
        while i < lines.len()
            invariant
                i <= lines@.len(),
                views(lines@) == lines_of(text@),
                r.wf(),
                r@ == parse_lines(views(lines@).subrange(0, i as int)),
            decreases lines@.len() - i,
        {
            let l = lines[i].as_str();
            let n = l.unicode_len();
            let f = find_char_from(l, '=', 0);
            proof {
                assert(l@.subrange(0, n as int) =~= l@);
                let ls = views(lines@).subrange(0, i + 1);
                assert(ls.drop_last() =~= views(lines@).subrange(0, i as int));
                assert(ls.last() == l@);
            }
            if f < n {
                let k = l.substring_char(0, f);
                let v = l.substring_char(f + 1, n);
                r.insert(k, v);
            }
            i = i + 1;
        }
        assert(views(lines@).subrange(0, lines@.len() as int) =~= views(lines@));
        r
    }

    /// The settings text: one `key=value` line per entry, in key order.
    pub fn render(&self) -> (r: String)
        requires
            self.wf(),
        ensures
            r@ == render_pairs(self.pairs()),
    {
        let mut out = String::new();
        let n = self.entries.len();
        let mut i: usize = 0;
        proof {
            reveal_strlit("=");
            reveal_strlit("\n");
            assert(self.pairs().subrange(0, 0) =~= Seq::<Pair>::empty());
        }
        while i < n
            invariant
                i <= n,
                n == self.pairs().len(),
                "="@ == seq!['='],
                "\n"@ == seq!['\n'],
                out@ == render_pairs(self.pairs().subrange(0, i as int)),
            decreases n - i,
        {
            let ghost before = out@;
            out.append(self.entries[i].0.as_str());
            out.append("=");
            out.append(self.entries[i].1.as_str());
            out.append("\n");
            proof {
                let e = self.pairs();
                lemma_render_push(e.subrange(0, i as int), e[i as int]);
                assert(e.subrange(0, i as int).push(e[i as int]) =~= e.subrange(0, i + 1));
                assert(out@ =~= before + pair_line(e[i as int]) + seq!['\n']);
            }
            i = i + 1;
        }
        assert(self.pairs().subrange(0, n as int) =~= self.pairs());
        out
    }
}

/// Rendering one more pair adds its line at the end.
pub proof fn lemma_render_push(a: Seq<Pair>, x: Pair)
    ensures
        render_pairs(a.push(x)) == render_pairs(a) + pair_line(x) + seq!['\n'],
    decreases a.len(),
{
    if a.len() == 0 {
        assert(a.push(x).drop_first() =~= Seq::<Pair>::empty());
        assert(a.push(x)[0] == x);
        assert(render_pairs(Seq::<Pair>::empty()) == Seq::<char>::empty());
        assert(render_pairs(a) == Seq::<char>::empty());
        assert(render_pairs(a.push(x)) =~= pair_line(x) + seq!['\n']);
    } else {
        assert(a.push(x).drop_first() =~= a.drop_first().push(x));
        lemma_render_push(a.drop_first(), x);
        assert(render_pairs(a.push(x)) =~= render_pairs(a) + pair_line(x) + seq!['\n']);
    }
}

/// Whether `s` holds `c`.
pub open spec fn holds(s: Seq<char>, c: char) -> bool {
    exists|i: int| 0 <= i < s.len() && s[i] == c
}

/// Whether a key and its value come back unchanged from the settings text:
/// neither holds a line break, the key holds no `=`, and the value does not
/// end in a carriage return (which would read as part of the line ending).
pub open spec fn storable(k: Seq<char>, v: Seq<char>) -> bool {
    &&& !holds(k, '=')
    &&& !holds(k, '\n')
    &&& !holds(v, '\n')
    &&& !(v.len() > 0 && v.last() == '\r')
}

/// The lines of a line without a break, followed by a break and `rest`.
proof fn lemma_lines_line(x: Seq<char>, rest: Seq<char>, cur: Seq<char>)
    requires
        !holds(x, '\n'),
    ensures
        lines_from(x + seq!['\n'] + rest, cur) == seq![strip_cr(cur + x)] + lines_from(
            rest,
            seq![],
        ),
    decreases x.len(),
{
    let s = x + seq!['\n'] + rest;
    if x.len() == 0 {
        assert(s.drop_first() =~= rest);
        assert(cur + x =~= cur);
    } else {
        assert(s[0] == x[0]);
        assert(s.drop_first() =~= x.drop_first() + seq!['\n'] + rest);
        assert(!holds(x.drop_first(), '\n')) by {
            if holds(x.drop_first(), '\n') {
                let i = choose|i: int| 0 <= i < x.drop_first().len() && x.drop_first()[i] == '\n';
                assert(x[i + 1] == '\n');
            }
        }
        if x[0] == '\n' {
            assert(holds(x, '\n'));
        }
        lemma_lines_line(x.drop_first(), rest, cur.push(x[0]));
        assert(cur.push(x[0]) + x.drop_first() =~= cur + x);
    }
}

/// The lines of a rendered list of storable pairs are the pairs' lines.
proof fn lemma_lines_render(e: Seq<Pair>)
    requires
        forall|i: int| 0 <= i < e.len() ==> storable(#[trigger] e[i].0, e[i].1),
    ensures
        lines_of(render_pairs(e)) == e.map_values(|p: Pair| pair_line(p)),
    decreases e.len(),
{
    if e.len() == 0 {
        assert(e.map_values(|p: Pair| pair_line(p)) =~= Seq::<Seq<char>>::empty());
    } else {
        let p = e[0];
        let l = pair_line(p);
        assert(storable(e[0].0, e[0].1));
        assert(!holds(l, '\n')) by {
            if holds(l, '\n') {
                let i = choose|i: int| 0 <= i < l.len() && l[i] == '\n';
                if i < p.0.len() {
                    assert(p.0[i] == '\n');
                } else if i > p.0.len() {
                    assert(p.1[i - p.0.len() - 1] == '\n');
                }
            }
        }
        assert(strip_cr(l) == l) by {
            if p.1.len() > 0 {
                assert(l.last() == p.1.last());
            }
        }
        assert(render_pairs(e) == l + seq!['\n'] + render_pairs(e.drop_first()));
        lemma_lines_line(l, render_pairs(e.drop_first()), seq![]);
        assert(seq![] + l =~= l);
        assert forall|i: int| 0 <= i < e.drop_first().len() implies storable(
            #[trigger] e.drop_first()[i].0,
            e.drop_first()[i].1,
        ) by {
            assert(e.drop_first()[i] == e[i + 1]);
        }
        lemma_lines_render(e.drop_first());
        assert(e.map_values(|p: Pair| pair_line(p)) =~= seq![l] + e.drop_first().map_values(
            |p: Pair| pair_line(p),
        ));
    }
}

/// The line of a storable pair parses back to the pair.
proof fn lemma_parse_pair_line(p: Pair)
    requires
        storable(p.0, p.1),
    ensures
        entry_line(pair_line(p)),
        line_key(pair_line(p)) == p.0,
        line_value(pair_line(p)) == p.1,
{
    let l = pair_line(p);
    let n: int = p.0.len() as int;
    assert forall|j: int| 0 <= j < n implies l[j] != '=' by {
        assert(l[j] == p.0[j]);
        if p.0[j] == '=' {
            assert(holds(p.0, '='));
        }
    }
    lemma_find_at(l, '=', n);
    assert(l.subrange(0, n) =~= p.0);
    assert(l.subrange(n + 1, l.len() as int) =~= p.1);
}

/// Parsing the lines of a list of storable pairs inserts the pairs in order.
proof fn lemma_parse_lines_pairs(e: Seq<Pair>)
    requires
        forall|i: int| 0 <= i < e.len() ==> storable(#[trigger] e[i].0, e[i].1),
    ensures
        parse_lines(e.map_values(|p: Pair| pair_line(p))) == map_of(e),
    decreases e.len(),
{
    if e.len() > 0 {
        let ls = e.map_values(|p: Pair| pair_line(p));
        assert(ls.drop_last() =~= e.drop_last().map_values(|p: Pair| pair_line(p)));
        assert forall|i: int| 0 <= i < e.drop_last().len() implies storable(
            #[trigger] e.drop_last()[i].0,
            e.drop_last()[i].1,
        ) by {
            assert(e.drop_last()[i] == e[i]);
        }
        lemma_parse_lines_pairs(e.drop_last());
        assert(storable(e[e.len() - 1].0, e[e.len() - 1].1));
        lemma_parse_pair_line(e.last());
    }
}

/// Saving settings whose keys and values are storable and loading the text
/// back gives the same settings.
pub proof fn lemma_save_load(s: Settings)
    requires
        s.wf(),
        forall|k: Seq<char>| #[trigger] s@.contains_key(k) ==> storable(k, s@[k]),
    ensures
        parse_text(render_pairs(s.pairs())) == s@,
{
    let e = s.pairs();
    lemma_map_of(e);
    assert forall|i: int| 0 <= i < e.len() implies storable(#[trigger] e[i].0, e[i].1) by {
        assert(s@.contains_key(e[i].0));
    }
    lemma_lines_render(e);
    lemma_parse_lines_pairs(e);
}

} // verus!
