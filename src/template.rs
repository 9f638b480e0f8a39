//! Placeholder resolution in command lines: `${key}` from the settings, then
//! `{{key}}` from the arguments, each in a single pass from left to right.
use vstd::prelude::*;
use crate::settings::Pair;

verus! {

/// Whether position `j` of `s` holds a `}` that closes a placeholder opened
/// at the start of `s` on a key of `m`.
pub open spec fn closes_key(s: Seq<char>, m: Map<Seq<char>, Seq<char>>, j: int) -> bool {
    s[j] == '}' && m.contains_key(s.subrange(2, j))
}

/// The first position from `j` on that closes a placeholder on a key of `m`
/// opened at the start of `s`, or `s.len()` where there is none.
pub open spec fn key_close(s: Seq<char>, m: Map<Seq<char>, Seq<char>>, j: int) -> int
    decreases s.len() - j,
{
    if j < 2 || j >= s.len() {
        s.len() as int
    } else if closes_key(s, m, j) {
        j
    } else {
        key_close(s, m, j + 1)
    }
}

/// Whether `s` starts with a placeholder on a key of `m`: `${`, the key, `}`.
pub open spec fn opens_token(s: Seq<char>, m: Map<Seq<char>, Seq<char>>) -> bool {
    s.len() >= 2 && s[0] == '$' && s[1] == '{' && key_close(s, m, 2) < s.len()
}

/// The key of the placeholder at the start of `s`: the shortest that `m` holds.
pub open spec fn token_key(s: Seq<char>, m: Map<Seq<char>, Seq<char>>) -> Seq<char> {
    s.subrange(2, key_close(s, m, 2))
}

/// `s` with each settings placeholder whose key `m` holds replaced by its
/// value, in a single pass from left to right: what a value brings in is not
/// looked at again. Where keys overlap (`a` and `a}b` in `${a}b}`), the
/// placeholder closes at the first `}` that ends a key.
pub open spec fn subst_settings(s: Seq<char>, m: Map<Seq<char>, Seq<char>>) -> Seq<char>
    decreases s.len(),
    via subst_settings_decreases
{
    if s.len() == 0 {
        s
    } else if opens_token(s, m) {
        m[token_key(s, m)] + subst_settings(
            s.subrange(key_close(s, m, 2) + 1, s.len() as int),
            m,
        )
    } else {
        seq![s[0]] + subst_settings(s.drop_first(), m)
    }
}

/// Where a placeholder closes: at or after `j`, and at a `}` that ends a key.
pub proof fn lemma_key_close(s: Seq<char>, m: Map<Seq<char>, Seq<char>>, j: int)
    requires
        2 <= j <= s.len(),
    ensures
        j <= key_close(s, m, j) <= s.len(),
        key_close(s, m, j) < s.len() ==> closes_key(s, m, key_close(s, m, j)),
    decreases s.len() - j,
{
    if j < s.len() && !closes_key(s, m, j) {
        lemma_key_close(s, m, j + 1);
    }
}

#[via_fn]
proof fn subst_settings_decreases(s: Seq<char>, m: Map<Seq<char>, Seq<char>>) {
    if s.len() >= 2 {
        lemma_key_close(s, m, 2);
    }
}

/// Positions that close no placeholder can be passed over.
pub proof fn lemma_key_close_skip(s: Seq<char>, m: Map<Seq<char>, Seq<char>>, j: int, c: int)
    requires
        2 <= j <= c <= s.len(),
        forall|x: int| j <= x < c ==> !closes_key(s, m, x),
    ensures
        key_close(s, m, j) == key_close(s, m, c),
    decreases c - j,
{
    if j < c {
        lemma_key_close_skip(s, m, j + 1, c);
    }
}

/// The settings placeholder of key `k`: `${k}`.
pub open spec fn settings_token(k: Seq<char>) -> Seq<char> {
    seq!['$', '{'] + k + seq!['}']
}

/// The argument placeholder of key `k`: `{{k}}`.
pub open spec fn arg_token(k: Seq<char>) -> Seq<char> {
    seq!['{', '{'] + k + seq!['}', '}']
}

/// Whether `s` starts with `p`.
pub open spec fn starts_with(s: Seq<char>, p: Seq<char>) -> bool {
    p.len() <= s.len() && s.subrange(0, p.len() as int) == p
}

/// The index of the first pair from `j` on whose placeholder starts `s`, or
/// `args.len()` where there is none.
pub open spec fn arg_match(s: Seq<char>, args: Seq<Pair>, j: int) -> int
    decreases args.len() - j,
{
    if j < 0 || j >= args.len() {
        args.len() as int
    } else if starts_with(s, arg_token(args[j].0)) {
        j
    } else {
        arg_match(s, args, j + 1)
    }
}

/// Which pair's placeholder starts `s`: at or after `j`, the first one.
pub proof fn lemma_arg_match(s: Seq<char>, args: Seq<Pair>, j: int)
    requires
        0 <= j <= args.len(),
    ensures
        j <= arg_match(s, args, j) <= args.len(),
        arg_match(s, args, j) < args.len() ==> starts_with(
            s,
            arg_token(args[arg_match(s, args, j)].0),
        ),
        forall|x: int|
            j <= x < arg_match(s, args, j) ==> !starts_with(s, #[trigger] arg_token(args[x].0)),
    decreases args.len() - j,
{
    if j < args.len() && !starts_with(s, arg_token(args[j].0)) {
        lemma_arg_match(s, args, j + 1);
    }
}

#[via_fn]
proof fn subst_args_decreases(s: Seq<char>, args: Seq<Pair>) {
    lemma_arg_match(s, args, 0);
}

/// `s` with its argument placeholders replaced in a single pass from left to
/// right: at each position the first pair, in the order given, whose `{{key}}`
/// starts there gives its value, and the scan goes on after the placeholder.
/// What a value brings in is not looked at again, and of two pairs with one
/// key the first wins.
pub open spec fn subst_args(s: Seq<char>, args: Seq<Pair>) -> Seq<char>
    decreases s.len(),
    via subst_args_decreases
{
    if s.len() == 0 {
        s
    } else if arg_match(s, args, 0) < args.len() {
        let p = args[arg_match(s, args, 0)];
        p.1 + subst_args(s.subrange(arg_token(p.0).len() as int, s.len() as int), args)
    } else {
        seq![s[0]] + subst_args(s.drop_first(), args)
    }
}

/// A line resolved against settings `m` and then arguments `args`.
pub open spec fn resolve_line(s: Seq<char>, m: Map<Seq<char>, Seq<char>>, args: Seq<Pair>) -> Seq<
    char,
> {
    subst_args(subst_settings(s, m), args)
}

/// The placeholder of a key resolves to that key's value as it is stored,
/// whatever the value holds: resolution never expands a placeholder that a
/// value brings in. It holds where no shorter key ends at a `}` inside the
/// key (for `a}b`, where `a` is no key).
pub proof fn lemma_single_pass(m: Map<Seq<char>, Seq<char>>, k: Seq<char>)
    requires
        m.contains_key(k),
        forall|x: int| 0 <= x < k.len() && k[x] == '}' ==> !m.contains_key(#[trigger] k.subrange(0, x)),
    ensures
        subst_settings(settings_token(k), m) == m[k],
{
    let t = settings_token(k);
    let n = k.len() as int;
    assert forall|x: int| 2 <= x < n + 2 implies !closes_key(t, m, x) by {
        assert(t[x] == k[x - 2]);
        assert(t.subrange(2, x) =~= k.subrange(0, x - 2));
    }
    lemma_key_close_skip(t, m, 2, n + 2);
    assert(t.subrange(2, n + 2) =~= k);
    assert(closes_key(t, m, n + 2));
    assert(token_key(t, m) =~= k);
    let rest = t.subrange(n + 3, t.len() as int);
    assert(rest =~= Seq::<char>::empty());
    assert(subst_settings(rest, m) == Seq::<char>::empty());
    assert(m[k] + subst_settings(rest, m) =~= m[k]);
}

/// The argument placeholder `{{k}}` alone resolves to the value of the first
/// pair for `k`, whatever that value holds: no placeholder it brings in is
/// expanded. It holds where no earlier pair's placeholder starts `{{k}}`
/// (which a key holding `}` may do).
pub proof fn lemma_single_pass_args(args: Seq<Pair>, j: int)
    requires
        0 <= j < args.len(),
        forall|x: int|
            0 <= x < j ==> !starts_with(arg_token(args[j].0), #[trigger] arg_token(args[x].0)),
    ensures
        subst_args(arg_token(args[j].0), args) == args[j].1,
{
    let t = arg_token(args[j].0);
    assert(t.subrange(0, t.len() as int) =~= t);
    lemma_arg_match(t, args, 0);
    assert(arg_match(t, args, 0) == j);
    let rest = t.subrange(t.len() as int, t.len() as int);
    assert(rest =~= Seq::<char>::empty());
    assert(subst_args(rest, args) == Seq::<char>::empty());
    assert(args[j].1 + subst_args(rest, args) =~= args[j].1);
}

} // verus!
