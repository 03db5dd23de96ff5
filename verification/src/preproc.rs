//! The preprocessor that runs before parsing: `replace NAME [value]`
//! directives are collected and stripped, every name is substituted, and each
//! line is trimmed. `include "file"` lines are recognised here; reading the
//! files they name is left to the caller.

use vstd::prelude::*;
use crate::text::{
    chars_of, find_char, index_of, is_unicode_ws, lemma_index_of_range, push_str, range_eq,
    range_starts_with, replace_all, string_of, string_of_range, strip_prefix, strip_suffix, trim,
    trim_range, unicode_ws,
};

verus! {

/// A line without the `\r` of a `\r\n` ending.
pub open spec fn strip_cr(l: Seq<char>) -> Seq<char> {
    if l.len() > 0 && l.last() == '\r' {
        l.drop_last()
    } else {
        l
    }
}

/// The first line of `s` (as `str::lines` yields it) and the text after it.
pub open spec fn next_line(s: Seq<char>) -> (Seq<char>, Seq<char>) {
    match index_of(s, '\n') {
        Some(k) => (strip_cr(s.take(k)), s.skip(k + 1)),
        None => (s, seq![]),
    }
}

pub proof fn lemma_next_line_shrinks(s: Seq<char>)
    requires
        s.len() > 0,
    ensures
        next_line(s).1.len() < s.len(),
{
    lemma_index_of_range(s, '\n');
}

/// The text after `replace ` on a directive line.
pub open spec fn directive(t: Seq<char>) -> Option<Seq<char>> {
    strip_prefix(t, "replace "@)
}

/// The input with every line trimmed and ended by `\n`, and the `replace`
/// lines left out.
pub open spec fn kept_lines(s: Seq<char>) -> Seq<char>
    decreases s.len(),
{
    if s.len() == 0 {
        seq![]
    } else {
        let (line, rest) = next_line(s);
        let t = trim(line);
        proof {
            lemma_next_line_shrinks(s);
        }
        (if directive(t) is Some {
            seq![]
        } else {
            t + "\n"@
        }) + kept_lines(rest)
    }
}

/// Every line trimmed and ended by `\n`.
pub open spec fn trimmed_lines(s: Seq<char>) -> Seq<char>
    decreases s.len(),
{
    if s.len() == 0 {
        seq![]
    } else {
        let (line, rest) = next_line(s);
        proof {
            lemma_next_line_shrinks(s);
        }
        trim(line) + "\n"@ + trimmed_lines(rest)
    }
}

/// The index of the first whitespace character of `s`.
pub open spec fn index_of_ws(s: Seq<char>) -> Option<int>
    decreases s.len(),
{
    if s.len() == 0 {
        None
    } else if is_unicode_ws(s[0]) {
        Some(0)
    } else {
        match index_of_ws(s.drop_first()) {
            Some(k) => Some(k + 1),
            None => None,
        }
    }
}

/// The value an environment snapshot gives a name: that of its first entry
/// with that name, or the empty string when there is none.
pub open spec fn env_value(env: Seq<(Seq<char>, Seq<char>)>, k: Seq<char>) -> Seq<char>
    decreases env.len(),
{
    if env.len() == 0 {
        seq![]
    } else if env[0].0 == k {
        env[0].1
    } else {
        env_value(env.drop_first(), k)
    }
}

/// Where a comment starts in `v`, looking from `i`: at the first `#` that
/// begins `v` or follows whitespace (`v.len()` when there is none).
pub open spec fn comment_from(v: Seq<char>, i: int) -> int
    decreases v.len() - i,
{
    if i < 0 || i >= v.len() {
        v.len() as int
    } else if v[i] == '#' && (i == 0 || is_unicode_ws(v[i - 1])) {
        i
    } else {
        comment_from(v, i + 1)
    }
}

/// The value written after a directive's name: the text before a `# ...`
/// comment, trimmed.
pub open spec fn written_value(raw: Seq<char>) -> Seq<char> {
    trim(raw.take(comment_from(raw, 0)))
}

/// The name and value of a `replace` directive: the name runs to the first
/// whitespace character; the value written after it (up to a `# ...`
/// comment, trimmed) is the value, and where none is written the value
/// comes from the environment.
pub open spec fn directive_entry(rest: Seq<char>, env: Seq<(Seq<char>, Seq<char>)>) -> (
    Seq<char>,
    Seq<char>,
) {
    match index_of_ws(rest) {
        Some(k) => if written_value(rest.skip(k + 1)).len() > 0 {
            (rest.take(k), written_value(rest.skip(k + 1)))
        } else {
            (rest.take(k), env_value(env, rest.take(k)))
        },
        None => (rest, env_value(env, rest)),
    }
}

/// The `(name, value)` entries of the directives, in file order.
pub open spec fn directives(s: Seq<char>, env: Seq<(Seq<char>, Seq<char>)>) -> Seq<
    (Seq<char>, Seq<char>),
>
    decreases s.len(),
{
    if s.len() == 0 {
        seq![]
    } else {
        let (line, rest) = next_line(s);
        let t = trim(line);
        proof {
            lemma_next_line_shrinks(s);
        }
        (match directive(t) {
            Some(r) => seq![directive_entry(r, env)],
            None => seq![],
        }) + directives(rest, env)
    }
}

/// The value a list of entries gives a name, the later entry winning (the
/// behaviour of inserting them one by one into a map).
pub open spec fn lookup(m: Seq<(Seq<char>, Seq<char>)>, k: Seq<char>) -> Option<Seq<char>>
    decreases m.len(),
{
    if m.len() == 0 {
        None
    } else if m.last().0 == k {
        Some(m.last().1)
    } else {
        lookup(m.drop_last(), k)
    }
}

/// Strict lexicographic order on character sequences (the order of `String`).
pub open spec fn seq_lt(a: Seq<char>, b: Seq<char>) -> bool
    decreases a.len(),
{
    if a.len() == 0 {
        b.len() > 0
    } else if b.len() == 0 {
        false
    } else if a[0] == b[0] {
        seq_lt(a.drop_first(), b.drop_first())
    } else {
        (a[0] as u32) < (b[0] as u32)
    }
}

/// `ks` holds each name of `m` once, in increasing order.
pub open spec fn is_key_order(ks: Seq<Seq<char>>, m: Seq<(Seq<char>, Seq<char>)>) -> bool {
    &&& forall|i: int, j: int| #![trigger ks[i], ks[j]] 0 <= i < j < ks.len() ==> seq_lt(ks[i], ks[j])
    &&& forall|i: int| 0 <= i < ks.len() ==> (#[trigger] lookup(m, ks[i])) is Some
    &&& forall|j: int| 0 <= j < m.len() ==> ks.contains(#[trigger] m[j].0)
}

/// Replaces the names `ks`, one after the other, by their values in `m`.
pub open spec fn replace_names(s: Seq<char>, ks: Seq<Seq<char>>, m: Seq<(Seq<char>, Seq<char>)>) -> Seq<char>
    decreases ks.len(),
{
    if ks.len() == 0 {
        s
    } else {
        replace_names(replace_all(s, ks[0], lookup(m, ks[0])->0), ks.drop_first(), m)
    }
}

/// The bounds of the first line of `v[p..]`: the line is `v[p..end]`, and
/// the text after it starts at `next`.
fn line_bounds(v: &Vec<char>, p: usize) -> (r: (usize, usize))
    requires
        p < v.len(),
    ensures
        p <= r.0 <= r.1 <= v.len(),
        p < r.1,
        next_line(v@.skip(p as int)) == (v@.subrange(p as int, r.0 as int), v@.skip(r.1 as int)),
{
    let ghost s = v@.skip(p as int);
    let k = find_char(v, p, v.len(), '\n');
    proof {
        assert(v@.subrange(p as int, v.len() as int) =~= s);
    }
    if k < v.len() {
        let end = if k > p && v[k - 1] == '\r' {
            k - 1
        } else {
            k
        };
        assert(s.take(k - p) =~= v@.subrange(p as int, k as int));
        assert(s.skip(k - p + 1) =~= v@.skip(k + 1));
        assert(strip_cr(s.take(k - p)) =~= v@.subrange(p as int, end as int));
        (end, k + 1)
    } else {
        assert(v@.skip(k as int) =~= seq![]);
        assert(s =~= v@.subrange(p as int, k as int));
        (k, k)
    }
}

/// The entry of a directive whose text after `replace ` is `v[rs..b]`.
fn entry_of(v: &Vec<char>, rs: usize, b: usize, env: &Vec<(String, String)>) -> (r: (
    String,
    String,
))
    requires
        rs <= b <= v.len(),
    ensures
        (r.0@, r.1@) == directive_entry(v@.subrange(rs as int, b as int), pairs_view(env@)),
{
    let ghost rest = v@.subrange(rs as int, b as int);
    // The name runs to the first whitespace character.
    let mut w = rs;
    while w < b && !unicode_ws(v[w])
        invariant
            rs <= w <= b <= v.len(),
            forall|j: int| rs <= j < w ==> !is_unicode_ws(v@[j]),
        decreases b - w,
    {
        w += 1;
    }
    proof {
        lemma_index_of_ws_at(rest, w - rs);
    }
    let key = string_of_range(v, rs, w);
    if w < b {
        let ghost raw = v@.subrange(w + 1, b as int);
        assert(rest.skip(w - rs + 1) =~= raw);
        assert(rest.take(w - rs) =~= key@);
        // A `# ...` comment ends the value.
        let mut j = w + 1;
        while j < b && !(v[j] == '#' && (j == w + 1 || unicode_ws(v[j - 1])))
            invariant
                w + 1 <= j <= b <= v.len(),
                raw == v@.subrange(w + 1, b as int),
                comment_from(raw, j - (w + 1)) == comment_from(raw, 0),
            decreases b - j,
        {
            assert(raw[j - (w + 1)] == v@[j as int]);
            if j > w + 1 {
                assert(raw[j - (w + 1) - 1] == v@[j - 1]);
            }
            j += 1;
        }
        proof {
            if j < b {
                assert(raw[j - (w + 1)] == v@[j as int]);
                if j > w + 1 {
                    assert(raw[j - (w + 1) - 1] == v@[j - 1]);
                }
            }
        }
        assert(comment_from(raw, 0) == j - (w + 1));
        assert(raw.take(j - (w + 1)) =~= v@.subrange(w + 1, j as int));
        let (c, d) = trim_range(v, w + 1, j);
        if c < d {
            let value = string_of_range(v, c, d);
            (key, value)
        } else {
            let value = env_lookup(env, &key);
            (key, value)
        }
    } else {
        assert(rest =~= key@);
        let value = env_lookup(env, &key);
        (key, value)
    }
}

/// Collects the `replace` directives of `input`: the input with the directive
/// lines taken out (every other line trimmed and ended by `\n`), and the
/// directives' entries in file order. A directive without a value takes the
/// value of `env`, a snapshot of the environment.
pub fn collect_replacements(input: &str, env: &Vec<(String, String)>) -> (r: (
    String,
    Vec<(String, String)>,
))
    ensures
        r.0@ == kept_lines(input@),
        pairs_view(r.1@) == directives(input@, pairs_view(env@)),
{
    let v = chars_of(input);
    let replace_kw = chars_of("replace ");
    let ghost envv = pairs_view(env@);
    let mut out = String::new();
    let mut map: Vec<(String, String)> = Vec::new();
    let mut p: usize = 0;
    assert(v@.skip(0) =~= v@);
    while p < v.len()
        invariant
            p <= v.len(),
            v@ == input@,
            replace_kw@ == "replace "@,
            envv == pairs_view(env@),
            out@ + kept_lines(v@.skip(p as int)) == kept_lines(input@),
            pairs_view(map@) + directives(v@.skip(p as int), envv) == directives(input@, envv),
        decreases v.len() - p,
    {
        let ghost s = v@.skip(p as int);
        let (end, next) = line_bounds(&v, p);
        let (a, b) = trim_range(&v, p, end);
        let ghost t = v@.subrange(a as int, b as int);
        if range_starts_with(&v, a, b, &replace_kw) {
            let rs = a + replace_kw.len();
            assert(t.skip(replace_kw.len() as int) =~= v@.subrange(rs as int, b as int));
            let entry = entry_of(&v, rs, b, env);
            let ghost before = map@;
            let ghost ev = (entry.0@, entry.1@);
            map.push(entry);
            assert(pairs_view(map@) =~= pairs_view(before).push(ev));
            assert(pairs_view(map@) + directives(v@.skip(next as int), envv) =~= pairs_view(before)
                + directives(s, envv));
            assert(out@ + kept_lines(v@.skip(next as int)) =~= out@ + kept_lines(s));
        } else {
            let ghost before = out@;
            let line = string_of_range(&v, a, b);
            push_str(&mut out, line.as_str());
            push_str(&mut out, "\n");
            assert(out@ + kept_lines(v@.skip(next as int)) =~= before + kept_lines(s));
            assert(pairs_view(map@) + directives(v@.skip(next as int), envv) =~= pairs_view(map@)
                + directives(s, envv));
        }
        p = next;
    }
    assert(v@.skip(p as int) =~= seq![]);
    assert(out@ + seq![] =~= out@);
    assert(pairs_view(map@) + seq![] =~= pairs_view(map@));
    (out, map)
}

pub open spec fn pairs_view(v: Seq<(String, String)>) -> Seq<(Seq<char>, Seq<char>)> {
    v.map_values(|p: (String, String)| (p.0@, p.1@))
}

proof fn lemma_index_of_ws_at(s: Seq<char>, k: int)
    requires
        0 <= k <= s.len(),
        k < s.len() ==> is_unicode_ws(s[k]),
        forall|j: int| 0 <= j < k ==> !is_unicode_ws(s[j]),
    ensures
        index_of_ws(s) == (if k < s.len() {
            Some(k)
        } else {
            None::<int>
        }),
    decreases s.len(),
{
    if s.len() > 0 && k > 0 {
        assert forall|j: int| 0 <= j < k - 1 implies !is_unicode_ws(s.drop_first()[j]) by {
            assert(s.drop_first()[j] == s[j + 1]);
        }
        lemma_index_of_ws_at(s.drop_first(), k - 1);
    }
}

/// The value `env` gives `key` (see `env_value`).
fn env_lookup(env: &Vec<(String, String)>, key: &String) -> (r: String)
    ensures
        r@ == env_value(pairs_view(env@), key@),
{
    let mut i: usize = 0;
    assert(pairs_view(env@).skip(0) =~= pairs_view(env@));
    while i < env.len()
        invariant
            i <= env.len(),
            env_value(pairs_view(env@).skip(i as int), key@) == env_value(pairs_view(env@), key@),
        decreases env.len() - i,
    {
        let ghost rest = pairs_view(env@).skip(i as int);
        assert(rest.drop_first() =~= pairs_view(env@).skip(i + 1));
        if env[i].0 == *key {
            return env[i].1.clone();
        }
        i += 1;
    }
    assert(pairs_view(env@).skip(i as int) =~= seq![]);
    String::new()
}

/// The value the entries give `key`, the later entry winning.
fn map_get(m: &Vec<(String, String)>, key: &String) -> (r: Option<String>)
    ensures
        match r {
            Some(x) => lookup(pairs_view(m@), key@) == Some(x@),
            None => lookup(pairs_view(m@), key@) is None,
        },
{
    let mut i = m.len();
    assert(pairs_view(m@).take(m.len() as int) =~= pairs_view(m@));
    while i > 0
        invariant
            i <= m.len(),
            lookup(pairs_view(m@).take(i as int), key@) == lookup(pairs_view(m@), key@),
        decreases i,
    {
        let ghost pre = pairs_view(m@).take(i as int);
        assert(pre.drop_last() =~= pairs_view(m@).take(i - 1));
        if m[i - 1].0 == *key {
            return Some(m[i - 1].1.clone());
        }
        i -= 1;
    }
    assert(pairs_view(m@).take(0) =~= seq![]);
    None
}

pub proof fn lemma_seq_lt_irreflexive(a: Seq<char>)
    ensures
        !seq_lt(a, a),
    decreases a.len(),
{
    if a.len() > 0 {
        lemma_seq_lt_irreflexive(a.drop_first());
    }
}

pub proof fn lemma_seq_lt_total(a: Seq<char>, b: Seq<char>)
    ensures
        seq_lt(a, b) || a == b || seq_lt(b, a),
    decreases a.len(),
{
    if a.len() > 0 && b.len() > 0 {
        if a[0] == b[0] {
            lemma_seq_lt_total(a.drop_first(), b.drop_first());
            if a.drop_first() == b.drop_first() {
                assert(a =~= seq![a[0]] + a.drop_first());
                assert(b =~= seq![b[0]] + b.drop_first());
            }
        } else {
            lemma_char_code_injective(a[0], b[0]);
        }
    } else if a.len() == 0 && b.len() == 0 {
        assert(a =~= b);
    }
}

proof fn lemma_char_code_injective(a: char, b: char)
    requires
        a != b,
    ensures
        (a as u32) != (b as u32),
{
}

pub proof fn lemma_seq_lt_transitive(a: Seq<char>, b: Seq<char>, c: Seq<char>)
    requires
        seq_lt(a, b),
        seq_lt(b, c),
    ensures
        seq_lt(a, c),
    decreases a.len(),
{
    if a.len() > 0 && b.len() > 0 && c.len() > 0 {
        if a[0] == b[0] && b[0] == c[0] {
            lemma_seq_lt_transitive(a.drop_first(), b.drop_first(), c.drop_first());
        }
    }
}

pub proof fn lemma_seq_lt_asymmetric(a: Seq<char>, b: Seq<char>)
    requires
        seq_lt(a, b),
    ensures
        !seq_lt(b, a),
{
    if seq_lt(b, a) {
        lemma_seq_lt_transitive(a, b, a);
        lemma_seq_lt_irreflexive(a);
    }
}

/// `seq_lt(a, b)`.
fn chars_lt(a: &Vec<char>, b: &Vec<char>) -> (r: bool)
    ensures
        r == seq_lt(a@, b@),
{
    let mut i: usize = 0;
    assert(a@.skip(0) =~= a@);
    assert(b@.skip(0) =~= b@);
    while i < a.len() && i < b.len() && a[i] == b[i]
        invariant
            i <= a.len(),
            i <= b.len(),
            seq_lt(a@.skip(i as int), b@.skip(i as int)) == seq_lt(a@, b@),
        decreases a.len() - i,
    {
        assert(a@.skip(i as int).drop_first() =~= a@.skip(i + 1));
        assert(b@.skip(i as int).drop_first() =~= b@.skip(i + 1));
        i += 1;
    }
    if i == a.len() {
        i < b.len()
    } else if i == b.len() {
        false
    } else {
        (a[i] as u32) < (b[i] as u32)
    }
}

pub open spec fn strings_view(v: Seq<String>) -> Seq<Seq<char>> {
    v.map_values(|s: String| s@)
}

/// Inserts `k` in the strictly increasing `keys`, unless it is there.
fn insert_key(keys: &mut Vec<String>, k: String)
    requires
        forall|i: int, j: int|
            0 <= i < j < old(keys)@.len() ==> seq_lt(old(keys)@[i]@, old(keys)@[j]@),
    ensures
        forall|i: int, j: int|
            0 <= i < j < final(keys)@.len() ==> seq_lt(final(keys)@[i]@, final(keys)@[j]@),
        forall|x: Seq<char>|
            strings_view(final(keys)@).contains(x) <==> (strings_view(old(keys)@).contains(x)
                || x == k@),
{
    let kv = crate::text::chars_of(k.as_str());
    let mut i: usize = 0;
    loop
        invariant_except_break
            i <= keys.len(),
            keys@ == old(keys)@,
            kv@ == k@,
            forall|a: int| 0 <= a < i ==> seq_lt(keys@[a]@, k@),
        ensures
            i <= keys.len(),
            keys@ == old(keys)@,
            kv@ == k@,
            forall|a: int| 0 <= a < i ==> seq_lt(keys@[a]@, k@),
            i < keys.len() ==> !seq_lt(keys@[i as int]@, k@),
        decreases keys.len() - i,
    {
        if i == keys.len() {
            break ;
        }
        let cur = crate::text::chars_of(keys[i].as_str());
        if !chars_lt(&cur, &kv) {
            break ;
        }
        i += 1;
    }
    let ghost old_keys = keys@;
    if i < keys.len() {
        let cur = crate::text::chars_of(keys[i].as_str());
        if range_eq(&cur, 0, cur.len(), &kv) {
            assert(cur@.subrange(0, cur.len() as int) =~= cur@);
            assert(strings_view(keys@)[i as int] == k@);
            assert forall|x: Seq<char>|
                strings_view(keys@).contains(x) <==> (strings_view(old(keys)@).contains(x) || x
                    == k@) by {}
            return ;
        }
        assert(cur@.subrange(0, cur.len() as int) =~= cur@);
        proof {
            lemma_seq_lt_total(keys@[i as int]@, k@);
        }
    }
    keys.insert(i, k);
    proof {
        assert forall|a: int, b: int|
            0 <= a < b < keys@.len() implies seq_lt(keys@[a]@, keys@[b]@) by {
            if b == i {
                assert(seq_lt(old_keys[a]@, k@));
            } else if a == i {
                assert(seq_lt(k@, old_keys[i as int]@));
                if b - 1 > i {
                    lemma_seq_lt_transitive(k@, old_keys[i as int]@, old_keys[b - 1]@);
                }
            } else if a < i && b > i {
                assert(seq_lt(old_keys[a]@, old_keys[b - 1]@));
            } else if a > i {
                assert(seq_lt(old_keys[a - 1]@, old_keys[b - 1]@));
            } else {
                assert(seq_lt(old_keys[a]@, old_keys[b]@));
            }
        }
        assert forall|x: Seq<char>|
            strings_view(keys@).contains(x) <==> (strings_view(old_keys).contains(x) || x
                == k@) by {
            if strings_view(keys@).contains(x) {
                let j = choose|j: int| 0 <= j < keys@.len() && strings_view(keys@)[j] == x;
                if j < i {
                    assert(strings_view(old_keys)[j] == x);
                } else if j > i {
                    assert(strings_view(old_keys)[j - 1] == x);
                }
            }
            if strings_view(old_keys).contains(x) {
                let j = choose|j: int| 0 <= j < old_keys.len() && strings_view(old_keys)[j] == x;
                if j < i {
                    assert(strings_view(keys@)[j] == x);
                } else {
                    assert(strings_view(keys@)[j + 1] == x);
                }
            }
            if x == k@ {
                assert(strings_view(keys@)[i as int] == x);
            }
        }
        assert(old_keys == old(keys)@);
        assert(forall|x: Seq<char>|
            strings_view(keys@).contains(x) <==> (strings_view(old(keys)@).contains(x) || x
                == k@));
    }
}

/// `replace_all(s, from, to)` on character vectors.
fn replace_chars(s: &Vec<char>, from: &Vec<char>, to: &Vec<char>) -> (r: Vec<char>)
    ensures
        r@ == replace_all(s@, from@, to@),
{
    let mut out: Vec<char> = Vec::new();
    let mut p: usize = 0;
    assert(s@.skip(0) =~= s@);
    if from.len() == 0 {
        loop
            invariant_except_break
                p <= s.len(),
                from@.len() == 0,
                out@ + replace_all(s@.skip(p as int), from@, to@) == replace_all(s@, from@, to@),
            ensures
                out@ == replace_all(s@, from@, to@),
            decreases s.len() - p,
        {
            let ghost before = out@;
            append_chars(&mut out, to);
            if p == s.len() {
                assert(s@.skip(p as int) =~= seq![]);
                break ;
            }
            out.push(s[p]);
            assert(s@.skip(p as int).drop_first() =~= s@.skip(p + 1));
            p += 1;
            assert(out@ + replace_all(s@.skip(p as int), from@, to@) =~= before + replace_all(
                s@.skip(p - 1),
                from@,
                to@,
            ));
        }
    } else {
        while p < s.len()
            invariant
                p <= s.len(),
                from@.len() > 0,
                out@ + replace_all(s@.skip(p as int), from@, to@) == replace_all(s@, from@, to@),
            decreases s.len() - p,
        {
            let ghost before = out@;
            let ghost rest = s@.skip(p as int);
            assert(s@.subrange(p as int, s.len() as int) =~= rest);
            if crate::text::range_starts_with(s, p, s.len(), from) {
                append_chars(&mut out, to);
                assert(rest.skip(from.len() as int) =~= s@.skip(p + from.len()));
                p = p + from.len();
            } else {
                out.push(s[p]);
                assert(rest.drop_first() =~= s@.skip(p + 1));
                p += 1;
            }
            assert(out@ + replace_all(s@.skip(p as int), from@, to@) =~= before + replace_all(
                rest,
                from@,
                to@,
            ));
        }
        assert(s@.skip(p as int) =~= seq![]);
        assert(out@ + seq![] =~= out@);
    }
    out
}

fn append_chars(out: &mut Vec<char>, t: &Vec<char>)
    ensures
        final(out)@ == old(out)@ + t@,
{
    let mut i: usize = 0;
    while i < t.len()
        invariant
            i <= t.len(),
            out@ == old(out)@ + t@.take(i as int),
        decreases t.len() - i,
    {
        out.push(t[i]);
        i += 1;
        assert(out@ =~= old(out)@ + t@.take(i as int));
    }
    assert(t@.take(t.len() as int) =~= t@);
}

/// Substitutes every name of `map` by its value (the later entry of a name
/// winning), taking the names in increasing order.
pub fn apply_replacements(input: &str, map: &Vec<(String, String)>) -> (r: String)
    ensures
        is_key_order(key_order(pairs_view(map@)), pairs_view(map@)),
        r@ == replace_names(input@, key_order(pairs_view(map@)), pairs_view(map@)),
{
    let ghost m = pairs_view(map@);
    let mut keys: Vec<String> = Vec::new();
    let mut i: usize = 0;
    while i < map.len()
        invariant
            i <= map.len(),
            m == pairs_view(map@),
            forall|a: int, b: int| 0 <= a < b < keys@.len() ==> seq_lt(keys@[a]@, keys@[b]@),
            forall|x: Seq<char>|
                strings_view(keys@).contains(x) <==> (exists|j: int| 0 <= j < i && #[trigger] m[j].0 == x),
        decreases map.len() - i,
    {
        let ghost before = keys@;
        insert_key(&mut keys, map[i].0.clone());
        proof {
            assert forall|x: Seq<char>|
                strings_view(keys@).contains(x) <==> (exists|j: int| 0 <= j < i + 1 && #[trigger] m[j].0 == x) by {
                if x == m[i as int].0 {
                    assert(0 <= i < i + 1 && m[i as int].0 == x);
                }
            }
        }
        i += 1;
    }
    let ghost ks = strings_view(keys@);
    proof {
        assert forall|j: int| 0 <= j < m.len() implies ks.contains(#[trigger] m[j].0) by {
            assert(0 <= j < i && m[j].0 == m[j].0);
            assert(strings_view(keys@).contains(m[j].0));
        }
        assert forall|a: int| 0 <= a < ks.len() implies (#[trigger] lookup(m, ks[a])) is Some by {
            assert(ks.contains(ks[a]));
            assert(exists|j: int| 0 <= j < i && #[trigger] m[j].0 == ks[a]);
            let jj = choose|j: int| 0 <= j < i && #[trigger] m[j].0 == ks[a];
            lemma_lookup_present(m, jj);
        }
        assert forall|a: int, b: int| #![trigger ks[a], ks[b]] 0 <= a < b < ks.len() implies seq_lt(ks[a], ks[b]) by {
            assert(ks[a] == keys@[a]@);
            assert(ks[b] == keys@[b]@);
        }
        assert(forall|j: int| 0 <= j < m.len() ==> ks.contains(#[trigger] m[j].0));
        assert(is_key_order(ks, m));
    }
    let mut out = crate::text::chars_of(input);
    let mut t: usize = 0;
    assert(ks.skip(0) =~= ks);
    while t < keys.len()
        invariant
            t <= keys.len(),
            ks == strings_view(keys@),
            m == pairs_view(map@),
            is_key_order(ks, m),
            replace_names(out@, ks.skip(t as int), m) == replace_names(input@, ks, m),
        decreases keys.len() - t,
    {
        let k = crate::text::chars_of(keys[t].as_str());
        assert(ks.contains(ks[t as int]));
        let value = match map_get(map, &keys[t]) {
            Some(v) => v,
            None => {
                assert(lookup(m, ks[t as int]) is Some);
                String::new()
            },
        };
        let vv = crate::text::chars_of(value.as_str());
        let next = replace_chars(&out, &k, &vv);
        proof {
            assert(lookup(m, ks[t as int]) is Some);
            assert(ks.skip(t as int).drop_first() =~= ks.skip(t + 1));
            assert(ks.skip(t as int)[0] == ks[t as int]);
        }
        out = next;
        t += 1;
    }
    assert(ks.skip(t as int) =~= seq![]);
    proof {
        lemma_key_order_is(ks, m);
    }
    string_of(&out)
}

proof fn lemma_lookup_present(m: Seq<(Seq<char>, Seq<char>)>, j: int)
    requires
        0 <= j < m.len(),
    ensures
        lookup(m, m[j].0) is Some,
    decreases m.len(),
{
    if m.last().0 != m[j].0 {
        assert(j < m.len() - 1);
        assert(m.drop_last()[j] == m[j]);
        lemma_lookup_present(m.drop_last(), j);
    }
}

/// The names of `m`, each once, in increasing order.
pub open spec fn key_order(m: Seq<(Seq<char>, Seq<char>)>) -> Seq<Seq<char>> {
    choose|ks: Seq<Seq<char>>| is_key_order(ks, m)
}

proof fn lemma_lookup_key(m: Seq<(Seq<char>, Seq<char>)>, k: Seq<char>)
    requires
        lookup(m, k) is Some,
    ensures
        exists|j: int| 0 <= j < m.len() && #[trigger] m[j].0 == k,
    decreases m.len(),
{
    if m.last().0 == k {
        assert(m[m.len() - 1].0 == k);
    } else {
        lemma_lookup_key(m.drop_last(), k);
        let j = choose|j: int| 0 <= j < m.drop_last().len() && #[trigger] m.drop_last()[j].0 == k;
        assert(m[j].0 == k);
    }
}

proof fn lemma_sorted_same_members(a: Seq<Seq<char>>, b: Seq<Seq<char>>)
    requires
        forall|i: int, j: int| #![trigger a[i], a[j]] 0 <= i < j < a.len() ==> seq_lt(a[i], a[j]),
        forall|i: int, j: int| #![trigger b[i], b[j]] 0 <= i < j < b.len() ==> seq_lt(b[i], b[j]),
        forall|x: Seq<char>| a.contains(x) <==> b.contains(x),
    ensures
        a == b,
    decreases a.len() + b.len(),
{
    if a.len() == 0 {
        if b.len() > 0 {
            assert(b.contains(b[0]));
        }
        assert(a =~= b);
    } else if b.len() == 0 {
        assert(a.contains(a[0]));
    } else {
        assert(a.contains(a[0]));
        let k = choose|k: int| 0 <= k < b.len() && b[k] == a[0];
        assert(b.contains(b[0]));
        let l = choose|l: int| 0 <= l < a.len() && a[l] == b[0];
        if k > 0 {
            assert(seq_lt(b[0], b[k]));
            if l == 0 {
                lemma_seq_lt_irreflexive(b[0]);
            } else {
                assert(seq_lt(a[0], a[l]));
                lemma_seq_lt_asymmetric(a[0], b[0]);
            }
        }
        let a1 = a.drop_first();
        let b1 = b.drop_first();
        assert forall|x: Seq<char>| a1.contains(x) <==> b1.contains(x) by {
            if a1.contains(x) {
                let i = choose|i: int| 0 <= i < a1.len() && a1[i] == x;
                assert(a[i + 1] == x);
                assert(seq_lt(a[0], a[i + 1]));
                lemma_seq_lt_irreflexive(x);
                assert(b.contains(x));
                let j = choose|j: int| 0 <= j < b.len() && b[j] == x;
                assert(j != 0);
                assert(b1[j - 1] == x);
            }
            if b1.contains(x) {
                let i = choose|i: int| 0 <= i < b1.len() && b1[i] == x;
                assert(b[i + 1] == x);
                assert(seq_lt(b[0], b[i + 1]));
                lemma_seq_lt_irreflexive(x);
                assert(a.contains(x));
                let j = choose|j: int| 0 <= j < a.len() && a[j] == x;
                assert(j != 0);
                assert(a1[j - 1] == x);
            }
        }
        assert forall|i: int, j: int| #![trigger a1[i], a1[j]] 0 <= i < j < a1.len() implies seq_lt(a1[i], a1[j]) by {
            assert(a1[i] == a[i + 1] && a1[j] == a[j + 1]);
        }
        assert forall|i: int, j: int| #![trigger b1[i], b1[j]] 0 <= i < j < b1.len() implies seq_lt(b1[i], b1[j]) by {
            assert(b1[i] == b[i + 1] && b1[j] == b[j + 1]);
        }
        lemma_sorted_same_members(a1, b1);
        assert(a =~= seq![a[0]] + a1);
        assert(b =~= seq![b[0]] + b1);
    }
}

/// The order of the names is determined: there is one sequence with each name
/// of `m` once, in increasing order.
pub proof fn lemma_key_order_unique(a: Seq<Seq<char>>, b: Seq<Seq<char>>, m: Seq<(Seq<char>, Seq<char>)>)
    requires
        is_key_order(a, m),
        is_key_order(b, m),
    ensures
        a == b,
{
    assert forall|x: Seq<char>| a.contains(x) <==> b.contains(x) by {
        if a.contains(x) {
            let i = choose|i: int| 0 <= i < a.len() && a[i] == x;
            assert(lookup(m, a[i]) is Some);
            lemma_lookup_key(m, x);
            let j = choose|j: int| 0 <= j < m.len() && #[trigger] m[j].0 == x;
            assert(b.contains(m[j].0));
        }
        if b.contains(x) {
            let i = choose|i: int| 0 <= i < b.len() && b[i] == x;
            assert(lookup(m, b[i]) is Some);
            lemma_lookup_key(m, x);
            let j = choose|j: int| 0 <= j < m.len() && #[trigger] m[j].0 == x;
            assert(a.contains(m[j].0));
        }
    }
    lemma_sorted_same_members(a, b);
}

proof fn lemma_key_order_is(ks: Seq<Seq<char>>, m: Seq<(Seq<char>, Seq<char>)>)
    requires
        is_key_order(ks, m),
    ensures
        key_order(m) == ks,
        is_key_order(key_order(m), m),
{
    lemma_key_order_unique(key_order(m), ks, m);
}

/// The path an `include "<path>"` line names.
pub open spec fn include_path(line: Seq<char>) -> Option<Seq<char>> {
    match strip_prefix(trim(line), "include \""@) {
        Some(r) => strip_suffix(r, "\""@),
        None => None,
    }
}

/// The path of an `include "<path>"` line, or `None` for any other line.
pub fn parse_include(line: &str) -> (r: Option<String>)
    ensures
        match r {
            Some(p) => include_path(line@) == Some(p@),
            None => include_path(line@) is None,
        },
{
    let v = crate::text::chars_of(line);
    let (a, b) = trim_range(&v, 0, v.len());
    assert(v@.subrange(0, v.len() as int) =~= v@);
    let kw = crate::text::chars_of("include \"");
    let q = crate::text::chars_of("\"");
    let ghost t = v@.subrange(a as int, b as int);
    if !range_starts_with(&v, a, b, &kw) {
        return None;
    }
    let rs = a + kw.len();
    let ghost rest = v@.subrange(rs as int, b as int);
    assert(t.skip(kw.len() as int) =~= rest);
    if q.len() <= b - rs && range_eq(&v, b - q.len(), b, &q) {
        assert(rest.skip(rest.len() - q.len()) =~= v@.subrange(b - q.len(), b as int));
        assert(rest.take(rest.len() - q.len()) =~= v@.subrange(rs as int, b - q.len()));
        Some(string_of_range(&v, rs, b - q.len()))
    } else {
        proof {
            if q@.len() <= rest.len() {
                assert(rest.skip(rest.len() - q@.len()) =~= v@.subrange(b - q@.len(), b as int));
            }
        }
        None
    }
}

/// Trims every line and ends each with `\n`.
pub fn normalize_lines(input: &str) -> (r: String)
    ensures
        r@ == trimmed_lines(input@),
{
    let v = crate::text::chars_of(input);
    let mut out = String::new();
    let mut p: usize = 0;
    assert(v@.skip(0) =~= v@);
    while p < v.len()
        invariant
            p <= v.len(),
            v@ == input@,
            out@ + trimmed_lines(v@.skip(p as int)) == trimmed_lines(input@),
        decreases v.len() - p,
    {
        let ghost s = v@.skip(p as int);
        let ghost before = out@;
        let (end, next) = line_bounds(&v, p);
        let (a, b) = trim_range(&v, p, end);
        let line = string_of_range(&v, a, b);
        push_str(&mut out, line.as_str());
        push_str(&mut out, "\n");
        assert(out@ + trimmed_lines(v@.skip(next as int)) =~= before + trimmed_lines(s));
        p = next;
    }
    assert(v@.skip(p as int) =~= seq![]);
    assert(out@ + seq![] =~= out@);
    out
}

/// A line of a suite as the include step reads it.
pub enum Piece {
    /// A line that is kept, trimmed.
    Text(String),
    /// An `include "<path>"` line: the path as written.
    Include(String),
}

pub enum SpecPiece {
    Text(Seq<char>),
    Include(Seq<char>),
}

impl View for Piece {
    type V = SpecPiece;

    open spec fn view(&self) -> SpecPiece {
        match self {
            Piece::Text(t) => SpecPiece::Text(t@),
            Piece::Include(p) => SpecPiece::Include(p@),
        }
    }
}

pub open spec fn piece_of(line: Seq<char>) -> SpecPiece {
    match include_path(line) {
        Some(p) => SpecPiece::Include(p),
        None => SpecPiece::Text(trim(line)),
    }
}

/// The lines of a text, in order: each `include` line names its path, every
/// other line is kept trimmed.
pub open spec fn pieces_of(s: Seq<char>) -> Seq<SpecPiece>
    decreases s.len(),
{
    if s.len() == 0 {
        seq![]
    } else {
        let (line, rest) = next_line(s);
        proof {
            lemma_next_line_shrinks(s);
        }
        seq![piece_of(line)] + pieces_of(rest)
    }
}

/// Reads a text line by line for the include step. The caller reads each
/// included file, relative to the directory of the file that includes it,
/// and reads it the same way in turn.
pub fn include_pieces(input: &str) -> (r: Vec<Piece>)
    ensures
        r@.map_values(|x: Piece| x@) == pieces_of(input@),
{
    let v = crate::text::chars_of(input);
    let mut out: Vec<Piece> = Vec::new();
    let mut p: usize = 0;
    assert(v@.skip(0) =~= v@);
    while p < v.len()
        invariant
            p <= v.len(),
            v@ == input@,
            out@.map_values(|x: Piece| x@) + pieces_of(v@.skip(p as int)) == pieces_of(input@),
        decreases v.len() - p,
    {
        let ghost s = v@.skip(p as int);
        let ghost before = out@.map_values(|x: Piece| x@);
        let (end, next) = line_bounds(&v, p);
        let line = string_of_range(&v, p, end);
        let piece = match parse_include(line.as_str()) {
            Some(path) => Piece::Include(path),
            None => Piece::Text(crate::text::trim_str(line.as_str())),
        };
        let ghost pv = piece@;
        out.push(piece);
        assert(out@.map_values(|x: Piece| x@) =~= before.push(pv));
        assert(out@.map_values(|x: Piece| x@) + pieces_of(v@.skip(next as int)) =~= before + pieces_of(s));
        p = next;
    }
    assert(v@.skip(p as int) =~= seq![]);
    assert(out@.map_values(|x: Piece| x@) + seq![] =~= out@.map_values(|x: Piece| x@));
    out
}

/// What the preprocessor makes of a suite text (before includes are read):
/// the `replace` directives are collected and stripped, their names are
/// substituted in increasing order, and every line is trimmed.
pub open spec fn preprocessed(
    input: Seq<char>,
    env: Seq<(Seq<char>, Seq<char>)>,
    ks: Seq<Seq<char>>,
) -> Seq<char> {
    trimmed_lines(replace_names(kept_lines(input), ks, directives(input, env)))
}

/// Runs the preprocessor on `input`, with `env` as the environment snapshot
/// for directives without a value. `include` lines stay in the output.
pub fn preproc(input: &str, env: &Vec<(String, String)>) -> (r: String)
    ensures
        r@ == preprocessed(
            input@,
            pairs_view(env@),
            key_order(directives(input@, pairs_view(env@))),
        ),
{
    let (cleaned, map) = collect_replacements(input, env);
    let replaced = apply_replacements(cleaned.as_str(), &map);
    normalize_lines(replaced.as_str())
}

} // verus!
