//! Route patterns: matching request paths against `:param` / `*` patterns,
//! extracting parameters, prefix filters, and the route shapes handed to the
//! HTTP router.
use vstd::prelude::*;
use crate::text::{
    trim_start, chars_eq, chars_to_string, has_prefix, join_chars, join_with, split_chars, split_on, starts_with,
    str_chars, sub_chars, trim_both, trim_chars, trim_end, trim_end_chars, views,
};

verus! {

// ---------------------------------------------------------------------------
// Specifications
// ---------------------------------------------------------------------------

/// The wildcard segment `*`.
pub open spec fn star_seg() -> Seq<char> {
    seq!['*']
}

/// The key under which a wildcard capture is reported.
pub open spec fn wildcard_key() -> Seq<char> {
    seq!['w', 'i', 'l', 'd', 'c', 'a', 'r', 'd']
}

/// The value reported for a parameter that has no (non-empty) path segment.
pub open spec fn absent_value() -> Seq<char> {
    seq!['1']
}

/// A `:name` segment.
pub open spec fn is_param_seg(seg: Seq<char>) -> bool {
    seg.len() > 0 && seg[0] == ':'
}

/// Pattern segments against path segments: `*` matches everything that is
/// left, `:name` matches any one segment, any other segment matches itself.
pub open spec fn segments_match(ps: Seq<Seq<char>>, ts: Seq<Seq<char>>) -> bool
    decreases ps.len(),
{
    if ps.len() == 0 {
        ts.len() == 0
    } else if ps[0] == star_seg() {
        true
    } else {
        &&& ts.len() > 0
        &&& (is_param_seg(ps[0]) || ps[0] == ts[0])
        &&& segments_match(ps.drop_first(), ts.drop_first())
    }
}

/// The segments of a path or pattern, outer slashes ignored.
pub open spec fn segments(s: Seq<char>) -> Seq<Seq<char>> {
    split_on(trim_both(s, '/'), '/')
}

/// Whether `path` matches `pattern`; a path that is empty once its outer
/// slashes are gone matches every pattern.
pub open spec fn path_matches(pattern: Seq<char>, path: Seq<char>) -> bool {
    trim_both(path, '/').len() == 0 || segments_match(segments(pattern), segments(path))
}

/// What a `:name` at position `i` captures: the path segment there, or `"1"`
/// where the path has none or an empty one.
pub open spec fn captured(ts: Seq<Seq<char>>, i: int) -> Seq<char> {
    if 0 <= i < ts.len() && ts[i].len() > 0 {
        ts[i]
    } else {
        absent_value()
    }
}

/// The value of parameter `key`, looking at the pattern segments from `i` on:
/// the first `:key` gives its capture, a `*` gives the rest of the path when
/// `key` is `wildcard`, and nothing found gives the empty string.
pub open spec fn param_from(ps: Seq<Seq<char>>, ts: Seq<Seq<char>>, key: Seq<char>, i: int) -> Seq<
    char,
>
    decreases ps.len() - i,
{
    if i < 0 || i >= ps.len() {
        Seq::<char>::empty()
    } else if is_param_seg(ps[i]) && ps[i].drop_first() == key {
        captured(ts, i)
    } else if ps[i] == star_seg() && key == wildcard_key() && i < ts.len() {
        join_with(ts.skip(i), '/')
    } else {
        param_from(ps, ts, key, i + 1)
    }
}

/// The value of parameter `key` of `path` under `pattern`.
pub open spec fn path_param(pattern: Seq<char>, path: Seq<char>, key: Seq<char>) -> Seq<char> {
    param_from(segments(pattern), segments(path), key, 0)
}

/// The (key, value) insertions made when all parameters are extracted, in
/// pattern order from segment `i` on; a `*` with path left ends them.
pub open spec fn param_insertions(ps: Seq<Seq<char>>, ts: Seq<Seq<char>>, i: int) -> Seq<
    (Seq<char>, Seq<char>),
>
    decreases ps.len() - i,
{
    if i < 0 || i >= ps.len() {
        Seq::empty()
    } else if is_param_seg(ps[i]) {
        seq![(ps[i].drop_first(), captured(ts, i))] + param_insertions(ps, ts, i + 1)
    } else if ps[i] == star_seg() && i < ts.len() {
        seq![(wildcard_key(), join_with(ts.skip(i), '/'))]
    } else {
        param_insertions(ps, ts, i + 1)
    }
}

/// `entries` with `k` bound to `v`: the entry of `k` is replaced where it is,
/// or a new entry goes at the end.
pub open spec fn upsert(entries: Seq<(Seq<char>, Seq<char>)>, k: Seq<char>, v: Seq<char>) -> Seq<
    (Seq<char>, Seq<char>),
>
    decreases entries.len(),
{
    if entries.len() == 0 {
        seq![(k, v)]
    } else if entries[0].0 == k {
        seq![(k, v)] + entries.drop_first()
    } else {
        seq![entries[0]] + upsert(entries.drop_first(), k, v)
    }
}

/// `entries` after each insertion of `ins` in turn.
pub open spec fn upsert_all(
    entries: Seq<(Seq<char>, Seq<char>)>,
    ins: Seq<(Seq<char>, Seq<char>)>,
) -> Seq<(Seq<char>, Seq<char>)>
    decreases ins.len(),
{
    if ins.len() == 0 {
        entries
    } else {
        upsert_all(upsert(entries, ins[0].0, ins[0].1), ins.drop_first())
    }
}

/// The parameters of `path` under `pattern`, each key once, in the order in
/// which keys first appear, each with its last inserted value.
pub open spec fn path_params(pattern: Seq<char>, path: Seq<char>) -> Seq<(Seq<char>, Seq<char>)> {
    upsert_all(Seq::empty(), param_insertions(segments(pattern), segments(path), 0))
}

/// The views of a list of entries.
pub open spec fn entry_views(v: Seq<(Vec<char>, Vec<char>)>) -> Seq<(Seq<char>, Seq<char>)> {
    v.map_values(|e: (Vec<char>, Vec<char>)| (e.0@, e.1@))
}

/// No key occurs twice.
pub open spec fn keys_unique(entries: Seq<(Seq<char>, Seq<char>)>) -> bool {
    forall|i: int, j: int|
        0 <= i < entries.len() && 0 <= j < entries.len() && i != j ==> #[trigger] entries[i].0
            != #[trigger] entries[j].0
}

/// Whether `path`, trailing slashes aside, is `prefix` or lies under it;
/// a path that is empty once its trailing slashes are gone passes.
pub open spec fn under_prefix(prefix: Seq<char>, path: Seq<char>) -> bool {
    let pfx = trim_end(prefix, '/');
    let pth = trim_end(path, '/');
    pth.len() == 0 || pth == pfx || has_prefix(pth, pfx.push('/'))
}

// ---------------------------------------------------------------------------
// Lemmas
// ---------------------------------------------------------------------------

proof fn lemma_segments_match_step(ps: Seq<Seq<char>>, ts: Seq<Seq<char>>, i: int)
    requires
        0 <= i < ps.len(),
        i < ts.len(),
        ps[i] != star_seg(),
    ensures
        segments_match(ps.skip(i), ts.skip(i)) == ((is_param_seg(ps[i]) || ps[i] == ts[i])
            && segments_match(ps.skip(i + 1), ts.skip(i + 1))),
{
    assert(ps.skip(i).drop_first() =~= ps.skip(i + 1));
    assert(ts.skip(i).drop_first() =~= ts.skip(i + 1));
}

pub proof fn lemma_upsert_unique(entries: Seq<(Seq<char>, Seq<char>)>, k: Seq<char>, v: Seq<char>)
    requires
        keys_unique(entries),
    ensures
        keys_unique(upsert(entries, k, v)),
        forall|i: int|
            0 <= i < upsert(entries, k, v).len() ==> (#[trigger] upsert(entries, k, v)[i].0 == k
                || exists|j: int| 0 <= j < entries.len() && entries[j].0 == upsert(entries, k, v)[i].0),
        exists|i: int| 0 <= i < upsert(entries, k, v).len() && upsert(entries, k, v)[i] == (k, v),
    decreases entries.len(),
{
    let u = upsert(entries, k, v);
    if entries.len() == 0 {
        assert(u[0] == (k, v));
    } else if entries[0].0 == k {
        assert(u[0] == (k, v));
        assert forall|i: int| 0 <= i < u.len() implies (#[trigger] u[i].0 == k || exists|j: int|
            0 <= j < entries.len() && entries[j].0 == u[i].0) by {
            if i > 0 {
                assert(u[i] == entries[i]);
            }
        }
        assert forall|i: int, j: int|
            0 <= i < u.len() && 0 <= j < u.len() && i != j implies #[trigger] u[i].0
            != #[trigger] u[j].0 by {
            if i > 0 && j > 0 {
                assert(u[i] == entries[i] && u[j] == entries[j]);
            } else if i == 0 {
                assert(u[j] == entries[j]);
                assert(entries[0].0 != entries[j].0);
            } else {
                assert(u[i] == entries[i]);
                assert(entries[0].0 != entries[i].0);
            }
        }
    } else {
        let rest = entries.drop_first();
        assert forall|i: int, j: int|
            0 <= i < rest.len() && 0 <= j < rest.len() && i != j implies #[trigger] rest[i].0
            != #[trigger] rest[j].0 by {
            assert(rest[i] == entries[i + 1] && rest[j] == entries[j + 1]);
        }
        lemma_upsert_unique(rest, k, v);
        let ur = upsert(rest, k, v);
        assert(u =~= seq![entries[0]] + ur);
        let w = choose|i: int| 0 <= i < ur.len() && ur[i] == (k, v);
        assert(u[w + 1] == (k, v));
        assert forall|i: int| 0 <= i < u.len() implies (#[trigger] u[i].0 == k || exists|j: int|
            0 <= j < entries.len() && entries[j].0 == u[i].0) by {
            if i == 0 {
                assert(entries[0].0 == u[0].0);
            } else {
                assert(u[i] == ur[i - 1]);
                if ur[i - 1].0 != k {
                    let j = choose|j: int| 0 <= j < rest.len() && rest[j].0 == ur[i - 1].0;
                    assert(entries[j + 1].0 == u[i].0);
                }
            }
        }
        assert forall|i: int, j: int|
            0 <= i < u.len() && 0 <= j < u.len() && i != j implies #[trigger] u[i].0
            != #[trigger] u[j].0 by {
            if i > 0 && j > 0 {
                assert(u[i] == ur[i - 1] && u[j] == ur[j - 1]);
            } else if i == 0 {
                assert(u[j] == ur[j - 1]);
                if ur[j - 1].0 != k {
                    let l = choose|l: int| 0 <= l < rest.len() && rest[l].0 == ur[j - 1].0;
                    assert(entries[l + 1].0 == ur[j - 1].0);
                }
            } else {
                assert(u[i] == ur[i - 1]);
                if ur[i - 1].0 != k {
                    let l = choose|l: int| 0 <= l < rest.len() && rest[l].0 == ur[i - 1].0;
                    assert(entries[l + 1].0 == ur[i - 1].0);
                }
            }
        }
    }
}

/// The value bound to `k`, if `entries` binds it.
pub open spec fn lookup(entries: Seq<(Seq<char>, Seq<char>)>, k: Seq<char>) -> Option<Seq<char>>
    decreases entries.len(),
{
    if entries.len() == 0 {
        None
    } else if entries[0].0 == k {
        Some(entries[0].1)
    } else {
        lookup(entries.drop_first(), k)
    }
}

/// The value of the last insertion of `k` in `ins`, if any.
pub open spec fn last_inserted(ins: Seq<(Seq<char>, Seq<char>)>, k: Seq<char>) -> Option<Seq<char>>
    decreases ins.len(),
{
    if ins.len() == 0 {
        None
    } else {
        match last_inserted(ins.drop_first(), k) {
            Some(v) => Some(v),
            None => if ins[0].0 == k {
                Some(ins[0].1)
            } else {
                None
            },
        }
    }
}

proof fn lemma_lookup_upsert(
    entries: Seq<(Seq<char>, Seq<char>)>,
    k: Seq<char>,
    v: Seq<char>,
    k2: Seq<char>,
)
    ensures
        lookup(upsert(entries, k, v), k2) == (if k2 == k {
            Some(v)
        } else {
            lookup(entries, k2)
        }),
    decreases entries.len(),
{
    let u = upsert(entries, k, v);
    if entries.len() == 0 {
        assert(u[0] == (k, v));
        assert(u.drop_first() =~= Seq::<(Seq<char>, Seq<char>)>::empty());
        assert(lookup(u.drop_first(), k2) is None);
    } else if entries[0].0 == k {
        assert(u[0] == (k, v));
        assert(u.drop_first() =~= entries.drop_first());
    } else {
        assert(u[0] == entries[0]);
        lemma_lookup_upsert(entries.drop_first(), k, v, k2);
        assert(u.drop_first() =~= upsert(entries.drop_first(), k, v));
    }
}

proof fn lemma_lookup_upsert_all(
    entries: Seq<(Seq<char>, Seq<char>)>,
    ins: Seq<(Seq<char>, Seq<char>)>,
    k: Seq<char>,
)
    ensures
        lookup(upsert_all(entries, ins), k) == (match last_inserted(ins, k) {
            Some(v) => Some(v),
            None => lookup(entries, k),
        }),
    decreases ins.len(),
{
    if ins.len() > 0 {
        let e2 = upsert(entries, ins[0].0, ins[0].1);
        lemma_lookup_upsert_all(e2, ins.drop_first(), k);
        lemma_lookup_upsert(entries, ins[0].0, ins[0].1, k);
    }
}

proof fn lemma_upsert_all_unique(entries: Seq<(Seq<char>, Seq<char>)>, ins: Seq<(Seq<char>, Seq<char>)>)
    requires
        keys_unique(entries),
    ensures
        keys_unique(upsert_all(entries, ins)),
    decreases ins.len(),
{
    if ins.len() > 0 {
        lemma_upsert_unique(entries, ins[0].0, ins[0].1);
        lemma_upsert_all_unique(upsert(entries, ins[0].0, ins[0].1), ins.drop_first());
    }
}

/// Entries built by successive insertions bind each key once, to the value
/// of its last insertion.
pub proof fn law_insertions_last_wins(ins: Seq<(Seq<char>, Seq<char>)>, k: Seq<char>)
    ensures
        keys_unique(upsert_all(Seq::empty(), ins)),
        lookup(upsert_all(Seq::empty(), ins), k) == last_inserted(ins, k),
{
    lemma_upsert_all_unique(Seq::empty(), ins);
    lemma_lookup_upsert_all(Seq::empty(), ins, k);
}

/// The parameters extracted from a path name each key once, each bound to
/// the value that its last occurrence in the pattern captures.
pub proof fn law_path_params_last_wins(pattern: Seq<char>, path: Seq<char>, k: Seq<char>)
    ensures
        keys_unique(path_params(pattern, path)),
        lookup(path_params(pattern, path), k) == last_inserted(
            param_insertions(segments(pattern), segments(path), 0),
            k,
        ),
{
    law_insertions_last_wins(param_insertions(segments(pattern), segments(path), 0), k);
}

/// The names of the `:name` segments are pairwise different.
pub open spec fn param_names_distinct(ps: Seq<Seq<char>>) -> bool {
    forall|i: int, j: int|
        #![trigger ps[i], ps[j]]
        0 <= i < j < ps.len() && is_param_seg(ps[i]) && is_param_seg(ps[j]) ==> ps[i].drop_first()
            != ps[j].drop_first()
}

/// No `:name` segment is named `wildcard`.
pub open spec fn no_wildcard_param(ps: Seq<Seq<char>>) -> bool {
    forall|i: int|
        0 <= i < ps.len() && is_param_seg(#[trigger] ps[i]) ==> ps[i].drop_first() != wildcard_key()
}

proof fn lemma_last_inserted_cons(x: (Seq<char>, Seq<char>), rest: Seq<(Seq<char>, Seq<char>)>, k: Seq<char>)
    ensures
        last_inserted(seq![x] + rest, k) == (match last_inserted(rest, k) {
            Some(v) => Some(v),
            None => if x.0 == k {
                Some(x.1)
            } else {
                None
            },
        }),
{
    assert((seq![x] + rest).drop_first() =~= rest);
    assert((seq![x] + rest)[0] == x);
}

proof fn lemma_absent_key(ps: Seq<Seq<char>>, ts: Seq<Seq<char>>, i: int, k: Seq<char>)
    requires
        0 <= i,
        k != wildcard_key(),
        forall|j: int| i <= j < ps.len() && is_param_seg(#[trigger] ps[j]) ==> ps[j].drop_first() != k,
    ensures
        last_inserted(param_insertions(ps, ts, i), k) is None,
    decreases ps.len() - i,
{
    if i < ps.len() {
        if is_param_seg(ps[i]) {
            lemma_absent_key(ps, ts, i + 1, k);
            lemma_last_inserted_cons((ps[i].drop_first(), captured(ts, i)), param_insertions(ps, ts, i + 1), k);
        } else if ps[i] == star_seg() && i < ts.len() {
            lemma_last_inserted_cons((wildcard_key(), join_with(ts.skip(i), '/')), Seq::empty(), k);
            assert(seq![(wildcard_key(), join_with(ts.skip(i), '/'))] + Seq::empty() =~= seq![
                (wildcard_key(), join_with(ts.skip(i), '/')),
            ]);
        } else {
            lemma_absent_key(ps, ts, i + 1, k);
        }
    }
}

proof fn lemma_inserted_is_lookup(ps: Seq<Seq<char>>, ts: Seq<Seq<char>>, i: int, k: Seq<char>)
    requires
        0 <= i,
        param_names_distinct(ps),
        no_wildcard_param(ps),
    ensures
        last_inserted(param_insertions(ps, ts, i), k) matches Some(v) ==> v == param_from(ps, ts, k, i),
    decreases ps.len() - i,
{
    if i < ps.len() {
        if is_param_seg(ps[i]) {
            let n = ps[i].drop_first();
            lemma_last_inserted_cons((n, captured(ts, i)), param_insertions(ps, ts, i + 1), k);
            if n == k {
                assert(k != wildcard_key());
                assert forall|j: int| i + 1 <= j < ps.len() && is_param_seg(#[trigger] ps[j]) implies ps[j].drop_first() != k by {
                    assert(ps[i].drop_first() != ps[j].drop_first());
                }
                lemma_absent_key(ps, ts, i + 1, k);
            } else {
                lemma_inserted_is_lookup(ps, ts, i + 1, k);
            }
        } else if ps[i] == star_seg() && i < ts.len() {
            lemma_last_inserted_cons((wildcard_key(), join_with(ts.skip(i), '/')), Seq::empty(), k);
            assert(seq![(wildcard_key(), join_with(ts.skip(i), '/'))] + Seq::empty() =~= seq![
                (wildcard_key(), join_with(ts.skip(i), '/')),
            ]);
        } else {
            lemma_inserted_is_lookup(ps, ts, i + 1, k);
        }
    }
}

/// Where the parameter names of a pattern are distinct and none is
/// `wildcard`, every key of the extracted parameters has the value that the
/// single lookup of that key gives.
pub proof fn law_path_params_agree_with_lookup(pattern: Seq<char>, path: Seq<char>, k: Seq<char>)
    requires
        param_names_distinct(segments(pattern)),
        no_wildcard_param(segments(pattern)),
    ensures
        lookup(path_params(pattern, path), k) matches Some(v) ==> v == path_param(pattern, path, k),
{
    law_path_params_last_wins(pattern, path, k);
    lemma_inserted_is_lookup(segments(pattern), segments(path), 0, k);
}

proof fn lemma_segments_match_without_star(ps: Seq<Seq<char>>, ts: Seq<Seq<char>>)
    requires
        forall|i: int| 0 <= i < ps.len() ==> #[trigger] ps[i] != seq!['*'],
        segments_match(ps, ts),
    ensures
        ps.len() == ts.len(),
        forall|i: int| 0 <= i < ps.len() && !is_param_seg(#[trigger] ps[i]) ==> ps[i] == ts[i],
    decreases ps.len(),
{
    if ps.len() > 0 {
        assert(ps[0] != seq!['*']);
        let pr = ps.drop_first();
        let tr = ts.drop_first();
        assert forall|i: int| 0 <= i < pr.len() implies #[trigger] pr[i] != seq!['*'] by {
            assert(pr[i] == ps[i + 1]);
        }
        lemma_segments_match_without_star(pr, tr);
        assert forall|i: int| 0 <= i < ps.len() && !is_param_seg(#[trigger] ps[i]) implies ps[i] == ts[i] by {
            if i > 0 {
                assert(ps[i] == pr[i - 1] && ts[i] == tr[i - 1]);
            }
        }
    }
}

/// Without a `*` segment, a pattern matches a path that is not empty (outer
/// slashes aside) only when both have the same number of segments and every
/// segment of the pattern other than a `:name` equals the path's segment at
/// the same place; a `:name` takes exactly one segment of the path.
pub proof fn law_match_without_star(pattern: Seq<char>, path: Seq<char>)
    ensures
        ({
            let ps = segments(pattern);
            let ts = segments(path);
            (forall|i: int| 0 <= i < ps.len() ==> #[trigger] ps[i] != seq!['*'])
                && trim_both(path, '/').len() > 0 && path_matches(pattern, path) ==> {
                &&& ps.len() == ts.len()
                &&& forall|i: int| 0 <= i < ps.len() && !is_param_seg(#[trigger] ps[i]) ==> ps[i] == ts[i]
            }
        }),
{
    let ps = segments(pattern);
    let ts = segments(path);
    if (forall|i: int| 0 <= i < ps.len() ==> #[trigger] ps[i] != seq!['*'])
        && trim_both(path, '/').len() > 0 && path_matches(pattern, path) {
        lemma_segments_match_without_star(ps, ts);
    }
}

proof fn lemma_segments_match_of(ps: Seq<Seq<char>>, ts: Seq<Seq<char>>)
    requires
        ps.len() == ts.len(),
        forall|i: int| 0 <= i < ps.len() && !is_param_seg(#[trigger] ps[i]) ==> ps[i] == ts[i],
    ensures
        segments_match(ps, ts),
    decreases ps.len(),
{
    if ps.len() > 0 && ps[0] != star_seg() {
        let pr = ps.drop_first();
        let tr = ts.drop_first();
        assert forall|i: int| 0 <= i < pr.len() && !is_param_seg(#[trigger] pr[i]) implies pr[i] == tr[i] by {
            assert(pr[i] == ps[i + 1] && tr[i] == ts[i + 1]);
        }
        lemma_segments_match_of(pr, tr);
    }
}

/// A pattern matches every path with as many segments whose segments equal
/// the pattern's own wherever the pattern has no `:name`: a `:name` takes any
/// one segment.
pub proof fn law_match_params_take_any_segment(pattern: Seq<char>, path: Seq<char>)
    ensures
        ({
            let ps = segments(pattern);
            let ts = segments(path);
            ps.len() == ts.len() && (forall|i: int|
                0 <= i < ps.len() && !is_param_seg(#[trigger] ps[i]) ==> ps[i] == ts[i])
                ==> path_matches(pattern, path)
        }),
{
    let ps = segments(pattern);
    let ts = segments(path);
    if ps.len() == ts.len() && (forall|i: int|
        0 <= i < ps.len() && !is_param_seg(#[trigger] ps[i]) ==> ps[i] == ts[i]) {
        lemma_segments_match_of(ps, ts);
    }
}

proof fn lemma_trim_end_append(x: Seq<char>, y: Seq<char>, c: char)
    ensures
        (exists|j: int| 0 <= j < y.len() && y[j] != c) ==> trim_end(x + y, c) == x + trim_end(y, c),
        (forall|j: int| 0 <= j < y.len() ==> y[j] == c) ==> trim_end(x + y, c) == trim_end(x, c),
    decreases y.len(),
{
    if y.len() == 0 {
        assert(x + y =~= x);
    } else {
        let yl = y.drop_last();
        lemma_trim_end_append(x, yl, c);
        assert((x + y).drop_last() =~= x + yl);
        assert((x + y).last() == y.last());
        if y.last() == c {
            if exists|j: int| 0 <= j < y.len() && y[j] != c {
                let j = choose|j: int| 0 <= j < y.len() && y[j] != c;
                assert(j < yl.len());
                assert(yl[j] != c);
            }
            if forall|j: int| 0 <= j < y.len() ==> y[j] == c {
                assert forall|j: int| 0 <= j < yl.len() implies yl[j] == c by {
                    assert(yl[j] == y[j]);
                }
            }
        } else {
            assert(y[y.len() - 1] != c);
        }
    }
}

proof fn lemma_trim_end_twice(x: Seq<char>, c: char)
    ensures
        trim_end(trim_end(x, c), c) == trim_end(x, c),
        trim_end(x, c).len() > 0 ==> trim_end(x, c)[trim_end(x, c).len() - 1] != c,
    decreases x.len(),
{
    if x.len() > 0 && x.last() == c {
        lemma_trim_end_twice(x.drop_last(), c);
    }
}

/// The filter reads its prefix only up to trailing slashes: a slash more at
/// the end of the prefix changes nothing.
pub proof fn law_path_filter_prefix_slash(prefix: Seq<char>, path: Seq<char>)
    ensures
        under_prefix(prefix.push('/'), path) == under_prefix(prefix, path),
{
    assert(prefix.push('/').drop_last() =~= prefix);
}

/// Every path that is the prefix (trailing slashes removed), a slash and
/// anything at all passes the filter of that prefix.
pub proof fn law_path_filter_passes_under_prefix(prefix: Seq<char>, rest: Seq<char>)
    ensures
        under_prefix(prefix, trim_end(prefix, '/') + seq!['/'] + rest),
{
    let pfx = trim_end(prefix, '/');
    let with = pfx + seq!['/'];
    let path = with + rest;
    lemma_trim_end_twice(prefix, '/');
    lemma_trim_end_append(with, rest, '/');
    if exists|j: int| 0 <= j < rest.len() && rest[j] != '/' {
        let pth = trim_end(path, '/');
        assert(pth == with + trim_end(rest, '/'));
        assert(pth.subrange(0, with.len() as int) =~= pfx.push('/'));
    } else {
        assert(forall|j: int| 0 <= j < rest.len() ==> rest[j] == '/');
        assert(with.drop_last() =~= pfx);
        assert(trim_end(with, '/') == trim_end(pfx, '/'));
    }
}

/// A path that goes on from the prefix (trailing slashes removed) with
/// anything but a slash is not under it: `/apix` is not under `/api`.
pub proof fn law_path_filter_refuses_longer_name(prefix: Seq<char>, c: char, rest: Seq<char>)
    requires
        c != '/',
    ensures
        !under_prefix(prefix, trim_end(prefix, '/') + seq![c] + rest),
{
    let pfx = trim_end(prefix, '/');
    let y = seq![c] + rest;
    let path = pfx + y;
    assert(trim_end(prefix, '/') + seq![c] + rest =~= path);
    assert(y[0] != '/');
    lemma_trim_end_append(pfx, y, '/');
    lemma_trim_end_append(seq![c], rest, '/');
    assert(seq![c] + rest =~= y);
    assert(seq![c].drop_last() =~= Seq::<char>::empty());
    let ty = trim_end(y, '/');
    assert(ty.len() >= 1 && ty[0] == c);
    let pth = trim_end(path, '/');
    assert(pth == pfx + ty);
    assert(pth[pfx.len() as int] == c);
    assert(pfx.push('/')[pfx.len() as int] == '/');
    if pth.len() >= pfx.push('/').len() {
        assert(pth.subrange(0, pfx.push('/').len() as int)[pfx.len() as int] == c);
    }
}

proof fn lemma_segments_match_self(ps: Seq<Seq<char>>)
    ensures
        segments_match(ps, ps),
    decreases ps.len(),
{
    if ps.len() > 0 && ps[0] != star_seg() {
        lemma_segments_match_self(ps.drop_first());
    }
}

/// Every path matches itself read as a pattern.
pub proof fn law_path_matches_itself(path: Seq<char>)
    ensures
        path_matches(path, path),
{
    lemma_segments_match_self(segments(path));
}

/// The pattern `*` matches every path.
pub proof fn law_star_matches_every_path(path: Seq<char>)
    ensures
        path_matches(star_seg(), path),
{
    let st = star_seg();
    assert(trim_start(st, '/') == st);
    assert(trim_end(st, '/') == st);
    assert(st.drop_last() =~= Seq::<char>::empty());
    assert(split_on(st.drop_last(), '/') =~= seq![Seq::<char>::empty()]);
    assert(Seq::<char>::empty().push('*') =~= st);
    assert(split_on(st, '/') =~= seq![st]);
}

/// A path passes the filter of its own prefix.
pub proof fn law_path_under_itself(path: Seq<char>)
    ensures
        under_prefix(path, path),
{
}

// ---------------------------------------------------------------------------
// Executable functions
// ---------------------------------------------------------------------------

/// Checks if a request path matches a route pattern with `:param`
/// placeholders or `*` wildcards.
pub fn match_path(pattern: String, path: String) -> (r: bool)
    ensures
        r == path_matches(pattern@, path@),
{
    let pat = str_chars(pattern.as_str());
    let pth = str_chars(path.as_str());
    let pc = trim_chars(&pat, '/');
    let tc = trim_chars(&pth, '/');
    if tc.len() == 0 {
        return true;
    }
    let ps = split_chars(&pc, '/');
    let ts = split_chars(&tc, '/');
    let ghost pv = views(ps@);
    let ghost tv = views(ts@);
    assert(pv == segments(pattern@));
    assert(tv == segments(path@));
    let star: Vec<char> = vec!['*'];
    assert(star@ =~= star_seg());
    let mut i: usize = 0;
    assert(pv.skip(0) =~= pv);
    assert(tv.skip(0) =~= tv);
    while i < ps.len()
        invariant
            pv == views(ps@),
            tv == views(ts@),
            star@ == star_seg(),
            i <= ps.len(),
            i <= ts.len(),
            segments_match(pv, tv) == segments_match(pv.skip(i as int), tv.skip(i as int)),
            pv == segments(pattern@),
            tv == segments(path@),
            trim_both(path@, '/').len() > 0,
        decreases ps.len() - i,
    {
        assert(pv.skip(i as int)[0] == pv[i as int]);
        assert(pv[i as int] == ps@[i as int]@);
        if chars_eq(&ps[i], &star) {
            return true;
        }
        if i >= ts.len() {
            assert(tv.skip(i as int).len() == 0);
            return false;
        }
        proof {
            lemma_segments_match_step(pv, tv, i as int);
        }
        let seg = &ps[i];
        if seg.len() > 0 && seg[0] == ':' {
            i = i + 1;
            continue;
        }
        assert(tv[i as int] == ts@[i as int]@);
        if !chars_eq(seg, &ts[i]) {
            return false;
        }
        i = i + 1;
    }
    assert(pv.skip(i as int).len() == 0);
    i == ts.len()
}

/// The value of parameter `key` among the segments from `from` on, written
/// into a fresh vector.
fn lookup_param(ps: &Vec<Vec<char>>, ts: &Vec<Vec<char>>, key: &Vec<char>) -> (r: Vec<char>)
    ensures
        r@ == param_from(views(ps@), views(ts@), key@, 0),
{
    let star: Vec<char> = vec!['*'];
    let wild: Vec<char> = vec!['w', 'i', 'l', 'd', 'c', 'a', 'r', 'd'];
    assert(star@ =~= star_seg());
    assert(wild@ =~= wildcard_key());
    let key_is_wild = chars_eq(key, &wild);
    let ghost pv = views(ps@);
    let ghost tv = views(ts@);
    let mut i: usize = 0;
    while i < ps.len()
        invariant
            pv == views(ps@),
            tv == views(ts@),
            star@ == star_seg(),
            key_is_wild == (key@ == wildcard_key()),
            i <= ps.len(),
            param_from(pv, tv, key@, 0) == param_from(pv, tv, key@, i as int),
        decreases ps.len() - i,
    {
        let seg = &ps[i];
        if seg.len() > 0 && seg[0] == ':' {
            let name = sub_chars(seg, 1, seg.len());
            assert(name@ =~= pv[i as int].drop_first());
            if chars_eq(&name, key) {
                if i < ts.len() && ts[i].len() > 0 {
                    return sub_chars(&ts[i], 0, ts[i].len());
                } else {
                    let one: Vec<char> = vec!['1'];
                    assert(one@ =~= absent_value());
                    return one;
                }
            }
        } else if chars_eq(seg, &star) && key_is_wild && i < ts.len() {
            return join_chars(ts, i, '/');
        }
        i = i + 1;
    }
    Vec::new()
}

/// Extracts a specific path parameter from a pattern and path.
pub fn get_path_param(pattern: String, path: String, key: String) -> (r: String)
    ensures
        r@ == path_param(pattern@, path@, key@),
{
    let pat = str_chars(pattern.as_str());
    let pth = str_chars(path.as_str());
    let k = str_chars(key.as_str());
    let ps = split_chars(&trim_chars(&pat, '/'), '/');
    let ts = split_chars(&trim_chars(&pth, '/'), '/');
    let v = lookup_param(&ps, &ts, &k);
    chars_to_string(&v)
}

/// Binds `k` to `v` in `entries`, in place of an entry of `k` or at the end.
pub fn upsert_entry(entries: &mut Vec<(Vec<char>, Vec<char>)>, k: Vec<char>, v: Vec<char>)
    ensures
        entry_views(final(entries)@) == upsert(entry_views(old(entries)@), k@, v@),
{
    let ghost e0 = entry_views(entries@);
    let mut j: usize = 0;
    assert(e0.skip(0) =~= e0);
    assert(e0.take(0) + upsert(e0.skip(0), k@, v@) =~= upsert(e0, k@, v@));
    while j < entries.len()
        invariant
            e0 == entry_views(entries@),
            e0 == entry_views(old(entries)@),
            j <= entries.len(),
            upsert(e0, k@, v@) == e0.take(j as int) + upsert(e0.skip(j as int), k@, v@),
        decreases entries.len() - j,
    {
        let ghost rest = e0.skip(j as int);
        assert(rest[0] == e0[j as int]);
        assert(rest.drop_first() =~= e0.skip(j + 1));
        assert(e0[j as int] == (entries@[j as int].0@, entries@[j as int].1@));
        if chars_eq(&entries[j].0, &k) {
            assert(rest[0].0 == k@);
            let ghost kv = k@;
            let ghost vv = v@;
            let old_e = entries.remove(j);
            entries.insert(j, (k, v));
            assert(entry_views(entries@) =~= e0.take(j as int) + (seq![(kv, vv)] + e0.skip(j + 1)));
            assert(upsert(rest, kv, vv) == seq![(kv, vv)] + rest.drop_first());
            return;
        }
        assert(e0.take(j as int) + upsert(rest, k@, v@) =~= e0.take(j + 1) + upsert(
            e0.skip(j + 1),
            k@,
            v@,
        ));
        j = j + 1;
    }
    let ghost kv = k@;
    let ghost vv = v@;
    entries.push((k, v));
    assert(e0.skip(j as int) =~= Seq::<(Seq<char>, Seq<char>)>::empty());
    assert(e0.take(j as int) =~= e0);
    assert(entry_views(entries@) =~= e0 + seq![(kv, vv)]);
}

/// The parameters of `path` under `pattern` as entries (see `path_params`).
pub fn path_param_entries(pattern: &str, path: &str) -> (r: Vec<(Vec<char>, Vec<char>)>)
    ensures
        entry_views(r@) == path_params(pattern@, path@),
{
    let pat = str_chars(pattern);
    let pth = str_chars(path);
    let ps = split_chars(&trim_chars(&pat, '/'), '/');
    let ts = split_chars(&trim_chars(&pth, '/'), '/');
    let ghost pv = views(ps@);
    let ghost tv = views(ts@);
    let star: Vec<char> = vec!['*'];
    assert(star@ =~= star_seg());
    let mut entries: Vec<(Vec<char>, Vec<char>)> = Vec::new();
    assert(entry_views(entries@) =~= Seq::<(Seq<char>, Seq<char>)>::empty());
    let mut i: usize = 0;
    while i < ps.len()
        invariant
            pv == views(ps@),
            tv == views(ts@),
            pv == segments(pattern@),
            tv == segments(path@),
            star@ == star_seg(),
            i <= ps.len(),
            path_params(pattern@, path@) == upsert_all(
                entry_views(entries@),
                param_insertions(pv, tv, i as int),
            ),
        decreases ps.len() - i,
    {
        let seg = &ps[i];
        if seg.len() > 0 && seg[0] == ':' {
            let name = sub_chars(seg, 1, seg.len());
            assert(name@ =~= pv[i as int].drop_first());
            let value = if i < ts.len() && ts[i].len() > 0 {
                sub_chars(&ts[i], 0, ts[i].len())
            } else {
                let one: Vec<char> = vec!['1'];
                assert(one@ =~= absent_value());
                one
            };
            let ghost ins = param_insertions(pv, tv, i as int);
            assert(ins[0] == (name@, value@));
            assert(ins.drop_first() =~= param_insertions(pv, tv, i + 1));
            upsert_entry(&mut entries, name, value);
        } else if chars_eq(seg, &star) && i < ts.len() {
            let value = join_chars(&ts, i, '/');
            let wild: Vec<char> = vec!['w', 'i', 'l', 'd', 'c', 'a', 'r', 'd'];
            assert(wild@ =~= wildcard_key());
            let ghost ins = param_insertions(pv, tv, i as int);
            assert(ins =~= seq![(wild@, value@)]);
            assert(ins.drop_first() =~= Seq::<(Seq<char>, Seq<char>)>::empty());
            let ghost before = entry_views(entries@);
            upsert_entry(&mut entries, wild, value);
            assert(upsert_all(entry_views(entries@), Seq::empty()) == entry_views(entries@));
            assert(upsert_all(before, ins) == upsert_all(
                upsert(before, ins[0].0, ins[0].1),
                ins.drop_first(),
            ));
            return entries;
        }
        i = i + 1;
    }
    entries
}

/// Extracts named path parameters from a URL path according to a pattern
/// (e.g. `/users/:id`), returning a JSON object string of the captured keys
/// and values; keys appear once each, in the order in which they first occur.
pub fn extract_path_params_json(pattern: String, path: String) -> (r: String)
    ensures
        r@ == crate::json::json_object(path_params(pattern@, path@)),
{
    let entries = path_param_entries(pattern.as_str(), path.as_str());
    crate::json::object_text(&entries)
}

/// Tests if a path begins with a given prefix path filter.
pub fn path_filter(prefix: String, path: String) -> (r: bool)
    ensures
        r == under_prefix(prefix@, path@),
{
    let pfx = trim_end_chars(&str_chars(prefix.as_str()), '/');
    let pth = trim_end_chars(&str_chars(path.as_str()), '/');
    if pth.len() == 0 {
        return true;
    }
    if chars_eq(&pth, &pfx) {
        return true;
    }
    let mut with_slash = sub_chars(&pfx, 0, pfx.len());
    with_slash.push('/');
    assert(with_slash@ =~= pfx@.push('/'));
    starts_with(&pth, &with_slash)
}

} // verus!
