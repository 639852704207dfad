//! Expanded expressions: every key of their attribute sets is a single part
//! that splitting leaves whole. Expanding an expression whose keys have no
//! empty part gives such an expression, and expanding that changes nothing.
use vstd::prelude::*;
use crate::flattening::{
    split_from, split_key, insert_path, expanded_map, expand_tree, expanded_vals, expanded_items,
    expanded_frags,
};
use crate::value::{
    SNix, SFrag, SLambda, keys_unique, map_insert, map_get, key_index, lemma_key_index,
    lemma_map_insert_unique,
};
use crate::format::all_true;
use crate::sort::{sort_tree, sort_entries, ins_entry, sorted_vals, sorted_items, sorted_frags};

verus! {

// ---------------------------------------------------------------------------
// Splitting a key a second time
// ---------------------------------------------------------------------------

/// Where the part of `k` that starts being read at `i`, in quote state `q`
/// and with `d` interpolations open, ends: at the next dot that splits, or at
/// the end of `k`.
pub open spec fn seg_end(k: Seq<char>, i: int, q: bool, d: nat) -> int
    decreases k.len() - i,
{
    if i < 0 || i >= k.len() {
        k.len() as int
    } else {
        let c = k[i];
        if c == '"' {
            seg_end(k, i + 1, !q, d)
        } else if c == '$' {
            if i + 1 < k.len() && k[i + 1] == '{' {
                seg_end(k, i + 2, q, d + 1)
            } else {
                seg_end(k, i + 1, q, d)
            }
        } else if c == '{' && d > 0 {
            seg_end(k, i + 1, q, d + 1)
        } else if c == '}' && d > 0 {
            seg_end(k, i + 1, q, (d - 1) as nat)
        } else if c == '.' && !q && d == 0 {
            i
        } else {
            seg_end(k, i + 1, q, d)
        }
    }
}

/// The part `cur` read so far is completed up to its end; a dot that splits
/// starts the next part, with nothing open.
proof fn lemma_split_segment(
    k: Seq<char>,
    i: int,
    parts: Seq<Seq<char>>,
    cur: Seq<char>,
    q: bool,
    d: nat,
)
    requires
        0 <= i <= k.len(),
    ensures
        i <= seg_end(k, i, q, d) <= k.len(),
        seg_end(k, i, q, d) < k.len() ==> k[seg_end(k, i, q, d)] == '.',
        split_from(k, i, parts, cur, q, d) == ({
            let b = seg_end(k, i, q, d);
            if b < k.len() {
                split_from(k, b + 1, parts.push(cur + k.subrange(i, b)), Seq::empty(), false, 0)
            } else {
                let c2 = cur + k.subrange(i, k.len() as int);
                if c2.len() > 0 {
                    parts.push(c2)
                } else {
                    parts
                }
            }
        }),
    decreases k.len() - i,
{
    if i < k.len() {
        let c = k[i];
        if c == '"' {
            lemma_split_segment(k, i + 1, parts, cur.push(c), !q, d);
            assert(cur.push(c) + k.subrange(i + 1, seg_end(k, i, q, d)) =~= cur + k.subrange(
                i,
                seg_end(k, i, q, d),
            ));
        } else if c == '$' {
            if i + 1 < k.len() && k[i + 1] == '{' {
                lemma_split_segment(k, i + 2, parts, cur.push('$').push('{'), q, d + 1);
                assert(cur.push('$').push('{') + k.subrange(i + 2, seg_end(k, i, q, d)) =~= cur
                    + k.subrange(i, seg_end(k, i, q, d)));
            } else {
                lemma_split_segment(k, i + 1, parts, cur.push('$'), q, d);
                assert(cur.push('$') + k.subrange(i + 1, seg_end(k, i, q, d)) =~= cur + k.subrange(
                    i,
                    seg_end(k, i, q, d),
                ));
            }
        } else if c == '{' && d > 0 {
            lemma_split_segment(k, i + 1, parts, cur.push(c), q, d + 1);
            assert(cur.push(c) + k.subrange(i + 1, seg_end(k, i, q, d)) =~= cur + k.subrange(
                i,
                seg_end(k, i, q, d),
            ));
        } else if c == '}' && d > 0 {
            lemma_split_segment(k, i + 1, parts, cur.push(c), q, (d - 1) as nat);
            assert(cur.push(c) + k.subrange(i + 1, seg_end(k, i, q, d)) =~= cur + k.subrange(
                i,
                seg_end(k, i, q, d),
            ));
        } else if c == '.' && !q && d == 0 {
            assert(cur + k.subrange(i, i) =~= cur);
        } else {
            lemma_split_segment(k, i + 1, parts, cur.push(c), q, d);
            assert(cur.push(c) + k.subrange(i + 1, seg_end(k, i, q, d)) =~= cur + k.subrange(
                i,
                seg_end(k, i, q, d),
            ));
        }
    } else {
        assert(cur + k.subrange(i, k.len() as int) =~= cur);
    }
}

/// Read on its own, a part of `k` from `a` to `b` runs to its end the way it
/// ran inside `k`.
proof fn lemma_segment_alone(k: Seq<char>, a: int, b: int, j: int, q: bool, d: nat)
    requires
        0 <= a <= a + j <= b <= k.len(),
        b == k.len() || k[b] == '.',
        seg_end(k, a + j, q, d) == b,
    ensures
        seg_end(k.subrange(a, b), j, q, d) == b - a,
    decreases b - (a + j),
{
    let p = k.subrange(a, b);
    if a + j < b {
        let c = k[a + j];
        assert(p[j] == c);
        if c == '"' {
            lemma_segment_alone(k, a, b, j + 1, !q, d);
        } else if c == '$' {
            if a + j + 1 < k.len() && k[a + j + 1] == '{' {
                assert(a + j + 1 < b);
                assert(p[j + 1] == '{');
                lemma_segment_alone(k, a, b, j + 2, q, d + 1);
            } else {
                assert(!(j + 1 < p.len() && p[j + 1] == '{'));
                lemma_segment_alone(k, a, b, j + 1, q, d);
            }
        } else if c == '{' && d > 0 {
            lemma_segment_alone(k, a, b, j + 1, q, d + 1);
        } else if c == '}' && d > 0 {
            lemma_segment_alone(k, a, b, j + 1, q, (d - 1) as nat);
        } else if c == '.' && !q && d == 0 {
            assert(false);
        } else {
            lemma_segment_alone(k, a, b, j + 1, q, d);
        }
    }
}

/// Whether splitting `k` gives `k` back as its only part.
pub open spec fn atomic(k: Seq<char>) -> bool {
    split_key(k) == seq![k]
}

/// Each part of `k` read from `a` (with nothing open) on, if not empty,
/// splits into itself.
proof fn lemma_parts_atomic_from(k: Seq<char>, a: int, parts: Seq<Seq<char>>)
    requires
        0 <= a <= k.len(),
        forall|j: int| 0 <= j < parts.len() && parts[j].len() > 0 ==> atomic(#[trigger] parts[j]),
    ensures
        forall|j: int|
            0 <= j < split_from(k, a, parts, Seq::empty(), false, 0).len() && split_from(
                k,
                a,
                parts,
                Seq::empty(),
                false,
                0,
            )[j].len() > 0 ==> atomic(#[trigger] split_from(k, a, parts, Seq::empty(), false, 0)[j]),
    decreases k.len() - a,
{
    lemma_split_segment(k, a, parts, Seq::empty(), false, 0);
    let b = seg_end(k, a, false, 0);
    let p = k.subrange(a, b);
    assert(Seq::<char>::empty() + p =~= p);
    if p.len() > 0 {
        lemma_segment_alone(k, a, b, 0, false, 0);
        lemma_split_segment(p, 0, Seq::empty(), Seq::empty(), false, 0);
        assert(Seq::<char>::empty() + p.subrange(0, p.len() as int) =~= p);
        assert(split_key(p) =~= seq![p]);
    }
    if b < k.len() {
        lemma_parts_atomic_from(k, b + 1, parts.push(p));
    } else {
        assert(k.subrange(a, k.len() as int) == p);
    }
}

/// Each part of a key, if not empty, splits into itself.
pub proof fn lemma_parts_atomic(k: Seq<char>)
    ensures
        forall|j: int|
            0 <= j < split_key(k).len() && split_key(k)[j].len() > 0 ==> atomic(
                #[trigger] split_key(k)[j],
            ),
{
    lemma_parts_atomic_from(k, 0, Seq::empty());
}

// ---------------------------------------------------------------------------
// Expanded expressions
// ---------------------------------------------------------------------------

/// Every attribute set and `let` block of `v` has distinct keys, each of
/// which splits into itself.
pub open spec fn is_expanded(v: SNix) -> bool
    decreases v, 1int,
{
    match v {
        SNix::AttrSet(m) => keys_unique(m) && all_true(entries_expanded(m)),
        SNix::LetIn(m, b) => keys_unique(m) && all_true(entries_expanded(m)) && is_expanded(*b),
        SNix::List(l) => all_true(items_expanded(l)),
        SNix::IndStr(f) => all_true(frags_expanded(f)),
        SNix::Group(b) => is_expanded(*b),
        SNix::With(a, b) => is_expanded(*a) && is_expanded(*b),
        SNix::Lambda(l) => match l {
            SLambda::Nofix(_, b) => is_expanded(*b),
            SLambda::Suffix(_, _, b) => is_expanded(*b),
            SLambda::Prefix(_, _, b) => is_expanded(*b),
            SLambda::Single(_, b) => is_expanded(*b),
        },
        SNix::Apply(a, b) => is_expanded(*a) && is_expanded(*b),
        SNix::Antiquotation(b) => is_expanded(*b),
        SNix::BinaryOp(l, _, r) => is_expanded(*l) && is_expanded(*r),
        _ => true,
    }
}

pub open spec fn entries_expanded(m: Seq<(Seq<char>, SNix)>) -> Seq<bool>
    decreases m, 0int,
{
    Seq::new(
        m.len(),
        |i: int| if 0 <= i < m.len() { atomic(m[i].0) && is_expanded(m[i].1) } else { true },
    )
}

pub open spec fn items_expanded(l: Seq<SNix>) -> Seq<bool>
    decreases l, 0int,
{
    Seq::new(l.len(), |i: int| if 0 <= i < l.len() { is_expanded(l[i]) } else { true })
}

pub open spec fn frags_expanded(f: Seq<SFrag>) -> Seq<bool>
    decreases f, 0int,
{
    Seq::new(
        f.len(),
        |i: int|
            if 0 <= i < f.len() {
                match f[i] {
                    SFrag::Text(_) => true,
                    SFrag::Anti(b) => is_expanded(*b),
                }
            } else {
                true
            },
    )
}

/// No part of the key is empty (as in `a..b`, `.a` or an empty key).
pub open spec fn key_parts_ok(k: Seq<char>) -> bool {
    forall|j: int| 0 <= j < split_key(k).len() ==> #[trigger] split_key(k)[j].len() > 0
}

/// No key of an attribute set or `let` block of `v` has an empty part.
pub open spec fn keys_ok(v: SNix) -> bool
    decreases v, 1int,
{
    match v {
        SNix::AttrSet(m) => all_true(entries_keys_ok(m)),
        SNix::LetIn(m, b) => all_true(entries_keys_ok(m)) && keys_ok(*b),
        SNix::List(l) => all_true(items_keys_ok(l)),
        SNix::IndStr(f) => all_true(frags_keys_ok(f)),
        SNix::Group(b) => keys_ok(*b),
        SNix::With(a, b) => keys_ok(*a) && keys_ok(*b),
        SNix::Lambda(l) => match l {
            SLambda::Nofix(_, b) => keys_ok(*b),
            SLambda::Suffix(_, _, b) => keys_ok(*b),
            SLambda::Prefix(_, _, b) => keys_ok(*b),
            SLambda::Single(_, b) => keys_ok(*b),
        },
        SNix::Apply(a, b) => keys_ok(*a) && keys_ok(*b),
        SNix::Antiquotation(b) => keys_ok(*b),
        SNix::BinaryOp(l, _, r) => keys_ok(*l) && keys_ok(*r),
        _ => true,
    }
}

pub open spec fn entries_keys_ok(m: Seq<(Seq<char>, SNix)>) -> Seq<bool>
    decreases m, 0int,
{
    Seq::new(
        m.len(),
        |i: int| if 0 <= i < m.len() { key_parts_ok(m[i].0) && keys_ok(m[i].1) } else { true },
    )
}

pub open spec fn items_keys_ok(l: Seq<SNix>) -> Seq<bool>
    decreases l, 0int,
{
    Seq::new(l.len(), |i: int| if 0 <= i < l.len() { keys_ok(l[i]) } else { true })
}

pub open spec fn frags_keys_ok(f: Seq<SFrag>) -> Seq<bool>
    decreases f, 0int,
{
    Seq::new(
        f.len(),
        |i: int|
            if 0 <= i < f.len() {
                match f[i] {
                    SFrag::Text(_) => true,
                    SFrag::Anti(b) => keys_ok(*b),
                }
            } else {
                true
            },
    )
}

// ---------------------------------------------------------------------------
// Expanding an expanded expression changes nothing
// ---------------------------------------------------------------------------

/// Storing entries with distinct keys that split into themselves, in order,
/// gives the same entries.
proof fn lemma_expanded_map_fix(m: Seq<(Seq<char>, SNix)>)
    requires
        keys_unique(m),
        forall|i: int| 0 <= i < m.len() ==> atomic(#[trigger] m[i].0),
    ensures
        expanded_map(m) == m,
    decreases m.len(),
{
    if m.len() > 0 {
        let d = m.drop_last();
        assert forall|i: int| 0 <= i < d.len() implies atomic(#[trigger] d[i].0) by {
            assert(d[i] == m[i]);
        }
        lemma_expanded_map_fix(d);
        let k = m.last().0;
        assert(atomic(m[m.len() - 1].0));
        lemma_key_index(d, k);
        assert forall|j: int| 0 <= j < d.len() implies d[j].0 != k by {
            assert(d[j] == m[j]);
        }
        assert(key_index(d, k) is None);
        assert(insert_path(d, split_key(k), m.last().1) == map_insert(d, k, m.last().1));
        assert(d.push((k, m.last().1)) =~= m);
    }
}

proof fn lemma_fix_vals(m: Seq<(Seq<char>, SNix)>)
    requires
        all_true(entries_expanded(m)),
    ensures
        expanded_vals(m) == m,
    decreases m, 1int,
{
    assert forall|i: int| 0 <= i < m.len() implies #[trigger] expanded_vals(m)[i] == m[i] by {
        assert(decreases_to!(m => m[i]));
        assert(decreases_to!(m[i] => m[i].1));
        assert(entries_expanded(m)[i]);
        lemma_expand_fix(m[i].1);
    }
    assert(expanded_vals(m) =~= m);
}

proof fn lemma_fix_map(m: Seq<(Seq<char>, SNix)>)
    requires
        keys_unique(m),
        all_true(entries_expanded(m)),
    ensures
        expanded_map(expanded_vals(m)) == m,
    decreases m, 2int,
{
    lemma_fix_vals(m);
    assert forall|i: int| 0 <= i < m.len() implies atomic(#[trigger] m[i].0) by {
        assert(entries_expanded(m)[i]);
    }
    lemma_expanded_map_fix(m);
}

proof fn lemma_fix_items(l: Seq<SNix>)
    requires
        all_true(items_expanded(l)),
    ensures
        expanded_items(l) == l,
    decreases l, 1int,
{
    assert forall|i: int| 0 <= i < l.len() implies #[trigger] expanded_items(l)[i] == l[i] by {
        assert(decreases_to!(l => l[i]));
        assert(items_expanded(l)[i]);
        lemma_expand_fix(l[i]);
    }
    assert(expanded_items(l) =~= l);
}

proof fn lemma_fix_frags(f: Seq<SFrag>)
    requires
        all_true(frags_expanded(f)),
    ensures
        expanded_frags(f) == f,
    decreases f, 1int,
{
    assert forall|i: int| 0 <= i < f.len() implies #[trigger] expanded_frags(f)[i] == f[i] by {
        assert(decreases_to!(f => f[i]));
        assert(frags_expanded(f)[i]);
        if let SFrag::Anti(b) = f[i] {
            assert(decreases_to!(f[i] => b));
            lemma_expand_fix(*b);
        }
    }
    assert(expanded_frags(f) =~= f);
}

/// Expanding an expanded expression gives it back.
pub proof fn lemma_expand_fix(v: SNix)
    requires
        is_expanded(v),
    ensures
        expand_tree(v) == v,
    decreases v, 3int,
{
    match v {
        SNix::AttrSet(m) => {
            lemma_fix_map(m);
        },
        SNix::LetIn(m, b) => {
            lemma_fix_map(m);
            lemma_expand_fix(*b);
        },
        SNix::List(l) => {
            lemma_fix_items(l);
        },
        SNix::IndStr(f) => {
            lemma_fix_frags(f);
        },
        SNix::Group(b) => {
            lemma_expand_fix(*b);
        },
        SNix::With(a, b) => {
            lemma_expand_fix(*a);
            lemma_expand_fix(*b);
        },
        SNix::Lambda(l) => {
            match l {
                SLambda::Nofix(_, b) => lemma_expand_fix(*b),
                SLambda::Suffix(_, _, b) => lemma_expand_fix(*b),
                SLambda::Prefix(_, _, b) => lemma_expand_fix(*b),
                SLambda::Single(_, b) => lemma_expand_fix(*b),
            }
        },
        SNix::Apply(a, b) => {
            lemma_expand_fix(*a);
            lemma_expand_fix(*b);
        },
        SNix::Antiquotation(b) => {
            lemma_expand_fix(*b);
        },
        SNix::BinaryOp(l, _, r) => {
            lemma_expand_fix(*l);
            lemma_expand_fix(*r);
        },
        _ => {},
    }
}

// ---------------------------------------------------------------------------
// Expanding gives an expanded expression
// ---------------------------------------------------------------------------

/// Storing an entry whose key splits into itself and whose value is expanded
/// keeps a map's keys distinct and its entries expanded.
proof fn lemma_insert_expanded(m: Seq<(Seq<char>, SNix)>, k: Seq<char>, v: SNix)
    requires
        keys_unique(m),
        all_true(entries_expanded(m)),
        atomic(k),
        is_expanded(v),
    ensures
        keys_unique(map_insert(m, k, v)),
        all_true(entries_expanded(map_insert(m, k, v))),
{
    lemma_map_insert_unique(m, k, v);
    lemma_key_index(m, k);
    let r = map_insert(m, k, v);
    assert forall|j: int| 0 <= j < r.len() implies #[trigger] entries_expanded(r)[j] by {
        match key_index(m, k) {
            Some(i) => {
                if j != i {
                    assert(r[j] == m[j]);
                    assert(entries_expanded(m)[j]);
                }
            },
            None => {
                if j < m.len() {
                    assert(r[j] == m[j]);
                    assert(entries_expanded(m)[j]);
                }
            },
        }
    }
}

/// Storing an expanded value under parts that are not empty and split into
/// themselves keeps a map's keys distinct and its entries expanded.
proof fn lemma_insert_path_expanded(m: Seq<(Seq<char>, SNix)>, parts: Seq<Seq<char>>, v: SNix)
    requires
        keys_unique(m),
        all_true(entries_expanded(m)),
        forall|j: int| 0 <= j < parts.len() ==> atomic(#[trigger] parts[j]),
        is_expanded(v),
    ensures
        keys_unique(insert_path(m, parts, v)),
        all_true(entries_expanded(insert_path(m, parts, v))),
    decreases parts.len(),
{
    if parts.len() == 1 {
        assert(atomic(parts[0]));
        lemma_insert_expanded(m, parts[0], v);
    } else if parts.len() > 1 {
        let inner = match map_get(m, parts[0]) {
            Some(SNix::AttrSet(im)) => im,
            _ => Seq::empty(),
        };
        lemma_key_index(m, parts[0]);
        if let Some(i) = key_index(m, parts[0]) {
            assert(entries_expanded(m)[i]);
        }
        let rest = parts.drop_first();
        assert forall|j: int| 0 <= j < rest.len() implies atomic(#[trigger] rest[j]) by {
            assert(rest[j] == parts[j + 1]);
        }
        lemma_insert_path_expanded(inner, rest, v);
        let w = SNix::AttrSet(insert_path(inner, rest, v));
        assert(is_expanded(w));
        assert(atomic(parts[0]));
        lemma_insert_expanded(m, parts[0], w);
    }
}

/// Storing entries whose keys have no empty part and whose values are
/// expanded, in order, gives distinct keys and expanded entries.
proof fn lemma_expanded_map_makes(es: Seq<(Seq<char>, SNix)>)
    requires
        forall|i: int|
            0 <= i < es.len() ==> key_parts_ok(#[trigger] es[i].0) && is_expanded(es[i].1),
    ensures
        keys_unique(expanded_map(es)),
        all_true(entries_expanded(expanded_map(es))),
    decreases es.len(),
{
    if es.len() == 0 {
        assert(entries_expanded(expanded_map(es)) =~= Seq::<bool>::empty());
    } else {
        let d = es.drop_last();
        assert forall|i: int| 0 <= i < d.len() implies key_parts_ok(#[trigger] d[i].0)
            && is_expanded(d[i].1) by {
            assert(d[i] == es[i]);
        }
        lemma_expanded_map_makes(d);
        let k = es.last().0;
        assert(key_parts_ok(es[es.len() - 1].0));
        lemma_parts_atomic(k);
        let parts = split_key(k);
        assert forall|j: int| 0 <= j < parts.len() implies atomic(#[trigger] parts[j]) by {
            assert(parts[j].len() > 0);
        }
        assert(is_expanded(es[es.len() - 1].1));
        lemma_insert_path_expanded(expanded_map(d), parts, es.last().1);
    }
}

proof fn lemma_make_map(m: Seq<(Seq<char>, SNix)>)
    requires
        all_true(entries_keys_ok(m)),
    ensures
        keys_unique(expanded_map(expanded_vals(m))),
        all_true(entries_expanded(expanded_map(expanded_vals(m)))),
    decreases m, 1int,
{
    let ev = expanded_vals(m);
    assert forall|i: int| 0 <= i < ev.len() implies key_parts_ok(#[trigger] ev[i].0) && is_expanded(
        ev[i].1,
    ) by {
        assert(decreases_to!(m => m[i]));
        assert(decreases_to!(m[i] => m[i].1));
        assert(entries_keys_ok(m)[i]);
        lemma_expand_makes(m[i].1);
    }
    lemma_expanded_map_makes(ev);
}

proof fn lemma_make_items(l: Seq<SNix>)
    requires
        all_true(items_keys_ok(l)),
    ensures
        all_true(items_expanded(expanded_items(l))),
    decreases l, 1int,
{
    let el = expanded_items(l);
    assert forall|i: int| 0 <= i < el.len() implies #[trigger] items_expanded(el)[i] by {
        assert(decreases_to!(l => l[i]));
        assert(items_keys_ok(l)[i]);
        lemma_expand_makes(l[i]);
    }
}

proof fn lemma_make_frags(f: Seq<SFrag>)
    requires
        all_true(frags_keys_ok(f)),
    ensures
        all_true(frags_expanded(expanded_frags(f))),
    decreases f, 1int,
{
    let ef = expanded_frags(f);
    assert forall|i: int| 0 <= i < ef.len() implies #[trigger] frags_expanded(ef)[i] by {
        assert(decreases_to!(f => f[i]));
        assert(frags_keys_ok(f)[i]);
        if let SFrag::Anti(b) = f[i] {
            assert(decreases_to!(f[i] => b));
            lemma_expand_makes(*b);
        }
    }
}

/// Expanding an expression whose keys have no empty part gives an expanded
/// expression.
pub proof fn lemma_expand_makes(v: SNix)
    requires
        keys_ok(v),
    ensures
        is_expanded(expand_tree(v)),
    decreases v, 2int,
{
    match v {
        SNix::AttrSet(m) => {
            lemma_make_map(m);
        },
        SNix::LetIn(m, b) => {
            lemma_make_map(m);
            lemma_expand_makes(*b);
        },
        SNix::List(l) => {
            lemma_make_items(l);
        },
        SNix::IndStr(f) => {
            lemma_make_frags(f);
        },
        SNix::Group(b) => {
            lemma_expand_makes(*b);
        },
        SNix::With(a, b) => {
            lemma_expand_makes(*a);
            lemma_expand_makes(*b);
        },
        SNix::Lambda(l) => {
            match l {
                SLambda::Nofix(_, b) => lemma_expand_makes(*b),
                SLambda::Suffix(_, _, b) => lemma_expand_makes(*b),
                SLambda::Prefix(_, _, b) => lemma_expand_makes(*b),
                SLambda::Single(_, b) => lemma_expand_makes(*b),
            }
        },
        SNix::Apply(a, b) => {
            lemma_expand_makes(*a);
            lemma_expand_makes(*b);
        },
        SNix::Antiquotation(b) => {
            lemma_expand_makes(*b);
        },
        SNix::BinaryOp(l, _, r) => {
            lemma_expand_makes(*l);
            lemma_expand_makes(*r);
        },
        _ => {},
    }
}

/// Expanding twice gives what expanding once gives, for an expression whose
/// keys have no empty part.
pub proof fn lemma_expand_idempotent(v: SNix)
    requires
        keys_ok(v),
    ensures
        expand_tree(expand_tree(v)) == expand_tree(v),
{
    lemma_expand_makes(v);
    lemma_expand_fix(expand_tree(v));
}

// ---------------------------------------------------------------------------
// Sorting keeps an expression expanded
// ---------------------------------------------------------------------------

/// Inserting an entry whose key is new keeps the keys distinct; each entry
/// afterwards is the new one or an old one.
proof fn lemma_ins_entry_unique(t: Seq<(Seq<char>, SNix)>, e: (Seq<char>, SNix))
    requires
        keys_unique(t),
        forall|i: int| 0 <= i < t.len() ==> #[trigger] t[i].0 != e.0,
    ensures
        keys_unique(ins_entry(t, e)),
        forall|j: int|
            0 <= j < ins_entry(t, e).len() ==> #[trigger] ins_entry(t, e)[j] == e || t.contains(
                ins_entry(t, e)[j],
            ),
    decreases t.len(),
{
    let r = ins_entry(t, e);
    if t.len() > 0 {
        let t1 = t.drop_first();
        assert forall|i: int| 0 <= i < t1.len() implies #[trigger] t1[i].0 != e.0 by {
            assert(t1[i] == t[i + 1]);
        }
        assert(keys_unique(t1)) by {
            assert forall|a: int, b: int| 0 <= a < b < t1.len() implies t1[a].0 != t1[b].0 by {
                assert(t1[a] == t[a + 1]);
                assert(t1[b] == t[b + 1]);
            }
        }
        lemma_ins_entry_unique(t1, e);
        let r1 = ins_entry(t1, e);
        if !crate::sort::text_lt(e.0, t[0].0) {
            assert(r == seq![t[0]] + r1);
            assert forall|j: int| 0 <= j < r1.len() implies #[trigger] r1[j].0 != t[0].0 by {
                if r1[j] != e {
                    assert(t1.contains(r1[j]));
                    let i = choose|i: int| 0 <= i < t1.len() && t1[i] == r1[j];
                    assert(t1[i] == t[i + 1]);
                }
            }
            assert forall|a: int, b: int| 0 <= a < b < r.len() implies r[a].0 != r[b].0 by {
                if a == 0 {
                    assert(r[b] == r1[b - 1]);
                } else {
                    assert(r[a] == r1[a - 1]);
                    assert(r[b] == r1[b - 1]);
                }
            }
            assert forall|j: int| 0 <= j < r.len() implies #[trigger] r[j] == e || t.contains(r[j]) by {
                if j == 0 {
                    assert(t[0] == r[0]);
                } else {
                    assert(r[j] == r1[j - 1]);
                    if r1[j - 1] != e {
                        assert(t1.contains(r1[j - 1]));
                        let i = choose|i: int| 0 <= i < t1.len() && t1[i] == r1[j - 1];
                        assert(t[i + 1] == r[j]);
                    }
                }
            }
        } else {
            assert(r == seq![e] + t);
            assert forall|a: int, b: int| 0 <= a < b < r.len() implies r[a].0 != r[b].0 by {
                if a == 0 {
                    assert(r[b] == t[b - 1]);
                } else {
                    assert(r[a] == t[a - 1]);
                    assert(r[b] == t[b - 1]);
                }
            }
            assert forall|j: int| 0 <= j < r.len() implies #[trigger] r[j] == e || t.contains(r[j]) by {
                if j > 0 {
                    assert(r[j] == t[j - 1]);
                }
            }
        }
    }
}

/// Sorting entries with distinct keys keeps them distinct; each entry
/// afterwards is one of the entries before.
proof fn lemma_sort_entries_unique(x: Seq<(Seq<char>, SNix)>)
    requires
        keys_unique(x),
    ensures
        keys_unique(sort_entries(x)),
        forall|j: int| 0 <= j < sort_entries(x).len() ==> x.contains(#[trigger] sort_entries(x)[j]),
    decreases x.len(),
{
    if x.len() > 0 {
        let d = x.drop_last();
        assert(keys_unique(d)) by {
            assert forall|a: int, b: int| 0 <= a < b < d.len() implies d[a].0 != d[b].0 by {
                assert(d[a] == x[a]);
                assert(d[b] == x[b]);
            }
        }
        lemma_sort_entries_unique(d);
        let sd = sort_entries(d);
        let e = x.last();
        assert forall|i: int| 0 <= i < sd.len() implies #[trigger] sd[i].0 != e.0 by {
            assert(d.contains(sd[i]));
            let k = choose|k: int| 0 <= k < d.len() && d[k] == sd[i];
            assert(d[k] == x[k]);
        }
        lemma_ins_entry_unique(sd, e);
        let r = sort_entries(x);
        assert forall|j: int| 0 <= j < r.len() implies x.contains(#[trigger] r[j]) by {
            if r[j] == e {
                assert(x[x.len() - 1] == e);
            } else {
                assert(sd.contains(r[j]));
                let i = choose|i: int| 0 <= i < sd.len() && sd[i] == r[j];
                assert(d.contains(sd[i]));
                let k = choose|k: int| 0 <= k < d.len() && d[k] == sd[i];
                assert(x[k] == r[j]);
            }
        }
    }
}

proof fn lemma_sort_map_expanded(m: Seq<(Seq<char>, SNix)>)
    requires
        keys_unique(m),
        all_true(entries_expanded(m)),
    ensures
        keys_unique(sort_entries(sorted_vals(m))),
        all_true(entries_expanded(sort_entries(sorted_vals(m)))),
    decreases m, 1int,
{
    let y = sorted_vals(m);
    assert forall|i: int| 0 <= i < y.len() implies atomic(#[trigger] y[i].0) && is_expanded(
        y[i].1,
    ) by {
        assert(decreases_to!(m => m[i]));
        assert(decreases_to!(m[i] => m[i].1));
        assert(entries_expanded(m)[i]);
        lemma_sort_keeps_expanded(m[i].1);
    }
    assert(keys_unique(y)) by {
        assert forall|a: int, b: int| 0 <= a < b < y.len() implies y[a].0 != y[b].0 by {
            assert(y[a].0 == m[a].0);
            assert(y[b].0 == m[b].0);
        }
    }
    lemma_sort_entries_unique(y);
    let r = sort_entries(y);
    assert forall|j: int| 0 <= j < r.len() implies #[trigger] entries_expanded(r)[j] by {
        assert(y.contains(r[j]));
        let k = choose|k: int| 0 <= k < y.len() && y[k] == r[j];
        assert(atomic(y[k].0) && is_expanded(y[k].1));
    }
}

proof fn lemma_sort_items_expanded(l: Seq<SNix>)
    requires
        all_true(items_expanded(l)),
    ensures
        all_true(items_expanded(sorted_items(l))),
    decreases l, 1int,
{
    let sl = sorted_items(l);
    assert forall|i: int| 0 <= i < sl.len() implies #[trigger] items_expanded(sl)[i] by {
        assert(decreases_to!(l => l[i]));
        assert(items_expanded(l)[i]);
        lemma_sort_keeps_expanded(l[i]);
    }
}

proof fn lemma_sort_frags_expanded(f: Seq<SFrag>)
    requires
        all_true(frags_expanded(f)),
    ensures
        all_true(frags_expanded(sorted_frags(f))),
    decreases f, 1int,
{
    let sf = sorted_frags(f);
    assert forall|i: int| 0 <= i < sf.len() implies #[trigger] frags_expanded(sf)[i] by {
        assert(decreases_to!(f => f[i]));
        assert(frags_expanded(f)[i]);
        if let SFrag::Anti(b) = f[i] {
            assert(decreases_to!(f[i] => b));
            lemma_sort_keeps_expanded(*b);
        }
    }
}

/// Sorting an expanded expression gives an expanded expression.
pub proof fn lemma_sort_keeps_expanded(v: SNix)
    requires
        is_expanded(v),
    ensures
        is_expanded(sort_tree(v)),
    decreases v, 2int,
{
    match v {
        SNix::AttrSet(m) => {
            lemma_sort_map_expanded(m);
        },
        SNix::LetIn(m, b) => {
            lemma_sort_map_expanded(m);
            lemma_sort_keeps_expanded(*b);
        },
        SNix::List(l) => {
            lemma_sort_items_expanded(l);
        },
        SNix::IndStr(f) => {
            lemma_sort_frags_expanded(f);
        },
        SNix::Group(b) => {
            lemma_sort_keeps_expanded(*b);
        },
        SNix::With(a, b) => {
            lemma_sort_keeps_expanded(*a);
            lemma_sort_keeps_expanded(*b);
        },
        SNix::Lambda(l) => {
            match l {
                SLambda::Nofix(_, b) => lemma_sort_keeps_expanded(*b),
                SLambda::Suffix(_, _, b) => lemma_sort_keeps_expanded(*b),
                SLambda::Prefix(_, _, b) => lemma_sort_keeps_expanded(*b),
                SLambda::Single(_, b) => lemma_sort_keeps_expanded(*b),
            }
        },
        SNix::Apply(a, b) => {
            lemma_sort_keeps_expanded(*a);
            lemma_sort_keeps_expanded(*b);
        },
        SNix::Antiquotation(b) => {
            lemma_sort_keeps_expanded(*b);
        },
        SNix::BinaryOp(l, _, r) => {
            lemma_sort_keeps_expanded(*l);
            lemma_sort_keeps_expanded(*r);
        },
        _ => {},
    }
}

} // verus!
