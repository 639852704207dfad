//! Expanding undoes flattening: for an expression whose keys are single
//! plain names, expanding its flattened form gives it back.
use vstd::prelude::*;
use crate::flattening::{
    split_from, split_key, insert_path, expanded_map, expanded_vals, expand_tree, flat_tree,
    flat_map, flat_vals, add_flat, add_prefixed,
};
use crate::flattening::{flat_items, flat_frags, expanded_items, expanded_frags, lemma_flat_shape, lemma_flat_map_unique};
use crate::value::{SNix, SFrag, SLambda, map_insert, map_get, key_index, keys_unique, lemma_key_index};
use crate::format::all_true;

verus! {

// ---------------------------------------------------------------------------
// Splitting keys made of plain names
// ---------------------------------------------------------------------------

/// A key that is one plain name: not empty, without dots, quotes or `$`.
pub open spec fn simple_key(k: Seq<char>) -> bool {
    &&& k.len() > 0
    &&& forall|i: int| 0 <= i < k.len() ==> #[trigger] k[i] != '.' && k[i] != '"' && k[i] != '$'
}

/// Reading the rest of a plain name adds it to the part being read.
proof fn lemma_split_name(
    x: Seq<char>,
    k: Seq<char>,
    i: int,
    parts: Seq<Seq<char>>,
    cur: Seq<char>,
)
    requires
        simple_key(k),
        0 <= i <= k.len(),
        k.len() <= x.len(),
        x.subrange(0, k.len() as int) == k,
    ensures
        split_from(x, i, parts, cur, false, 0) == split_from(
            x,
            k.len() as int,
            parts,
            cur + k.subrange(i, k.len() as int),
            false,
            0,
        ),
    decreases k.len() - i,
{
    if i < k.len() {
        assert(x[i] == k[i]);
        assert(k[i] != '.' && k[i] != '"' && k[i] != '$');
        lemma_split_name(x, k, i + 1, parts, cur.push(k[i]));
        assert(cur.push(k[i]) + k.subrange(i + 1, k.len() as int) =~= cur + k.subrange(
            i,
            k.len() as int,
        ));
    } else {
        assert(cur + k.subrange(i, k.len() as int) =~= cur);
    }
}

/// Splitting a text from position `a` on, after a prefix, is splitting the
/// rest on its own.
proof fn lemma_split_shift(
    p: Seq<char>,
    y: Seq<char>,
    j: int,
    parts: Seq<Seq<char>>,
    cur: Seq<char>,
    q: bool,
    d: nat,
)
    requires
        0 <= j <= y.len(),
    ensures
        split_from(p + y, p.len() + j, parts, cur, q, d) == split_from(y, j, parts, cur, q, d),
    decreases y.len() - j,
{
    let x = p + y;
    let i = p.len() + j;
    if j < y.len() {
        assert(x[i] == y[j]);
        if i + 1 < x.len() {
            assert(x[i + 1] == y[j + 1]);
        }
        let c = y[j];
        if c == '"' {
            lemma_split_shift(p, y, j + 1, parts, cur.push(c), !q, d);
        } else if c == '$' {
            if j + 1 < y.len() && y[j + 1] == '{' {
                lemma_split_shift(p, y, j + 2, parts, cur.push('$').push('{'), q, d + 1);
            } else {
                lemma_split_shift(p, y, j + 1, parts, cur.push('$'), q, d);
            }
        } else if c == '{' && d > 0 {
            lemma_split_shift(p, y, j + 1, parts, cur.push(c), q, d + 1);
        } else if c == '}' && d > 0 {
            lemma_split_shift(p, y, j + 1, parts, cur.push(c), q, (d - 1) as nat);
        } else if c == '.' && !q && d == 0 {
            lemma_split_shift(p, y, j + 1, parts.push(cur), Seq::empty(), q, d);
        } else {
            lemma_split_shift(p, y, j + 1, parts, cur.push(c), q, d);
        }
    }
}

/// Parts already read stay in front.
proof fn lemma_split_parts(
    y: Seq<char>,
    j: int,
    pre: Seq<Seq<char>>,
    parts: Seq<Seq<char>>,
    cur: Seq<char>,
    q: bool,
    d: nat,
)
    requires
        0 <= j <= y.len(),
    ensures
        split_from(y, j, pre + parts, cur, q, d) == pre + split_from(y, j, parts, cur, q, d),
    decreases y.len() - j,
{
    if j < y.len() {
        let c = y[j];
        if c == '"' {
            lemma_split_parts(y, j + 1, pre, parts, cur.push(c), !q, d);
        } else if c == '$' {
            if j + 1 < y.len() && y[j + 1] == '{' {
                lemma_split_parts(y, j + 2, pre, parts, cur.push('$').push('{'), q, d + 1);
            } else {
                lemma_split_parts(y, j + 1, pre, parts, cur.push('$'), q, d);
            }
        } else if c == '{' && d > 0 {
            lemma_split_parts(y, j + 1, pre, parts, cur.push(c), q, d + 1);
        } else if c == '}' && d > 0 {
            lemma_split_parts(y, j + 1, pre, parts, cur.push(c), q, (d - 1) as nat);
        } else if c == '.' && !q && d == 0 {
            assert((pre + parts).push(cur) =~= pre + parts.push(cur));
            lemma_split_parts(y, j + 1, pre, parts.push(cur), Seq::empty(), q, d);
        } else {
            lemma_split_parts(y, j + 1, pre, parts, cur.push(c), q, d);
        }
    } else {
        assert((pre + parts).push(cur) =~= pre + parts.push(cur));
    }
}

/// A plain name splits into itself.
pub proof fn lemma_split_simple(k: Seq<char>)
    requires
        simple_key(k),
    ensures
        split_key(k) == seq![k],
{
    assert(k.subrange(0, k.len() as int) =~= k);
    lemma_split_name(k, k, 0, Seq::empty(), Seq::empty());
    assert(Seq::<char>::empty() + k.subrange(0, k.len() as int) =~= k);
    assert(Seq::<Seq<char>>::empty().push(k) =~= seq![k]);
}

/// A plain name, a dot and a key split into the name followed by the parts
/// of the key.
pub proof fn lemma_split_dotted(k: Seq<char>, rest: Seq<char>)
    requires
        simple_key(k),
    ensures
        split_key(k + "."@ + rest) == seq![k] + split_key(rest),
{
    let x = k + "."@ + rest;
    assert(x.subrange(0, k.len() as int) =~= k);
    lemma_split_name(x, k, 0, Seq::empty(), Seq::empty());
    assert(Seq::<char>::empty() + k.subrange(0, k.len() as int) =~= k);
    assert("."@.len() == 1) by {
        reveal_strlit(".");
    }
    assert(x[k.len() as int] == '.') by {
        reveal_strlit(".");
    }
    let p = k + "."@;
    assert(x =~= p + rest);
    lemma_split_shift(p, rest, 0, Seq::<Seq<char>>::empty().push(k), Seq::empty(), false, 0);
    assert(Seq::<Seq<char>>::empty().push(k) =~= seq![k]);
    assert(seq![k] + Seq::<Seq<char>>::empty() =~= seq![k]);
    lemma_split_parts(rest, 0, seq![k], Seq::empty(), Seq::empty(), false, 0);
}

// ---------------------------------------------------------------------------
// Expanding entries one after the other
// ---------------------------------------------------------------------------

/// Storing the entries of `es` in order, each under the parts of its key,
/// into `m0`.
pub open spec fn expand_from(m0: Seq<(Seq<char>, SNix)>, es: Seq<(Seq<char>, SNix)>) -> Seq<
    (Seq<char>, SNix),
>
    decreases es.len(),
{
    if es.len() == 0 {
        m0
    } else {
        insert_path(expand_from(m0, es.drop_last()), split_key(es.last().0), es.last().1)
    }
}

proof fn lemma_expand_from_empty(es: Seq<(Seq<char>, SNix)>)
    ensures
        expanded_map(es) == expand_from(Seq::empty(), es),
    decreases es.len(),
{
    if es.len() > 0 {
        lemma_expand_from_empty(es.drop_last());
    }
}

proof fn lemma_expand_from_concat(
    m0: Seq<(Seq<char>, SNix)>,
    a: Seq<(Seq<char>, SNix)>,
    b: Seq<(Seq<char>, SNix)>,
)
    ensures
        expand_from(m0, a + b) == expand_from(expand_from(m0, a), b),
    decreases b.len(),
{
    if b.len() == 0 {
        assert(a + b =~= a);
    } else {
        lemma_expand_from_concat(m0, a, b.drop_last());
        assert((a + b).drop_last() =~= a + b.drop_last());
        assert((a + b).last() == b.last());
    }
}

/// The entries of `es` with `k` and a dot put before each key.
pub open spec fn prefixed(k: Seq<char>, es: Seq<(Seq<char>, SNix)>) -> Seq<(Seq<char>, SNix)> {
    Seq::new(es.len(), |j: int| (k + "."@ + es[j].0, es[j].1))
}

/// Storing entries whose keys all start with the plain name `k`, which `m0`
/// does not hold, adds one attribute set under `k` at the end, holding what
/// storing the rest of the keys gives.
proof fn lemma_expand_prefixed(m0: Seq<(Seq<char>, SNix)>, k: Seq<char>, es: Seq<(Seq<char>, SNix)>)
    requires
        simple_key(k),
        key_index(m0, k) is None,
        es.len() > 0,
        forall|j: int| 0 <= j < es.len() ==> split_key(#[trigger] es[j].0).len() >= 1,
    ensures
        expand_from(m0, prefixed(k, es)) == m0.push((k, SNix::AttrSet(expand_from(Seq::empty(), es)))),
    decreases es.len(),
{
    let pe = prefixed(k, es);
    let last = es.last();
    assert(es[es.len() - 1] == last);
    lemma_split_dotted(k, last.0);
    let parts = split_key(k + "."@ + last.0);
    assert(pe.last() == (k + "."@ + last.0, last.1));
    assert(parts.len() >= 2);
    assert(parts[0] == k);
    assert(parts.drop_first() =~= split_key(last.0));
    if es.len() == 1 {
        assert(pe.drop_last() =~= Seq::<(Seq<char>, SNix)>::empty());
        assert(expand_from(m0, pe.drop_last()) == m0);
        assert(map_get(m0, k) is None);
        assert(es.drop_last() =~= Seq::<(Seq<char>, SNix)>::empty());
        assert(expand_from(Seq::empty(), es) == insert_path(Seq::empty(), split_key(last.0), last.1));
        assert(key_index(m0, k) is None);
    } else {
        let d = es.drop_last();
        assert forall|j: int| 0 <= j < d.len() implies split_key(#[trigger] d[j].0).len() >= 1 by {
            assert(d[j] == es[j]);
        }
        lemma_expand_prefixed(m0, k, d);
        assert(pe.drop_last() =~= prefixed(k, d));
        let a = expand_from(Seq::empty(), d);
        let m1 = m0.push((k, SNix::AttrSet(a)));
        assert(expand_from(m0, pe.drop_last()) == m1);
        lemma_key_index(m0, k);
        assert(key_index(m1, k) == Some(m0.len() as int));
        assert(map_get(m1, k) == Some(SNix::AttrSet(a)));
    }
}

// ---------------------------------------------------------------------------
// Flattening spreads out, expanding gathers back
// ---------------------------------------------------------------------------

/// Storing entries under fresh keys that start with `k` and a dot appends
/// them.
proof fn lemma_prefixed_push(acc: Seq<(Seq<char>, SNix)>, k: Seq<char>, inner: Seq<(Seq<char>, SNix)>)
    requires
        keys_unique(inner),
        forall|j: int| 0 <= j < inner.len() ==> key_index(acc, k + "."@ + #[trigger] inner[j].0) is None,
    ensures
        add_prefixed(acc, k, inner) == acc + prefixed(k, inner),
    decreases inner.len(),
{
    if inner.len() == 0 {
        assert(acc + prefixed(k, inner) =~= acc);
    } else {
        let d = inner.drop_last();
        assert forall|j: int| 0 <= j < d.len() implies key_index(acc, k + "."@ + #[trigger] d[j].0) is None by {
            assert(d[j] == inner[j]);
        }
        assert forall|a: int, b: int| 0 <= a < b < d.len() implies d[a].0 != d[b].0 by {
            assert(d[a] == inner[a]);
            assert(d[b] == inner[b]);
        }
        lemma_prefixed_push(acc, k, d);
        let last = inner.last();
        assert(inner[inner.len() - 1] == last);
        let key = k + "."@ + last.0;
        let base = acc + prefixed(k, d);
        lemma_key_index(acc, key);
        lemma_key_index(base, key);
        assert forall|i: int| 0 <= i < base.len() implies base[i].0 != key by {
            if i >= acc.len() {
                let j = i - acc.len();
                assert(base[i] == (k + "."@ + d[j].0, d[j].1));
                assert(d[j] == inner[j]);
                if base[i].0 == key {
                    let p = (k + "."@).len() as int;
                    assert((k + "."@ + d[j].0).subrange(p, (k + "."@ + d[j].0).len() as int) =~= d[j].0);
                    assert(key.subrange(p, key.len() as int) =~= last.0);
                }
            }
        }
        assert(base.push((key, last.1)) =~= acc + prefixed(k, inner));
    }
}

/// Every key of `f` splits into at least one part, the first of which is a
/// key of `m`.
pub open spec fn keys_from(f: Seq<(Seq<char>, SNix)>, m: Seq<(Seq<char>, SNix)>) -> bool {
    forall|i: int|
        0 <= i < f.len() ==> split_key(#[trigger] f[i].0).len() >= 1 && key_index(
            m,
            split_key(f[i].0)[0],
        ) is Some
}

/// Every attribute set and `let` block of `v` has distinct keys, each a
/// single plain name (not empty, without dots, quotes or `$`), and none of
/// its values is an empty attribute set.
pub open spec fn simple(v: SNix) -> bool
    decreases v, 1int,
{
    match v {
        SNix::AttrSet(m) => keys_unique(m) && all_true(simple_entries(m)),
        SNix::LetIn(m, b) => keys_unique(m) && all_true(simple_entries(m)) && simple(*b),
        SNix::List(l) => all_true(simple_items(l)),
        SNix::IndStr(f) => all_true(simple_frags(f)),
        SNix::Group(b) => simple(*b),
        SNix::With(a, b) => simple(*a) && simple(*b),
        SNix::Lambda(l) => match l {
            SLambda::Nofix(_, b) => simple(*b),
            SLambda::Suffix(_, _, b) => simple(*b),
            SLambda::Prefix(_, _, b) => simple(*b),
            SLambda::Single(_, b) => simple(*b),
        },
        SNix::Apply(a, b) => simple(*a) && simple(*b),
        SNix::Antiquotation(b) => simple(*b),
        SNix::BinaryOp(l, _, r) => simple(*l) && simple(*r),
        _ => true,
    }
}

pub open spec fn simple_entries(m: Seq<(Seq<char>, SNix)>) -> Seq<bool>
    decreases m, 0int,
{
    Seq::new(
        m.len(),
        |i: int|
            if 0 <= i < m.len() {
                simple_key(m[i].0) && m[i].1 != SNix::AttrSet(Seq::empty()) && simple(m[i].1)
            } else {
                true
            },
    )
}

pub open spec fn simple_items(l: Seq<SNix>) -> Seq<bool>
    decreases l, 0int,
{
    Seq::new(l.len(), |i: int| if 0 <= i < l.len() { simple(l[i]) } else { true })
}

pub open spec fn simple_frags(f: Seq<SFrag>) -> Seq<bool>
    decreases f, 0int,
{
    Seq::new(
        f.len(),
        |i: int|
            if 0 <= i < f.len() {
                match f[i] {
                    SFrag::Text(_) => true,
                    SFrag::Anti(b) => simple(*b),
                }
            } else {
                true
            },
    )
}

/// Expanding the flattened map of `m` gives `m` back.
proof fn lemma_map_inverse(m: Seq<(Seq<char>, SNix)>)
    requires
        keys_unique(m),
        all_true(simple_entries(m)),
    ensures
        expanded_map(expanded_vals(flat_map(flat_vals(m)))) == m,
        keys_from(flat_map(flat_vals(m)), m),
    decreases m, 1int,
{
    if m.len() == 0 {
        assert(flat_vals(m) =~= Seq::<(Seq<char>, SNix)>::empty());
        assert(expanded_vals(Seq::<(Seq<char>, SNix)>::empty()) =~= Seq::<(Seq<char>, SNix)>::empty());
    } else {
        let d = m.drop_last();
        let k = m.last().0;
        let x = m.last().1;
        assert(m[m.len() - 1] == m.last());
        assert(simple_entries(m)[m.len() - 1]);
        assert forall|a: int, b: int| 0 <= a < b < d.len() implies d[a].0 != d[b].0 by {
            assert(d[a] == m[a]);
            assert(d[b] == m[b]);
        }
        assert forall|i: int| 0 <= i < d.len() implies #[trigger] simple_entries(d)[i] by {
            assert(d[i] == m[i]);
            assert(simple_entries(m)[i]);
        }
        assert(decreases_to!(m => d));
        lemma_map_inverse(d);
        lemma_key_index(d, k);
        assert(key_index(d, k) is None) by {
            if let Some(i) = key_index(d, k) {
                assert(d[i] == m[i]);
                assert(m[i].0 == m[m.len() - 1].0);
            }
        }
        let fd = flat_map(flat_vals(d));
        let fv = flat_vals(m);
        assert(fv.drop_last() =~= flat_vals(d));
        assert(fv.last() == (k, flat_tree(x)));
        let fm = flat_map(fv);
        assert(fm == add_flat(fd, (k, flat_tree(x))));
        assert(decreases_to!(m => m[m.len() - 1]));
        assert(decreases_to!(m[m.len() - 1] => x));
        lemma_key_index(fd, k);
        // keys of m found from those of d
        assert forall|p: Seq<char>| key_index(d, p) is Some implies key_index(m, p) is Some by {
            if m.last().0 != p {
                assert(key_index(m, p) == key_index(d, p));
            }
        }
        assert(key_index(m, k) is Some);
        if let SNix::AttrSet(inner) = x {
            assert(decreases_to!(x => inner));
            assert(inner.len() > 0) by {
                if inner.len() == 0 {
                    assert(inner =~= Seq::<(Seq<char>, SNix)>::empty());
                }
            }
            assert(keys_unique(inner) && all_true(simple_entries(inner)));
            lemma_map_inverse(inner);
            let fi = flat_map(flat_vals(inner));
            assert(flat_tree(x) == SNix::AttrSet(fi));
            lemma_flat_map_unique(flat_vals(inner));
            assert forall|j: int| 0 <= j < fi.len() implies key_index(fd, k + "."@ + #[trigger] fi[j].0) is None by {
                lemma_split_dotted(k, fi[j].0);
                lemma_key_index(fd, k + "."@ + fi[j].0);
                if let Some(i) = key_index(fd, k + "."@ + fi[j].0) {
                    assert(split_key(fd[i].0)[0] == k);
                }
            }
            lemma_prefixed_push(fd, k, fi);
            assert(fm == fd + prefixed(k, fi));
            let ed = expanded_vals(fd);
            let ei = expanded_vals(fi);
            assert(expanded_vals(fm) =~= ed + prefixed(k, ei));
            assert(fi.len() > 0) by {
                if fi.len() == 0 {
                    assert(expanded_vals(fi) =~= Seq::<(Seq<char>, SNix)>::empty());
                }
            }
            assert forall|j: int| 0 <= j < ei.len() implies split_key(#[trigger] ei[j].0).len() >= 1 by {
                assert(ei[j].0 == fi[j].0);
            }
            lemma_expand_from_empty(expanded_vals(fm));
            lemma_expand_from_concat(Seq::empty(), ed, prefixed(k, ei));
            lemma_expand_from_empty(ed);
            lemma_expand_from_empty(ei);
            lemma_expand_prefixed(d, k, ei);
            assert(d.push((k, x)) =~= m);
            assert forall|i: int| 0 <= i < fm.len() implies split_key(#[trigger] fm[i].0).len() >= 1
                && key_index(m, split_key(fm[i].0)[0]) is Some by {
                if i >= fd.len() {
                    let j = i - fd.len();
                    assert(fm[i].0 == k + "."@ + fi[j].0);
                    lemma_split_dotted(k, fi[j].0);
                } else {
                    assert(fm[i] == fd[i]);
                }
            }
        } else {
            lemma_flat_shape(x);
            lemma_value_inverse(x);
            assert(fm == map_insert(fd, k, flat_tree(x)));
            lemma_split_simple(k);
            assert(key_index(fd, k) is None) by {
                if let Some(i) = key_index(fd, k) {
                    assert(split_key(fd[i].0)[0] == k);
                }
            }
            assert(fm == fd.push((k, flat_tree(x))));
            assert(expanded_vals(fm) =~= expanded_vals(fd).push((k, x)));
            assert(expanded_vals(fm).drop_last() =~= expanded_vals(fd));
            assert(expanded_map(expanded_vals(fm)) == map_insert(d, k, x));
            assert(d.push((k, x)) =~= m);
            assert forall|i: int| 0 <= i < fm.len() implies split_key(#[trigger] fm[i].0).len() >= 1
                && key_index(m, split_key(fm[i].0)[0]) is Some by {
                if i < fd.len() {
                    assert(fm[i] == fd[i]);
                }
            }
        }
    }
}

/// Expanding the flattened form of an expression whose keys are single
/// plain names gives the expression back.
pub proof fn lemma_value_inverse(v: SNix)
    requires
        simple(v),
    ensures
        expand_tree(flat_tree(v)) == v,
    decreases v, 2int,
{
    match v {
        SNix::AttrSet(m) => {
            assert(decreases_to!(v => m));
            lemma_map_inverse(m);
        },
        SNix::LetIn(m, b) => {
            assert(decreases_to!(v => m));
            lemma_map_inverse(m);
            lemma_value_inverse(*b);
        },
        SNix::List(l) => {
            let r = expanded_items(flat_items(l));
            assert forall|i: int| 0 <= i < l.len() implies r[i] == l[i] by {
                assert(decreases_to!(v => l));
                assert(decreases_to!(l => l[i]));
                assert(simple_items(l)[i]);
                lemma_value_inverse(l[i]);
            }
            assert(r =~= l);
        },
        SNix::IndStr(f) => {
            let r = expanded_frags(flat_frags(f));
            assert forall|i: int| 0 <= i < f.len() implies r[i] == f[i] by {
                if let SFrag::Anti(b) = f[i] {
                    assert(decreases_to!(v => f));
                    assert(decreases_to!(f => f[i]));
                    assert(decreases_to!(f[i] => b));
                    assert(simple_frags(f)[i]);
                    lemma_value_inverse(*b);
                }
            }
            assert(r =~= f);
        },
        SNix::Group(b) => lemma_value_inverse(*b),
        SNix::With(a, b) => {
            lemma_value_inverse(*a);
            lemma_value_inverse(*b);
        },
        SNix::Lambda(l) => match l {
            SLambda::Nofix(_, b) => lemma_value_inverse(*b),
            SLambda::Suffix(_, _, b) => lemma_value_inverse(*b),
            SLambda::Prefix(_, _, b) => lemma_value_inverse(*b),
            SLambda::Single(_, b) => lemma_value_inverse(*b),
        },
        SNix::Apply(a, b) => {
            lemma_value_inverse(*a);
            lemma_value_inverse(*b);
        },
        SNix::Antiquotation(b) => lemma_value_inverse(*b),
        SNix::BinaryOp(l, _, r) => {
            lemma_value_inverse(*l);
            lemma_value_inverse(*r);
        },
        _ => {},
    }
}

/// Flattening undoes expanding on every flattened form: an expression that
/// is the flattened form of one whose keys are single plain names comes back
/// unchanged when it is expanded and flattened again.
pub proof fn lemma_flatten_undoes_expand(u: SNix)
    requires
        simple(u),
    ensures
        flat_tree(expand_tree(flat_tree(u))) == flat_tree(u),
{
    lemma_value_inverse(u);
}

} // verus!
