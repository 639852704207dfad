//! Turning dotted keys into nested attribute sets (`expand`) and nested
//! attribute sets into dotted keys (`flatten`), throughout an expression.
use vstd::prelude::*;
use crate::text::{append_str, string_from_chars, chars_of, string_of};
use crate::value::{
    NixValue, AttrMap, StringFragment, LambdaTypes, SNix, SFrag, SLambda, list_model, frags_model,
    strings_model, lemma_list_model, lemma_indstr_model, clone_strings, map_insert, map_get,
    key_index, keys_unique, lemma_key_index, lemma_map_insert_unique,
};
use crate::sort::entries_model;

verus! {

// ---------------------------------------------------------------------------
// Splitting keys
// ---------------------------------------------------------------------------

/// Splits a key at its dots from position `i` on. `parts` are the parts
/// found so far, `cur` the part being read, `q` whether a quote is open and
/// `depth` how many `${`..`}` are open. A dot splits only outside quotes and
/// interpolations; an empty part at the end is dropped.
pub open spec fn split_from(
    k: Seq<char>,
    i: int,
    parts: Seq<Seq<char>>,
    cur: Seq<char>,
    q: bool,
    depth: nat,
) -> Seq<Seq<char>>
    decreases k.len() - i,
{
    if i < 0 || i >= k.len() {
        if cur.len() > 0 {
            parts.push(cur)
        } else {
            parts
        }
    } else {
        let c = k[i];
        if c == '"' {
            split_from(k, i + 1, parts, cur.push(c), !q, depth)
        } else if c == '$' {
            if i + 1 < k.len() && k[i + 1] == '{' {
                split_from(k, i + 2, parts, cur.push('$').push('{'), q, depth + 1)
            } else {
                split_from(k, i + 1, parts, cur.push('$'), q, depth)
            }
        } else if c == '{' && depth > 0 {
            split_from(k, i + 1, parts, cur.push(c), q, depth + 1)
        } else if c == '}' && depth > 0 {
            split_from(k, i + 1, parts, cur.push(c), q, (depth - 1) as nat)
        } else if c == '.' && !q && depth == 0 {
            split_from(k, i + 1, parts.push(cur), Seq::empty(), q, depth)
        } else {
            split_from(k, i + 1, parts, cur.push(c), q, depth)
        }
    }
}

/// The parts of a dotted key.
pub open spec fn split_key(k: Seq<char>) -> Seq<Seq<char>> {
    split_from(k, 0, Seq::empty(), Seq::empty(), false, 0)
}

/// Stores `v` under the path `parts`: each part but the last names an
/// attribute set, created (at the end) where it is missing and replacing a
/// value that is not an attribute set; the last part gets `v`. An empty path
/// stores nothing.
pub open spec fn insert_path(m: Seq<(Seq<char>, SNix)>, parts: Seq<Seq<char>>, v: SNix) -> Seq<
    (Seq<char>, SNix),
>
    decreases parts.len(),
{
    if parts.len() == 0 {
        m
    } else if parts.len() == 1 {
        map_insert(m, parts[0], v)
    } else {
        let inner = match map_get(m, parts[0]) {
            Some(SNix::AttrSet(im)) => im,
            _ => Seq::empty(),
        };
        map_insert(m, parts[0], SNix::AttrSet(insert_path(inner, parts.drop_first(), v)))
    }
}

/// The map built by storing each entry under the path of its key, in order.
pub open spec fn expanded_map(es: Seq<(Seq<char>, SNix)>) -> Seq<(Seq<char>, SNix)>
    decreases es.len(),
{
    if es.len() == 0 {
        Seq::empty()
    } else {
        insert_path(expanded_map(es.drop_last()), split_key(es.last().0), es.last().1)
    }
}

/// An expression with every dotted key of its attribute sets and `let`
/// blocks turned into nested attribute sets.
pub open spec fn expand_tree(v: SNix) -> SNix
    decreases v, 1int,
{
    match v {
        SNix::AttrSet(m) => SNix::AttrSet(expanded_map(expanded_vals(m))),
        SNix::LetIn(m, b) => SNix::LetIn(expanded_map(expanded_vals(m)), Box::new(expand_tree(*b))),
        SNix::List(l) => SNix::List(expanded_items(l)),
        SNix::IndStr(f) => SNix::IndStr(expanded_frags(f)),
        SNix::Group(b) => SNix::Group(Box::new(expand_tree(*b))),
        SNix::With(a, b) => SNix::With(Box::new(expand_tree(*a)), Box::new(expand_tree(*b))),
        SNix::Lambda(l) => SNix::Lambda(
            match l {
                SLambda::Nofix(a, b) => SLambda::Nofix(a, Box::new(expand_tree(*b))),
                SLambda::Suffix(a, n, b) => SLambda::Suffix(a, n, Box::new(expand_tree(*b))),
                SLambda::Prefix(a, n, b) => SLambda::Prefix(a, n, Box::new(expand_tree(*b))),
                SLambda::Single(n, b) => SLambda::Single(n, Box::new(expand_tree(*b))),
            },
        ),
        SNix::Apply(a, b) => SNix::Apply(Box::new(expand_tree(*a)), Box::new(expand_tree(*b))),
        SNix::Antiquotation(b) => SNix::Antiquotation(Box::new(expand_tree(*b))),
        SNix::BinaryOp(l, op, r) => SNix::BinaryOp(
            Box::new(expand_tree(*l)),
            op,
            Box::new(expand_tree(*r)),
        ),
        _ => v,
    }
}

/// The entries of a map with each value expanded.
pub open spec fn expanded_vals(m: Seq<(Seq<char>, SNix)>) -> Seq<(Seq<char>, SNix)>
    decreases m, 0int,
{
    Seq::new(
        m.len(),
        |i: int|
            if 0 <= i < m.len() {
                (m[i].0, expand_tree(m[i].1))
            } else {
                (Seq::empty(), SNix::Int(0))
            },
    )
}

/// The elements of a list, each expanded.
pub open spec fn expanded_items(l: Seq<SNix>) -> Seq<SNix>
    decreases l, 0int,
{
    Seq::new(l.len(), |i: int| if 0 <= i < l.len() { expand_tree(l[i]) } else { SNix::Int(0) })
}

/// The pieces of an indented string, each interpolation expanded.
pub open spec fn expanded_frags(f: Seq<SFrag>) -> Seq<SFrag>
    decreases f, 0int,
{
    Seq::new(
        f.len(),
        |i: int|
            if 0 <= i < f.len() {
                match f[i] {
                    SFrag::Text(t) => SFrag::Text(t),
                    SFrag::Anti(b) => SFrag::Anti(Box::new(expand_tree(*b))),
                }
            } else {
                SFrag::Text(Seq::empty())
            },
    )
}

// ---------------------------------------------------------------------------
// Flattening
// ---------------------------------------------------------------------------

/// Stores the entries of `inner` under `key.` followed by their own keys,
/// in order.
pub open spec fn add_prefixed(
    acc: Seq<(Seq<char>, SNix)>,
    key: Seq<char>,
    inner: Seq<(Seq<char>, SNix)>,
) -> Seq<(Seq<char>, SNix)>
    decreases inner.len(),
{
    if inner.len() == 0 {
        acc
    } else {
        map_insert(
            add_prefixed(acc, key, inner.drop_last()),
            key + "."@ + inner.last().0,
            inner.last().1,
        )
    }
}

/// Stores one entry: an attribute set is spread out under dotted keys (an
/// empty one leaves nothing), any other value is stored under its key.
pub open spec fn add_flat(acc: Seq<(Seq<char>, SNix)>, e: (Seq<char>, SNix)) -> Seq<
    (Seq<char>, SNix),
> {
    match e.1 {
        SNix::AttrSet(inner) => add_prefixed(acc, e.0, inner),
        _ => map_insert(acc, e.0, e.1),
    }
}

/// The map built by storing each entry in order with `add_flat`.
pub open spec fn flat_map(es: Seq<(Seq<char>, SNix)>) -> Seq<(Seq<char>, SNix)>
    decreases es.len(),
{
    if es.len() == 0 {
        Seq::empty()
    } else {
        add_flat(flat_map(es.drop_last()), es.last())
    }
}

/// An expression with every nested attribute set of its attribute sets and
/// `let` blocks turned into dotted keys.
pub open spec fn flat_tree(v: SNix) -> SNix
    decreases v, 1int,
{
    match v {
        SNix::AttrSet(m) => SNix::AttrSet(flat_map(flat_vals(m))),
        SNix::LetIn(m, b) => SNix::LetIn(flat_map(flat_vals(m)), Box::new(flat_tree(*b))),
        SNix::List(l) => SNix::List(flat_items(l)),
        SNix::IndStr(f) => SNix::IndStr(flat_frags(f)),
        SNix::Group(b) => SNix::Group(Box::new(flat_tree(*b))),
        SNix::With(a, b) => SNix::With(Box::new(flat_tree(*a)), Box::new(flat_tree(*b))),
        SNix::Lambda(l) => SNix::Lambda(
            match l {
                SLambda::Nofix(a, b) => SLambda::Nofix(a, Box::new(flat_tree(*b))),
                SLambda::Suffix(a, n, b) => SLambda::Suffix(a, n, Box::new(flat_tree(*b))),
                SLambda::Prefix(a, n, b) => SLambda::Prefix(a, n, Box::new(flat_tree(*b))),
                SLambda::Single(n, b) => SLambda::Single(n, Box::new(flat_tree(*b))),
            },
        ),
        SNix::Apply(a, b) => SNix::Apply(Box::new(flat_tree(*a)), Box::new(flat_tree(*b))),
        SNix::Antiquotation(b) => SNix::Antiquotation(Box::new(flat_tree(*b))),
        SNix::BinaryOp(l, op, r) => SNix::BinaryOp(
            Box::new(flat_tree(*l)),
            op,
            Box::new(flat_tree(*r)),
        ),
        _ => v,
    }
}

/// The entries of a map with each value flattened.
pub open spec fn flat_vals(m: Seq<(Seq<char>, SNix)>) -> Seq<(Seq<char>, SNix)>
    decreases m, 0int,
{
    Seq::new(
        m.len(),
        |i: int|
            if 0 <= i < m.len() {
                (m[i].0, flat_tree(m[i].1))
            } else {
                (Seq::empty(), SNix::Int(0))
            },
    )
}

/// The elements of a list, each flattened.
pub open spec fn flat_items(l: Seq<SNix>) -> Seq<SNix>
    decreases l, 0int,
{
    Seq::new(l.len(), |i: int| if 0 <= i < l.len() { flat_tree(l[i]) } else { SNix::Int(0) })
}

/// The pieces of an indented string, each interpolation flattened.
pub open spec fn flat_frags(f: Seq<SFrag>) -> Seq<SFrag>
    decreases f, 0int,
{
    Seq::new(
        f.len(),
        |i: int|
            if 0 <= i < f.len() {
                match f[i] {
                    SFrag::Text(t) => SFrag::Text(t),
                    SFrag::Anti(b) => SFrag::Anti(Box::new(flat_tree(*b))),
                }
            } else {
                SFrag::Text(Seq::empty())
            },
    )
}

// ---------------------------------------------------------------------------
// Exec
// ---------------------------------------------------------------------------

/// The parts of a dotted key (see `split_key`).
pub fn split_key_parts(k: &str) -> (r: Vec<String>)
    ensures
        strings_model(r) == split_key(k@),
{
    let v = chars_of(k);
    let n = v.len();
    let mut parts: Vec<String> = Vec::new();
    let mut cur: Vec<char> = Vec::new();
    let mut q = false;
    let mut depth: usize = 0;
    let mut i: usize = 0;
    assert(strings_model(parts) =~= Seq::<Seq<char>>::empty());
    assert(cur@ =~= Seq::<char>::empty());
    while i < n
        invariant
            v@ == k@,
            n == v@.len(),
            i <= n,
            depth <= i,
            split_from(k@, i as int, strings_model(parts), cur@, q, depth as nat) == split_key(k@),
        decreases n - i,
    {
        let c = v[i];
        if c == '"' {
            q = !q;
            cur.push(c);
            i = i + 1;
        } else if c == '$' {
            if i + 1 < n && v[i + 1] == '{' {
                cur.push('$');
                cur.push('{');
                depth = depth + 1;
                i = i + 2;
            } else {
                cur.push('$');
                i = i + 1;
            }
        } else if c == '{' && depth > 0 {
            depth = depth + 1;
            cur.push(c);
            i = i + 1;
        } else if c == '}' && depth > 0 {
            depth = depth - 1;
            cur.push(c);
            i = i + 1;
        } else if c == '.' && !q && depth == 0 {
            let ghost before = parts;
            parts.push(string_from_chars(cur.as_slice()));
            assert(strings_model(parts) =~= strings_model(before).push(cur@));
            cur = Vec::new();
            assert(cur@ =~= Seq::<char>::empty());
            i = i + 1;
        } else {
            cur.push(c);
            i = i + 1;
        }
    }
    if cur.len() > 0 {
        let ghost before = parts;
        parts.push(string_from_chars(cur.as_slice()));
        assert(strings_model(parts) =~= strings_model(before).push(cur@));
    }
    parts
}

/// Stores `v` in `m` under the path `parts[j..]` (see `insert_path`).
fn insert_path_at(m: &mut AttrMap, parts: &Vec<String>, j: usize, v: NixValue)
    requires
        j <= parts@.len(),
    ensures
        final(m)@ == insert_path(old(m)@, strings_model(*parts).skip(j as int), v@),
    decreases parts@.len() - j,
{
    let ghost ps = strings_model(*parts).skip(j as int);
    if j == parts.len() {
        assert(ps.len() == 0);
        return;
    }
    assert(ps[0] == parts@[j as int]@);
    if j + 1 == parts.len() {
        m.insert(parts[j].clone(), v);
        return;
    }
    assert(ps.drop_first() =~= strings_model(*parts).skip(j + 1));
    let ghost vv = v@;
    match m.find(parts[j].as_str()) {
        Some(i) => {
            let ghost m0 = m@;
            let (k, old) = m.entries.remove(i);
            assert(m0[i as int] == (k@, old@));
            let mut inner = match old {
                NixValue::AttrSet(im) => im,
                _ => AttrMap::new(),
            };
            assert(map_get(m0, ps[0]) == Some(old@));
            let ghost inner0 = inner@;
            assert(inner0 == (match map_get(m0, ps[0]) {
                Some(SNix::AttrSet(im)) => im,
                _ => Seq::empty(),
            }));
            insert_path_at(&mut inner, parts, j + 1, v);
            let ghost nv = SNix::AttrSet(inner@);
            m.entries.insert(i, (k, NixValue::AttrSet(inner)));
            assert(m@ =~= m0.update(i as int, (ps[0], nv)));
        },
        None => {
            let mut inner = AttrMap::new();
            insert_path_at(&mut inner, parts, j + 1, v);
            let ghost m0 = m@;
            let ghost nv = SNix::AttrSet(inner@);
            m.entries.push((parts[j].clone(), NixValue::AttrSet(inner)));
            assert(m@ =~= m0.push((ps[0], nv)));
        },
    }
}

/// The entries of a map with each value expanded.
fn expanded_entries_of(m: &AttrMap) -> (r: Vec<(String, NixValue)>)
    ensures
        entries_model(r@) == expanded_vals(m@),
    decreases m, 0int,
{
    let ghost mm = m@;
    let mut out: Vec<(String, NixValue)> = Vec::new();
    let mut i: usize = 0;
    while i < m.entries.len()
        invariant
            mm == m@,
            mm.len() == m.entries@.len(),
            i <= m.entries@.len(),
            out@.len() == i,
            forall|j: int| 0 <= j < i ==> #[trigger] entries_model(out@)[j] == expanded_vals(mm)[j],
        decreases m.entries@.len() - i,
    {
        let e = &m.entries[i];
        proof {
            assert(decreases_to!(*m => m.entries));
            assert(decreases_to!(m.entries => m.entries@));
            assert(decreases_to!(m.entries@ => m.entries@[i as int]));
            assert(decreases_to!(m.entries@[i as int] => m.entries@[i as int].1));
            assert(mm[i as int] == (e.0@, e.1@));
        }
        let k = e.0.clone();
        let w = expand_value(&e.1);
        let ghost before = out@;
        out.push((k, w));
        proof {
            assert forall|j: int| 0 <= j < i + 1 implies #[trigger] entries_model(out@)[j]
                == expanded_vals(mm)[j] by {
                if j < i {
                    assert(entries_model(out@)[j] == entries_model(before)[j]);
                }
            }
        }
        i = i + 1;
    }
    assert(entries_model(out@) =~= expanded_vals(mm));
    out
}

/// A map whose dotted keys are turned into nested attribute sets, values
/// expanded first.
fn expanded_map_of(m: &AttrMap) -> (r: AttrMap)
    ensures
        r@ == expanded_map(expanded_vals(m@)),
    decreases m, 1int,
{
    let vals = expanded_entries_of(m);
    let ghost es = entries_model(vals@);
    let mut vals = vals;
    let mut out = AttrMap::new();
    let ghost mut i: int = 0;
    assert(es.take(0) =~= Seq::<(Seq<char>, SNix)>::empty());
    while vals.len() > 0
        invariant
            0 <= i <= es.len(),
            entries_model(vals@) == es.skip(i),
            out@ == expanded_map(es.take(i)),
        decreases vals@.len(),
    {
        let ghost before = vals@;
        let (k, v) = vals.remove(0);
        proof {
            assert(entries_model(before).len() == es.len() - i);
            assert(entries_model(before)[0] == (k@, v@));
            assert(es.skip(i)[0] == es[i]);
            assert(es.take(i + 1).drop_last() =~= es.take(i));
            assert forall|j: int| 0 <= j < entries_model(vals@).len() implies #[trigger] entries_model(
                vals@,
            )[j] == es.skip(i + 1)[j] by {
                assert(vals@[j] == before[j + 1]);
                assert(entries_model(before)[j + 1] == es.skip(i)[j + 1]);
            }
            assert(entries_model(vals@) =~= es.skip(i + 1));
        }
        let parts = split_key_parts(k.as_str());
        proof {
            assert(strings_model(parts).skip(0) =~= strings_model(parts));
        }
        insert_path_at(&mut out, &parts, 0, v);
        proof {
            i = i + 1;
        }
    }
    assert(es.take(i) =~= es);
    out
}

/// The entries of a map with each value flattened.
fn flattened_entries_of(m: &AttrMap) -> (r: Vec<(String, NixValue)>)
    ensures
        entries_model(r@) == flat_vals(m@),
    decreases m, 0int,
{
    let ghost mm = m@;
    let mut out: Vec<(String, NixValue)> = Vec::new();
    let mut i: usize = 0;
    while i < m.entries.len()
        invariant
            mm == m@,
            mm.len() == m.entries@.len(),
            i <= m.entries@.len(),
            out@.len() == i,
            forall|j: int| 0 <= j < i ==> #[trigger] entries_model(out@)[j] == flat_vals(mm)[j],
        decreases m.entries@.len() - i,
    {
        let e = &m.entries[i];
        proof {
            assert(decreases_to!(*m => m.entries));
            assert(decreases_to!(m.entries => m.entries@));
            assert(decreases_to!(m.entries@ => m.entries@[i as int]));
            assert(decreases_to!(m.entries@[i as int] => m.entries@[i as int].1));
            assert(mm[i as int] == (e.0@, e.1@));
        }
        let k = e.0.clone();
        let w = flatten_value(&e.1);
        let ghost before = out@;
        out.push((k, w));
        proof {
            assert forall|j: int| 0 <= j < i + 1 implies #[trigger] entries_model(out@)[j]
                == flat_vals(mm)[j] by {
                if j < i {
                    assert(entries_model(out@)[j] == entries_model(before)[j]);
                }
            }
        }
        i = i + 1;
    }
    assert(entries_model(out@) =~= flat_vals(mm));
    out
}

/// Stores the entries of `inner` in `out` under `key.` followed by their own
/// keys (see `add_prefixed`).
fn add_prefixed_into(out: &mut AttrMap, key: &String, inner: AttrMap)
    ensures
        final(out)@ == add_prefixed(old(out)@, key@, inner@),
{
    let ghost es = inner@;
    let mut rest = inner.entries;
    let ghost mut i: int = 0;
    assert(entries_model(rest@) =~= es);
    assert(es.take(0) =~= Seq::<(Seq<char>, SNix)>::empty());
    let ghost start = out@;
    while rest.len() > 0
        invariant
            0 <= i <= es.len(),
            entries_model(rest@) == es.skip(i),
            out@ == add_prefixed(start, key@, es.take(i)),
        decreases rest@.len(),
    {
        let ghost before = rest@;
        let (k, v) = rest.remove(0);
        proof {
            assert(entries_model(before).len() == es.len() - i);
            assert(entries_model(before)[0] == (k@, v@));
            assert(es.skip(i)[0] == es[i]);
            assert(es.take(i + 1).drop_last() =~= es.take(i));
            assert forall|j: int| 0 <= j < entries_model(rest@).len() implies #[trigger] entries_model(
                rest@,
            )[j] == es.skip(i + 1)[j] by {
                assert(rest@[j] == before[j + 1]);
                assert(entries_model(before)[j + 1] == es.skip(i)[j + 1]);
            }
            assert(entries_model(rest@) =~= es.skip(i + 1));
        }
        let mut nk = string_of(key.as_str());
        append_str(&mut nk, ".");
        append_str(&mut nk, k.as_str());
        out.insert(nk, v);
        proof {
            i = i + 1;
        }
    }
    assert(es.take(i) =~= es);
}

/// A map whose nested attribute sets are turned into dotted keys, values
/// flattened first.
fn flat_map_of(m: &AttrMap) -> (r: AttrMap)
    ensures
        r@ == flat_map(flat_vals(m@)),
    decreases m, 1int,
{
    let vals = flattened_entries_of(m);
    let ghost es = entries_model(vals@);
    let mut vals = vals;
    let mut out = AttrMap::new();
    let ghost mut i: int = 0;
    assert(es.take(0) =~= Seq::<(Seq<char>, SNix)>::empty());
    while vals.len() > 0
        invariant
            0 <= i <= es.len(),
            entries_model(vals@) == es.skip(i),
            out@ == flat_map(es.take(i)),
        decreases vals@.len(),
    {
        let ghost before = vals@;
        let (k, v) = vals.remove(0);
        proof {
            assert(entries_model(before).len() == es.len() - i);
            assert(entries_model(before)[0] == (k@, v@));
            assert(es.skip(i)[0] == es[i]);
            assert(es.take(i + 1).drop_last() =~= es.take(i));
            assert forall|j: int| 0 <= j < entries_model(vals@).len() implies #[trigger] entries_model(
                vals@,
            )[j] == es.skip(i + 1)[j] by {
                assert(vals@[j] == before[j + 1]);
                assert(entries_model(before)[j + 1] == es.skip(i)[j + 1]);
            }
            assert(entries_model(vals@) =~= es.skip(i + 1));
        }
        match v {
            NixValue::AttrSet(inner) => {
                add_prefixed_into(&mut out, &k, inner);
            },
            other => {
                out.insert(k, other);
            },
        }
        proof {
            i = i + 1;
        }
    }
    assert(es.take(i) =~= es);
    out
}

/// A copy of an expression with every dotted key of its attribute sets and
/// `let` blocks turned into nested attribute sets.
pub fn expand_value(v: &NixValue) -> (r: NixValue)
    ensures
        r@ == expand_tree(v@),
    decreases v, 2int,
{
    match v {
        NixValue::AttrSet(m) => {
            proof {
                assert(decreases_to!(*v => *m));
            }
            NixValue::AttrSet(expanded_map_of(m))
        },
        NixValue::LetIn(m, b) => {
            proof {
                assert(decreases_to!(*v => *m));
            }
            NixValue::LetIn(expanded_map_of(m), Box::new(expand_value(b)))
        },
        NixValue::List(l) => {
            proof {
                assert(decreases_to!(*v => *l));
                lemma_list_model(*l);
            }
            let ghost ll = list_model(l@);
            let mut out: Vec<NixValue> = Vec::new();
            let mut i: usize = 0;
            while i < l.len()
                invariant
                    *v == NixValue::List(*l),
                    ll == list_model(l@),
                    i <= l@.len(),
                    out@.len() == i,
                    forall|j: int| 0 <= j < i ==> #[trigger] list_model(out@)[j] == expanded_items(
                        ll,
                    )[j],
                decreases l@.len() - i,
            {
                proof {
                    assert(decreases_to!(*v => (*v)->List_0));
                    assert(decreases_to!((*v)->List_0 => l@));
                    assert(decreases_to!(l@ => l@[i as int]));
                    assert(ll[i as int] == l@[i as int]@);
                }
                let w = expand_value(&l[i]);
                let ghost before = out@;
                out.push(w);
                proof {
                    assert forall|j: int| 0 <= j < i + 1 implies #[trigger] list_model(out@)[j]
                        == expanded_items(ll)[j] by {
                        if j < i {
                            assert(list_model(out@)[j] == list_model(before)[j]);
                        }
                    }
                }
                i = i + 1;
            }
            assert(list_model(out@) =~= expanded_items(ll));
            proof {
                lemma_list_model(out);
            }
            NixValue::List(out)
        },
        NixValue::IndStr(f) => {
            proof {
                assert(decreases_to!(*v => *f));
                lemma_indstr_model(*f);
            }
            let ghost ff = frags_model(f@);
            let mut out: Vec<StringFragment> = Vec::new();
            let mut i: usize = 0;
            while i < f.len()
                invariant
                    *v == NixValue::IndStr(*f),
                    ff == frags_model(f@),
                    i <= f@.len(),
                    out@.len() == i,
                    forall|j: int| 0 <= j < i ==> #[trigger] frags_model(out@)[j] == expanded_frags(
                        ff,
                    )[j],
                decreases f@.len() - i,
            {
                proof {
                    assert(decreases_to!(*v => (*v)->IndStr_0));
                    assert(decreases_to!((*v)->IndStr_0 => f@));
                    assert(decreases_to!(f@ => f@[i as int]));
                    assert(ff[i as int] == f@[i as int]@);
                }
                let w = match &f[i] {
                    StringFragment::Text(t) => StringFragment::Text(t.clone()),
                    StringFragment::Antiquotation(b) => StringFragment::Antiquotation(
                        Box::new(expand_value(b)),
                    ),
                };
                let ghost before = out@;
                out.push(w);
                proof {
                    assert forall|j: int| 0 <= j < i + 1 implies #[trigger] frags_model(out@)[j]
                        == expanded_frags(ff)[j] by {
                        if j < i {
                            assert(frags_model(out@)[j] == frags_model(before)[j]);
                        }
                    }
                }
                i = i + 1;
            }
            assert(frags_model(out@) =~= expanded_frags(ff));
            proof {
                lemma_indstr_model(out);
            }
            NixValue::IndStr(out)
        },
        NixValue::Group(b) => NixValue::Group(Box::new(expand_value(b))),
        NixValue::With(a, b) => NixValue::With(
            Box::new(expand_value(a)),
            Box::new(expand_value(b)),
        ),
        NixValue::Lambda(l) => {
            proof {
                assert(decreases_to!(*v => *l));
            }
            assert(v@ == SNix::Lambda(l@));
            let r = match l {
                LambdaTypes::Nofix(a, b) => {
                    let r = LambdaTypes::Nofix(clone_strings(a), Box::new(expand_value(b)));
                    assert(l@ == SLambda::Nofix(strings_model(*a), Box::new(b@)));
                    assert(r@ == SLambda::Nofix(strings_model(*a), Box::new(expand_tree(b@))));
                    r
                },
                LambdaTypes::Suffix(a, n, b) => {
                    let r = LambdaTypes::Suffix(
                        clone_strings(a),
                        n.clone(),
                        Box::new(expand_value(b)),
                    );
                    assert(l@ == SLambda::Suffix(strings_model(*a), n@, Box::new(b@)));
                    assert(r@ == SLambda::Suffix(strings_model(*a), n@, Box::new(expand_tree(b@))));
                    r
                },
                LambdaTypes::Prefix(a, n, b) => {
                    let r = LambdaTypes::Prefix(
                        clone_strings(a),
                        n.clone(),
                        Box::new(expand_value(b)),
                    );
                    assert(l@ == SLambda::Prefix(strings_model(*a), n@, Box::new(b@)));
                    assert(r@ == SLambda::Prefix(strings_model(*a), n@, Box::new(expand_tree(b@))));
                    r
                },
                LambdaTypes::Single(n, b) => {
                    let r = LambdaTypes::Single(n.clone(), Box::new(expand_value(b)));
                    assert(l@ == SLambda::Single(n@, Box::new(b@)));
                    assert(r@ == SLambda::Single(n@, Box::new(expand_tree(b@))));
                    r
                },
            };
            NixValue::Lambda(r)
        },
        NixValue::Apply(a, b) => NixValue::Apply(
            Box::new(expand_value(a)),
            Box::new(expand_value(b)),
        ),
        NixValue::Antiquotation(b) => NixValue::Antiquotation(Box::new(expand_value(b))),
        NixValue::BinaryOp { left, operator, right } => NixValue::BinaryOp {
            left: Box::new(expand_value(left)),
            operator: *operator,
            right: Box::new(expand_value(right)),
        },
        NixValue::Str(s) => NixValue::Str(s.clone()),
        NixValue::Int(n) => NixValue::Int(*n),
        NixValue::Float(t) => NixValue::Float(t.clone()),
        NixValue::Bool(b) => NixValue::Bool(*b),
        NixValue::Identifier(s) => NixValue::Identifier(s.clone()),
        NixValue::Path(s) => NixValue::Path(s.clone()),
    }
}

/// A copy of an expression with every nested attribute set of its attribute
/// sets and `let` blocks turned into dotted keys.
pub fn flatten_value(v: &NixValue) -> (r: NixValue)
    ensures
        r@ == flat_tree(v@),
    decreases v, 2int,
{
    match v {
        NixValue::AttrSet(m) => {
            proof {
                assert(decreases_to!(*v => *m));
            }
            NixValue::AttrSet(flat_map_of(m))
        },
        NixValue::LetIn(m, b) => {
            proof {
                assert(decreases_to!(*v => *m));
            }
            NixValue::LetIn(flat_map_of(m), Box::new(flatten_value(b)))
        },
        NixValue::List(l) => {
            proof {
                assert(decreases_to!(*v => *l));
                lemma_list_model(*l);
            }
            let ghost ll = list_model(l@);
            let mut out: Vec<NixValue> = Vec::new();
            let mut i: usize = 0;
            while i < l.len()
                invariant
                    *v == NixValue::List(*l),
                    ll == list_model(l@),
                    i <= l@.len(),
                    out@.len() == i,
                    forall|j: int| 0 <= j < i ==> #[trigger] list_model(out@)[j] == flat_items(
                        ll,
                    )[j],
                decreases l@.len() - i,
            {
                proof {
                    assert(decreases_to!(*v => (*v)->List_0));
                    assert(decreases_to!((*v)->List_0 => l@));
                    assert(decreases_to!(l@ => l@[i as int]));
                    assert(ll[i as int] == l@[i as int]@);
                }
                let w = flatten_value(&l[i]);
                let ghost before = out@;
                out.push(w);
                proof {
                    assert forall|j: int| 0 <= j < i + 1 implies #[trigger] list_model(out@)[j]
                        == flat_items(ll)[j] by {
                        if j < i {
                            assert(list_model(out@)[j] == list_model(before)[j]);
                        }
                    }
                }
                i = i + 1;
            }
            assert(list_model(out@) =~= flat_items(ll));
            proof {
                lemma_list_model(out);
            }
            NixValue::List(out)
        },
        NixValue::IndStr(f) => {
            proof {
                assert(decreases_to!(*v => *f));
                lemma_indstr_model(*f);
            }
            let ghost ff = frags_model(f@);
            let mut out: Vec<StringFragment> = Vec::new();
            let mut i: usize = 0;
            while i < f.len()
                invariant
                    *v == NixValue::IndStr(*f),
                    ff == frags_model(f@),
                    i <= f@.len(),
                    out@.len() == i,
                    forall|j: int| 0 <= j < i ==> #[trigger] frags_model(out@)[j] == flat_frags(
                        ff,
                    )[j],
                decreases f@.len() - i,
            {
                proof {
                    assert(decreases_to!(*v => (*v)->IndStr_0));
                    assert(decreases_to!((*v)->IndStr_0 => f@));
                    assert(decreases_to!(f@ => f@[i as int]));
                    assert(ff[i as int] == f@[i as int]@);
                }
                let w = match &f[i] {
                    StringFragment::Text(t) => StringFragment::Text(t.clone()),
                    StringFragment::Antiquotation(b) => StringFragment::Antiquotation(
                        Box::new(flatten_value(b)),
                    ),
                };
                let ghost before = out@;
                out.push(w);
                proof {
                    assert forall|j: int| 0 <= j < i + 1 implies #[trigger] frags_model(out@)[j]
                        == flat_frags(ff)[j] by {
                        if j < i {
                            assert(frags_model(out@)[j] == frags_model(before)[j]);
                        }
                    }
                }
                i = i + 1;
            }
            assert(frags_model(out@) =~= flat_frags(ff));
            proof {
                lemma_indstr_model(out);
            }
            NixValue::IndStr(out)
        },
        NixValue::Group(b) => NixValue::Group(Box::new(flatten_value(b))),
        NixValue::With(a, b) => NixValue::With(
            Box::new(flatten_value(a)),
            Box::new(flatten_value(b)),
        ),
        NixValue::Lambda(l) => {
            proof {
                assert(decreases_to!(*v => *l));
            }
            assert(v@ == SNix::Lambda(l@));
            let r = match l {
                LambdaTypes::Nofix(a, b) => {
                    let r = LambdaTypes::Nofix(clone_strings(a), Box::new(flatten_value(b)));
                    assert(l@ == SLambda::Nofix(strings_model(*a), Box::new(b@)));
                    assert(r@ == SLambda::Nofix(strings_model(*a), Box::new(flat_tree(b@))));
                    r
                },
                LambdaTypes::Suffix(a, n, b) => {
                    let r = LambdaTypes::Suffix(
                        clone_strings(a),
                        n.clone(),
                        Box::new(flatten_value(b)),
                    );
                    assert(l@ == SLambda::Suffix(strings_model(*a), n@, Box::new(b@)));
                    assert(r@ == SLambda::Suffix(strings_model(*a), n@, Box::new(flat_tree(b@))));
                    r
                },
                LambdaTypes::Prefix(a, n, b) => {
                    let r = LambdaTypes::Prefix(
                        clone_strings(a),
                        n.clone(),
                        Box::new(flatten_value(b)),
                    );
                    assert(l@ == SLambda::Prefix(strings_model(*a), n@, Box::new(b@)));
                    assert(r@ == SLambda::Prefix(strings_model(*a), n@, Box::new(flat_tree(b@))));
                    r
                },
                LambdaTypes::Single(n, b) => {
                    let r = LambdaTypes::Single(n.clone(), Box::new(flatten_value(b)));
                    assert(l@ == SLambda::Single(n@, Box::new(b@)));
                    assert(r@ == SLambda::Single(n@, Box::new(flat_tree(b@))));
                    r
                },
            };
            NixValue::Lambda(r)
        },
        NixValue::Apply(a, b) => NixValue::Apply(
            Box::new(flatten_value(a)),
            Box::new(flatten_value(b)),
        ),
        NixValue::Antiquotation(b) => NixValue::Antiquotation(Box::new(flatten_value(b))),
        NixValue::BinaryOp { left, operator, right } => NixValue::BinaryOp {
            left: Box::new(flatten_value(left)),
            operator: *operator,
            right: Box::new(flatten_value(right)),
        },
        NixValue::Str(s) => NixValue::Str(s.clone()),
        NixValue::Int(n) => NixValue::Int(*n),
        NixValue::Float(t) => NixValue::Float(t.clone()),
        NixValue::Bool(b) => NixValue::Bool(*b),
        NixValue::Identifier(s) => NixValue::Identifier(s.clone()),
        NixValue::Path(s) => NixValue::Path(s.clone()),
    }
}

/// Restructuring of attribute sets in place.
pub trait Flattening: Sized {
    /// `self` is `before` with its dotted keys expanded.
    spec fn expanded_from(&self, before: Self) -> bool;

    /// `self` is `before` with its nested attribute sets flattened.
    spec fn flattened_from(&self, before: Self) -> bool;

    /// Turns every dotted key of an attribute set or `let` block into nested
    /// attribute sets.
    fn expand(&mut self)
        ensures
            final(self).expanded_from(*old(self)),
    ;

    /// Turns every nested attribute set of an attribute set or `let` block
    /// into dotted keys.
    fn flatten(&mut self)
        ensures
            final(self).flattened_from(*old(self)),
    ;
}

impl Flattening for NixValue {
    open spec fn expanded_from(&self, before: Self) -> bool {
        self@ == expand_tree(before@)
    }

    open spec fn flattened_from(&self, before: Self) -> bool {
        self@ == flat_tree(before@)
    }

    fn expand(&mut self) {
        let r = expand_value(self);
        *self = r;
    }

    fn flatten(&mut self) {
        let r = flatten_value(self);
        *self = r;
    }
}

// ---------------------------------------------------------------------------
// Laws
// ---------------------------------------------------------------------------

/// `p` holds of every value of the entries.
pub open spec fn all_vals(es: Seq<(Seq<char>, SNix)>, p: spec_fn(SNix) -> bool) -> bool {
    forall|i: int| 0 <= i < es.len() ==> p(#[trigger] es[i].1)
}

/// `p` holds of every value that `flat_map` takes over from the entries: the
/// values that are not attribute sets, and the values inside those that are.
pub open spec fn spread_vals(es: Seq<(Seq<char>, SNix)>, p: spec_fn(SNix) -> bool) -> bool {
    forall|i: int|
        0 <= i < es.len() ==> match #[trigger] es[i].1 {
            SNix::AttrSet(inner) => all_vals(inner, p),
            _ => p(es[i].1),
        }
}

proof fn lemma_insert_all(
    acc: Seq<(Seq<char>, SNix)>,
    k: Seq<char>,
    v: SNix,
    p: spec_fn(SNix) -> bool,
)
    requires
        all_vals(acc, p),
        p(v),
    ensures
        all_vals(map_insert(acc, k, v), p),
{
    lemma_key_index(acc, k);
    let r = map_insert(acc, k, v);
    assert forall|i: int| 0 <= i < r.len() implies p(#[trigger] r[i].1) by {
        match key_index(acc, k) {
            Some(j) => {
                if i != j {
                    assert(r[i] == acc[i]);
                }
            },
            None => {
                if i < acc.len() {
                    assert(r[i] == acc[i]);
                }
            },
        }
    }
}

proof fn lemma_prefixed_all(
    acc: Seq<(Seq<char>, SNix)>,
    key: Seq<char>,
    inner: Seq<(Seq<char>, SNix)>,
    p: spec_fn(SNix) -> bool,
)
    requires
        all_vals(acc, p),
        all_vals(inner, p),
    ensures
        all_vals(add_prefixed(acc, key, inner), p),
    decreases inner.len(),
{
    if inner.len() > 0 {
        let d = inner.drop_last();
        assert forall|i: int| 0 <= i < d.len() implies p(#[trigger] d[i].1) by {
            assert(d[i] == inner[i]);
        }
        lemma_prefixed_all(acc, key, d, p);
        assert(p(inner.last().1));
        lemma_insert_all(add_prefixed(acc, key, d), key + "."@ + inner.last().0, inner.last().1, p);
    }
}

proof fn lemma_flat_map_all(es: Seq<(Seq<char>, SNix)>, p: spec_fn(SNix) -> bool)
    requires
        spread_vals(es, p),
    ensures
        all_vals(flat_map(es), p),
    decreases es.len(),
{
    if es.len() > 0 {
        let d = es.drop_last();
        assert forall|i: int| 0 <= i < d.len() implies match #[trigger] d[i].1 {
            SNix::AttrSet(inner) => all_vals(inner, p),
            _ => p(d[i].1),
        } by {
            assert(d[i] == es[i]);
        }
        lemma_flat_map_all(d, p);
        let e = es.last();
        assert(es[es.len() - 1] == e);
        match e.1 {
            SNix::AttrSet(inner) => {
                lemma_prefixed_all(flat_map(d), e.0, inner, p);
            },
            _ => {
                lemma_insert_all(flat_map(d), e.0, e.1, p);
            },
        }
    }
}

proof fn lemma_prefixed_unique(
    acc: Seq<(Seq<char>, SNix)>,
    key: Seq<char>,
    inner: Seq<(Seq<char>, SNix)>,
)
    requires
        keys_unique(acc),
    ensures
        keys_unique(add_prefixed(acc, key, inner)),
    decreases inner.len(),
{
    if inner.len() > 0 {
        lemma_prefixed_unique(acc, key, inner.drop_last());
        lemma_map_insert_unique(
            add_prefixed(acc, key, inner.drop_last()),
            key + "."@ + inner.last().0,
            inner.last().1,
        );
    }
}

/// The maps that `flatten` builds have no key twice.
pub proof fn lemma_flat_map_unique(es: Seq<(Seq<char>, SNix)>)
    ensures
        keys_unique(flat_map(es)),
    decreases es.len(),
{
    if es.len() > 0 {
        let d = es.drop_last();
        lemma_flat_map_unique(d);
        match es.last().1 {
            SNix::AttrSet(inner) => {
                lemma_prefixed_unique(flat_map(d), es.last().0, inner);
            },
            _ => {
                lemma_map_insert_unique(flat_map(d), es.last().0, es.last().1);
            },
        }
    }
}

proof fn lemma_flat_map_fix(es: Seq<(Seq<char>, SNix)>)
    requires
        keys_unique(es),
        all_vals(es, |w: SNix| !(w is AttrSet)),
    ensures
        flat_map(es) == es,
    decreases es.len(),
{
    if es.len() > 0 {
        let d = es.drop_last();
        assert forall|i: int, j: int| 0 <= i < j < d.len() implies d[i].0 != d[j].0 by {
            assert(d[i] == es[i]);
            assert(d[j] == es[j]);
        }
        assert forall|i: int| 0 <= i < d.len() implies (|w: SNix| !(w is AttrSet))(
            #[trigger] d[i].1,
        ) by {
            assert(d[i] == es[i]);
        }
        lemma_flat_map_fix(d);
        let e = es.last();
        assert(es[es.len() - 1] == e);
        assert(!(e.1 is AttrSet));
        lemma_key_index(d, e.0);
        assert forall|j: int| 0 <= j < d.len() implies d[j].0 != e.0 by {
            assert(d[j] == es[j]);
        }
        assert(key_index(d, e.0) is None);
        assert(d.push(e) =~= es);
    }
}

/// Flattening gives an attribute set only for an attribute set, and then
/// none of its values is an attribute set; none of the bindings of a
/// flattened `let` block is an attribute set either.
pub proof fn lemma_flat_shape(v: SNix)
    ensures
        flat_tree(v) is AttrSet ==> v is AttrSet,
        flat_tree(v) matches SNix::AttrSet(r) ==> all_vals(r, |w: SNix| !(w is AttrSet)),
        flat_tree(v) matches SNix::LetIn(r, _) ==> all_vals(r, |w: SNix| !(w is AttrSet)),
    decreases v, 1int,
{
    match v {
        SNix::AttrSet(m) => {
            lemma_flat_vals_spread(m);
            lemma_flat_map_all(flat_vals(m), |w: SNix| !(w is AttrSet));
        },
        SNix::LetIn(m, _) => {
            lemma_flat_vals_spread(m);
            lemma_flat_map_all(flat_vals(m), |w: SNix| !(w is AttrSet));
        },
        _ => {},
    }
}

proof fn lemma_flat_vals_spread(m: Seq<(Seq<char>, SNix)>)
    ensures
        spread_vals(flat_vals(m), |w: SNix| !(w is AttrSet)),
    decreases m, 0int,
{
    let fv = flat_vals(m);
    assert forall|i: int| 0 <= i < fv.len() implies match #[trigger] fv[i].1 {
        SNix::AttrSet(inner) => all_vals(inner, |w: SNix| !(w is AttrSet)),
        _ => (|w: SNix| !(w is AttrSet))(fv[i].1),
    } by {
        assert(decreases_to!(m => m[i]));
        assert(decreases_to!(m[i] => m[i].1));
        lemma_flat_shape(m[i].1);
    }
}

proof fn lemma_flat_vals_fixed(m: Seq<(Seq<char>, SNix)>)
    ensures
        spread_vals(flat_vals(m), |w: SNix| flat_tree(w) == w),
    decreases m, 1int,
{
    let fv = flat_vals(m);
    assert forall|i: int| 0 <= i < fv.len() implies match #[trigger] fv[i].1 {
        SNix::AttrSet(inner) => all_vals(inner, |w: SNix| flat_tree(w) == w),
        _ => (|w: SNix| flat_tree(w) == w)(fv[i].1),
    } by {
        assert(decreases_to!(m => m[i]));
        assert(decreases_to!(m[i] => m[i].1));
        lemma_flat_idempotent(m[i].1);
        lemma_flat_shape(m[i].1);
        let w = fv[i].1;
        assert(w == flat_tree(m[i].1));
        if let SNix::AttrSet(inner) = w {
            if let SNix::AttrSet(cm) = m[i].1 {
                assert(inner == flat_map(flat_vals(cm)));
                lemma_flat_map_unique(flat_vals(cm));
                let iv = flat_vals(inner);
                assert forall|j: int| 0 <= j < iv.len() implies (|w: SNix| !(w is AttrSet))(
                    #[trigger] iv[j].1,
                ) by {
                    assert(iv[j].1 == flat_tree(inner[j].1));
                    assert(!(inner[j].1 is AttrSet));
                    lemma_flat_shape(inner[j].1);
                }
                assert forall|a: int, b: int| 0 <= a < b < iv.len() implies iv[a].0 != iv[b].0 by {
                    assert(iv[a].0 == inner[a].0);
                    assert(iv[b].0 == inner[b].0);
                }
                lemma_flat_map_fix(iv);
                assert(flat_tree(w) == SNix::AttrSet(flat_map(iv)));
                assert forall|j: int| 0 <= j < inner.len() implies (|w: SNix| flat_tree(w) == w)(
                    #[trigger] inner[j].1,
                ) by {
                    assert(iv[j].1 == flat_tree(inner[j].1));
                    assert(iv == inner);
                }
            }
        }
    }
}

proof fn lemma_flat_map_idem(m: Seq<(Seq<char>, SNix)>)
    ensures
        flat_map(flat_vals(flat_map(flat_vals(m)))) == flat_map(flat_vals(m)),
    decreases m, 2int,
{
    let r = flat_map(flat_vals(m));
    lemma_flat_vals_fixed(m);
    lemma_flat_map_all(flat_vals(m), |w: SNix| flat_tree(w) == w);
    lemma_flat_vals_spread(m);
    lemma_flat_map_all(flat_vals(m), |w: SNix| !(w is AttrSet));
    lemma_flat_map_unique(flat_vals(m));
    let rv = flat_vals(r);
    assert forall|j: int| 0 <= j < r.len() implies #[trigger] rv[j] == r[j] by {
        assert((|w: SNix| flat_tree(w) == w)(r[j].1));
    }
    assert(rv =~= r);
    lemma_flat_map_fix(r);
}

proof fn lemma_flat_items_idem(l: Seq<SNix>)
    ensures
        flat_items(flat_items(l)) == flat_items(l),
    decreases l, 0int,
{
    let fi = flat_items(l);
    assert forall|i: int| 0 <= i < l.len() implies #[trigger] flat_items(fi)[i] == fi[i] by {
        assert(decreases_to!(l => l[i]));
        lemma_flat_idempotent(l[i]);
    }
    assert(flat_items(fi) =~= fi);
}

proof fn lemma_flat_frags_idem(f: Seq<SFrag>)
    ensures
        flat_frags(flat_frags(f)) == flat_frags(f),
    decreases f, 0int,
{
    let ff = flat_frags(f);
    assert forall|i: int| 0 <= i < f.len() implies #[trigger] flat_frags(ff)[i] == ff[i] by {
        assert(decreases_to!(f => f[i]));
        match f[i] {
            SFrag::Anti(b) => {
                assert(decreases_to!(f[i] => b));
                lemma_flat_idempotent(*b);
            },
            SFrag::Text(_) => {},
        }
    }
    assert(flat_frags(ff) =~= ff);
}

/// Flattening twice gives what flattening once gives.
pub proof fn lemma_flat_idempotent(v: SNix)
    ensures
        flat_tree(flat_tree(v)) == flat_tree(v),
    decreases v, 3int,
{
    match v {
        SNix::AttrSet(m) => {
            lemma_flat_map_idem(m);
        },
        SNix::LetIn(m, b) => {
            lemma_flat_map_idem(m);
            lemma_flat_idempotent(*b);
        },
        SNix::List(l) => {
            lemma_flat_items_idem(l);
        },
        SNix::IndStr(f) => {
            lemma_flat_frags_idem(f);
        },
        SNix::Group(b) => {
            lemma_flat_idempotent(*b);
        },
        SNix::With(a, b) => {
            lemma_flat_idempotent(*a);
            lemma_flat_idempotent(*b);
        },
        SNix::Lambda(l) => {
            match l {
                SLambda::Nofix(_, b) => lemma_flat_idempotent(*b),
                SLambda::Suffix(_, _, b) => lemma_flat_idempotent(*b),
                SLambda::Prefix(_, _, b) => lemma_flat_idempotent(*b),
                SLambda::Single(_, b) => lemma_flat_idempotent(*b),
            }
        },
        SNix::Apply(a, b) => {
            lemma_flat_idempotent(*a);
            lemma_flat_idempotent(*b);
        },
        SNix::Antiquotation(b) => {
            lemma_flat_idempotent(*b);
        },
        SNix::BinaryOp(l, _, r) => {
            lemma_flat_idempotent(*l);
            lemma_flat_idempotent(*r);
        },
        _ => {},
    }
}

} // verus!
