//! Sorting the keys of attribute sets and the argument names of functions,
//! throughout an expression.
use vstd::prelude::*;
use crate::text::chars_of;
use crate::value::{
    NixValue, AttrMap, StringFragment, LambdaTypes, SNix, SFrag, SLambda, list_model, frags_model,
    strings_model, lemma_list_model, lemma_indstr_model, clone_strings,
};

verus! {

// ---------------------------------------------------------------------------
// Order of texts
// ---------------------------------------------------------------------------

/// Comparison of two texts from position `i` on: character by character,
/// and a text that ends first is the smaller.
pub open spec fn text_lt_from(a: Seq<char>, b: Seq<char>, i: int) -> bool
    decreases a.len() - i,
{
    if i < 0 || i >= a.len() {
        0 <= i < b.len()
    } else if i >= b.len() {
        false
    } else if a[i] != b[i] {
        a[i] < b[i]
    } else {
        text_lt_from(a, b, i + 1)
    }
}

/// The order of `String`: lexicographic by character.
pub open spec fn text_lt(a: Seq<char>, b: Seq<char>) -> bool {
    text_lt_from(a, b, 0)
}

proof fn lemma_text_lt_from_trans(a: Seq<char>, b: Seq<char>, c: Seq<char>, i: int)
    requires
        0 <= i,
        i <= a.len(),
        i <= b.len(),
        i <= c.len(),
        forall|k: int| 0 <= k < i ==> a[k] == b[k] && b[k] == c[k],
        text_lt_from(a, b, i),
        text_lt_from(b, c, i),
    ensures
        text_lt_from(a, c, i),
    decreases a.len() - i,
{
    if i < a.len() && i < b.len() && i < c.len() && a[i] == b[i] && b[i] == c[i] {
        lemma_text_lt_from_trans(a, b, c, i + 1);
    }
}

/// The order of texts is transitive.
pub proof fn lemma_text_lt_trans(a: Seq<char>, b: Seq<char>, c: Seq<char>)
    requires
        text_lt(a, b),
        text_lt(b, c),
    ensures
        text_lt(a, c),
{
    lemma_text_lt_from_trans(a, b, c, 0);
}

/// Whether `a` comes before `b` in the order of `String`.
pub fn text_less(a: &str, b: &str) -> (r: bool)
    ensures
        r == text_lt(a@, b@),
{
    let x = chars_of(a);
    let y = chars_of(b);
    let mut i: usize = 0;
    loop
        invariant
            i <= x@.len(),
            i <= y@.len(),
            text_lt_from(x@, y@, i as int) == text_lt(a@, b@),
            x@ == a@,
            y@ == b@,
        decreases x@.len() - i,
    {
        if i >= x.len() {
            return i < y.len();
        }
        if i >= y.len() {
            return false;
        }
        if x[i] != y[i] {
            return x[i] < y[i];
        }
        i = i + 1;
    }
}

// ---------------------------------------------------------------------------
// Insertion sort
// ---------------------------------------------------------------------------

/// Inserts an entry before the first entry whose key is greater than its
/// own.
pub open spec fn ins_entry(s: Seq<(Seq<char>, SNix)>, e: (Seq<char>, SNix)) -> Seq<
    (Seq<char>, SNix),
>
    decreases s.len(),
{
    if s.len() == 0 {
        seq![e]
    } else if text_lt(e.0, s[0].0) {
        seq![e] + s
    } else {
        seq![s[0]] + ins_entry(s.drop_first(), e)
    }
}

/// The entries ordered by key; entries with equal keys keep their order.
pub open spec fn sort_entries(s: Seq<(Seq<char>, SNix)>) -> Seq<(Seq<char>, SNix)>
    decreases s.len(),
{
    if s.len() == 0 {
        s
    } else {
        ins_entry(sort_entries(s.drop_last()), s.last())
    }
}

/// Inserts a name before the first name that is greater.
pub open spec fn ins_name(s: Seq<Seq<char>>, e: Seq<char>) -> Seq<Seq<char>>
    decreases s.len(),
{
    if s.len() == 0 {
        seq![e]
    } else if text_lt(e, s[0]) {
        seq![e] + s
    } else {
        seq![s[0]] + ins_name(s.drop_first(), e)
    }
}

/// The names in ascending order.
pub open spec fn sort_names(s: Seq<Seq<char>>) -> Seq<Seq<char>>
    decreases s.len(),
{
    if s.len() == 0 {
        s
    } else {
        ins_name(sort_names(s.drop_last()), s.last())
    }
}

/// The keys of the entries are in ascending order.
pub open spec fn keys_sorted(s: Seq<(Seq<char>, SNix)>) -> bool {
    forall|i: int, j: int| 0 <= i < j < s.len() ==> !text_lt(#[trigger] s[j].0, #[trigger] s[i].0)
}

/// The names are in ascending order.
pub open spec fn names_sorted(s: Seq<Seq<char>>) -> bool {
    forall|i: int, j: int| 0 <= i < j < s.len() ==> !text_lt(#[trigger] s[j], #[trigger] s[i])
}

proof fn lemma_ins_entry_at(s: Seq<(Seq<char>, SNix)>, e: (Seq<char>, SNix), j: int)
    requires
        0 <= j <= s.len(),
        forall|k: int| 0 <= k < j ==> !text_lt(e.0, #[trigger] s[k].0),
        j == s.len() || text_lt(e.0, s[j].0),
    ensures
        ins_entry(s, e) == s.insert(j, e),
    decreases j,
{
    if s.len() == 0 {
        assert(s.insert(j, e) =~= seq![e]);
    } else if j == 0 {
        assert(s.insert(0, e) =~= seq![e] + s);
    } else {
        let t = s.drop_first();
        assert forall|k: int| 0 <= k < j - 1 implies !text_lt(e.0, #[trigger] t[k].0) by {
            assert(t[k] == s[k + 1]);
        }
        lemma_ins_entry_at(t, e, j - 1);
        assert(s.insert(j, e) =~= seq![s[0]] + t.insert(j - 1, e));
    }
}

proof fn lemma_ins_name_at(s: Seq<Seq<char>>, e: Seq<char>, j: int)
    requires
        0 <= j <= s.len(),
        forall|k: int| 0 <= k < j ==> !text_lt(e, #[trigger] s[k]),
        j == s.len() || text_lt(e, s[j]),
    ensures
        ins_name(s, e) == s.insert(j, e),
    decreases j,
{
    if s.len() == 0 {
        assert(s.insert(j, e) =~= seq![e]);
    } else if j == 0 {
        assert(s.insert(0, e) =~= seq![e] + s);
    } else {
        let t = s.drop_first();
        assert forall|k: int| 0 <= k < j - 1 implies !text_lt(e, #[trigger] t[k]) by {
            assert(t[k] == s[k + 1]);
        }
        lemma_ins_name_at(t, e, j - 1);
        assert(s.insert(j, e) =~= seq![s[0]] + t.insert(j - 1, e));
    }
}

// ---------------------------------------------------------------------------
// Sorting a tree
// ---------------------------------------------------------------------------

/// An expression with the keys of every attribute set and `let` block, and
/// the argument names of every function head, in ascending order.
pub open spec fn sort_tree(v: SNix) -> SNix
    decreases v, 1int,
{
    match v {
        SNix::AttrSet(m) => SNix::AttrSet(sort_entries(sorted_vals(m))),
        SNix::LetIn(m, b) => SNix::LetIn(sort_entries(sorted_vals(m)), Box::new(sort_tree(*b))),
        SNix::List(l) => SNix::List(sorted_items(l)),
        SNix::IndStr(f) => SNix::IndStr(sorted_frags(f)),
        SNix::Group(b) => SNix::Group(Box::new(sort_tree(*b))),
        SNix::With(a, b) => SNix::With(Box::new(sort_tree(*a)), Box::new(sort_tree(*b))),
        SNix::Lambda(l) => SNix::Lambda(
            match l {
                SLambda::Nofix(a, b) => SLambda::Nofix(sort_names(a), Box::new(sort_tree(*b))),
                SLambda::Suffix(a, n, b) => SLambda::Suffix(
                    sort_names(a),
                    n,
                    Box::new(sort_tree(*b)),
                ),
                SLambda::Prefix(a, n, b) => SLambda::Prefix(
                    sort_names(a),
                    n,
                    Box::new(sort_tree(*b)),
                ),
                SLambda::Single(n, b) => SLambda::Single(n, Box::new(sort_tree(*b))),
            },
        ),
        SNix::Apply(a, b) => SNix::Apply(Box::new(sort_tree(*a)), Box::new(sort_tree(*b))),
        SNix::Antiquotation(b) => SNix::Antiquotation(Box::new(sort_tree(*b))),
        SNix::BinaryOp(l, op, r) => SNix::BinaryOp(
            Box::new(sort_tree(*l)),
            op,
            Box::new(sort_tree(*r)),
        ),
        _ => v,
    }
}

/// The entries of a map with each value sorted.
pub open spec fn sorted_vals(m: Seq<(Seq<char>, SNix)>) -> Seq<(Seq<char>, SNix)>
    decreases m, 0int,
{
    Seq::new(
        m.len(),
        |i: int|
            if 0 <= i < m.len() {
                (m[i].0, sort_tree(m[i].1))
            } else {
                (Seq::empty(), SNix::Int(0))
            },
    )
}

/// The elements of a list, each sorted.
pub open spec fn sorted_items(l: Seq<SNix>) -> Seq<SNix>
    decreases l, 0int,
{
    Seq::new(l.len(), |i: int| if 0 <= i < l.len() { sort_tree(l[i]) } else { SNix::Int(0) })
}

/// The pieces of an indented string, each interpolation sorted.
pub open spec fn sorted_frags(f: Seq<SFrag>) -> Seq<SFrag>
    decreases f, 0int,
{
    Seq::new(
        f.len(),
        |i: int|
            if 0 <= i < f.len() {
                match f[i] {
                    SFrag::Text(t) => SFrag::Text(t),
                    SFrag::Anti(b) => SFrag::Anti(Box::new(sort_tree(*b))),
                }
            } else {
                SFrag::Text(Seq::empty())
            },
    )
}

// ---------------------------------------------------------------------------
// Exec
// ---------------------------------------------------------------------------

/// The model of a vector of entries.
pub open spec fn entries_model(v: Seq<(String, NixValue)>) -> Seq<(Seq<char>, SNix)> {
    Seq::new(v.len(), |i: int| (v[i].0@, v[i].1@))
}

/// Inserts an entry into entries ordered by key, after every entry whose key
/// is not greater.
fn insert_entry_sorted(out: &mut Vec<(String, NixValue)>, e: (String, NixValue))
    ensures
        entries_model(final(out)@) == ins_entry(entries_model(old(out)@), (e.0@, e.1@)),
{
    let ghost s = entries_model(out@);
    let mut j: usize = 0;
    while j < out.len() && !text_less(e.0.as_str(), out[j].0.as_str())
        invariant
            j <= out@.len(),
            s == entries_model(out@),
            forall|k: int| 0 <= k < j ==> !text_lt(e.0@, #[trigger] s[k].0),
        decreases out@.len() - j,
    {
        j = j + 1;
    }
    proof {
        lemma_ins_entry_at(s, (e.0@, e.1@), j as int);
    }
    let ghost ee = (e.0@, e.1@);
    out.insert(j, e);
    assert(entries_model(out@) =~= s.insert(j as int, ee));
}

/// Entries ordered by key, by insertion.
fn sort_entry_vec(v: Vec<(String, NixValue)>) -> (r: Vec<(String, NixValue)>)
    ensures
        entries_model(r@) == sort_entries(entries_model(v@)),
{
    let ghost s = entries_model(v@);
    let mut v = v;
    let mut out: Vec<(String, NixValue)> = Vec::new();
    let ghost mut i: int = 0;
    assert(s.take(0) =~= Seq::<(Seq<char>, SNix)>::empty());
    assert(entries_model(out@) =~= Seq::<(Seq<char>, SNix)>::empty());
    while v.len() > 0
        invariant
            0 <= i <= s.len(),
            entries_model(v@) == s.skip(i),
            entries_model(out@) == sort_entries(s.take(i)),
        decreases v@.len(),
    {
        let ghost before = v@;
        let e = v.remove(0);
        proof {
            assert(before.len() > 0);
            assert(e == before[0]);
            assert(entries_model(before)[0] == (before[0].0@, before[0].1@));
            assert(entries_model(before)[0] == (e.0@, e.1@));
            assert(entries_model(before).len() == s.len() - i);
            assert(s.skip(i)[0] == s[i]);
            assert(s[i] == (e.0@, e.1@));
            assert(s.take(i + 1).drop_last() =~= s.take(i));
            assert forall|j: int| 0 <= j < entries_model(v@).len() implies #[trigger] entries_model(
                v@,
            )[j] == s.skip(i + 1)[j] by {
                assert(v@[j] == before[j + 1]);
                assert(entries_model(before)[j + 1] == s.skip(i)[j + 1]);
            }
            assert(entries_model(v@) =~= s.skip(i + 1));
        }
        insert_entry_sorted(&mut out, e);
        proof {
            i = i + 1;
        }
    }
    assert(s.take(i) =~= s);
    out
}

/// Inserts a name into names in ascending order, after every name that is
/// not greater.
fn insert_name_sorted(out: &mut Vec<String>, e: String)
    ensures
        strings_model(*final(out)) == ins_name(strings_model(*old(out)), e@),
{
    let ghost s = strings_model(*out);
    let mut j: usize = 0;
    while j < out.len() && !text_less(e.as_str(), out[j].as_str())
        invariant
            j <= out@.len(),
            s == strings_model(*out),
            forall|k: int| 0 <= k < j ==> !text_lt(e@, #[trigger] s[k]),
        decreases out@.len() - j,
    {
        j = j + 1;
    }
    proof {
        lemma_ins_name_at(s, e@, j as int);
    }
    let ghost ee = e@;
    out.insert(j, e);
    assert(strings_model(*out) =~= s.insert(j as int, ee));
}

/// Names in ascending order, by insertion.
fn sort_name_vec(v: Vec<String>) -> (r: Vec<String>)
    ensures
        strings_model(r) == sort_names(strings_model(v)),
{
    let ghost s = strings_model(v);
    let mut v = v;
    let mut out: Vec<String> = Vec::new();
    let ghost mut i: int = 0;
    assert(s.take(0) =~= Seq::<Seq<char>>::empty());
    assert(strings_model(out) =~= Seq::<Seq<char>>::empty());
    while v.len() > 0
        invariant
            0 <= i <= s.len(),
            strings_model(v) == s.skip(i),
            strings_model(out) == sort_names(s.take(i)),
        decreases v@.len(),
    {
        let ghost before = v;
        let e = v.remove(0);
        proof {
            assert(before@.len() > 0);
            assert(e == before@[0]);
            assert(strings_model(before)[0] == e@);
            assert(strings_model(before).len() == s.len() - i);
            assert(s.skip(i)[0] == s[i]);
            assert(s[i] == e@);
            assert(s.take(i + 1).drop_last() =~= s.take(i));
            assert forall|j: int| 0 <= j < strings_model(v).len() implies #[trigger] strings_model(
                v,
            )[j] == s.skip(i + 1)[j] by {
                assert(v@[j] == before@[j + 1]);
                assert(strings_model(before)[j + 1] == s.skip(i)[j + 1]);
            }
            assert(strings_model(v) =~= s.skip(i + 1));
        }
        insert_name_sorted(&mut out, e);
        proof {
            i = i + 1;
        }
    }
    assert(s.take(i) =~= s);
    out
}

/// The entries of a map with each value sorted.
fn sorted_entries_of(m: &AttrMap) -> (r: Vec<(String, NixValue)>)
    ensures
        entries_model(r@) == sorted_vals(m@),
    decreases m, 0int,
{
    let ghost mm = m@;
    let mut out: Vec<(String, NixValue)> = Vec::new();
    let mut i: usize = 0;
    while i < m.entries.len()
        invariant
            mm == m@,
            mm.len() == m.entries@.len(),
            i <= m.entries@.len(),
            out@.len() == i,
            forall|j: int| 0 <= j < i ==> #[trigger] entries_model(out@)[j] == sorted_vals(mm)[j],
        decreases m.entries@.len() - i,
    {
        let e = &m.entries[i];
        proof {
            assert(decreases_to!(*m => m.entries));
            assert(decreases_to!(m.entries => m.entries@));
            assert(decreases_to!(m.entries@ => m.entries@[i as int]));
            assert(decreases_to!(m.entries@[i as int] => m.entries@[i as int].1));
            assert(mm[i as int] == (e.0@, e.1@));
        }
        let k = e.0.clone();
        let w = sorted_value(&e.1);
        let ghost before = out@;
        out.push((k, w));
        proof {
            assert forall|j: int| 0 <= j < i + 1 implies #[trigger] entries_model(out@)[j]
                == sorted_vals(mm)[j] by {
                if j < i {
                    assert(entries_model(out@)[j] == entries_model(before)[j]);
                }
            }
        }
        i = i + 1;
    }
    assert(entries_model(out@) =~= sorted_vals(mm));
    out
}

/// The elements of a list, each sorted.
fn sorted_items_of(l: &Vec<NixValue>) -> (r: Vec<NixValue>)
    ensures
        list_model(r@) == sorted_items(list_model(l@)),
    decreases l, 0int,
{
    let ghost ll = list_model(l@);
    let mut out: Vec<NixValue> = Vec::new();
    let mut i: usize = 0;
    while i < l.len()
        invariant
            ll == list_model(l@),
            i <= l@.len(),
            out@.len() == i,
            forall|j: int| 0 <= j < i ==> #[trigger] list_model(out@)[j] == sorted_items(ll)[j],
        decreases l@.len() - i,
    {
        proof {
            assert(decreases_to!(*l => l@));
            assert(decreases_to!(l@ => l@[i as int]));
            assert(ll[i as int] == l@[i as int]@);
        }
        let w = sorted_value(&l[i]);
        let ghost before = out@;
        out.push(w);
        proof {
            assert forall|j: int| 0 <= j < i + 1 implies #[trigger] list_model(out@)[j]
                == sorted_items(ll)[j] by {
                if j < i {
                    assert(list_model(out@)[j] == list_model(before)[j]);
                }
            }
        }
        i = i + 1;
    }
    assert(list_model(out@) =~= sorted_items(ll));
    out
}

/// The pieces of an indented string, each interpolation sorted.
fn sorted_frags_of(f: &Vec<StringFragment>) -> (r: Vec<StringFragment>)
    ensures
        frags_model(r@) == sorted_frags(frags_model(f@)),
    decreases f, 0int,
{
    let ghost ff = frags_model(f@);
    let mut out: Vec<StringFragment> = Vec::new();
    let mut i: usize = 0;
    while i < f.len()
        invariant
            ff == frags_model(f@),
            i <= f@.len(),
            out@.len() == i,
            forall|j: int| 0 <= j < i ==> #[trigger] frags_model(out@)[j] == sorted_frags(ff)[j],
        decreases f@.len() - i,
    {
        proof {
            assert(decreases_to!(*f => f@));
            assert(decreases_to!(f@ => f@[i as int]));
            assert(ff[i as int] == f@[i as int]@);
        }
        let w = match &f[i] {
            StringFragment::Text(t) => StringFragment::Text(t.clone()),
            StringFragment::Antiquotation(b) => StringFragment::Antiquotation(
                Box::new(sorted_value(b)),
            ),
        };
        let ghost before = out@;
        out.push(w);
        proof {
            assert forall|j: int| 0 <= j < i + 1 implies #[trigger] frags_model(out@)[j]
                == sorted_frags(ff)[j] by {
                if j < i {
                    assert(frags_model(out@)[j] == frags_model(before)[j]);
                }
            }
        }
        i = i + 1;
    }
    assert(frags_model(out@) =~= sorted_frags(ff));
    out
}

/// A map from entries ordered by key, each value sorted.
fn sorted_map(m: &AttrMap) -> (r: AttrMap)
    ensures
        r@ == sort_entries(sorted_vals(m@)),
    decreases m, 1int,
{
    let vals = sorted_entries_of(m);
    let sorted = sort_entry_vec(vals);
    let r = AttrMap { entries: sorted };
    assert(r@ =~= entries_model(sorted@));
    r
}

/// A copy of an expression with the keys of every attribute set and `let`
/// block, and the argument names of every function head, in ascending order.
pub fn sorted_value(v: &NixValue) -> (r: NixValue)
    ensures
        r@ == sort_tree(v@),
    decreases v, 0int,
{
    match v {
        NixValue::AttrSet(m) => {
            proof {
                assert(decreases_to!(*v => *m));
            }
            NixValue::AttrSet(sorted_map(m))
        },
        NixValue::LetIn(m, b) => {
            proof {
                assert(decreases_to!(*v => *m));
            }
            NixValue::LetIn(sorted_map(m), Box::new(sorted_value(b)))
        },
        NixValue::List(l) => {
            proof {
                assert(decreases_to!(*v => *l));
                lemma_list_model(*l);
            }
            let out = sorted_items_of(l);
            proof {
                lemma_list_model(out);
            }
            NixValue::List(out)
        },
        NixValue::IndStr(f) => {
            proof {
                assert(decreases_to!(*v => *f));
                lemma_indstr_model(*f);
            }
            let out = sorted_frags_of(f);
            proof {
                lemma_indstr_model(out);
            }
            NixValue::IndStr(out)
        },
        NixValue::Group(b) => NixValue::Group(Box::new(sorted_value(b))),
        NixValue::With(a, b) => NixValue::With(
            Box::new(sorted_value(a)),
            Box::new(sorted_value(b)),
        ),
        NixValue::Lambda(l) => {
            proof {
                assert(decreases_to!(*v => *l));
            }
            assert(v@ == SNix::Lambda(l@));
            let r = match l {
                LambdaTypes::Nofix(a, b) => {
                    let r = LambdaTypes::Nofix(
                        sort_name_vec(clone_strings(a)),
                        Box::new(sorted_value(b)),
                    );
                    assert(l@ == SLambda::Nofix(strings_model(*a), Box::new(b@)));
                    assert(r@ == SLambda::Nofix(
                        sort_names(strings_model(*a)),
                        Box::new(sort_tree(b@)),
                    ));
                    r
                },
                LambdaTypes::Suffix(a, n, b) => {
                    let r = LambdaTypes::Suffix(
                        sort_name_vec(clone_strings(a)),
                        n.clone(),
                        Box::new(sorted_value(b)),
                    );
                    assert(l@ == SLambda::Suffix(strings_model(*a), n@, Box::new(b@)));
                    assert(r@ == SLambda::Suffix(
                        sort_names(strings_model(*a)),
                        n@,
                        Box::new(sort_tree(b@)),
                    ));
                    r
                },
                LambdaTypes::Prefix(a, n, b) => {
                    let r = LambdaTypes::Prefix(
                        sort_name_vec(clone_strings(a)),
                        n.clone(),
                        Box::new(sorted_value(b)),
                    );
                    assert(l@ == SLambda::Prefix(strings_model(*a), n@, Box::new(b@)));
                    assert(r@ == SLambda::Prefix(
                        sort_names(strings_model(*a)),
                        n@,
                        Box::new(sort_tree(b@)),
                    ));
                    r
                },
                LambdaTypes::Single(n, b) => {
                    let r = LambdaTypes::Single(n.clone(), Box::new(sorted_value(b)));
                    assert(l@ == SLambda::Single(n@, Box::new(b@)));
                    assert(r@ == SLambda::Single(n@, Box::new(sort_tree(b@))));
                    r
                },
            };
            NixValue::Lambda(r)
        },
        NixValue::Apply(a, b) => NixValue::Apply(
            Box::new(sorted_value(a)),
            Box::new(sorted_value(b)),
        ),
        NixValue::Antiquotation(b) => NixValue::Antiquotation(Box::new(sorted_value(b))),
        NixValue::BinaryOp { left, operator, right } => NixValue::BinaryOp {
            left: Box::new(sorted_value(left)),
            operator: *operator,
            right: Box::new(sorted_value(right)),
        },
        NixValue::Str(s) => NixValue::Str(s.clone()),
        NixValue::Int(n) => NixValue::Int(*n),
        NixValue::Float(t) => NixValue::Float(t.clone()),
        NixValue::Bool(b) => NixValue::Bool(*b),
        NixValue::Identifier(s) => NixValue::Identifier(s.clone()),
        NixValue::Path(s) => NixValue::Path(s.clone()),
    }
}

/// Sorting of keys and argument names in place.
pub trait Sort: Sized {
    /// `self` is `before` with its keys and names sorted.
    spec fn sorted_from(&self, before: Self) -> bool;

    /// Puts the keys of every attribute set and `let` block, and the argument
    /// names of every function head, in ascending order.
    fn sort_ast(&mut self)
        ensures
            final(self).sorted_from(*old(self)),
    ;
}

impl Sort for NixValue {
    open spec fn sorted_from(&self, before: Self) -> bool {
        self@ == sort_tree(before@)
    }

    fn sort_ast(&mut self) {
        let r = sorted_value(self);
        *self = r;
    }
}

// ---------------------------------------------------------------------------
// Laws
// ---------------------------------------------------------------------------

proof fn lemma_text_lt_irrefl(a: Seq<char>, i: int)
    requires
        0 <= i,
    ensures
        !text_lt_from(a, a, i),
    decreases a.len() - i,
{
    if i < a.len() {
        lemma_text_lt_irrefl(a, i + 1);
    }
}

proof fn lemma_ins_entry_lower(s: Seq<(Seq<char>, SNix)>, e: (Seq<char>, SNix), b: Seq<char>)
    requires
        !text_lt(e.0, b),
        forall|k: int| 0 <= k < s.len() ==> !text_lt(#[trigger] s[k].0, b),
    ensures
        ins_entry(s, e).len() == s.len() + 1,
        forall|k: int| 0 <= k < ins_entry(s, e).len() ==> !text_lt(#[trigger] ins_entry(s, e)[k].0, b),
    decreases s.len(),
{
    if s.len() > 0 && !text_lt(e.0, s[0].0) {
        let t = s.drop_first();
        assert forall|k: int| 0 <= k < t.len() implies !text_lt(#[trigger] t[k].0, b) by {
            assert(t[k] == s[k + 1]);
        }
        lemma_ins_entry_lower(t, e, b);
        let r = ins_entry(s, e);
        assert forall|k: int| 0 <= k < r.len() implies !text_lt(#[trigger] r[k].0, b) by {
            if k > 0 {
                assert(r[k] == ins_entry(t, e)[k - 1]);
            }
        }
    }
}

proof fn lemma_ins_entry_sorted(s: Seq<(Seq<char>, SNix)>, e: (Seq<char>, SNix))
    requires
        keys_sorted(s),
    ensures
        keys_sorted(ins_entry(s, e)),
        ins_entry(s, e).len() == s.len() + 1,
    decreases s.len(),
{
    if s.len() == 0 {
    } else if text_lt(e.0, s[0].0) {
        let r = ins_entry(s, e);
        assert forall|i: int, j: int| 0 <= i < j < r.len() implies !text_lt(
            #[trigger] r[j].0,
            #[trigger] r[i].0,
        ) by {
            if i == 0 {
                assert(r[j] == s[j - 1]);
                if text_lt(s[j - 1].0, e.0) {
                    lemma_text_lt_trans(s[j - 1].0, e.0, s[0].0);
                    lemma_text_lt_irrefl(s[0].0, 0);
                }
            } else {
                assert(r[i] == s[i - 1]);
                assert(r[j] == s[j - 1]);
            }
        }
    } else {
        let t = s.drop_first();
        assert forall|i: int, j: int| 0 <= i < j < t.len() implies !text_lt(
            #[trigger] t[j].0,
            #[trigger] t[i].0,
        ) by {
            assert(t[i] == s[i + 1]);
            assert(t[j] == s[j + 1]);
        }
        lemma_ins_entry_sorted(t, e);
        assert forall|k: int| 0 <= k < t.len() implies !text_lt(#[trigger] t[k].0, s[0].0) by {
            assert(t[k] == s[k + 1]);
        }
        lemma_ins_entry_lower(t, e, s[0].0);
        let r = ins_entry(s, e);
        let q = ins_entry(t, e);
        assert forall|i: int, j: int| 0 <= i < j < r.len() implies !text_lt(
            #[trigger] r[j].0,
            #[trigger] r[i].0,
        ) by {
            assert(r[j] == q[j - 1]);
            if i > 0 {
                assert(r[i] == q[i - 1]);
            }
        }
    }
}

proof fn lemma_ins_entry_last(s: Seq<(Seq<char>, SNix)>, e: (Seq<char>, SNix))
    requires
        forall|k: int| 0 <= k < s.len() ==> !text_lt(e.0, #[trigger] s[k].0),
    ensures
        ins_entry(s, e) == s.push(e),
    decreases s.len(),
{
    if s.len() > 0 {
        let t = s.drop_first();
        assert forall|k: int| 0 <= k < t.len() implies !text_lt(e.0, #[trigger] t[k].0) by {
            assert(t[k] == s[k + 1]);
        }
        lemma_ins_entry_last(t, e);
        assert(seq![s[0]] + t.push(e) =~= s.push(e));
    } else {
        assert(seq![e] =~= s.push(e));
    }
}

/// Sorting by key puts the keys in ascending order.
pub proof fn lemma_sort_entries_sorted(s: Seq<(Seq<char>, SNix)>)
    ensures
        keys_sorted(sort_entries(s)),
        sort_entries(s).len() == s.len(),
    decreases s.len(),
{
    if s.len() > 0 {
        lemma_sort_entries_sorted(s.drop_last());
        lemma_ins_entry_sorted(sort_entries(s.drop_last()), s.last());
    }
}

proof fn lemma_sort_entries_fix(s: Seq<(Seq<char>, SNix)>)
    requires
        keys_sorted(s),
    ensures
        sort_entries(s) == s,
    decreases s.len(),
{
    if s.len() > 0 {
        let d = s.drop_last();
        assert forall|i: int, j: int| 0 <= i < j < d.len() implies !text_lt(
            #[trigger] d[j].0,
            #[trigger] d[i].0,
        ) by {
            assert(d[i] == s[i]);
            assert(d[j] == s[j]);
        }
        lemma_sort_entries_fix(d);
        assert forall|k: int| 0 <= k < d.len() implies !text_lt(s.last().0, #[trigger] d[k].0) by {
            assert(d[k] == s[k]);
        }
        lemma_ins_entry_last(d, s.last());
        assert(d.push(s.last()) =~= s);
    }
}

proof fn lemma_sorted_vals_ins(s: Seq<(Seq<char>, SNix)>, e: (Seq<char>, SNix))
    ensures
        sorted_vals(ins_entry(s, e)) == ins_entry(sorted_vals(s), (e.0, sort_tree(e.1))),
    decreases s.len(),
{
    let e2 = (e.0, sort_tree(e.1));
    let sv = sorted_vals(s);
    if s.len() == 0 {
        assert(sorted_vals(seq![e]) =~= seq![e2]);
    } else if text_lt(e.0, s[0].0) {
        assert(sv[0].0 == s[0].0);
        assert(sorted_vals(seq![e] + s) =~= seq![e2] + sv);
    } else {
        let t = s.drop_first();
        lemma_sorted_vals_ins(t, e);
        assert(sv[0].0 == s[0].0);
        assert(sorted_vals(t) =~= sv.drop_first());
        let q = ins_entry(t, e);
        assert(sorted_vals(seq![s[0]] + q) =~= seq![sv[0]] + sorted_vals(q));
    }
}

proof fn lemma_sorted_vals_sort(s: Seq<(Seq<char>, SNix)>)
    ensures
        sorted_vals(sort_entries(s)) == sort_entries(sorted_vals(s)),
    decreases s.len(),
{
    if s.len() == 0 {
        assert(sorted_vals(s) =~= s);
    } else {
        let d = s.drop_last();
        lemma_sorted_vals_sort(d);
        lemma_sorted_vals_ins(sort_entries(d), s.last());
        assert(sorted_vals(s).drop_last() =~= sorted_vals(d));
        assert(sorted_vals(s).last() == (s.last().0, sort_tree(s.last().1)));
    }
}

proof fn lemma_ins_name_lower(s: Seq<Seq<char>>, e: Seq<char>, b: Seq<char>)
    requires
        !text_lt(e, b),
        forall|k: int| 0 <= k < s.len() ==> !text_lt(#[trigger] s[k], b),
    ensures
        ins_name(s, e).len() == s.len() + 1,
        forall|k: int| 0 <= k < ins_name(s, e).len() ==> !text_lt(#[trigger] ins_name(s, e)[k], b),
    decreases s.len(),
{
    if s.len() > 0 && !text_lt(e, s[0]) {
        let t = s.drop_first();
        assert forall|k: int| 0 <= k < t.len() implies !text_lt(#[trigger] t[k], b) by {
            assert(t[k] == s[k + 1]);
        }
        lemma_ins_name_lower(t, e, b);
        let r = ins_name(s, e);
        assert forall|k: int| 0 <= k < r.len() implies !text_lt(#[trigger] r[k], b) by {
            if k > 0 {
                assert(r[k] == ins_name(t, e)[k - 1]);
            }
        }
    }
}

proof fn lemma_ins_name_sorted(s: Seq<Seq<char>>, e: Seq<char>)
    requires
        names_sorted(s),
    ensures
        names_sorted(ins_name(s, e)),
        ins_name(s, e).len() == s.len() + 1,
    decreases s.len(),
{
    if s.len() == 0 {
    } else if text_lt(e, s[0]) {
        let r = ins_name(s, e);
        assert forall|i: int, j: int| 0 <= i < j < r.len() implies !text_lt(
            #[trigger] r[j],
            #[trigger] r[i],
        ) by {
            if i == 0 {
                assert(r[j] == s[j - 1]);
                if text_lt(s[j - 1], e) {
                    lemma_text_lt_trans(s[j - 1], e, s[0]);
                    lemma_text_lt_irrefl(s[0], 0);
                }
            } else {
                assert(r[i] == s[i - 1]);
                assert(r[j] == s[j - 1]);
            }
        }
    } else {
        let t = s.drop_first();
        assert forall|i: int, j: int| 0 <= i < j < t.len() implies !text_lt(
            #[trigger] t[j],
            #[trigger] t[i],
        ) by {
            assert(t[i] == s[i + 1]);
            assert(t[j] == s[j + 1]);
        }
        lemma_ins_name_sorted(t, e);
        assert forall|k: int| 0 <= k < t.len() implies !text_lt(#[trigger] t[k], s[0]) by {
            assert(t[k] == s[k + 1]);
        }
        lemma_ins_name_lower(t, e, s[0]);
        let r = ins_name(s, e);
        let q = ins_name(t, e);
        assert forall|i: int, j: int| 0 <= i < j < r.len() implies !text_lt(
            #[trigger] r[j],
            #[trigger] r[i],
        ) by {
            assert(r[j] == q[j - 1]);
            if i > 0 {
                assert(r[i] == q[i - 1]);
            }
        }
    }
}

proof fn lemma_ins_name_last(s: Seq<Seq<char>>, e: Seq<char>)
    requires
        forall|k: int| 0 <= k < s.len() ==> !text_lt(e, #[trigger] s[k]),
    ensures
        ins_name(s, e) == s.push(e),
    decreases s.len(),
{
    if s.len() > 0 {
        let t = s.drop_first();
        assert forall|k: int| 0 <= k < t.len() implies !text_lt(e, #[trigger] t[k]) by {
            assert(t[k] == s[k + 1]);
        }
        lemma_ins_name_last(t, e);
        assert(seq![s[0]] + t.push(e) =~= s.push(e));
    } else {
        assert(seq![e] =~= s.push(e));
    }
}

/// Sorting names puts them in ascending order.
pub proof fn lemma_sort_names_sorted(s: Seq<Seq<char>>)
    ensures
        names_sorted(sort_names(s)),
        sort_names(s).len() == s.len(),
    decreases s.len(),
{
    if s.len() > 0 {
        lemma_sort_names_sorted(s.drop_last());
        lemma_ins_name_sorted(sort_names(s.drop_last()), s.last());
    }
}

proof fn lemma_sort_names_fix(s: Seq<Seq<char>>)
    requires
        names_sorted(s),
    ensures
        sort_names(s) == s,
    decreases s.len(),
{
    if s.len() > 0 {
        let d = s.drop_last();
        assert forall|i: int, j: int| 0 <= i < j < d.len() implies !text_lt(
            #[trigger] d[j],
            #[trigger] d[i],
        ) by {
            assert(d[i] == s[i]);
            assert(d[j] == s[j]);
        }
        lemma_sort_names_fix(d);
        assert forall|k: int| 0 <= k < d.len() implies !text_lt(s.last(), #[trigger] d[k]) by {
            assert(d[k] == s[k]);
        }
        lemma_ins_name_last(d, s.last());
        assert(d.push(s.last()) =~= s);
    }
}

/// Sorting names twice gives what sorting them once gives.
pub proof fn lemma_sort_names_idempotent(s: Seq<Seq<char>>)
    ensures
        sort_names(sort_names(s)) == sort_names(s),
{
    lemma_sort_names_sorted(s);
    lemma_sort_names_fix(sort_names(s));
}

proof fn lemma_sorted_vals_idem(m: Seq<(Seq<char>, SNix)>)
    ensures
        sorted_vals(sorted_vals(m)) == sorted_vals(m),
    decreases m, 0int,
{
    let sv = sorted_vals(m);
    assert forall|i: int| 0 <= i < m.len() implies #[trigger] sorted_vals(sv)[i] == sv[i] by {
        assert(decreases_to!(m => m[i]));
        assert(decreases_to!(m[i] => m[i].1));
        lemma_sort_tree_idempotent(m[i].1);
    }
    assert(sorted_vals(sv) =~= sv);
}

proof fn lemma_sorted_items_idem(l: Seq<SNix>)
    ensures
        sorted_items(sorted_items(l)) == sorted_items(l),
    decreases l, 0int,
{
    let si = sorted_items(l);
    assert forall|i: int| 0 <= i < l.len() implies #[trigger] sorted_items(si)[i] == si[i] by {
        assert(decreases_to!(l => l[i]));
        lemma_sort_tree_idempotent(l[i]);
    }
    assert(sorted_items(si) =~= si);
}

proof fn lemma_sorted_frags_idem(f: Seq<SFrag>)
    ensures
        sorted_frags(sorted_frags(f)) == sorted_frags(f),
    decreases f, 0int,
{
    let sf = sorted_frags(f);
    assert forall|i: int| 0 <= i < f.len() implies #[trigger] sorted_frags(sf)[i] == sf[i] by {
        assert(decreases_to!(f => f[i]));
        match f[i] {
            SFrag::Anti(b) => {
                assert(decreases_to!(f[i] => b));
                lemma_sort_tree_idempotent(*b);
            },
            SFrag::Text(_) => {},
        }
    }
    assert(sorted_frags(sf) =~= sf);
}

proof fn lemma_sort_map_idem(m: Seq<(Seq<char>, SNix)>)
    ensures
        sort_entries(sorted_vals(sort_entries(sorted_vals(m)))) == sort_entries(sorted_vals(m)),
    decreases m, 1int,
{
    let sv = sorted_vals(m);
    lemma_sorted_vals_sort(sv);
    lemma_sorted_vals_idem(m);
    lemma_sort_entries_sorted(sv);
    lemma_sort_entries_fix(sort_entries(sv));
}

/// Sorting an expression twice gives what sorting it once gives.
pub proof fn lemma_sort_tree_idempotent(v: SNix)
    ensures
        sort_tree(sort_tree(v)) == sort_tree(v),
    decreases v, 2int,
{
    match v {
        SNix::AttrSet(m) => {
            lemma_sort_map_idem(m);
        },
        SNix::LetIn(m, b) => {
            lemma_sort_map_idem(m);
            lemma_sort_tree_idempotent(*b);
        },
        SNix::List(l) => {
            lemma_sorted_items_idem(l);
        },
        SNix::IndStr(f) => {
            lemma_sorted_frags_idem(f);
        },
        SNix::Group(b) => {
            lemma_sort_tree_idempotent(*b);
        },
        SNix::With(a, b) => {
            lemma_sort_tree_idempotent(*a);
            lemma_sort_tree_idempotent(*b);
        },
        SNix::Lambda(l) => {
            match l {
                SLambda::Nofix(a, b) => {
                    lemma_sort_names_idempotent(a);
                    lemma_sort_tree_idempotent(*b);
                },
                SLambda::Suffix(a, _, b) => {
                    lemma_sort_names_idempotent(a);
                    lemma_sort_tree_idempotent(*b);
                },
                SLambda::Prefix(a, _, b) => {
                    lemma_sort_names_idempotent(a);
                    lemma_sort_tree_idempotent(*b);
                },
                SLambda::Single(_, b) => {
                    lemma_sort_tree_idempotent(*b);
                },
            }
        },
        SNix::Apply(a, b) => {
            lemma_sort_tree_idempotent(*a);
            lemma_sort_tree_idempotent(*b);
        },
        SNix::Antiquotation(b) => {
            lemma_sort_tree_idempotent(*b);
        },
        SNix::BinaryOp(l, _, r) => {
            lemma_sort_tree_idempotent(*l);
            lemma_sort_tree_idempotent(*r);
        },
        _ => {},
    }
}

/// After sorting, the keys of an attribute set are in ascending order.
pub proof fn lemma_sort_tree_keys_sorted(m: Seq<(Seq<char>, SNix)>)
    ensures
        sort_tree(SNix::AttrSet(m)) matches SNix::AttrSet(r) && keys_sorted(r),
{
    lemma_sort_entries_sorted(sorted_vals(m));
}

// ---------------------------------------------------------------------------
// Sorting only reorders
// ---------------------------------------------------------------------------

proof fn lemma_single_multiset<T>(e: T, s: Seq<T>)
    ensures
        (seq![e] + s).to_multiset() =~= s.to_multiset().insert(e),
{
    broadcast use {vstd::seq_lib::group_to_multiset_ensures, vstd::multiset::group_multiset_axioms};

    vstd::seq_lib::lemma_multiset_commutative(seq![e], s);
    assert(seq![e] =~= Seq::<T>::empty().push(e));
    assert(Seq::<T>::empty().to_multiset() =~= vstd::multiset::Multiset::<T>::empty()) by {
        assert(Seq::<T>::empty().to_multiset().len() == 0);
    }
}

proof fn lemma_ins_entry_perm(s: Seq<(Seq<char>, SNix)>, e: (Seq<char>, SNix))
    ensures
        ins_entry(s, e).to_multiset() =~= s.to_multiset().insert(e),
    decreases s.len(),
{
    broadcast use vstd::multiset::group_multiset_axioms;

    if s.len() == 0 {
        lemma_single_multiset(e, s);
        assert(seq![e] + s =~= seq![e]);
    } else if text_lt(e.0, s[0].0) {
        lemma_single_multiset(e, s);
    } else {
        let d = s.drop_first();
        lemma_ins_entry_perm(d, e);
        lemma_single_multiset(s[0], ins_entry(d, e));
        lemma_single_multiset(s[0], d);
        assert(seq![s[0]] + d =~= s);
    }
}

/// Sorting entries gives the same entries, each as often as before.
pub proof fn lemma_sort_entries_perm(s: Seq<(Seq<char>, SNix)>)
    ensures
        sort_entries(s).to_multiset() =~= s.to_multiset(),
    decreases s.len(),
{
    broadcast use vstd::seq_lib::group_to_multiset_ensures;

    if s.len() > 0 {
        let d = s.drop_last();
        lemma_sort_entries_perm(d);
        lemma_ins_entry_perm(sort_entries(d), s.last());
        assert(d.push(s.last()) =~= s);
    }
}

proof fn lemma_ins_name_perm(s: Seq<Seq<char>>, e: Seq<char>)
    ensures
        ins_name(s, e).to_multiset() =~= s.to_multiset().insert(e),
    decreases s.len(),
{
    broadcast use vstd::multiset::group_multiset_axioms;

    if s.len() == 0 {
        lemma_single_multiset(e, s);
        assert(seq![e] + s =~= seq![e]);
    } else if text_lt(e, s[0]) {
        lemma_single_multiset(e, s);
    } else {
        let d = s.drop_first();
        lemma_ins_name_perm(d, e);
        lemma_single_multiset(s[0], ins_name(d, e));
        lemma_single_multiset(s[0], d);
        assert(seq![s[0]] + d =~= s);
    }
}

/// Sorting names gives the same names, each as often as before.
pub proof fn lemma_sort_names_perm(s: Seq<Seq<char>>)
    ensures
        sort_names(s).to_multiset() =~= s.to_multiset(),
    decreases s.len(),
{
    broadcast use vstd::seq_lib::group_to_multiset_ensures;

    if s.len() > 0 {
        let d = s.drop_last();
        lemma_sort_names_perm(d);
        lemma_ins_name_perm(sort_names(d), s.last());
        assert(d.push(s.last()) =~= s);
    }
}

// ---------------------------------------------------------------------------
// Sorted throughout
// ---------------------------------------------------------------------------

/// Every attribute set and `let` block in `v` lists its keys in ascending
/// order, and every argument list of a function head is in ascending order.
pub open spec fn deep_sorted(v: SNix) -> bool
    decreases v, 1int,
{
    match v {
        SNix::AttrSet(m) => keys_sorted(m) && all_flags(vals_sorted(m)),
        SNix::LetIn(m, b) => keys_sorted(m) && all_flags(vals_sorted(m)) && deep_sorted(*b),
        SNix::List(l) => all_flags(items_sorted(l)),
        SNix::IndStr(f) => all_flags(frags_sorted(f)),
        SNix::Group(b) => deep_sorted(*b),
        SNix::With(a, b) => deep_sorted(*a) && deep_sorted(*b),
        SNix::Lambda(l) => match l {
            SLambda::Nofix(a, b) => names_sorted(a) && deep_sorted(*b),
            SLambda::Suffix(a, _, b) => names_sorted(a) && deep_sorted(*b),
            SLambda::Prefix(a, _, b) => names_sorted(a) && deep_sorted(*b),
            SLambda::Single(_, b) => deep_sorted(*b),
        },
        SNix::Apply(a, b) => deep_sorted(*a) && deep_sorted(*b),
        SNix::Antiquotation(b) => deep_sorted(*b),
        SNix::BinaryOp(l, _, r) => deep_sorted(*l) && deep_sorted(*r),
        _ => true,
    }
}

pub open spec fn all_flags(s: Seq<bool>) -> bool {
    forall|i: int| 0 <= i < s.len() ==> #[trigger] s[i]
}

pub open spec fn vals_sorted(m: Seq<(Seq<char>, SNix)>) -> Seq<bool>
    decreases m, 0int,
{
    Seq::new(m.len(), |i: int| if 0 <= i < m.len() { deep_sorted(m[i].1) } else { true })
}

pub open spec fn items_sorted(l: Seq<SNix>) -> Seq<bool>
    decreases l, 0int,
{
    Seq::new(l.len(), |i: int| if 0 <= i < l.len() { deep_sorted(l[i]) } else { true })
}

pub open spec fn frags_sorted(f: Seq<SFrag>) -> Seq<bool>
    decreases f, 0int,
{
    Seq::new(
        f.len(),
        |i: int|
            if 0 <= i < f.len() {
                match f[i] {
                    SFrag::Text(_) => true,
                    SFrag::Anti(b) => deep_sorted(*b),
                }
            } else {
                true
            },
    )
}

/// The map that sorting gives for `m` has its keys in order and only
/// sorted values.
proof fn lemma_sorted_map_deep(m: Seq<(Seq<char>, SNix)>)
    ensures
        keys_sorted(sort_entries(sorted_vals(m))),
        all_flags(vals_sorted(sort_entries(sorted_vals(m)))),
    decreases m, 2int,
{
    broadcast use vstd::seq_lib::group_to_multiset_ensures;

    let sv = sorted_vals(m);
    let r = sort_entries(sv);
    lemma_sort_entries_sorted(sv);
    lemma_sort_entries_perm(sv);
    assert forall|i: int| 0 <= i < r.len() implies #[trigger] vals_sorted(r)[i] by {
        assert(r.to_multiset().count(r[i]) > 0);
        assert(sv.contains(r[i]));
        let k = choose|k: int| 0 <= k < sv.len() && sv[k] == r[i];
        assert(decreases_to!(m => m[k]));
        assert(decreases_to!(m[k] => m[k].1));
        lemma_sort_tree_deep(m[k].1);
    }
}

/// Sorting an expression leaves every attribute set and `let` block with its
/// keys in ascending order and every argument list of a function head in
/// ascending order, throughout.
pub proof fn lemma_sort_tree_deep(v: SNix)
    ensures
        deep_sorted(sort_tree(v)),
    decreases v, 3int,
{
    match v {
        SNix::AttrSet(m) => {
            assert(decreases_to!(v => m));
            lemma_sorted_map_deep(m);
            let r = sort_entries(sorted_vals(m));
            assert(sort_tree(v) == SNix::AttrSet(r));
            assert(deep_sorted(SNix::AttrSet(r)));
        },
        SNix::LetIn(m, b) => {
            assert(decreases_to!(v => m));
            lemma_sorted_map_deep(m);
            lemma_sort_tree_deep(*b);
            assert(deep_sorted(sort_tree(v)));
        },
        SNix::List(l) => {
            let sl = sorted_items(l);
            assert forall|i: int| 0 <= i < sl.len() implies #[trigger] items_sorted(sl)[i] by {
                assert(decreases_to!(v => l));
                assert(decreases_to!(l => l[i]));
                lemma_sort_tree_deep(l[i]);
                assert(sl[i] == sort_tree(l[i]));
            }
            assert(items_sorted(sl).len() == sl.len());
            assert(all_flags(items_sorted(sl)));
            assert(sort_tree(v) == SNix::List(sl));
            assert(deep_sorted(SNix::List(sl)));
        },
        SNix::IndStr(f) => {
            let sf = sorted_frags(f);
            assert forall|i: int| 0 <= i < sf.len() implies #[trigger] frags_sorted(sf)[i] by {
                if let SFrag::Anti(b) = f[i] {
                    assert(decreases_to!(v => f));
                    assert(decreases_to!(f => f[i]));
                    assert(decreases_to!(f[i] => b));
                    lemma_sort_tree_deep(*b);
                    assert(sf[i] == SFrag::Anti(Box::new(sort_tree(*b))));
                } else {
                    assert(sf[i] is Text);
                }
            }
            assert(frags_sorted(sf).len() == sf.len());
            assert(all_flags(frags_sorted(sf)));
            assert(sort_tree(v) == SNix::IndStr(sf));
            assert(deep_sorted(SNix::IndStr(sf)));
        },
        SNix::Group(b) => lemma_sort_tree_deep(*b),
        SNix::With(a, b) => {
            lemma_sort_tree_deep(*a);
            lemma_sort_tree_deep(*b);
        },
        SNix::Lambda(l) => match l {
            SLambda::Nofix(a, b) => {
                lemma_sort_names_sorted(a);
                lemma_sort_tree_deep(*b);
            },
            SLambda::Suffix(a, _, b) => {
                lemma_sort_names_sorted(a);
                lemma_sort_tree_deep(*b);
            },
            SLambda::Prefix(a, _, b) => {
                lemma_sort_names_sorted(a);
                lemma_sort_tree_deep(*b);
            },
            SLambda::Single(_, b) => lemma_sort_tree_deep(*b),
        },
        SNix::Apply(a, b) => {
            lemma_sort_tree_deep(*a);
            lemma_sort_tree_deep(*b);
        },
        SNix::Antiquotation(b) => lemma_sort_tree_deep(*b),
        SNix::BinaryOp(l, _, r) => {
            lemma_sort_tree_deep(*l);
            lemma_sort_tree_deep(*r);
        },
        _ => {},
    }
}

/// Sorting only reorders, at every level: the entries of a sorted attribute
/// set or `let` block are those of the original, each value sorted in turn,
/// each as often as before; the names of a sorted function head are those of
/// the original; a list keeps its elements in order, each sorted in turn.
pub proof fn lemma_sort_only_reorders(v: SNix)
    ensures
        v matches SNix::AttrSet(m) ==> (sort_tree(v) matches SNix::AttrSet(r) && r.to_multiset()
            =~= sorted_vals(m).to_multiset()),
        v matches SNix::LetIn(m, b) ==> (sort_tree(v) matches SNix::LetIn(r, c) && r.to_multiset()
            =~= sorted_vals(m).to_multiset() && *c == sort_tree(*b)),
        v matches SNix::List(l) ==> (sort_tree(v) matches SNix::List(r) && r.len() == l.len() && (
        forall|i: int| 0 <= i < l.len() ==> #[trigger] r[i] == sort_tree(l[i]))),
        v matches SNix::Lambda(SLambda::Nofix(a, b)) ==> (sort_tree(v) matches SNix::Lambda(
            SLambda::Nofix(r, c),
        ) && r.to_multiset() =~= a.to_multiset() && *c == sort_tree(*b)),
        v matches SNix::Lambda(SLambda::Suffix(a, n, b)) ==> (sort_tree(v) matches SNix::Lambda(
            SLambda::Suffix(r, n2, c),
        ) && r.to_multiset() =~= a.to_multiset() && n2 == n && *c == sort_tree(*b)),
        v matches SNix::Lambda(SLambda::Prefix(a, n, b)) ==> (sort_tree(v) matches SNix::Lambda(
            SLambda::Prefix(r, n2, c),
        ) && r.to_multiset() =~= a.to_multiset() && n2 == n && *c == sort_tree(*b)),
{
    match v {
        SNix::AttrSet(m) => lemma_sort_entries_perm(sorted_vals(m)),
        SNix::LetIn(m, _) => lemma_sort_entries_perm(sorted_vals(m)),
        SNix::Lambda(SLambda::Nofix(a, _)) => lemma_sort_names_perm(a),
        SNix::Lambda(SLambda::Suffix(a, _, _)) => lemma_sort_names_perm(a),
        SNix::Lambda(SLambda::Prefix(a, _, _)) => lemma_sort_names_perm(a),
        SNix::List(l) => {
            let r = sorted_items(l);
            assert(sort_tree(v) == SNix::List(r));
            assert forall|i: int| 0 <= i < l.len() implies #[trigger] r[i] == sort_tree(l[i]) by {}
        },
        _ => {},
    }
}

/// What sorting an expression gives, as one statement: every attribute set,
/// `let` block and function head in the result is sorted throughout; at the
/// top each set, block or head holds what it held before, only reordered, a
/// list keeps its elements in order, and below that the same holds of each
/// part in turn; sorting the result again changes nothing.
pub proof fn lemma_sort_ast(v: SNix)
    ensures
        deep_sorted(sort_tree(v)),
        sort_tree(sort_tree(v)) == sort_tree(v),
        v matches SNix::AttrSet(m) ==> (sort_tree(v) matches SNix::AttrSet(r) && r.to_multiset()
            =~= sorted_vals(m).to_multiset()),
        v matches SNix::LetIn(m, b) ==> (sort_tree(v) matches SNix::LetIn(r, c) && r.to_multiset()
            =~= sorted_vals(m).to_multiset() && *c == sort_tree(*b)),
        v matches SNix::List(l) ==> (sort_tree(v) matches SNix::List(r) && r.len() == l.len() && (
        forall|i: int| 0 <= i < l.len() ==> #[trigger] r[i] == sort_tree(l[i]))),
{
    lemma_sort_tree_deep(v);
    lemma_sort_tree_idempotent(v);
    lemma_sort_only_reorders(v);
}

/// The kind of node an expression is.
pub open spec fn node_kind(v: SNix) -> int {
    match v {
        SNix::AttrSet(_) => 0,
        SNix::List(_) => 1,
        SNix::Str(_) => 2,
        SNix::IndStr(_) => 3,
        SNix::Int(_) => 4,
        SNix::Float(_) => 5,
        SNix::Bool(_) => 6,
        SNix::Identifier(_) => 7,
        SNix::Group(_) => 8,
        SNix::LetIn(_, _) => 9,
        SNix::With(_, _) => 10,
        SNix::Lambda(SLambda::Nofix(_, _)) => 11,
        SNix::Lambda(SLambda::Suffix(_, _, _)) => 12,
        SNix::Lambda(SLambda::Prefix(_, _, _)) => 13,
        SNix::Lambda(SLambda::Single(_, _)) => 14,
        SNix::Apply(_, _) => 15,
        SNix::Path(_) => 16,
        SNix::Antiquotation(_) => 17,
        SNix::BinaryOp(_, _, _) => 18,
    }
}

/// Sorting keeps the kind of an expression: a group stays a group, an
/// application an application, and so on.
pub proof fn lemma_sort_keeps_kind(v: SNix)
    ensures
        node_kind(sort_tree(v)) == node_kind(v),
{
}

/// Sorting an expression that is already in order throughout changes
/// nothing: sorting only puts keys and argument names in order.
pub proof fn lemma_sort_fixes_sorted(v: SNix)
    requires
        deep_sorted(v),
    ensures
        sort_tree(v) == v,
    decreases v, 2int,
{
    match v {
        SNix::AttrSet(m) => {
            lemma_sorted_vals_fix(m);
            lemma_sort_entries_fix(m);
        },
        SNix::LetIn(m, b) => {
            lemma_sorted_vals_fix(m);
            lemma_sort_entries_fix(m);
            lemma_sort_fixes_sorted(*b);
        },
        SNix::List(l) => {
            assert forall|i: int| 0 <= i < l.len() implies #[trigger] sorted_items(l)[i] == l[i] by {
                assert(decreases_to!(v => l));
                assert(decreases_to!(l => l[i]));
                assert(items_sorted(l)[i]);
                lemma_sort_fixes_sorted(l[i]);
            }
            assert(sorted_items(l) =~= l);
        },
        SNix::IndStr(f) => {
            assert forall|i: int| 0 <= i < f.len() implies #[trigger] sorted_frags(f)[i] == f[i] by {
                if let SFrag::Anti(b) = f[i] {
                    assert(decreases_to!(v => f));
                    assert(decreases_to!(f => f[i]));
                    assert(decreases_to!(f[i] => b));
                    assert(frags_sorted(f)[i]);
                    lemma_sort_fixes_sorted(*b);
                }
            }
            assert(sorted_frags(f) =~= f);
        },
        SNix::Group(b) => lemma_sort_fixes_sorted(*b),
        SNix::With(a, b) => {
            lemma_sort_fixes_sorted(*a);
            lemma_sort_fixes_sorted(*b);
        },
        SNix::Lambda(l) => match l {
            SLambda::Nofix(a, b) => {
                lemma_sort_names_fix(a);
                lemma_sort_fixes_sorted(*b);
            },
            SLambda::Suffix(a, _, b) => {
                lemma_sort_names_fix(a);
                lemma_sort_fixes_sorted(*b);
            },
            SLambda::Prefix(a, _, b) => {
                lemma_sort_names_fix(a);
                lemma_sort_fixes_sorted(*b);
            },
            SLambda::Single(_, b) => lemma_sort_fixes_sorted(*b),
        },
        SNix::Apply(a, b) => {
            lemma_sort_fixes_sorted(*a);
            lemma_sort_fixes_sorted(*b);
        },
        SNix::Antiquotation(b) => lemma_sort_fixes_sorted(*b),
        SNix::BinaryOp(l, _, r) => {
            lemma_sort_fixes_sorted(*l);
            lemma_sort_fixes_sorted(*r);
        },
        _ => {},
    }
}

proof fn lemma_sorted_vals_fix(m: Seq<(Seq<char>, SNix)>)
    requires
        all_flags(vals_sorted(m)),
    ensures
        sorted_vals(m) == m,
    decreases m, 1int,
{
    assert forall|i: int| 0 <= i < m.len() implies #[trigger] sorted_vals(m)[i] == m[i] by {
        assert(decreases_to!(m => m[i]));
        assert(decreases_to!(m[i] => m[i].1));
        assert(vals_sorted(m)[i]);
        lemma_sort_fixes_sorted(m[i].1);
    }
    assert(sorted_vals(m) =~= m);
}

} // verus!
