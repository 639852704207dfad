//! Finding values in an expression: by a path of keys, or by a search term
//! in keys and identifiers.
use vstd::prelude::*;
use crate::text::{lowercase, to_lowercase, contains_text, text_contains, chars_of};
use crate::value::{NixValue, AttrMap, SNix, list_model, lemma_list_model, key_index};
use crate::sort::entries_model;

verus! {

broadcast use {vstd::seq_lib::group_seq_properties, vstd::seq::Seq::group_seq_flatten};

/// The texts of a path of keys.
pub open spec fn path_model(p: Seq<&str>) -> Seq<Seq<char>> {
    Seq::new(p.len(), |i: int| p[i]@)
}

/// The values that references point to.
pub open spec fn refs_model(v: Seq<&mut NixValue>) -> Seq<SNix> {
    Seq::new(v.len(), |i: int| v[i]@)
}

/// The values found at `path` below `v`: the value itself for an empty path;
/// in an attribute set the search goes on below the value of the first key;
/// a `let` block is searched in its bindings and then in its body, a list in
/// each element, an application in its argument and a group in its inside.
pub open spec fn q_exact(v: SNix, path: Seq<Seq<char>>) -> Seq<SNix>
    decreases v, 1int,
{
    if path.len() == 0 {
        seq![v]
    } else {
        match v {
            SNix::AttrSet(m) => q_key(m, path),
            SNix::LetIn(m, b) => q_key(m, path) + q_exact(*b, path),
            SNix::List(l) => q_items(l, path).flatten(),
            SNix::Apply(_, r) => q_exact(*r, path),
            SNix::Group(r) => q_exact(*r, path),
            _ => Seq::empty(),
        }
    }
}

/// The values found below the value of the first key of `path`.
pub open spec fn q_key(m: Seq<(Seq<char>, SNix)>, path: Seq<Seq<char>>) -> Seq<SNix>
    decreases m, 0int,
{
    match key_index(m, path[0]) {
        Some(i) => if 0 <= i < m.len() {
            q_exact(m[i].1, path.drop_first())
        } else {
            Seq::empty()
        },
        None => Seq::empty(),
    }
}

/// The values found below each element of a list.
pub open spec fn q_items(l: Seq<SNix>, path: Seq<Seq<char>>) -> Seq<Seq<SNix>>
    decreases l, 0int,
{
    Seq::new(l.len(), |i: int| if 0 <= i < l.len() { q_exact(l[i], path) } else { Seq::empty() })
}

/// Whether `v` is an identifier whose lowercase form contains `term`.
pub open spec fn self_match(v: SNix, term: Seq<char>) -> bool {
    match v {
        SNix::Identifier(id) => contains_text(lowercase(id), term),
        _ => false,
    }
}

/// The values that match the (lowercase) term below `v`: an identifier whose
/// lowercase form contains it matches itself; in attribute sets and `let`
/// blocks an entry whose lowercase key contains it gives its value, any other
/// entry is searched; lists, groups, interpolations, applications, `with`
/// and binary operations are searched in their parts.
pub open spec fn q_fuzzy(v: SNix, term: Seq<char>) -> Seq<SNix>
    decreases v, 1int,
{
    if self_match(v, term) {
        seq![v]
    } else {
        match v {
            SNix::AttrSet(m) => q_fuzzy_entries(m, term).flatten(),
            SNix::LetIn(m, b) => q_fuzzy_entries(m, term).flatten() + q_fuzzy(*b, term),
            SNix::List(l) => q_fuzzy_items(l, term).flatten(),
            SNix::Group(x) => q_fuzzy(*x, term),
            SNix::Antiquotation(x) => q_fuzzy(*x, term),
            SNix::Apply(a, b) => q_fuzzy(*a, term) + q_fuzzy(*b, term),
            SNix::With(a, b) => q_fuzzy(*a, term) + q_fuzzy(*b, term),
            SNix::BinaryOp(a, _, b) => q_fuzzy(*a, term) + q_fuzzy(*b, term),
            _ => Seq::empty(),
        }
    }
}

/// What each entry of a map gives for the term.
pub open spec fn q_fuzzy_entries(m: Seq<(Seq<char>, SNix)>, term: Seq<char>) -> Seq<Seq<SNix>>
    decreases m, 0int,
{
    Seq::new(
        m.len(),
        |i: int|
            if 0 <= i < m.len() {
                if contains_text(lowercase(m[i].0), term) {
                    seq![m[i].1]
                } else {
                    q_fuzzy(m[i].1, term)
                }
            } else {
                Seq::empty()
            },
    )
}

/// What each element of a list gives for the term.
pub open spec fn q_fuzzy_items(l: Seq<SNix>, term: Seq<char>) -> Seq<Seq<SNix>>
    decreases l, 0int,
{
    Seq::new(l.len(), |i: int| if 0 <= i < l.len() { q_fuzzy(l[i], term) } else { Seq::empty() })
}

/// Fuzzy search ignores the case of names: of two names that agree once
/// lowercased, one is found exactly when the other is.
pub proof fn lemma_fuzzy_ignores_name_case(a: Seq<char>, b: Seq<char>, term: Seq<char>)
    requires
        lowercase(a) == lowercase(b),
    ensures
        (q_fuzzy(SNix::Identifier(a), term) == seq![SNix::Identifier(a)]) <==> (q_fuzzy(
            SNix::Identifier(b),
            term,
        ) == seq![SNix::Identifier(b)]),
        q_fuzzy(SNix::Identifier(a), term).len() == q_fuzzy(SNix::Identifier(b), term).len(),
{
}

/// Fuzzy search ignores the case of keys: attribute sets (and `let` blocks)
/// whose keys agree once lowercased, holding the same values, give the same
/// results.
pub proof fn lemma_fuzzy_ignores_key_case(
    m1: Seq<(Seq<char>, SNix)>,
    m2: Seq<(Seq<char>, SNix)>,
    body: SNix,
    term: Seq<char>,
)
    requires
        m1.len() == m2.len(),
        forall|i: int| 0 <= i < m1.len() ==> lowercase(#[trigger] m1[i].0) == lowercase(m2[i].0) && m1[i].1
            == m2[i].1,
    ensures
        q_fuzzy(SNix::AttrSet(m1), term) == q_fuzzy(SNix::AttrSet(m2), term),
        q_fuzzy(SNix::LetIn(m1, Box::new(body)), term) == q_fuzzy(SNix::LetIn(m2, Box::new(body)), term),
{
    assert forall|i: int| 0 <= i < m1.len() implies #[trigger] q_fuzzy_entries(m1, term)[i]
        == q_fuzzy_entries(m2, term)[i] by {
        assert(lowercase(m1[i].0) == lowercase(m2[i].0));
    }
    assert(q_fuzzy_entries(m1, term) =~= q_fuzzy_entries(m2, term));
}

/// Fuzzy search finds the value of every entry whose lowercased key holds
/// the term, such as the value of `networking.hostName` for `hostname`.
pub proof fn lemma_fuzzy_finds_key(m: Seq<(Seq<char>, SNix)>, term: Seq<char>, i: int)
    requires
        0 <= i < m.len(),
        contains_text(lowercase(m[i].0), term),
    ensures
        q_fuzzy(SNix::AttrSet(m), term).contains(m[i].1),
{
    let ss = q_fuzzy_entries(m, term);
    assert(ss[i] == seq![m[i].1]);
    assert(ss =~= ss.take(i) + ss.skip(i));
    vstd::seq_lib::lemma_flatten_concat(ss.take(i), ss.skip(i));
    let rest = ss.skip(i);
    assert(rest.first() == ss[i]);
    assert(rest.flatten() == rest.first() + rest.drop_first().flatten());
    let pre = ss.take(i).flatten();
    assert(ss.flatten() == pre + (seq![m[i].1] + rest.drop_first().flatten()));
    assert(ss.flatten()[pre.len() as int] == m[i].1);
    assert(!self_match(SNix::AttrSet(m), term));
}

/// Searching an attribute set of one entry: a key whose lowercase form holds
/// the term gives its value and nothing below it; any other key gives what
/// searching its value gives.
pub proof fn lemma_fuzzy_one_entry(k: Seq<char>, v: SNix, term: Seq<char>)
    ensures
        contains_text(lowercase(k), term) ==> q_fuzzy(SNix::AttrSet(seq![(k, v)]), term) == seq![v],
        !contains_text(lowercase(k), term) ==> q_fuzzy(SNix::AttrSet(seq![(k, v)]), term) == q_fuzzy(
            v,
            term,
        ),
{
    let ss = q_fuzzy_entries(seq![(k, v)], term);
    assert(ss.len() == 1);
    assert(ss.drop_first() =~= Seq::<Seq<SNix>>::empty());
    assert(ss.flatten() =~= ss[0]);
}

/// Searching an attribute set gives what searching its entries gives, the
/// earlier ones first: the results of two sets put together are the results
/// of the first followed by those of the second.
pub proof fn lemma_fuzzy_concat(m1: Seq<(Seq<char>, SNix)>, m2: Seq<(Seq<char>, SNix)>, term: Seq<char>)
    ensures
        q_fuzzy(SNix::AttrSet(m1 + m2), term) == q_fuzzy(SNix::AttrSet(m1), term) + q_fuzzy(
            SNix::AttrSet(m2),
            term,
        ),
{
    assert(q_fuzzy_entries(m1 + m2, term) =~= q_fuzzy_entries(m1, term) + q_fuzzy_entries(m2, term));
    vstd::seq_lib::lemma_flatten_concat(q_fuzzy_entries(m1, term), q_fuzzy_entries(m2, term));
}

// ---------------------------------------------------------------------------
// Exec
// ---------------------------------------------------------------------------

/// Appends the values found at `path[k..]` below `v`.
fn exact_from<'a>(v: &'a mut NixValue, path: &[&str], k: usize, result: &mut Vec<&'a mut NixValue>)
    requires
        k <= path@.len(),
    ensures
        refs_model(final(result)@) == refs_model(old(result)@) + q_exact(
            old(v)@,
            path_model(path@).skip(k as int),
        ),
    decreases *old(v), 2int,
{
    let ghost ps = path_model(path@).skip(k as int);
    let ghost start = refs_model(result@);
    let ghost v0 = v@;
    if k == path.len() {
        result.push(v);
        assert(refs_model(result@) =~= start + seq![v0]);
        return;
    }
    match v {
        NixValue::AttrSet(m) => {
            key_from(m, path, k, result);
        },
        NixValue::LetIn(m, b) => {
            let ghost mm = m@;
            let ghost bb = b@;
            key_from(m, path, k, result);
            exact_from(b, path, k, result);
            assert(refs_model(result@) =~= start + (q_key(mm, ps) + q_exact(bb, ps)));
        },
        NixValue::List(l) => {
            proof {
                lemma_list_model(*l);
                assert(decreases_to!(*l => l@));
            }
            let ghost ll = list_model(l@);
            items_exact(l.as_mut_slice(), path, k, result);
        },
        NixValue::Apply(_, r) => {
            exact_from(r, path, k, result);
        },
        NixValue::Group(r) => {
            exact_from(r, path, k, result);
        },
        _ => {
            assert(refs_model(result@) =~= start + Seq::<SNix>::empty());
        },
    }
}

/// Appends the values found at `path[k..]` below each element of `items`.
fn items_exact<'a>(items: &'a mut [NixValue], path: &[&str], k: usize, result: &mut Vec<&'a mut NixValue>)
    requires
        k <= path@.len(),
    ensures
        refs_model(final(result)@) == refs_model(old(result)@) + q_items(
            list_model(old(items)@),
            path_model(path@).skip(k as int),
        ).flatten(),
    decreases old(items)@, 1int,
{
    let ghost ps = path_model(path@).skip(k as int);
    let ghost ll = list_model(items@);
    let ghost start = refs_model(result@);
    if items.len() == 0 {
        assert(q_items(ll, ps) =~= Seq::<Seq<SNix>>::empty());
        assert(refs_model(result@) =~= start + Seq::<SNix>::empty());
        return;
    }
    let ghost whole = items@;
    let (head, tail) = items.split_at_mut(1);
    proof {
        assert(decreases_to!(whole => whole[0]));
        assert(decreases_to!(whole => whole.subrange(1, whole.len() as int)));
    }
    match head.first_mut() {
        Some(x) => {
            exact_from(x, path, k, result);
            let ghost mid = refs_model(result@);
            items_exact(tail, path, k, result);
            let ghost tl = list_model(whole.subrange(1, whole.len() as int));
            assert(q_items(ll, ps) =~= seq![q_exact(whole[0]@, ps)] + q_items(tl, ps));
            assert((seq![q_exact(whole[0]@, ps)] + q_items(tl, ps)).flatten() =~= q_exact(whole[0]@, ps) + q_items(tl, ps).flatten()) by {
                lemma_flatten_front(q_exact(whole[0]@, ps), q_items(tl, ps));
            }
            assert(refs_model(result@) =~= start + q_items(ll, ps).flatten());
        },
        None => {},
    }
}

proof fn lemma_flatten_front(a: Seq<SNix>, rest: Seq<Seq<SNix>>)
    ensures
        (seq![a] + rest).flatten() == a + rest.flatten(),
{
    assert((seq![a] + rest).drop_first() =~= rest);
}

/// Appends the values found below the value of the key `path[k]`.
fn key_from<'a>(m: &'a mut AttrMap, path: &[&str], k: usize, result: &mut Vec<&'a mut NixValue>)
    requires
        k < path@.len(),
    ensures
        refs_model(final(result)@) == refs_model(old(result)@) + q_key(
            old(m)@,
            path_model(path@).skip(k as int),
        ),
    decreases *old(m), 1int,
{
    let ghost ps = path_model(path@).skip(k as int);
    assert(ps[0] == path@[k as int]@);
    assert(ps.drop_first() =~= path_model(path@).skip(k + 1));
    match m.find(path[k]) {
        Some(i) => {
            proof {
                assert(decreases_to!(*m => m.entries));
                assert(decreases_to!(m.entries => m.entries@));
                assert(decreases_to!(m.entries@ => m.entries@[i as int]));
                assert(decreases_to!(m.entries@[i as int] => m.entries@[i as int].1));
                assert(m@[i as int].1 == m.entries@[i as int].1@);
            }
            let e = &mut m.entries[i];
            exact_from(&mut e.1, path, k + 1, result);
        },
        None => {
            assert(refs_model(result@) =~= refs_model(result@) + Seq::<SNix>::empty());
        },
    }
}

/// Appends the values below `v` that match the lowercase term.
fn fuzzy_in<'a>(v: &'a mut NixValue, term: &Vec<char>, result: &mut Vec<&'a mut NixValue>)
    ensures
        refs_model(final(result)@) == refs_model(old(result)@) + q_fuzzy(old(v)@, term@),
    decreases *old(v), 2int,
{
    let ghost start = refs_model(result@);
    let ghost v0 = v@;
    let is_match = match &*v {
        NixValue::Identifier(id) => {
            let low = to_lowercase(id.as_str());
            let lc = chars_of(low.as_str());
            text_contains(lc.as_slice(), term.as_slice())
        },
        _ => false,
    };
    assert(is_match == self_match(v0, term@));
    if is_match {
        result.push(v);
        assert(refs_model(result@) =~= start + seq![v0]);
        return;
    }
    match v {
        NixValue::AttrSet(m) => {
            proof {
                assert(decreases_to!(*m => m.entries));
                assert(decreases_to!(m.entries => m.entries@));
                assert(entries_model(m.entries@) =~= m@);
            }
            entries_fuzzy(m.entries.as_mut_slice(), term, result);
        },
        NixValue::LetIn(m, b) => {
            proof {
                assert(decreases_to!(*m => m.entries));
                assert(decreases_to!(m.entries => m.entries@));
                assert(entries_model(m.entries@) =~= m@);
            }
            let ghost mm = m@;
            let ghost bb = b@;
            entries_fuzzy(m.entries.as_mut_slice(), term, result);
            fuzzy_in(b, term, result);
            assert(refs_model(result@) =~= start + (q_fuzzy_entries(mm, term@).flatten() + q_fuzzy(
                bb,
                term@,
            )));
        },
        NixValue::List(l) => {
            proof {
                lemma_list_model(*l);
                assert(decreases_to!(*l => l@));
            }
            items_fuzzy(l.as_mut_slice(), term, result);
        },
        NixValue::Group(x) => {
            fuzzy_in(x, term, result);
        },
        NixValue::Antiquotation(x) => {
            fuzzy_in(x, term, result);
        },
        NixValue::Apply(a, b) => {
            let ghost aa = a@;
            let ghost bb = b@;
            fuzzy_in(a, term, result);
            fuzzy_in(b, term, result);
            assert(refs_model(result@) =~= start + (q_fuzzy(aa, term@) + q_fuzzy(bb, term@)));
        },
        NixValue::With(a, b) => {
            let ghost aa = a@;
            let ghost bb = b@;
            fuzzy_in(a, term, result);
            fuzzy_in(b, term, result);
            assert(refs_model(result@) =~= start + (q_fuzzy(aa, term@) + q_fuzzy(bb, term@)));
        },
        NixValue::BinaryOp { left, operator: _, right } => {
            let ghost aa = left@;
            let ghost bb = right@;
            fuzzy_in(left, term, result);
            fuzzy_in(right, term, result);
            assert(refs_model(result@) =~= start + (q_fuzzy(aa, term@) + q_fuzzy(bb, term@)));
        },
        _ => {
            assert(refs_model(result@) =~= start + Seq::<SNix>::empty());
        },
    }
}

/// Appends what each element of `items` gives for the lowercase term.
fn items_fuzzy<'a>(items: &'a mut [NixValue], term: &Vec<char>, result: &mut Vec<&'a mut NixValue>)
    ensures
        refs_model(final(result)@) == refs_model(old(result)@) + q_fuzzy_items(
            list_model(old(items)@),
            term@,
        ).flatten(),
    decreases old(items)@, 1int,
{
    let ghost ll = list_model(items@);
    let ghost start = refs_model(result@);
    if items.len() == 0 {
        assert(q_fuzzy_items(ll, term@) =~= Seq::<Seq<SNix>>::empty());
        assert(refs_model(result@) =~= start + Seq::<SNix>::empty());
        return;
    }
    let ghost whole = items@;
    let (head, tail) = items.split_at_mut(1);
    proof {
        assert(decreases_to!(whole => whole[0]));
        assert(decreases_to!(whole => whole.subrange(1, whole.len() as int)));
    }
    match head.first_mut() {
        Some(x) => {
            fuzzy_in(x, term, result);
            items_fuzzy(tail, term, result);
            let ghost tl = list_model(whole.subrange(1, whole.len() as int));
            let ghost a = q_fuzzy(whole[0]@, term@);
            assert(q_fuzzy_items(ll, term@) =~= seq![a] + q_fuzzy_items(tl, term@));
            proof {
                lemma_flatten_front(a, q_fuzzy_items(tl, term@));
            }
            assert(refs_model(result@) =~= start + q_fuzzy_items(ll, term@).flatten());
        },
        None => {},
    }
}

/// Appends what each entry of `entries` gives for the lowercase term: the
/// value of an entry whose lowercase key holds it, else what its value gives.
fn entries_fuzzy<'a>(
    entries: &'a mut [(String, NixValue)],
    term: &Vec<char>,
    result: &mut Vec<&'a mut NixValue>,
)
    ensures
        refs_model(final(result)@) == refs_model(old(result)@) + q_fuzzy_entries(
            entries_model(old(entries)@),
            term@,
        ).flatten(),
    decreases old(entries)@, 1int,
{
    let ghost mm = entries_model(entries@);
    let ghost start = refs_model(result@);
    if entries.len() == 0 {
        assert(q_fuzzy_entries(mm, term@) =~= Seq::<Seq<SNix>>::empty());
        assert(refs_model(result@) =~= start + Seq::<SNix>::empty());
        return;
    }
    let ghost whole = entries@;
    let (head, tail) = entries.split_at_mut(1);
    proof {
        assert(decreases_to!(whole => whole[0]));
        assert(decreases_to!(whole[0] => whole[0].1));
        assert(decreases_to!(whole => whole.subrange(1, whole.len() as int)));
    }
    match head.first_mut() {
        Some(e) => {
            let low = to_lowercase(e.0.as_str());
            let lc = chars_of(low.as_str());
            let ghost a = if contains_text(lowercase(whole[0].0@), term@) {
                seq![whole[0].1@]
            } else {
                q_fuzzy(whole[0].1@, term@)
            };
            let ghost before = refs_model(result@);
            if text_contains(lc.as_slice(), term.as_slice()) {
                result.push(&mut e.1);
                assert(refs_model(result@) =~= before + a);
            } else {
                fuzzy_in(&mut e.1, term, result);
            }
            entries_fuzzy(tail, term, result);
            let ghost tl = entries_model(whole.subrange(1, whole.len() as int));
            assert(q_fuzzy_entries(mm, term@) =~= seq![a] + q_fuzzy_entries(tl, term@));
            proof {
                lemma_flatten_front(a, q_fuzzy_entries(tl, term@));
            }
            assert(refs_model(result@) =~= start + q_fuzzy_entries(mm, term@).flatten());
        },
        None => {},
    }
}

/// Finding values in an expression.
pub trait Query {
    /// The values found at a path of keys.
    spec fn exact_found(&self, path: Seq<Seq<char>>) -> Seq<SNix>;

    /// The values that match a lowercase search term.
    spec fn fuzzy_found(&self, term: Seq<char>) -> Seq<SNix>;

    /// The values at the path of keys `path` (see `q_exact`), to change in
    /// place. What the expression holds once they are changed is not stated.
    fn query_exact_mut<'a>(&'a mut self, path: &[&str]) -> (r: Vec<&'a mut NixValue>)
        ensures
            refs_model(r@) == old(self).exact_found(path_model(path@)),
    ;

    /// Appends the values at the path of keys `path` to `result`.
    fn query_exact_inner<'a>(&'a mut self, path: &[&str], result: &mut Vec<&'a mut NixValue>)
        ensures
            refs_model(final(result)@) == refs_model(old(result)@) + old(self).exact_found(
                path_model(path@),
            ),
    ;

    /// The values whose key or identifier contains `term`, ignoring case
    /// (see `q_fuzzy`), to change in place. What the expression holds once
    /// they are changed is not stated.
    fn query_fuzzy_mut<'a>(&'a mut self, term: &str) -> (r: Vec<&'a mut NixValue>)
        ensures
            refs_model(r@) == old(self).fuzzy_found(lowercase(term@)),
    ;

    /// Appends the values that match the lowercase `term` to `result`.
    fn query_fuzzy_inner<'a>(&'a mut self, term: &str, result: &mut Vec<&'a mut NixValue>)
        ensures
            refs_model(final(result)@) == refs_model(old(result)@) + old(self).fuzzy_found(term@),
    ;
}

impl Query for NixValue {
    open spec fn exact_found(&self, path: Seq<Seq<char>>) -> Seq<SNix> {
        q_exact(self@, path)
    }

    open spec fn fuzzy_found(&self, term: Seq<char>) -> Seq<SNix> {
        q_fuzzy(self@, term)
    }

    fn query_exact_mut<'a>(&'a mut self, path: &[&str]) -> (r: Vec<&'a mut NixValue>) {
        let ghost found = q_exact(self@, path_model(path@));
        let mut result: Vec<&'a mut NixValue> = Vec::new();
        self.query_exact_inner(path, &mut result);
        assert(refs_model(result@) =~= Seq::<SNix>::empty() + found);
        result
    }

    fn query_exact_inner<'a>(&'a mut self, path: &[&str], result: &mut Vec<&'a mut NixValue>) {
        assert(path_model(path@).skip(0) =~= path_model(path@));
        exact_from(self, path, 0, result);
    }

    fn query_fuzzy_mut<'a>(&'a mut self, term: &str) -> (r: Vec<&'a mut NixValue>) {
        let ghost found = q_fuzzy(self@, lowercase(term@));
        let mut result: Vec<&'a mut NixValue> = Vec::new();
        let term_lower = to_lowercase(term);
        self.query_fuzzy_inner(term_lower.as_str(), &mut result);
        assert(refs_model(result@) =~= Seq::<SNix>::empty() + found);
        result
    }

    fn query_fuzzy_inner<'a>(&'a mut self, term: &str, result: &mut Vec<&'a mut NixValue>) {
        let t = chars_of(term);
        fuzzy_in(self, &t, result);
    }
}

} // verus!
