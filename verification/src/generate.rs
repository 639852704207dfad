//! Comparing expressions, converting inputs into expressions, and inserting
//! into and removing from attribute sets, `let` blocks and lists.
use vstd::prelude::*;
use crate::text::{all_ws, is_blank, str_eq, string_of};
use crate::value::{
    NixValue, AttrMap, StringFragment, LambdaTypes, SNix, SFrag, SLambda, list_model, frags_model,
    strings_model, lemma_list_model, lemma_indstr_model, map_get, map_insert, map_remove, key_index,
    lemma_key_index, lemma_map_get_insert, lemma_map_get_insert_other, lemma_key_index_same_keys,
    lemma_map_remove_gone, lemma_map_insert_unique, keys_unique,
};
use crate::format::{all_true, float_text, float_string};
use crate::grammar::p_value;
use crate::lexer::{Lexer, syntax_error};
use crate::flattening::{
    flat_tree, expand_tree, flatten_value, expand_value, split_key, insert_path, expanded_map,
    expanded_vals, flat_map, flat_vals, lemma_flat_map_unique,
};
use crate::query::{q_exact, q_key};

verus! {

// ---------------------------------------------------------------------------
// Equality of expressions
// ---------------------------------------------------------------------------

/// Equality of expressions as `==` on the parsed tree decides it: attribute
/// sets are equal when they have the same keys with equal values, in any
/// order; decimal literals are equal when they print the same; everything
/// else is compared part by part.
pub open spec fn nix_same(a: SNix, b: SNix) -> bool
    decreases a, 1int,
{
    match a {
        SNix::AttrSet(m1) => match b {
            SNix::AttrSet(m2) => m1.len() == m2.len() && all_true(map_same_flags(m1, m2)),
            _ => false,
        },
        SNix::List(l1) => match b {
            SNix::List(l2) => l1.len() == l2.len() && all_true(list_same_flags(l1, l2)),
            _ => false,
        },
        SNix::IndStr(f1) => match b {
            SNix::IndStr(f2) => f1.len() == f2.len() && all_true(frag_same_flags(f1, f2)),
            _ => false,
        },
        SNix::Float(t1) => match b {
            SNix::Float(t2) => float_text(t1) == float_text(t2),
            _ => false,
        },
        SNix::Group(x) => match b {
            SNix::Group(y) => nix_same(*x, *y),
            _ => false,
        },
        SNix::LetIn(m1, x) => match b {
            SNix::LetIn(m2, y) => m1.len() == m2.len() && all_true(map_same_flags(m1, m2))
                && nix_same(*x, *y),
            _ => false,
        },
        SNix::With(x1, x2) => match b {
            SNix::With(y1, y2) => nix_same(*x1, *y1) && nix_same(*x2, *y2),
            _ => false,
        },
        SNix::Lambda(l1) => match b {
            SNix::Lambda(l2) => match l1 {
                SLambda::Nofix(a1, x) => match l2 {
                    SLambda::Nofix(a2, y) => a1 == a2 && nix_same(*x, *y),
                    _ => false,
                },
                SLambda::Suffix(a1, n1, x) => match l2 {
                    SLambda::Suffix(a2, n2, y) => a1 == a2 && n1 == n2 && nix_same(*x, *y),
                    _ => false,
                },
                SLambda::Prefix(a1, n1, x) => match l2 {
                    SLambda::Prefix(a2, n2, y) => a1 == a2 && n1 == n2 && nix_same(*x, *y),
                    _ => false,
                },
                SLambda::Single(n1, x) => match l2 {
                    SLambda::Single(n2, y) => n1 == n2 && nix_same(*x, *y),
                    _ => false,
                },
            },
            _ => false,
        },
        SNix::Apply(x1, x2) => match b {
            SNix::Apply(y1, y2) => nix_same(*x1, *y1) && nix_same(*x2, *y2),
            _ => false,
        },
        SNix::Antiquotation(x) => match b {
            SNix::Antiquotation(y) => nix_same(*x, *y),
            _ => false,
        },
        SNix::BinaryOp(x1, o1, x2) => match b {
            SNix::BinaryOp(y1, o2, y2) => o1 == o2 && nix_same(*x1, *y1) && nix_same(*x2, *y2),
            _ => false,
        },
        _ => a == b,
    }
}

/// For each entry of `m1`, whether `m2` holds its key with an equal value.
pub open spec fn map_same_flags(m1: Seq<(Seq<char>, SNix)>, m2: Seq<(Seq<char>, SNix)>) -> Seq<
    bool,
>
    decreases m1, 0int,
{
    Seq::new(
        m1.len(),
        |i: int|
            if 0 <= i < m1.len() {
                match map_get(m2, m1[i].0) {
                    Some(w) => nix_same(m1[i].1, w),
                    None => false,
                }
            } else {
                false
            },
    )
}

/// For each position, whether the elements there are equal.
pub open spec fn list_same_flags(l1: Seq<SNix>, l2: Seq<SNix>) -> Seq<bool>
    decreases l1, 0int,
{
    Seq::new(l1.len(), |i: int| if 0 <= i < l1.len() { nix_same(l1[i], l2[i]) } else { false })
}

/// For each position, whether the pieces there are equal.
pub open spec fn frag_same_flags(f1: Seq<SFrag>, f2: Seq<SFrag>) -> Seq<bool>
    decreases f1, 0int,
{
    Seq::new(
        f1.len(),
        |i: int|
            if 0 <= i < f1.len() {
                match f1[i] {
                    SFrag::Text(t1) => f2[i] == SFrag::Text(t1),
                    SFrag::Anti(x) => match f2[i] {
                        SFrag::Anti(y) => nix_same(*x, *y),
                        _ => false,
                    },
                }
            } else {
                false
            },
    )
}

fn strings_equal(a: &Vec<String>, b: &Vec<String>) -> (r: bool)
    ensures
        r == (strings_model(*a) == strings_model(*b)),
{
    if a.len() != b.len() {
        assert(strings_model(*a).len() != strings_model(*b).len());
        return false;
    }
    let mut i: usize = 0;
    while i < a.len()
        invariant
            a@.len() == b@.len(),
            i <= a@.len(),
            forall|j: int| 0 <= j < i ==> a@[j]@ == b@[j]@,
        decreases a@.len() - i,
    {
        if !str_eq(a[i].as_str(), b[i].as_str()) {
            assert(strings_model(*a)[i as int] != strings_model(*b)[i as int]);
            return false;
        }
        i = i + 1;
    }
    assert(strings_model(*a) =~= strings_model(*b));
    true
}

/// Whether two expressions are equal (see `nix_same`).
pub fn nix_eq(a: &NixValue, b: &NixValue) -> (r: bool)
    ensures
        r == nix_same(a@, b@),
    decreases a, 1int,
{
    match a {
        NixValue::AttrSet(m1) => match b {
            NixValue::AttrSet(m2) => {
                proof {
                    assert(decreases_to!(*a => *m1));
                }
                maps_eq(m1, m2)
            },
            _ => false,
        },
        NixValue::LetIn(m1, x) => match b {
            NixValue::LetIn(m2, y) => {
                proof {
                    assert(decreases_to!(*a => *m1));
                }
                maps_eq(m1, m2) && nix_eq(x, y)
            },
            _ => false,
        },
        NixValue::List(l1) => match b {
            NixValue::List(l2) => {
                proof {
                    assert(decreases_to!(*a => *l1));
                    lemma_list_model(*l1);
                    lemma_list_model(*l2);
                }
                lists_eq(l1, l2)
            },
            _ => false,
        },
        NixValue::IndStr(f1) => match b {
            NixValue::IndStr(f2) => {
                proof {
                    assert(decreases_to!(*a => *f1));
                    lemma_indstr_model(*f1);
                    lemma_indstr_model(*f2);
                }
                frags_eq(f1, f2)
            },
            _ => false,
        },
        NixValue::Str(s1) => match b {
            NixValue::Str(s2) => str_eq(s1.as_str(), s2.as_str()),
            _ => false,
        },
        NixValue::Int(n1) => match b {
            NixValue::Int(n2) => *n1 == *n2,
            _ => false,
        },
        NixValue::Float(t1) => match b {
            NixValue::Float(t2) => {
                let x = float_string(t1.as_str());
                let y = float_string(t2.as_str());
                str_eq(x.as_str(), y.as_str())
            },
            _ => false,
        },
        NixValue::Bool(b1) => match b {
            NixValue::Bool(b2) => *b1 == *b2,
            _ => false,
        },
        NixValue::Identifier(s1) => match b {
            NixValue::Identifier(s2) => str_eq(s1.as_str(), s2.as_str()),
            _ => false,
        },
        NixValue::Path(s1) => match b {
            NixValue::Path(s2) => str_eq(s1.as_str(), s2.as_str()),
            _ => false,
        },
        NixValue::Group(x) => match b {
            NixValue::Group(y) => nix_eq(x, y),
            _ => false,
        },
        NixValue::With(x1, x2) => match b {
            NixValue::With(y1, y2) => nix_eq(x1, y1) && nix_eq(x2, y2),
            _ => false,
        },
        NixValue::Apply(x1, x2) => match b {
            NixValue::Apply(y1, y2) => nix_eq(x1, y1) && nix_eq(x2, y2),
            _ => false,
        },
        NixValue::Antiquotation(x) => match b {
            NixValue::Antiquotation(y) => nix_eq(x, y),
            _ => false,
        },
        NixValue::BinaryOp { left: x1, operator: o1, right: x2 } => match b {
            NixValue::BinaryOp { left: y1, operator: o2, right: y2 } => *o1 == *o2 && nix_eq(x1, y1)
                && nix_eq(x2, y2),
            _ => false,
        },
        NixValue::Lambda(l1) => match b {
            NixValue::Lambda(l2) => {
                proof {
                    assert(decreases_to!(*a => *l1));
                }
                assert(a@ == SNix::Lambda(l1@));
                assert(b@ == SNix::Lambda(l2@));
                match l1 {
                    LambdaTypes::Nofix(a1, x) => match l2 {
                        LambdaTypes::Nofix(a2, y) => {
                            assert(l1@ == SLambda::Nofix(strings_model(*a1), Box::new(x@)));
                            assert(l2@ == SLambda::Nofix(strings_model(*a2), Box::new(y@)));
                            strings_equal(a1, a2) && nix_eq(x, y)
                        },
                        _ => false,
                    },
                    LambdaTypes::Suffix(a1, n1, x) => match l2 {
                        LambdaTypes::Suffix(a2, n2, y) => {
                            assert(l1@ == SLambda::Suffix(strings_model(*a1), n1@, Box::new(x@)));
                            assert(l2@ == SLambda::Suffix(strings_model(*a2), n2@, Box::new(y@)));
                            strings_equal(a1, a2) && str_eq(n1.as_str(), n2.as_str()) && nix_eq(
                                x,
                                y,
                            )
                        },
                        _ => false,
                    },
                    LambdaTypes::Prefix(a1, n1, x) => match l2 {
                        LambdaTypes::Prefix(a2, n2, y) => {
                            assert(l1@ == SLambda::Prefix(strings_model(*a1), n1@, Box::new(x@)));
                            assert(l2@ == SLambda::Prefix(strings_model(*a2), n2@, Box::new(y@)));
                            strings_equal(a1, a2) && str_eq(n1.as_str(), n2.as_str()) && nix_eq(
                                x,
                                y,
                            )
                        },
                        _ => false,
                    },
                    LambdaTypes::Single(n1, x) => match l2 {
                        LambdaTypes::Single(n2, y) => {
                            assert(l1@ == SLambda::Single(n1@, Box::new(x@)));
                            assert(l2@ == SLambda::Single(n2@, Box::new(y@)));
                            str_eq(n1.as_str(), n2.as_str()) && nix_eq(x, y)
                        },
                        _ => false,
                    },
                }
            },
            _ => false,
        },
    }
}

fn maps_eq(m1: &AttrMap, m2: &AttrMap) -> (r: bool)
    ensures
        r == (m1@.len() == m2@.len() && all_true(map_same_flags(m1@, m2@))),
    decreases m1, 0int,
{
    if m1.entries.len() != m2.entries.len() {
        return false;
    }
    let ghost a = m1@;
    let ghost b = m2@;
    let mut i: usize = 0;
    while i < m1.entries.len()
        invariant
            a == m1@,
            b == m2@,
            a.len() == m1.entries@.len(),
            a.len() == b.len(),
            i <= m1.entries@.len(),
            forall|j: int| 0 <= j < i ==> #[trigger] map_same_flags(a, b)[j],
        decreases m1.entries@.len() - i,
    {
        let e = &m1.entries[i];
        proof {
            assert(decreases_to!(*m1 => m1.entries));
            assert(decreases_to!(m1.entries => m1.entries@));
            assert(decreases_to!(m1.entries@ => m1.entries@[i as int]));
            assert(decreases_to!(m1.entries@[i as int] => m1.entries@[i as int].1));
            assert(a[i as int] == (e.0@, e.1@));
        }
        match m2.get(e.0.as_str()) {
            Some(w) => {
                if !nix_eq(&e.1, w) {
                    assert(!map_same_flags(a, b)[i as int]);
                    return false;
                }
            },
            None => {
                assert(!map_same_flags(a, b)[i as int]);
                return false;
            },
        }
        i = i + 1;
    }
    true
}

fn lists_eq(l1: &Vec<NixValue>, l2: &Vec<NixValue>) -> (r: bool)
    ensures
        r == (list_model(l1@).len() == list_model(l2@).len() && all_true(
            list_same_flags(list_model(l1@), list_model(l2@)),
        )),
    decreases l1, 0int,
{
    if l1.len() != l2.len() {
        return false;
    }
    let ghost a = list_model(l1@);
    let ghost b = list_model(l2@);
    let mut i: usize = 0;
    while i < l1.len()
        invariant
            a == list_model(l1@),
            b == list_model(l2@),
            l1@.len() == l2@.len(),
            i <= l1@.len(),
            forall|j: int| 0 <= j < i ==> #[trigger] list_same_flags(a, b)[j],
        decreases l1@.len() - i,
    {
        proof {
            assert(decreases_to!(*l1 => l1@));
            assert(decreases_to!(l1@ => l1@[i as int]));
            assert(a[i as int] == l1@[i as int]@);
            assert(b[i as int] == l2@[i as int]@);
        }
        if !nix_eq(&l1[i], &l2[i]) {
            assert(!list_same_flags(a, b)[i as int]);
            return false;
        }
        i = i + 1;
    }
    true
}

fn frags_eq(f1: &Vec<StringFragment>, f2: &Vec<StringFragment>) -> (r: bool)
    ensures
        r == (frags_model(f1@).len() == frags_model(f2@).len() && all_true(
            frag_same_flags(frags_model(f1@), frags_model(f2@)),
        )),
    decreases f1, 0int,
{
    if f1.len() != f2.len() {
        return false;
    }
    let ghost a = frags_model(f1@);
    let ghost b = frags_model(f2@);
    let mut i: usize = 0;
    while i < f1.len()
        invariant
            a == frags_model(f1@),
            b == frags_model(f2@),
            f1@.len() == f2@.len(),
            i <= f1@.len(),
            forall|j: int| 0 <= j < i ==> #[trigger] frag_same_flags(a, b)[j],
        decreases f1@.len() - i,
    {
        proof {
            assert(decreases_to!(*f1 => f1@));
            assert(decreases_to!(f1@ => f1@[i as int]));
            assert(a[i as int] == f1@[i as int]@);
            assert(b[i as int] == f2@[i as int]@);
        }
        let same = match &f1[i] {
            StringFragment::Text(t1) => match &f2[i] {
                StringFragment::Text(t2) => str_eq(t1.as_str(), t2.as_str()),
                _ => false,
            },
            StringFragment::Antiquotation(x) => match &f2[i] {
                StringFragment::Antiquotation(y) => {
                    assert(a[i as int] == SFrag::Anti(Box::new(x@)));
                    assert(b[i as int] == SFrag::Anti(Box::new(y@)));
                    nix_eq(x, y)
                },
                _ => false,
            },
        };
        if !same {
            assert(!frag_same_flags(a, b)[i as int]);
            return false;
        }
        i = i + 1;
    }
    true
}

// ---------------------------------------------------------------------------
// Inputs
// ---------------------------------------------------------------------------

/// What a text given as a value means: nothing when it is blank, else the
/// value the parser reads from it (`None` when it reads none).
pub open spec fn text_meaning(t: Seq<char>) -> Option<Option<SNix>> {
    if all_ws(t) {
        Some(None)
    } else {
        match p_value(t, 0).0 {
            Some(v) => Some(Some(v)),
            None => None,
        }
    }
}

/// Reads a value from a text (see `text_meaning`).
fn text_into_nix(t: &str) -> (r: Result<Option<NixValue>, String>)
    ensures
        match r {
            Ok(Some(v)) => text_meaning(t@) == Some(Some(v@)),
            Ok(None) => text_meaning(t@) == Some(None::<SNix>),
            Err(m) => text_meaning(t@) is None && syntax_error(m@),
        },
{
    if is_blank(t) {
        return Ok(None);
    }
    let mut lexer = Lexer::new(t, String::new());
    match lexer.parse_value() {
        Ok(v) => Ok(Some(v)),
        Err(e) => Err(e),
    }
}

/// Something that can be turned into an expression to insert.
pub trait IntoNixValue: Sized {
    /// `None` when turning it fails, `Some(None)` when there is nothing to
    /// insert, `Some(Some(v))` for the expression `v`.
    spec fn nix_meaning(&self) -> Option<Option<SNix>>;

    /// The expression, if there is one; a failure is reported as a syntax
    /// error.
    fn into_nix(self) -> (r: Result<Option<NixValue>, String>)
        ensures
            match r {
                Ok(Some(v)) => self.nix_meaning() == Some(Some(v@)),
                Ok(None) => self.nix_meaning() == Some(None::<SNix>),
                Err(m) => self.nix_meaning() is None && syntax_error(m@),
            },
    ;
}

impl IntoNixValue for Option<NixValue> {
    open spec fn nix_meaning(&self) -> Option<Option<SNix>> {
        match *self {
            Some(v) => Some(Some(v@)),
            None => Some(None),
        }
    }

    fn into_nix(self) -> (r: Result<Option<NixValue>, String>) {
        Ok(self)
    }
}

impl IntoNixValue for NixValue {
    open spec fn nix_meaning(&self) -> Option<Option<SNix>> {
        Some(Some(self@))
    }

    fn into_nix(self) -> (r: Result<Option<NixValue>, String>) {
        Ok(Some(self))
    }
}

impl<'a> IntoNixValue for &'a str {
    open spec fn nix_meaning(&self) -> Option<Option<SNix>> {
        text_meaning((*self)@)
    }

    fn into_nix(self) -> (r: Result<Option<NixValue>, String>) {
        text_into_nix(self)
    }
}

impl IntoNixValue for String {
    open spec fn nix_meaning(&self) -> Option<Option<SNix>> {
        text_meaning(self@)
    }

    fn into_nix(self) -> (r: Result<Option<NixValue>, String>) {
        text_into_nix(self.as_str())
    }
}

// ---------------------------------------------------------------------------
// Insertion
// ---------------------------------------------------------------------------

/// What inserting `val` under `key` into `v` gives: whether it succeeds, and
/// the expression afterwards. The expression is flattened first; an attribute
/// set or `let` block gets the value under the key, a list gets it at its
/// end, and the result is expanded again. Any other expression stays
/// flattened, and nothing is inserted.
pub open spec fn insert_outcome(v: SNix, key: Seq<char>, val: Option<Option<SNix>>) -> (bool, SNix) {
    match val {
        Some(Some(pv)) => {
            let f = flat_tree(v);
            match f {
                SNix::AttrSet(m) => (true, expand_tree(SNix::AttrSet(map_insert(m, key, pv)))),
                SNix::LetIn(m, b) => (true, expand_tree(SNix::LetIn(map_insert(m, key, pv), b))),
                SNix::List(l) => (true, expand_tree(SNix::List(l.push(pv)))),
                _ => (false, f),
            }
        },
        _ => (false, v),
    }
}

/// Insertion of values into expressions.
pub trait Generate: Sized {
    /// `self` is what inserting a value with meaning `val` under `key` into
    /// `before` leaves, and `ok` whether that succeeds.
    spec fn inserted(&self, before: Self, key: Seq<char>, val: Option<Option<SNix>>, ok: bool) -> bool;

    /// Inserts `value` under `key` (see `insert_outcome`).
    fn insert<I: IntoNixValue>(&mut self, key: &str, value: I) -> (r: Result<(), String>)
        ensures
            final(self).inserted(*old(self), key@, value.nix_meaning(), r is Ok),
    ;
}

impl Generate for NixValue {
    open spec fn inserted(&self, before: Self, key: Seq<char>, val: Option<Option<SNix>>, ok: bool) -> bool {
        insert_outcome(before@, key, val) == (ok, self@)
    }

    fn insert<I: IntoNixValue>(&mut self, key: &str, value: I) -> (r: Result<(), String>)
        ensures
            value.nix_meaning() == Some(None::<SNix>) ==> (r matches Err(m) && m@
                == "Fehler: Leerer Wert kann nicht eingefügt werden"@),
            value.nix_meaning() matches Some(Some(_)) && !(flat_tree(old(self)@) is AttrSet
                || flat_tree(old(self)@) is LetIn || flat_tree(old(self)@) is List) ==> (r matches Err(
                m,
            ) && m@ == "Fehler: Der Zeil-Knoten muss ein Attribute Set oder Let In Statment sein"@),
            value.nix_meaning() is None ==> (r matches Err(m) && syntax_error(m@)),
    {
        let ghost meaning = value.nix_meaning();
        let parsed = match value.into_nix() {
            Ok(Some(v)) => v,
            Ok(None) => {
                return Err(string_of("Fehler: Leerer Wert kann nicht eingefügt werden"));
            },
            Err(e) => {
                return Err(e);
            },
        };
        let f = flatten_value(self);
        let ghost fv = f@;
        let ghost pv = parsed@;
        let g = match f {
            NixValue::AttrSet(mut m) => {
                let ghost m0 = m@;
                assert(fv == SNix::AttrSet(m0));
                m.insert(string_of(key), parsed);
                let g = NixValue::AttrSet(m);
                assert(g@ == SNix::AttrSet(map_insert(m0, key@, pv)));
                g
            },
            NixValue::LetIn(mut m, b) => {
                let ghost m0 = m@;
                assert(fv == SNix::LetIn(m0, Box::new(b@)));
                m.insert(string_of(key), parsed);
                let g = NixValue::LetIn(m, b);
                assert(g@ == SNix::LetIn(map_insert(m0, key@, pv), Box::new(b@)));
                g
            },
            NixValue::List(mut l) => {
                let ghost l0 = l@;
                proof {
                    lemma_list_model(l);
                }
                assert(fv == SNix::List(list_model(l0)));
                l.push(parsed);
                proof {
                    lemma_list_model(l);
                    assert(list_model(l@) =~= list_model(l0).push(pv));
                }
                NixValue::List(l)
            },
            other => {
                *self = other;
                return Err(
                    string_of(
                        "Fehler: Der Zeil-Knoten muss ein Attribute Set oder Let In Statment sein",
                    ),
                );
            },
        };
        *self = expand_value(&g);
        Ok(())
    }
}

/// An expression without parts: a number, a boolean, a string, a name or a
/// path.
pub open spec fn is_leaf(v: SNix) -> bool {
    v is Int || v is Bool || v is Str || v is Identifier || v is Path
}

/// An expression without parts equals another exactly when the two are the
/// same: two names are equal when their texts are, and a name never equals
/// a longer name that contains it.
pub proof fn lemma_same_leaf(a: SNix, b: SNix)
    requires
        is_leaf(a) || is_leaf(b),
    ensures
        nix_same(a, b) <==> a == b,
        nix_same(b, a) <==> a == b,
{
}

/// Two names are equal exactly when their texts are.
pub proof fn lemma_same_name(x: Seq<char>, y: Seq<char>)
    ensures
        nix_same(SNix::Identifier(x), SNix::Identifier(y)) <==> x == y,
{
    lemma_same_leaf(SNix::Identifier(x), SNix::Identifier(y));
}

/// Every attribute set and `let` block in `v` holds each key once.
pub open spec fn distinct_keys(v: SNix) -> bool
    decreases v, 1int,
{
    match v {
        SNix::AttrSet(m) => keys_unique(m) && all_true(entries_distinct(m)),
        SNix::LetIn(m, b) => keys_unique(m) && all_true(entries_distinct(m)) && distinct_keys(*b),
        SNix::List(l) => all_true(items_distinct(l)),
        SNix::IndStr(f) => all_true(frags_distinct(f)),
        SNix::Group(b) => distinct_keys(*b),
        SNix::With(a, b) => distinct_keys(*a) && distinct_keys(*b),
        SNix::Lambda(l) => match l {
            SLambda::Nofix(_, b) => distinct_keys(*b),
            SLambda::Suffix(_, _, b) => distinct_keys(*b),
            SLambda::Prefix(_, _, b) => distinct_keys(*b),
            SLambda::Single(_, b) => distinct_keys(*b),
        },
        SNix::Apply(a, b) => distinct_keys(*a) && distinct_keys(*b),
        SNix::Antiquotation(b) => distinct_keys(*b),
        SNix::BinaryOp(l, _, r) => distinct_keys(*l) && distinct_keys(*r),
        _ => true,
    }
}

pub open spec fn entries_distinct(m: Seq<(Seq<char>, SNix)>) -> Seq<bool>
    decreases m, 0int,
{
    Seq::new(m.len(), |i: int| if 0 <= i < m.len() { distinct_keys(m[i].1) } else { true })
}

pub open spec fn items_distinct(l: Seq<SNix>) -> Seq<bool>
    decreases l, 0int,
{
    Seq::new(l.len(), |i: int| if 0 <= i < l.len() { distinct_keys(l[i]) } else { true })
}

pub open spec fn frags_distinct(f: Seq<SFrag>) -> Seq<bool>
    decreases f, 0int,
{
    Seq::new(
        f.len(),
        |i: int|
            if 0 <= i < f.len() {
                match f[i] {
                    SFrag::Text(_) => true,
                    SFrag::Anti(b) => distinct_keys(*b),
                }
            } else {
                true
            },
    )
}

/// Every expression whose maps hold each key once equals itself.
pub proof fn lemma_same_refl(v: SNix)
    requires
        distinct_keys(v),
    ensures
        nix_same(v, v),
    decreases v, 2int,
{
    match v {
        SNix::AttrSet(m) => {
            assert(decreases_to!(v => m));
            lemma_same_map_refl(m);
            assert(all_true(map_same_flags(m, m)));
            assert(nix_same(SNix::AttrSet(m), SNix::AttrSet(m)));
        },
        SNix::LetIn(m, b) => {
            assert(decreases_to!(v => m));
            lemma_same_map_refl(m);
            lemma_same_refl(*b);
        },
        SNix::List(l) => {
            assert forall|i: int| 0 <= i < l.len() implies #[trigger] list_same_flags(l, l)[i] by {
                assert(decreases_to!(v => l));
                assert(decreases_to!(l => l[i]));
                assert(items_distinct(l)[i]);
                lemma_same_refl(l[i]);
            }
            assert(all_true(list_same_flags(l, l)));
            assert(nix_same(SNix::List(l), SNix::List(l)));
        },
        SNix::IndStr(f) => {
            assert forall|i: int| 0 <= i < f.len() implies #[trigger] frag_same_flags(f, f)[i] by {
                assert(decreases_to!(v => f));
                if let SFrag::Anti(b) = f[i] {
                    assert(decreases_to!(f => f[i]));
                    assert(decreases_to!(f[i] => b));
                    assert(frags_distinct(f)[i]);
                    lemma_same_refl(*b);
                }
            }
            assert(all_true(frag_same_flags(f, f)));
            assert(nix_same(SNix::IndStr(f), SNix::IndStr(f)));
        },
        SNix::Group(b) => lemma_same_refl(*b),
        SNix::With(a, b) => {
            lemma_same_refl(*a);
            lemma_same_refl(*b);
        },
        SNix::Lambda(l) => match l {
            SLambda::Nofix(_, b) => lemma_same_refl(*b),
            SLambda::Suffix(_, _, b) => lemma_same_refl(*b),
            SLambda::Prefix(_, _, b) => lemma_same_refl(*b),
            SLambda::Single(_, b) => lemma_same_refl(*b),
        },
        SNix::Apply(a, b) => {
            lemma_same_refl(*a);
            lemma_same_refl(*b);
        },
        SNix::Antiquotation(b) => lemma_same_refl(*b),
        SNix::BinaryOp(l, _, r) => {
            lemma_same_refl(*l);
            lemma_same_refl(*r);
        },
        _ => {},
    }
}

proof fn lemma_same_map_refl(m: Seq<(Seq<char>, SNix)>)
    requires
        keys_unique(m),
        all_true(entries_distinct(m)),
    ensures
        all_true(map_same_flags(m, m)),
    decreases m, 1int,
{
    assert forall|i: int| 0 <= i < m.len() implies #[trigger] map_same_flags(m, m)[i] by {
        lemma_key_index(m, m[i].0);
        assert(key_index(m, m[i].0) == Some(i)) by {
            if let Some(j) = key_index(m, m[i].0) {
                if j != i {
                    if j < i {
                        assert(m[j].0 != m[i].0);
                    } else {
                        assert(m[i].0 != m[j].0);
                    }
                }
            }
        }
        assert(decreases_to!(m => m[i]));
        assert(decreases_to!(m[i] => m[i].1));
        assert(entries_distinct(m)[i]);
        lemma_same_refl(m[i].1);
    }
}

/// Removing a value whose maps hold each key once from a list drops every
/// copy of it.
pub proof fn lemma_remove_drops_value(l: Seq<SNix>, x: SNix)
    requires
        distinct_keys(x),
    ensures
        !retain_ne(l, x).contains(x),
        retain_ne(l, x).len() <= l.len(),
        forall|i: int| 0 <= i < retain_ne(l, x).len() ==> !nix_same(#[trigger] retain_ne(l, x)[i], x),
    decreases l.len(),
{
    lemma_same_refl(x);
    if l.len() > 0 {
        lemma_remove_drops_value(l.drop_last(), x);
    }
}

// ---------------------------------------------------------------------------
// Removal
// ---------------------------------------------------------------------------

/// The elements of a list that are not equal to `x`, in order.
pub open spec fn retain_ne(l: Seq<SNix>, x: SNix) -> Seq<SNix>
    decreases l.len(),
{
    if l.len() == 0 {
        l
    } else {
        let r = retain_ne(l.drop_last(), x);
        if nix_same(l.last(), x) {
            r
        } else {
            r.push(l.last())
        }
    }
}

/// Removing a value without parts from a list keeps exactly the elements
/// that differ from it, in their order: for a name, every element whose
/// text is another, such as `neovim` when `vim` is removed.
pub proof fn lemma_remove_leaf_from_list(l: Seq<SNix>, x: SNix)
    requires
        is_leaf(x),
    ensures
        retain_ne(l, x) == l.filter(|e: SNix| e != x),
        forall|i: int| 0 <= i < l.len() && l[i] != x ==> #[trigger] retain_ne(l, x).contains(l[i]),
        !retain_ne(l, x).contains(x),
    decreases l.len(),
{
    reveal(Seq::filter);
    broadcast use vstd::seq_lib::group_filter_ensures;
    if l.len() > 0 {
        lemma_remove_leaf_from_list(l.drop_last(), x);
        lemma_same_leaf(l.last(), x);
    }
    let f = |e: SNix| e != x;
    assert forall|i: int| 0 <= i < l.len() && l[i] != x implies #[trigger] retain_ne(l, x).contains(l[i]) by {
        l.lemma_filter_contains(f, i);
    }
    if retain_ne(l, x).contains(x) {
        let k = choose|k: int| 0 <= k < l.filter(f).len() && l.filter(f)[k] == x;
        l.lemma_filter_pred(f, k);
    }
}

/// The elements of a list that are not equal to `x`, in order.
fn retain_not_equal(l: Vec<NixValue>, x: &NixValue) -> (r: Vec<NixValue>)
    ensures
        list_model(r@) == retain_ne(list_model(l@), x@),
{
    let ghost s = list_model(l@);
    let mut l = l;
    let mut out: Vec<NixValue> = Vec::new();
    let ghost mut i: int = 0;
    assert(s.take(0) =~= Seq::<SNix>::empty());
    assert(list_model(out@) =~= Seq::<SNix>::empty());
    while l.len() > 0
        invariant
            0 <= i <= s.len(),
            list_model(l@) == s.skip(i),
            list_model(out@) == retain_ne(s.take(i), x@),
        decreases l@.len(),
    {
        let ghost before = l@;
        let e = l.remove(0);
        proof {
            assert(list_model(before).len() == s.len() - i);
            assert(list_model(before)[0] == e@);
            assert(s.skip(i)[0] == s[i]);
            assert(s.take(i + 1).drop_last() =~= s.take(i));
            assert(s.take(i + 1).last() == s[i]);
            assert forall|j: int| 0 <= j < list_model(l@).len() implies #[trigger] list_model(
                l@,
            )[j] == s.skip(i + 1)[j] by {
                assert(l@[j] == before[j + 1]);
                assert(list_model(before)[j + 1] == s.skip(i)[j + 1]);
            }
            assert(list_model(l@) =~= s.skip(i + 1));
        }
        if !nix_eq(&e, x) {
            let ghost o = out@;
            out.push(e);
            assert(list_model(out@) =~= list_model(o).push(s[i]));
        }
        proof {
            i = i + 1;
        }
    }
    assert(s.take(i) =~= s);
    out
}

/// What removing `key` (or, from a list, the elements equal to the value
/// with meaning `val`) from `v` gives: whether it succeeds, and the
/// expression afterwards. The expression is flattened first. An attribute
/// set loses the key, which must be there. A `let` block loses the key from
/// its bindings, which must hold it, and then its body must be an attribute
/// set that also holds the key and loses it, or a list that loses the
/// elements equal to the value. A list loses the elements equal to the value.
/// On success the result is expanded again; on failure it stays as far as
/// the removal got.
pub open spec fn remove_outcome(v: SNix, key: Seq<char>, val: Option<Option<SNix>>) -> (bool, SNix) {
    let f = flat_tree(v);
    match f {
        SNix::AttrSet(m) => if key_index(m, key) is Some {
            (true, expand_tree(SNix::AttrSet(map_remove(m, key))))
        } else {
            (false, f)
        },
        SNix::LetIn(m, b) => if key_index(m, key) is None {
            (false, f)
        } else {
            let m2 = map_remove(m, key);
            match *b {
                SNix::AttrSet(bm) => if key_index(bm, key) is Some {
                    (
                        true,
                        expand_tree(
                            SNix::LetIn(m2, Box::new(SNix::AttrSet(map_remove(bm, key)))),
                        ),
                    )
                } else {
                    (false, SNix::LetIn(m2, b))
                },
                SNix::List(l) => match val {
                    Some(Some(x)) => (
                        true,
                        expand_tree(SNix::LetIn(m2, Box::new(SNix::List(retain_ne(l, x))))),
                    ),
                    _ => (false, SNix::LetIn(m2, b)),
                },
                _ => (false, SNix::LetIn(m2, b)),
            }
        },
        SNix::List(l) => match val {
            Some(Some(x)) => (true, expand_tree(SNix::List(retain_ne(l, x)))),
            _ => (false, f),
        },
        _ => (true, expand_tree(f)),
    }
}

/// Removing a value without parts from a list of values without parts, such
/// as `vim` from `[ vim neovim ]`, succeeds and leaves exactly the elements
/// that differ from it, in their order.
pub proof fn lemma_remove_from_plain_list(l: Seq<SNix>, key: Seq<char>, x: SNix)
    requires
        is_leaf(x),
        forall|i: int| 0 <= i < l.len() ==> is_leaf(#[trigger] l[i]),
    ensures
        remove_outcome(SNix::List(l), key, Some(Some(x))) == (
            true,
            SNix::List(l.filter(|e: SNix| e != x)),
        ),
{
    broadcast use vstd::seq_lib::group_filter_ensures;
    assert(crate::flattening::flat_items(l) =~= l);
    lemma_remove_leaf_from_list(l, x);
    let r = l.filter(|e: SNix| e != x);
    assert forall|i: int| 0 <= i < r.len() implies is_leaf(#[trigger] r[i]) by {
        assert(r.contains(r[i]));
        l.lemma_filter_contains_rev(|e: SNix| e != x, r[i]);
    }
    assert(crate::flattening::expanded_items(r) =~= r);
}

/// The message with which removing fails, where it is one of the library's
/// own: a missing key, a list element to remove without a value, or a `let`
/// body that is neither an attribute set nor a list. `None` where the value
/// could not be read, whose error is then a syntax error.
pub open spec fn remove_refusal(v: SNix, key: Seq<char>, val: Option<Option<SNix>>) -> Option<Seq<char>> {
    let missing = "Remove-Fehler: Option ist nicht in Datei enthalten"@;
    let no_value = "Remove-Fehler: Kann kein Element aus einer Liste entfernen, ohne Wert"@;
    match flat_tree(v) {
        SNix::AttrSet(_) => Some(missing),
        SNix::LetIn(m, b) => if key_index(m, key) is None {
            Some(missing)
        } else {
            match *b {
                SNix::AttrSet(_) => Some(missing),
                SNix::List(_) => match val {
                    Some(None) => Some(no_value),
                    _ => None,
                },
                _ => Some("Fehler: Der Zeil-Knoten muss ein Attribute Set oder Let In Statment sein"@),
            }
        },
        SNix::List(_) => match val {
            Some(None) => Some(no_value),
            _ => None,
        },
        _ => None,
    }
}

/// Removal of keys and list elements from expressions.
pub trait Remove: Sized {
    /// `self` is what removing `key` (or the elements equal to a value with
    /// meaning `val`) from `before` leaves, and `ok` whether that succeeds.
    spec fn removed(&self, before: Self, key: Seq<char>, val: Option<Option<SNix>>, ok: bool) -> bool;

    /// Removes `key`, or the list elements equal to `value` (see
    /// `remove_outcome`).
    fn remove<I: IntoNixValue>(&mut self, key: &str, value: I) -> (r: Result<(), String>)
        ensures
            final(self).removed(*old(self), key@, value.nix_meaning(), r is Ok),
    ;
}

impl Remove for NixValue {
    open spec fn removed(&self, before: Self, key: Seq<char>, val: Option<Option<SNix>>, ok: bool) -> bool {
        remove_outcome(before@, key, val) == (ok, self@)
    }

    fn remove<I: IntoNixValue>(&mut self, key: &str, value: I) -> (r: Result<(), String>)
        ensures
            r matches Err(m) ==> match remove_refusal(old(self)@, key@, value.nix_meaning()) {
                Some(t) => m@ == t,
                None => syntax_error(m@),
            },
    {
        let ghost meaning = value.nix_meaning();
        let f = flatten_value(self);
        let ghost fv = f@;
        match f {
            NixValue::AttrSet(mut m) => {
                let ghost m0 = m@;
                assert(fv == SNix::AttrSet(m0));
                if m.shift_remove(key) {
                    let g = NixValue::AttrSet(m);
                    *self = expand_value(&g);
                    Ok(())
                } else {
                    *self = NixValue::AttrSet(m);
                    Err(string_of("Remove-Fehler: Option ist nicht in Datei enthalten"))
                }
            },
            NixValue::LetIn(mut m, b) => {
                let ghost m0 = m@;
                let ghost bv = b@;
                assert(fv == SNix::LetIn(m0, Box::new(bv)));
                if !m.shift_remove(key) {
                    *self = NixValue::LetIn(m, b);
                    return Err(string_of("Remove-Fehler: Option ist nicht in Datei enthalten"));
                }
                let ghost m1 = m@;
                assert(m1 == map_remove(m0, key@));
                assert(key_index(m0, key@) is Some);
                assert(flat_tree(old(self)@) == SNix::LetIn(m0, Box::new(bv)));
                let body: NixValue = *b;
                assert(body@ == bv);
                match body {
                    NixValue::AttrSet(mut bm) => {
                        let ghost bm0 = bm@;
                        assert(bv == SNix::AttrSet(bm0));
                        assert(remove_outcome(old(self)@, key@, meaning) == (if key_index(bm0, key@) is Some {
                            (true, expand_tree(SNix::LetIn(m1, Box::new(SNix::AttrSet(map_remove(bm0, key@))))))
                        } else {
                            (false, SNix::LetIn(m1, Box::new(bv)))
                        }));
                        if bm.shift_remove(key) {
                            let inner = NixValue::AttrSet(bm);
                            assert(inner@ == SNix::AttrSet(map_remove(bm0, key@)));
                            let g = NixValue::LetIn(m, Box::new(inner));
                            assert(g@ == SNix::LetIn(m1, Box::new(SNix::AttrSet(map_remove(bm0, key@)))));
                            *self = expand_value(&g);
                            Ok(())
                        } else {
                            let inner = NixValue::AttrSet(bm);
                            assert(inner@ == bv);
                            *self = NixValue::LetIn(m, Box::new(inner));
                            Err(string_of("Remove-Fehler: Option ist nicht in Datei enthalten"))
                        }
                    },
                    NixValue::List(l) => {
                        proof {
                            lemma_list_model(l);
                        }
                        match value.into_nix() {
                            Ok(Some(x)) => {
                                let l2 = retain_not_equal(l, &x);
                                proof {
                                    lemma_list_model(l2);
                                }
                                let g = NixValue::LetIn(m, Box::new(NixValue::List(l2)));
                                *self = expand_value(&g);
                                Ok(())
                            },
                            Ok(None) => {
                                *self = NixValue::LetIn(m, Box::new(NixValue::List(l)));
                                Err(
                                    string_of(
                                        "Remove-Fehler: Kann kein Element aus einer Liste entfernen, ohne Wert",
                                    ),
                                )
                            },
                            Err(e) => {
                                *self = NixValue::LetIn(m, Box::new(NixValue::List(l)));
                                Err(e)
                            },
                        }
                    },
                    other => {
                        *self = NixValue::LetIn(m, Box::new(other));
                        Err(
                            string_of(
                                "Fehler: Der Zeil-Knoten muss ein Attribute Set oder Let In Statment sein",
                            ),
                        )
                    },
                }
            },
            NixValue::List(l) => {
                proof {
                    lemma_list_model(l);
                }
                match value.into_nix() {
                    Ok(Some(x)) => {
                        let l2 = retain_not_equal(l, &x);
                        proof {
                            lemma_list_model(l2);
                        }
                        let g = NixValue::List(l2);
                        *self = expand_value(&g);
                        Ok(())
                    },
                    Ok(None) => {
                        *self = NixValue::List(l);
                        Err(
                            string_of(
                                "Remove-Fehler: Kann kein Element aus einer Liste entfernen, ohne Wert",
                            ),
                        )
                    },
                    Err(e) => {
                        *self = NixValue::List(l);
                        Err(e)
                    },
                }
            },
            other => {
                *self = expand_value(&other);
                Ok(())
            },
        }
    }
}


// ---------------------------------------------------------------------------
// Reading back what was inserted
// ---------------------------------------------------------------------------

/// The two paths part at some place that both reach: neither is a prefix of
/// the other.
pub open spec fn diverges(q: Seq<Seq<char>>, p: Seq<Seq<char>>) -> bool
    decreases q.len(),
{
    q.len() > 0 && p.len() > 0 && (q[0] != p[0] || diverges(q.drop_first(), p.drop_first()))
}

/// The path of every key of `m` but `key` itself is empty or parts from the
/// path of `key`.
pub open spec fn paths_apart(m: Seq<(Seq<char>, SNix)>, key: Seq<char>) -> bool {
    forall|j: int|
        0 <= j < m.len() && #[trigger] m[j].0 != key ==> split_key(m[j].0).len() == 0 || diverges(
            split_key(m[j].0),
            split_key(key),
        )
}

/// The value reached by following the keys of `p` through nested attribute
/// sets of `m`.
pub open spec fn get_path(m: Seq<(Seq<char>, SNix)>, p: Seq<Seq<char>>) -> Option<SNix>
    decreases p.len(),
{
    if p.len() == 0 {
        None
    } else {
        match map_get(m, p[0]) {
            Some(x) => if p.len() == 1 {
                Some(x)
            } else {
                match x {
                    SNix::AttrSet(im) => get_path(im, p.drop_first()),
                    _ => None,
                }
            },
            None => None,
        }
    }
}

/// Nothing is stored at `p`, and each key of `p` on the way names an
/// attribute set or nothing.
pub open spec fn path_clear(m: Seq<(Seq<char>, SNix)>, p: Seq<Seq<char>>) -> bool
    decreases p.len(),
{
    p.len() > 0 && match map_get(m, p[0]) {
        None => true,
        Some(SNix::AttrSet(im)) => p.len() > 1 && path_clear(im, p.drop_first()),
        Some(_) => false,
    }
}

/// The value of the last entry whose key splits into `p`.
pub open spec fn last_at(es: Seq<(Seq<char>, SNix)>, p: Seq<Seq<char>>) -> Option<SNix>
    decreases es.len(),
{
    if es.len() == 0 {
        None
    } else if split_key(es.last().0) == p {
        Some(es.last().1)
    } else {
        last_at(es.drop_last(), p)
    }
}

proof fn lemma_diverges_ne(q: Seq<Seq<char>>, p: Seq<Seq<char>>)
    requires
        diverges(q, p),
    ensures
        q != p,
    decreases q.len(),
{
    if q[0] == p[0] {
        lemma_diverges_ne(q.drop_first(), p.drop_first());
        if q == p {
            assert(q.drop_first() == p.drop_first());
        }
    }
}

/// Storing at a path `q` sets the value at `q` and leaves what a path that
/// parts from `q` reaches, and keeps such a path clear.
proof fn lemma_insert_path_get(m: Seq<(Seq<char>, SNix)>, q: Seq<Seq<char>>, v: SNix, p: Seq<Seq<char>>)
    requires
        q.len() >= 1,
        p.len() >= 1,
        q == p || diverges(q, p),
    ensures
        get_path(insert_path(m, q, v), p) == if q == p {
            Some(v)
        } else {
            get_path(m, p)
        },
        q != p && path_clear(m, p) ==> path_clear(insert_path(m, q, v), p),
    decreases q.len(),
{
    let r = insert_path(m, q, v);
    if q.len() == 1 {
        assert(r == map_insert(m, q[0], v));
        if q == p {
            lemma_map_get_insert(m, q[0], v);
        } else {
            assert(q[0] != p[0]) by {
                if q[0] == p[0] {
                    assert(q.drop_first().len() == 0);
                    assert(!diverges(q.drop_first(), p.drop_first()));
                }
            }
            lemma_map_get_insert_other(m, q[0], v, p[0]);
        }
    } else {
        let inner = match map_get(m, q[0]) {
            Some(SNix::AttrSet(im)) => im,
            _ => Seq::empty(),
        };
        let ir = insert_path(inner, q.drop_first(), v);
        assert(r == map_insert(m, q[0], SNix::AttrSet(ir)));
        if q[0] != p[0] {
            lemma_map_get_insert_other(m, q[0], SNix::AttrSet(ir), p[0]);
        } else {
            lemma_map_get_insert(m, q[0], SNix::AttrSet(ir));
            assert(p.len() > 1) by {
                if p.len() == 1 {
                    assert(q != p);
                    assert(!diverges(q.drop_first(), p.drop_first()));
                }
            }
            let q1 = q.drop_first();
            let p1 = p.drop_first();
            if q == p {
                assert(q1 == p1);
            } else {
                assert(q1 != p1) by {
                    if q1 == p1 {
                        assert forall|k: int| 0 <= k < q.len() implies q[k] == p[k] by {
                            if k > 0 {
                                assert(q[k] == q1[k - 1]);
                                assert(p[k] == p1[k - 1]);
                            }
                        }
                        assert(q =~= p);
                    }
                }
            }
            lemma_insert_path_get(inner, q1, v, p1);
            assert(get_path(r, p) == get_path(ir, p1));
            if q != p {
                assert(get_path(Seq::<(Seq<char>, SNix)>::empty(), p1) is None);
                assert(path_clear(Seq::<(Seq<char>, SNix)>::empty(), p1));
            }
        }
    }
}

/// Expanding a map stores at a path the value of the last entry whose key
/// splits into it, when the key of every entry splits into that path, into
/// nothing, or into a path that parts from it.
proof fn lemma_expanded_get_path(es: Seq<(Seq<char>, SNix)>, p: Seq<Seq<char>>)
    requires
        p.len() >= 1,
        forall|j: int|
            0 <= j < es.len() ==> split_key(#[trigger] es[j].0) == p || split_key(es[j].0).len()
                == 0 || diverges(split_key(es[j].0), p),
    ensures
        get_path(expanded_map(es), p) == last_at(es, p),
        last_at(es, p) is None ==> path_clear(expanded_map(es), p),
    decreases es.len(),
{
    if es.len() == 0 {
        assert(path_clear(Seq::<(Seq<char>, SNix)>::empty(), p));
    } else {
        let d = es.drop_last();
        assert forall|j: int| 0 <= j < d.len() implies split_key(#[trigger] d[j].0) == p
            || split_key(d[j].0).len() == 0 || diverges(split_key(d[j].0), p) by {
            assert(d[j] == es[j]);
        }
        lemma_expanded_get_path(d, p);
        let last = es.last();
        assert(es[es.len() - 1] == last);
        let q = split_key(last.0);
        if q.len() > 0 {
            lemma_insert_path_get(expanded_map(d), q, last.1, p);
            if q != p {
                lemma_diverges_ne(q, p);
            }
        }
    }
}

/// Querying an attribute set along a path that reaches a value finds that
/// value alone.
proof fn lemma_query_path(m: Seq<(Seq<char>, SNix)>, p: Seq<Seq<char>>, x: SNix)
    requires
        get_path(m, p) == Some(x),
    ensures
        q_exact(SNix::AttrSet(m), p) == seq![x],
    decreases p.len(),
{
    lemma_key_index(m, p[0]);
    let i = key_index(m, p[0])->Some_0;
    assert(q_exact(SNix::AttrSet(m), p) == q_key(m, p));
    assert(q_key(m, p) == q_exact(m[i].1, p.drop_first()));
    if p.len() == 1 {
        assert(p.drop_first() =~= Seq::<Seq<char>>::empty());
    } else {
        let im = m[i].1->AttrSet_0;
        lemma_query_path(im, p.drop_first(), x);
    }
}

/// Querying an attribute set along a clear path finds nothing.
proof fn lemma_query_clear(m: Seq<(Seq<char>, SNix)>, p: Seq<Seq<char>>)
    requires
        path_clear(m, p),
    ensures
        q_exact(SNix::AttrSet(m), p) == Seq::<SNix>::empty(),
    decreases p.len(),
{
    lemma_key_index(m, p[0]);
    assert(q_exact(SNix::AttrSet(m), p) == q_key(m, p));
    if let Some(i) = key_index(m, p[0]) {
        assert(q_key(m, p) == q_exact(m[i].1, p.drop_first()));
        let im = m[i].1->AttrSet_0;
        lemma_query_clear(im, p.drop_first());
    }
}

/// The entries of the map after storing under `key`, expanded, meet the
/// condition of `lemma_expanded_get_path` for the path of `key`.
proof fn lemma_apart_entries(fm: Seq<(Seq<char>, SNix)>, mi: Seq<(Seq<char>, SNix)>, key: Seq<char>)
    requires
        paths_apart(fm, key),
        mi.len() >= fm.len(),
        forall|j: int| 0 <= j < fm.len() && #[trigger] mi[j].0 != key ==> mi[j].0 == fm[j].0,
        forall|j: int| fm.len() <= j < mi.len() ==> #[trigger] mi[j].0 == key,
    ensures
        forall|j: int|
            0 <= j < expanded_vals(mi).len() ==> split_key(#[trigger] expanded_vals(mi)[j].0)
                == split_key(key) || split_key(expanded_vals(mi)[j].0).len() == 0 || diverges(
                split_key(expanded_vals(mi)[j].0),
                split_key(key),
            ),
{
    let es = expanded_vals(mi);
    assert forall|j: int| 0 <= j < es.len() implies split_key(#[trigger] es[j].0) == split_key(key)
        || split_key(es[j].0).len() == 0 || diverges(split_key(es[j].0), split_key(key)) by {
        assert(es[j].0 == mi[j].0);
        if mi[j].0 != key {
            assert(mi[j].0 == fm[j].0);
        }
    }
}

/// The last entry whose key splits into `p` is the only one.
proof fn lemma_last_at_only(es: Seq<(Seq<char>, SNix)>, p: Seq<Seq<char>>, j0: int)
    requires
        0 <= j0 < es.len(),
        split_key(es[j0].0) == p,
        forall|j: int| 0 <= j < es.len() && j != j0 ==> split_key(#[trigger] es[j].0) != p,
    ensures
        last_at(es, p) == Some(es[j0].1),
    decreases es.len(),
{
    if j0 < es.len() - 1 {
        let d = es.drop_last();
        assert(split_key(es[es.len() - 1].0) != p);
        assert forall|j: int| 0 <= j < d.len() && j != j0 implies split_key(#[trigger] d[j].0)
            != p by {
            assert(d[j] == es[j]);
        }
        assert(d[j0] == es[j0]);
        lemma_last_at_only(d, p, j0);
    }
}

/// A value inserted into an attribute set under a key is what querying the
/// path of that key finds, once expanded, when the path of every other
/// flattened key is empty or parts from it.
pub proof fn lemma_insert_then_query(v: SNix, key: Seq<char>, pv: SNix)
    requires
        flat_tree(v) is AttrSet,
        split_key(key).len() >= 1,
        paths_apart(flat_tree(v)->AttrSet_0, key),
    ensures
        insert_outcome(v, key, Some(Some(pv))).0,
        q_exact(insert_outcome(v, key, Some(Some(pv))).1, split_key(key)) == seq![expand_tree(pv)],
{
    let fm = flat_tree(v)->AttrSet_0;
    let p = split_key(key);
    assert(fm == flat_map(flat_vals(v->AttrSet_0)));
    lemma_flat_map_unique(flat_vals(v->AttrSet_0));
    let mi = map_insert(fm, key, pv);
    lemma_key_index(fm, key);
    lemma_map_insert_unique(fm, key, pv);
    assert(forall|j: int| 0 <= j < fm.len() && #[trigger] mi[j].0 != key ==> mi[j].0 == fm[j].0);
    assert(forall|j: int| fm.len() <= j < mi.len() ==> #[trigger] mi[j].0 == key);
    lemma_apart_entries(fm, mi, key);
    let es = expanded_vals(mi);
    lemma_expanded_get_path(es, p);
    lemma_key_index(mi, key);
    let j0 = key_index(mi, key)->Some_0;
    assert forall|j: int| 0 <= j < es.len() && j != j0 implies split_key(#[trigger] es[j].0) != p by {
        assert(es[j].0 == mi[j].0);
        if mi[j].0 == key {
            assert(mi[j0].0 == key);
            if j < j0 {
                assert(mi[j].0 != mi[j0].0);
            } else {
                assert(mi[j0].0 != mi[j].0);
            }
        } else {
            assert(j < fm.len());
            assert(mi[j].0 == fm[j].0);
            assert(fm[j].0 != key);
            if split_key(es[j].0).len() > 0 {
                lemma_diverges_ne(split_key(es[j].0), p);
            }
        }
    }
    assert(es[j0] == (mi[j0].0, expand_tree(mi[j0].1)));
    lemma_last_at_only(es, p, j0);
    let big = expanded_map(es);
    assert(insert_outcome(v, key, Some(Some(pv))).1 == SNix::AttrSet(big));
    lemma_query_path(big, p, expand_tree(pv));
}

/// A key removed from an attribute set that holds it is no longer found by
/// querying its path, when the path of every other flattened key is empty or
/// parts from it.
pub proof fn lemma_remove_then_query(v: SNix, key: Seq<char>, val: Option<Option<SNix>>)
    requires
        flat_tree(v) is AttrSet,
        key_index(flat_tree(v)->AttrSet_0, key) is Some,
        split_key(key).len() >= 1,
        paths_apart(flat_tree(v)->AttrSet_0, key),
    ensures
        remove_outcome(v, key, val).0,
        q_exact(remove_outcome(v, key, val).1, split_key(key)) == Seq::<SNix>::empty(),
{
    let fm = flat_tree(v)->AttrSet_0;
    let p = split_key(key);
    assert(fm == flat_map(flat_vals(v->AttrSet_0)));
    lemma_flat_map_unique(flat_vals(v->AttrSet_0));
    let mr = map_remove(fm, key);
    lemma_map_remove_gone(fm, key);
    lemma_key_index(fm, key);
    lemma_key_index(mr, key);
    let i = key_index(fm, key)->Some_0;
    let es = expanded_vals(mr);
    assert forall|j: int| 0 <= j < es.len() implies split_key(#[trigger] es[j].0) == p || split_key(
        es[j].0,
    ).len() == 0 || diverges(split_key(es[j].0), p) by {
        assert(es[j].0 == mr[j].0);
        if j < i {
            assert(mr[j] == fm[j]);
        } else {
            assert(mr[j] == fm[j + 1]);
        }
    }
    assert forall|j: int| 0 <= j < es.len() implies split_key(#[trigger] es[j].0) != p by {
        assert(es[j].0 == mr[j].0);
        assert(mr[j].0 != key);
        if j < i {
            assert(mr[j] == fm[j]);
        } else {
            assert(mr[j] == fm[j + 1]);
        }
        if split_key(es[j].0).len() > 0 {
            lemma_diverges_ne(split_key(es[j].0), p);
        }
    }
    lemma_last_at_none(es, p);
    lemma_expanded_get_path(es, p);
    let big = expanded_map(es);
    assert(remove_outcome(v, key, val).1 == SNix::AttrSet(big));
    lemma_query_clear(big, p);
}

/// No entry's key splits into `p`, so there is no last one.
proof fn lemma_last_at_none(es: Seq<(Seq<char>, SNix)>, p: Seq<Seq<char>>)
    requires
        forall|j: int| 0 <= j < es.len() ==> split_key(#[trigger] es[j].0) != p,
    ensures
        last_at(es, p) is None,
    decreases es.len(),
{
    if es.len() > 0 {
        let d = es.drop_last();
        assert(split_key(es[es.len() - 1].0) != p);
        assert forall|j: int| 0 <= j < d.len() implies split_key(#[trigger] d[j].0) != p by {
            assert(d[j] == es[j]);
        }
        lemma_last_at_none(d, p);
    }
}

} // verus!
