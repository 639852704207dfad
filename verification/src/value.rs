//! The syntax tree of a Nix expression, its mathematical model, and the
//! events that the parser reports while it works.
use vstd::prelude::*;

verus! {

/// Binary operators known to the parser.
#[derive(Debug, Clone, Copy, PartialEq, Eq, Structural)]
pub enum Operator {
    Add,
    Sub,
    Concat,
    Equal,
    Unequal,
    And,
    Merge,
    Divide,
}

/// A piece of an indented string: literal text or an interpolated expression.
#[derive(Debug, PartialEq)]
pub enum StringFragment {
    Text(String),
    Antiquotation(Box<NixValue>),
}

/// The four shapes of a Nix function head.
///
/// `Nofix` is `{ a, b }: body`, `Suffix` is `{ a } @ name: body`,
/// `Prefix` is `name @ { a }: body` and `Single` is `name: body`.
#[derive(Debug, PartialEq)]
pub enum LambdaTypes {
    Nofix(Vec<String>, Box<NixValue>),
    Suffix(Vec<String>, String, Box<NixValue>),
    Prefix(Vec<String>, String, Box<NixValue>),
    Single(String, Box<NixValue>),
}

/// An attribute map that remembers the order in which its keys were first
/// inserted; no key occurs twice.
#[derive(Debug, PartialEq)]
pub struct AttrMap {
    pub entries: Vec<(String, NixValue)>,
}

/// A parsed Nix expression.
///
/// A floating point literal is kept as the text that was read (digits and
/// one dot), so that no floating point arithmetic is needed.
#[derive(Debug, PartialEq)]
pub enum NixValue {
    AttrSet(AttrMap),
    List(Vec<NixValue>),
    Str(String),
    IndStr(Vec<StringFragment>),
    Int(u64),
    Float(String),
    Bool(bool),
    Identifier(String),
    Group(Box<NixValue>),
    LetIn(AttrMap, Box<NixValue>),
    With(Box<NixValue>, Box<NixValue>),
    Lambda(LambdaTypes),
    Apply(Box<NixValue>, Box<NixValue>),
    Path(String),
    Antiquotation(Box<NixValue>),
    BinaryOp { left: Box<NixValue>, operator: Operator, right: Box<NixValue> },
}

/// Progress reports of the parser and of the tree builder.
#[derive(Debug, Clone, PartialEq)]
pub enum ParseEvent {
    Finished(String),
    StartGen,
    EndGen,
    StartGettingFiles,
    EndGettingFiles,
    StartParsingFile(String),
    EndParsingFile(String),
    StartSortingFile(String),
    EndSortingFile(String),
    StartExpandingFile(String),
    EndExpandingFile(String),
    StartFlatteningFile(String),
    EndFlatteningFile(String),
    StartAttrSet,
    StartList,
    StartLetIn,
    StartLambda,
    StartWith,
    StartString,
    StartPath,
    StartNumber,
    StartExpression,
    StartOperator,
    StartIdentifier,
    StartWhitespace,
    StartValue,
    StartGroup,
    StartAntiquotation,
    StartIndentedString,
    EndAttrSet,
    EndList,
    EndLetIn,
    EndLambda,
    EndWith,
    EndString,
    EndPath,
    EndNumber,
    EndExpression,
    EndOperator,
    EndIdentifier,
    EndWhitespace,
    EndValue,
    EndGroup,
    EndAntiquotation,
    EndIndentedString,
}

// ---------------------------------------------------------------------------
// Mathematical model
// ---------------------------------------------------------------------------

/// Model of a string fragment.
pub enum SFrag {
    Text(Seq<char>),
    Anti(Box<SNix>),
}

/// Model of a function head.
pub enum SLambda {
    Nofix(Seq<Seq<char>>, Box<SNix>),
    Suffix(Seq<Seq<char>>, Seq<char>, Box<SNix>),
    Prefix(Seq<Seq<char>>, Seq<char>, Box<SNix>),
    Single(Seq<char>, Box<SNix>),
}

/// Model of an expression: texts are character sequences, maps are sequences
/// of (key, value) pairs in insertion order.
pub enum SNix {
    AttrSet(Seq<(Seq<char>, SNix)>),
    List(Seq<SNix>),
    Str(Seq<char>),
    IndStr(Seq<SFrag>),
    Int(u64),
    Float(Seq<char>),
    Bool(bool),
    Identifier(Seq<char>),
    Group(Box<SNix>),
    LetIn(Seq<(Seq<char>, SNix)>, Box<SNix>),
    With(Box<SNix>, Box<SNix>),
    Lambda(SLambda),
    Apply(Box<SNix>, Box<SNix>),
    Path(Seq<char>),
    Antiquotation(Box<SNix>),
    BinaryOp(Box<SNix>, Operator, Box<SNix>),
}

pub open spec fn strings_model(v: Vec<String>) -> Seq<Seq<char>> {
    Seq::new(v@.len(), |i: int| v@[i]@)
}

pub open spec fn nix_model(v: NixValue) -> SNix
    decreases v,
{
    match v {
        NixValue::AttrSet(m) => SNix::AttrSet(map_model(m)),
        NixValue::List(l) => SNix::List(
            Seq::new(
                l@.len(),
                |i: int|
                    if 0 <= i < l@.len() {
                        nix_model(l@[i])
                    } else {
                        SNix::Int(0)
                    },
            ),
        ),
        NixValue::Str(s) => SNix::Str(s@),
        NixValue::IndStr(f) => SNix::IndStr(
            Seq::new(
                f@.len(),
                |i: int|
                    if 0 <= i < f@.len() {
                        frag_model(f@[i])
                    } else {
                        SFrag::Text(seq![])
                    },
            ),
        ),
        NixValue::Int(n) => SNix::Int(n),
        NixValue::Float(s) => SNix::Float(s@),
        NixValue::Bool(b) => SNix::Bool(b),
        NixValue::Identifier(s) => SNix::Identifier(s@),
        NixValue::Group(b) => SNix::Group(Box::new(nix_model(*b))),
        NixValue::LetIn(m, b) => SNix::LetIn(map_model(m), Box::new(nix_model(*b))),
        NixValue::With(a, b) => SNix::With(Box::new(nix_model(*a)), Box::new(nix_model(*b))),
        NixValue::Lambda(l) => SNix::Lambda(lambda_model(l)),
        NixValue::Apply(a, b) => SNix::Apply(Box::new(nix_model(*a)), Box::new(nix_model(*b))),
        NixValue::Path(s) => SNix::Path(s@),
        NixValue::Antiquotation(b) => SNix::Antiquotation(Box::new(nix_model(*b))),
        NixValue::BinaryOp { left, operator, right } => SNix::BinaryOp(
            Box::new(nix_model(*left)),
            operator,
            Box::new(nix_model(*right)),
        ),
    }
}

pub open spec fn map_model(m: AttrMap) -> Seq<(Seq<char>, SNix)>
    decreases m,
{
    Seq::new(
        m.entries@.len(),
        |i: int|
            if 0 <= i < m.entries@.len() {
                (m.entries@[i].0@, nix_model(m.entries@[i].1))
            } else {
                (seq![], SNix::Int(0))
            },
    )
}

pub open spec fn frag_model(f: StringFragment) -> SFrag
    decreases f,
{
    match f {
        StringFragment::Text(s) => SFrag::Text(s@),
        StringFragment::Antiquotation(b) => SFrag::Anti(Box::new(nix_model(*b))),
    }
}

pub open spec fn lambda_model(l: LambdaTypes) -> SLambda
    decreases l,
{
    match l {
        LambdaTypes::Nofix(a, b) => SLambda::Nofix(strings_model(a), Box::new(nix_model(*b))),
        LambdaTypes::Suffix(a, n, b) => SLambda::Suffix(
            strings_model(a),
            n@,
            Box::new(nix_model(*b)),
        ),
        LambdaTypes::Prefix(a, n, b) => SLambda::Prefix(
            strings_model(a),
            n@,
            Box::new(nix_model(*b)),
        ),
        LambdaTypes::Single(n, b) => SLambda::Single(n@, Box::new(nix_model(*b))),
    }
}

pub open spec fn list_model(l: Seq<NixValue>) -> Seq<SNix> {
    Seq::new(l.len(), |i: int| nix_model(l[i]))
}

pub open spec fn frags_model(l: Seq<StringFragment>) -> Seq<SFrag> {
    Seq::new(l.len(), |i: int| frag_model(l[i]))
}

impl View for NixValue {
    type V = SNix;

    open spec fn view(&self) -> SNix {
        nix_model(*self)
    }
}

impl View for AttrMap {
    type V = Seq<(Seq<char>, SNix)>;

    open spec fn view(&self) -> Seq<(Seq<char>, SNix)> {
        map_model(*self)
    }
}

impl View for StringFragment {
    type V = SFrag;

    open spec fn view(&self) -> SFrag {
        frag_model(*self)
    }
}

impl View for LambdaTypes {
    type V = SLambda;

    open spec fn view(&self) -> SLambda {
        lambda_model(*self)
    }
}

pub broadcast proof fn lemma_list_model(l: Vec<NixValue>)
    ensures
        #[trigger] nix_model(NixValue::List(l)) == SNix::List(list_model(l@)),
{
    let x = nix_model(NixValue::List(l));
    if let SNix::List(s) = x {
        assert(s =~= list_model(l@));
    }
}

pub broadcast proof fn lemma_indstr_model(l: Vec<StringFragment>)
    ensures
        #[trigger] nix_model(NixValue::IndStr(l)) == SNix::IndStr(frags_model(l@)),
{
    let x = nix_model(NixValue::IndStr(l));
    if let SNix::IndStr(s) = x {
        assert(s =~= frags_model(l@));
    }
}

/// No key of the map occurs twice.
pub open spec fn keys_unique<V>(m: Seq<(Seq<char>, V)>) -> bool {
    forall|i: int, j: int| 0 <= i < j < m.len() ==> m[i].0 != m[j].0
}

/// Position of `k` in the map, if present.
pub open spec fn key_index<V>(m: Seq<(Seq<char>, V)>, k: Seq<char>) -> Option<int>
    decreases m.len(),
{
    if m.len() == 0 {
        None
    } else if m.last().0 == k {
        Some(m.len() - 1)
    } else {
        key_index(m.drop_last(), k)
    }
}

/// The map built by inserting the pairs one after the other, each as
/// `map_insert` does.
pub open spec fn pairs_map(p: Seq<(String, NixValue)>) -> Seq<(Seq<char>, SNix)>
    decreases p.len(),
{
    if p.len() == 0 {
        Seq::empty()
    } else {
        map_insert(pairs_map(p.drop_last()), p.last().0@, p.last().1@)
    }
}

/// Insertion into an insertion-ordered map: an existing key keeps its place
/// and gets the new value, a new key goes to the end.
pub open spec fn map_insert<V>(m: Seq<(Seq<char>, V)>, k: Seq<char>, v: V) -> Seq<(Seq<char>, V)> {
    match key_index(m, k) {
        Some(i) => m.update(i, (k, v)),
        None => m.push((k, v)),
    }
}

/// Removal that keeps the order of the remaining entries.
pub open spec fn map_remove<V>(m: Seq<(Seq<char>, V)>, k: Seq<char>) -> Seq<(Seq<char>, V)> {
    match key_index(m, k) {
        Some(i) => m.remove(i),
        None => m,
    }
}

/// The value stored under `k`.
pub open spec fn map_get<V>(m: Seq<(Seq<char>, V)>, k: Seq<char>) -> Option<V> {
    match key_index(m, k) {
        Some(i) => Some(m[i].1),
        None => None,
    }
}

pub proof fn lemma_key_index<V>(m: Seq<(Seq<char>, V)>, k: Seq<char>)
    ensures
        key_index(m, k) matches Some(i) ==> 0 <= i < m.len() && m[i].0 == k && (forall|j: int|
            i < j < m.len() ==> m[j].0 != k),
        key_index(m, k) is None ==> forall|j: int| 0 <= j < m.len() ==> m[j].0 != k,
    decreases m.len(),
{
    if m.len() > 0 && m.last().0 != k {
        let d = m.drop_last();
        lemma_key_index(d, k);
        assert forall|j: int| 0 <= j < d.len() implies d[j] == m[j] by {}
    }
}

/// After storing `v` under `k`, `k` gives `v`, whether or not keys repeat.
pub proof fn lemma_map_get_insert<V>(m: Seq<(Seq<char>, V)>, k: Seq<char>, v: V)
    ensures
        map_get(map_insert(m, k, v), k) == Some(v),
        key_index(map_insert(m, k, v), k) is Some,
{
    lemma_key_index(m, k);
    let r = map_insert(m, k, v);
    lemma_key_index(r, k);
    match key_index(m, k) {
        Some(i) => {
            assert(r[i].0 == k);
            if let Some(j) = key_index(r, k) {
                if j != i {
                    assert(j > i ==> r[j] == m[j]);
                }
            }
        },
        None => {
            assert(r.last().0 == k);
        },
    }
}

/// Storing under another key leaves what `k` gives.
pub proof fn lemma_map_get_insert_other<V>(m: Seq<(Seq<char>, V)>, k2: Seq<char>, v: V, k: Seq<char>)
    requires
        k2 != k,
    ensures
        map_get(map_insert(m, k2, v), k) == map_get(m, k),
{
    lemma_key_index(m, k);
    lemma_key_index(m, k2);
    let r = map_insert(m, k2, v);
    lemma_key_index(r, k);
    assert forall|j: int| 0 <= j < m.len() implies (r[j].0 == k) == (m[j].0 == k) && (m[j].0 == k
        ==> r[j] == m[j]) by {}
    assert(r.len() > m.len() ==> r[r.len() - 1].0 == k2);
    match key_index(m, k) {
        Some(i) => {
            assert(r[i].0 == k);
        },
        None => {},
    }
}

/// Two maps with the same keys in the same order find a key at the same place.
pub proof fn lemma_key_index_same_keys<A, B>(a: Seq<(Seq<char>, A)>, b: Seq<(Seq<char>, B)>, k: Seq<char>)
    requires
        a.len() == b.len(),
        forall|j: int| 0 <= j < a.len() ==> #[trigger] a[j].0 == b[j].0,
    ensures
        key_index(a, k) == key_index(b, k),
    decreases a.len(),
{
    if a.len() > 0 {
        assert(a.last().0 == b.last().0);
        let da = a.drop_last();
        let db = b.drop_last();
        assert forall|j: int| 0 <= j < da.len() implies #[trigger] da[j].0 == db[j].0 by {
            assert(a[j].0 == b[j].0);
        }
        lemma_key_index_same_keys(da, db, k);
    }
}

/// Once removed from a map with distinct keys, `k` is no longer there.
pub proof fn lemma_map_remove_gone<V>(m: Seq<(Seq<char>, V)>, k: Seq<char>)
    requires
        keys_unique(m),
    ensures
        key_index(map_remove(m, k), k) is None,
{
    lemma_key_index(m, k);
    let r = map_remove(m, k);
    lemma_key_index(r, k);
    if let Some(i) = key_index(m, k) {
        assert forall|j: int| 0 <= j < r.len() implies r[j].0 != k by {
            if j < i {
                assert(r[j] == m[j]);
            } else {
                assert(r[j] == m[j + 1]);
            }
        }
    }
}

pub proof fn lemma_map_insert_unique<V>(m: Seq<(Seq<char>, V)>, k: Seq<char>, v: V)
    requires
        keys_unique(m),
    ensures
        keys_unique(map_insert(m, k, v)),
        map_get(map_insert(m, k, v), k) == Some(v),
{
    lemma_key_index(m, k);
    let r = map_insert(m, k, v);
    lemma_key_index(r, k);
    match key_index(m, k) {
        Some(i) => {
            assert(r[i].0 == k);
        },
        None => {
            assert(r.last().0 == k);
        },
    }
}

// ---------------------------------------------------------------------------
// Copies
// ---------------------------------------------------------------------------

pub fn clone_strings(v: &Vec<String>) -> (r: Vec<String>)
    ensures
        r@.len() == v@.len(),
        forall|i: int| 0 <= i < v@.len() ==> r@[i]@ == v@[i]@,
        strings_model(r) == strings_model(*v),
{
    let mut r: Vec<String> = Vec::new();
    let mut i: usize = 0;
    while i < v.len()
        invariant
            i <= v@.len(),
            r@.len() == i,
            forall|j: int| 0 <= j < i ==> r@[j]@ == v@[j]@,
        decreases v@.len() - i,
    {
        r.push(v[i].clone());
        i = i + 1;
    }
    assert(strings_model(r) =~= strings_model(*v));
    r
}

/// A copy of an expression with the same model.
pub fn clone_nix(v: &NixValue) -> (r: NixValue)
    ensures
        r@ == v@,
    decreases v,
{
    match v {
        NixValue::AttrSet(m) => NixValue::AttrSet(clone_map(m)),
        NixValue::List(l) => {
            let mut r: Vec<NixValue> = Vec::new();
            let mut i: usize = 0;
            while i < l.len()
                invariant
                    *v == NixValue::List(*l),
                    i <= l@.len(),
                    r@.len() == i,
                    forall|j: int| 0 <= j < i ==> r@[j]@ == l@[j]@,
                decreases l@.len() - i,
            {
                proof {
                    assert(decreases_to!(*v => (*v)->List_0));
                    assert(decreases_to!((*v)->List_0 => l@));
                    assert(decreases_to!(l@ => l@[i as int]));
                }
                r.push(clone_nix(&l[i]));
                i = i + 1;
            }
            let res = NixValue::List(r);
            assert(res@ =~= v@) by {
                assert(list_model(r@) =~= list_model(l@));
                lemma_list_model(r);
                lemma_list_model(*l);
            }
            res
        },
        NixValue::Str(s) => {
            let r = NixValue::Str(s.clone());
            assert(r@ == v@);
            r
        },
        NixValue::IndStr(f) => {
            let mut r: Vec<StringFragment> = Vec::new();
            let mut i: usize = 0;
            while i < f.len()
                invariant
                    *v == NixValue::IndStr(*f),
                    i <= f@.len(),
                    r@.len() == i,
                    forall|j: int| 0 <= j < i ==> r@[j]@ == f@[j]@,
                decreases f@.len() - i,
            {
                proof {
                    assert(decreases_to!(*v => (*v)->IndStr_0));
                    assert(decreases_to!((*v)->IndStr_0 => f@));
                    assert(decreases_to!(f@ => f@[i as int]));
                }
                let c = match &f[i] {
                    StringFragment::Text(t) => StringFragment::Text(t.clone()),
                    StringFragment::Antiquotation(b) => StringFragment::Antiquotation(
                        Box::new(clone_nix(b)),
                    ),
                };
                r.push(c);
                i = i + 1;
            }
            let res = NixValue::IndStr(r);
            assert(res@ =~= v@) by {
                assert(frags_model(r@) =~= frags_model(f@));
                lemma_indstr_model(r);
                lemma_indstr_model(*f);
            }
            res
        },
        NixValue::Int(n) => NixValue::Int(*n),
        NixValue::Float(s) => NixValue::Float(s.clone()),
        NixValue::Bool(b) => NixValue::Bool(*b),
        NixValue::Identifier(s) => NixValue::Identifier(s.clone()),
        NixValue::Group(b) => NixValue::Group(Box::new(clone_nix(b))),
        NixValue::LetIn(m, b) => NixValue::LetIn(clone_map(m), Box::new(clone_nix(b))),
        NixValue::With(a, b) => NixValue::With(Box::new(clone_nix(a)), Box::new(clone_nix(b))),
        NixValue::Lambda(l) => {
            let c = match l {
                LambdaTypes::Nofix(a, b) => LambdaTypes::Nofix(
                    clone_strings(a),
                    Box::new(clone_nix(b)),
                ),
                LambdaTypes::Suffix(a, n, b) => LambdaTypes::Suffix(
                    clone_strings(a),
                    n.clone(),
                    Box::new(clone_nix(b)),
                ),
                LambdaTypes::Prefix(a, n, b) => LambdaTypes::Prefix(
                    clone_strings(a),
                    n.clone(),
                    Box::new(clone_nix(b)),
                ),
                LambdaTypes::Single(n, b) => LambdaTypes::Single(n.clone(), Box::new(clone_nix(b))),
            };
            assert(c@ == l@);
            NixValue::Lambda(c)
        },
        NixValue::Apply(a, b) => NixValue::Apply(Box::new(clone_nix(a)), Box::new(clone_nix(b))),
        NixValue::Path(s) => NixValue::Path(s.clone()),
        NixValue::Antiquotation(b) => NixValue::Antiquotation(Box::new(clone_nix(b))),
        NixValue::BinaryOp { left, operator, right } => NixValue::BinaryOp {
            left: Box::new(clone_nix(left)),
            operator: *operator,
            right: Box::new(clone_nix(right)),
        },
    }
}

/// A copy of a map with the same model.
pub fn clone_map(m: &AttrMap) -> (r: AttrMap)
    ensures
        r@ == m@,
    decreases m,
{
    let mut r: Vec<(String, NixValue)> = Vec::new();
    let mut i: usize = 0;
    while i < m.entries.len()
        invariant
            i <= m.entries@.len(),
            r@.len() == i,
            forall|j: int| 0 <= j < i ==> r@[j].0@ == m.entries@[j].0@ && r@[j].1@ == m.entries@[j].1@,
        decreases m.entries@.len() - i,
    {
        let e = &m.entries[i];
        r.push((e.0.clone(), clone_nix(&e.1)));
        i = i + 1;
    }
    let res = AttrMap { entries: r };
    assert(res@ =~= m@);
    res
}

impl Clone for NixValue {
    fn clone(&self) -> (r: Self)
        ensures
            r@ == self@,
    {
        clone_nix(self)
    }
}

impl Clone for AttrMap {
    fn clone(&self) -> (r: Self)
        ensures
            r@ == self@,
    {
        clone_map(self)
    }
}

// ---------------------------------------------------------------------------
// Map operations
// ---------------------------------------------------------------------------

impl AttrMap {
    /// An empty map.
    pub fn new() -> (r: AttrMap)
        ensures
            r@ == Seq::<(Seq<char>, SNix)>::empty(),
    {
        let r = AttrMap { entries: Vec::new() };
        assert(r@ =~= Seq::<(Seq<char>, SNix)>::empty());
        r
    }

    /// A map holding the given pairs; a later pair with an existing key
    /// replaces the value in place.
    pub fn from_pairs(pairs: Vec<(String, NixValue)>) -> (r: AttrMap)
        ensures
            r@ == pairs_map(pairs@),
            keys_unique(r@),
    {
        let mut r = AttrMap::new();
        let mut pairs = pairs;
        let ghost orig = pairs@;
        let ghost mut i: int = 0;
        assert(orig.take(0) =~= Seq::<(String, NixValue)>::empty());
        assert(orig.skip(0) =~= orig);
        while pairs.len() > 0
            invariant
                0 <= i <= orig.len(),
                pairs@ == orig.skip(i),
                r@ == pairs_map(orig.take(i)),
                keys_unique(r@),
            decreases pairs@.len(),
        {
            let (k, v) = pairs.remove(0);
            proof {
                assert(orig.skip(i)[0] == orig[i]);
                assert(orig.skip(i).remove(0) =~= orig.skip(i + 1));
                assert(orig.take(i + 1).drop_last() =~= orig.take(i));
                assert(orig.take(i + 1).last() == orig[i]);
                lemma_map_insert_unique(r@, k@, v@);
            }
            r.insert(k, v);
            proof {
                i = i + 1;
            }
        }
        assert(orig.take(i) =~= orig);
        r
    }

    /// Position of the entry with key `k`, searching from the end.
    pub fn find(&self, k: &str) -> (r: Option<usize>)
        ensures
            match r {
                Some(i) => key_index(self@, k@) == Some(i as int) && i < self@.len()
                    && self@[i as int].0 == k@,
                None => key_index(self@, k@) is None,
            },
    {
        proof {
            lemma_key_index(self@, k@);
        }
        let mut j = self.entries.len();
        assert(self@.subrange(0, j as int) =~= self@);
        while j > 0
            invariant
                j <= self.entries@.len(),
                key_index(self@, k@) == key_index(self@.subrange(0, j as int), k@),
            decreases j,
        {
            let ghost sub = self@.subrange(0, j as int);
            if str_equal(self.entries[j - 1].0.as_str(), k) {
                assert(sub.last().0 == k@);
                return Some(j - 1);
            }
            assert(sub.drop_last() =~= self@.subrange(0, j - 1));
            j = j - 1;
        }
        None
    }

    /// The value under key `k`.
    pub fn get(&self, k: &str) -> (r: Option<&NixValue>)
        ensures
            match r {
                Some(v) => map_get(self@, k@) == Some(v@),
                None => map_get(self@, k@) is None,
            },
    {
        match self.find(k) {
            Some(i) => {
                assert(self@[i as int].1 == self.entries@[i as int].1@);
                Some(&self.entries[i].1)
            },
            None => None,
        }
    }

    /// Insertion as `IndexMap::insert` does it: an existing key keeps its
    /// place and gets the new value, a new key goes to the end.
    pub fn insert(&mut self, k: String, v: NixValue)
        ensures
            final(self)@ == map_insert(old(self)@, k@, v@),
    {
        match self.find(k.as_str()) {
            Some(i) => {
                let ghost kk = k@;
                let ghost vv = v@;
                self.entries.set(i, (k, v));
                assert(self@ =~= map_insert(old(self)@, kk, vv));
            },
            None => {
                let ghost kk = k@;
                let ghost vv = v@;
                self.entries.push((k, v));
                assert(self@ =~= map_insert(old(self)@, kk, vv));
            },
        }
    }

    /// Removal as `IndexMap::shift_remove` does it: the other entries keep
    /// their order. Returns whether the key was there.
    pub fn shift_remove(&mut self, k: &str) -> (r: bool)
        ensures
            final(self)@ == map_remove(old(self)@, k@),
            r == (key_index(old(self)@, k@) is Some),
    {
        match self.find(k) {
            Some(i) => {
                self.entries.remove(i);
                assert(self@ =~= map_remove(old(self)@, k@));
                true
            },
            None => false,
        }
    }

    pub fn len(&self) -> (r: usize)
        ensures
            r == self@.len(),
    {
        self.entries.len()
    }

    pub fn is_empty(&self) -> (r: bool)
        ensures
            r == (self@.len() == 0),
    {
        self.entries.len() == 0
    }
}

/// Whether two `str`s hold the same text.
pub fn str_equal(a: &str, b: &str) -> (r: bool)
    ensures
        r == (a@ == b@),
{
    let x = crate::text::string_of(a);
    let y = crate::text::string_of(b);
    x == y
}

} // verus!
