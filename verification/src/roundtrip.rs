//! Reading back what the formatter wrote: for plain values (attribute sets
//! with simple keys, lists of at most one element, integers, booleans,
//! strings without quotes or braces, and simple names), reading the
//! formatted text gives the value again.
use vstd::prelude::*;
use crate::grammar::{
    formals_loop, formal_end, p_lambda, lambda_head, p_lambda_after, p_lambda_body, make_lambda,
    LamType, p_path, path_end, at, skip_ws, skip_from, ws_end, brace_end, num_end, dec_value, quote_at, key_end, ident_scan,
    id_char, scout_alias_end, alias_end, scout_name_end, lam_ahead, lam_brace_ahead, p_value, p_value_tail, p_expr,
    p_expr_tail, p_app, p_app_tail, p_single, p_number, p_string, p_ident, p_attr_set,
    p_attr_loop, p_list, p_list_loop, op_at, app_stop, step, lemma_skip, p_with, p_let_loop,
    let_key_end,
};
use crate::text::{is_ws, is_alnum, is_digit, decimal, digit_char};
use crate::value::{SNix, SLambda, Operator, keys_unique, map_insert, key_index, lemma_key_index};
use crate::sort::{
    sort_tree, lemma_sort_tree_idempotent, sort_names, ins_name, text_lt, text_lt_from, sorted_vals,
    sorted_items,
};
use crate::flattening::{flat_tree, expand_tree, lemma_flat_idempotent};
use crate::expanded::{
    is_expanded, entries_expanded, items_expanded, atomic, keys_ok, lemma_expand_idempotent, lemma_expand_makes, lemma_expand_fix, lemma_sort_keeps_expanded,
};
use crate::format::{
    fmt, float_text, op_text, spaces, binding_line, binding_lines, entry_texts, item_line, item_lines, item_texts, all_true,
    arg_line, arg_lines, args_block,
};

verus! {

// ---------------------------------------------------------------------------
// Plain values
// ---------------------------------------------------------------------------

/// An ASCII letter, digit, `_` or `-`.
pub open spec fn name_char(c: char) -> bool {
    ('a' <= c && c <= 'z') || ('A' <= c && c <= 'Z') || ('0' <= c && c <= '9') || c == '_' || c
        == '-'
}

/// A character that may stand in a key: not whitespace, `=` or a brace.
pub open spec fn key_char(c: char) -> bool {
    !is_ws(c) && c != '=' && c != '{' && c != '}'
}

/// Whether `k` holds an odd number of quotes.
pub open spec fn quotes_odd(k: Seq<char>) -> bool
    decreases k.len(),
{
    if k.len() == 0 {
        false
    } else {
        (k[0] == '"') != quotes_odd(k.drop_first())
    }
}

/// A key that starts with a name character, a dot or a quote, whose
/// characters are no whitespace, `=` or braces, and whose quotes pair up
/// (such as `a.b` or `fileSystems."/boot"`), other than `inherit`.
pub open spec fn plain_key(k: Seq<char>) -> bool {
    &&& k.len() > 0
    &&& (name_char(k[0]) || k[0] == '.' || k[0] == '"')
    &&& forall|j: int| 0 <= j < k.len() ==> key_char(#[trigger] k[j])
    &&& !quotes_odd(k)
    &&& k != "inherit"@
}

/// A name that starts with an ASCII letter, is made of name characters, and
/// is not `true`, `false`, `let` or `with`.
pub open spec fn plain_ident(w: Seq<char>) -> bool {
    &&& w.len() > 0
    &&& (('a' <= w[0] && w[0] <= 'z') || ('A' <= w[0] && w[0] <= 'Z'))
    &&& forall|j: int| 0 <= j < w.len() ==> name_char(#[trigger] w[j])
    &&& w != "true"@
    &&& w != "false"@
    &&& w != "let"@
    &&& w != "with"@
}

/// An argument name made of name characters, starting with a letter or `_`.
pub open spec fn plain_arg(a: Seq<char>) -> bool {
    &&& a.len() > 0
    &&& (('a' <= a[0] && a[0] <= 'z') || ('A' <= a[0] && a[0] <= 'Z') || a[0] == '_')
    &&& forall|j: int| 0 <= j < a.len() ==> name_char(#[trigger] a[j])
}

/// The arguments of a plain function head: plain names, then `...`.
pub open spec fn plain_args(args: Seq<Seq<char>>) -> bool {
    &&& args.len() >= 1
    &&& args.last() == "..."@
    &&& forall|j: int| 0 <= j < args.len() - 1 ==> plain_arg(#[trigger] args[j])
}

/// The name of a one-argument function: ASCII letters and digits, starting
/// with a letter.
pub open spec fn plain_alias(a: Seq<char>) -> bool {
    &&& a.len() > 0
    &&& (('a' <= a[0] && a[0] <= 'z') || ('A' <= a[0] && a[0] <= 'Z'))
    &&& forall|j: int| 0 <= j < a.len() ==> is_alnum(#[trigger] a[j]) && a[j] <= '\u{7f}'
}

/// A path that starts with `.`, `/` or `~` and holds no whitespace, `;` or
/// braces.
pub open spec fn plain_path(p: Seq<char>) -> bool {
    &&& p.len() > 0
    &&& (p[0] == '.' || p[0] == '/' || p[0] == '~')
    &&& forall|j: int| 0 <= j < p.len() ==> !is_ws(#[trigger] p[j]) && p[j] != ';' && p[j] != '{'
        && p[j] != '}'
}

/// The change in the count of open braces that a character makes.
pub open spec fn brace_step(c: char) -> int {
    if c == '{' {
        1
    } else if c == '}' {
        -1
    } else {
        0
    }
}

/// The count of open braces after reading `t` from `depth`, if it stays at
/// one or more all the way.
pub open spec fn brace_walk(t: Seq<char>, depth: int) -> Option<int>
    decreases t.len(),
{
    if t.len() == 0 {
        Some(depth)
    } else if depth + brace_step(t[0]) < 1 {
        None
    } else {
        brace_walk(t.drop_first(), depth + brace_step(t[0]))
    }
}

/// A string's text without quotes, whose braces pair up in order.
pub open spec fn plain_text(t: Seq<char>) -> bool {
    &&& forall|j: int| 0 <= j < t.len() ==> #[trigger] t[j] != '"'
    &&& brace_walk(t, 1) == Some(1int)
}

/// A decimal written as it is printed: digits, a dot and digits, without
/// leading zeros before the dot (but one `0`) and without trailing zeros
/// after it.
pub open spec fn plain_float(t: Seq<char>) -> bool {
    &&& float_text(t) == t
    &&& exists|p: int|
        0 < p < t.len() - 1 && t[p] == '.' && forall|k: int|
            0 <= k < t.len() && k != p ==> is_digit(#[trigger] t[k])
}

/// Values built from attribute sets with distinct plain keys, lists of at
/// most one element, functions with a plain argument list ending in `...`
/// (also with a plain name and `@` before or after it), one-argument
/// functions with a plain name, integers, decimals written as
/// they are printed, booleans, plain strings (no quotes inside, braces that
/// pair up), plain names, plain paths, groups around a plain value that does
/// not end with a path, `with` over plain values, and applications of a
/// plain value to plain arguments (an argument is not an application itself
/// and does not start with `/`, and only the last may be a function or a
/// `with`), operators other than `/` between them, grouped to the left, and
/// `let` blocks with plain bindings (no key `in`) and a plain body.
pub open spec fn plain(v: SNix) -> bool
    decreases v, 1int,
{
    match v {
        SNix::Int(_) => true,
        SNix::Float(t) => plain_float(t),
        SNix::Bool(_) => true,
        SNix::Group(b) => plain(*b) && !ends_in_path(*b),
        SNix::With(a, b) => plain(*a) && plain(*b),
        SNix::LetIn(m, b) => keys_unique(m) && all_true(entries_plain(m)) && no_in_key(m) && plain(
            *b,
        ),
        SNix::Apply(a, b) => plain(*a) && plain(*b) && !greedy(*a) && !(*b is Apply)
            && !starts_with_slash(*b) && !(*a is BinaryOp) && !(*b is BinaryOp),
        SNix::BinaryOp(l, op, r) => plain(*l) && plain(*r) && op != Operator::Divide && !(
        *r is BinaryOp) && !greedy_expr(*l),
        SNix::Str(t) => plain_text(t),
        SNix::Identifier(w) => plain_ident(w),
        SNix::AttrSet(m) => keys_unique(m) && all_true(entries_plain(m)),
        SNix::List(l) => l.len() <= 1 && all_true(items_plain(l)),
        SNix::Path(p) => plain_path(p),
        SNix::Lambda(SLambda::Nofix(args, b)) => plain_args(args) && plain(*b),
        SNix::Lambda(SLambda::Single(n, b)) => plain_alias(n) && plain(*b),
        SNix::Lambda(SLambda::Prefix(args, n, b)) => plain_args(args) && plain_alias(n) && plain(*b),
        SNix::Lambda(SLambda::Suffix(args, n, b)) => plain_args(args) && plain_alias(n) && n
            != "true"@ && n != "false"@ && n != "let"@ && n != "with"@ && plain(*b),
        _ => false,
    }
}

pub open spec fn entries_plain(m: Seq<(Seq<char>, SNix)>) -> Seq<bool>
    decreases m, 0int,
{
    Seq::new(
        m.len(),
        |i: int| if 0 <= i < m.len() { plain_key(m[i].0) && plain(m[i].1) } else { true },
    )
}

pub open spec fn items_plain(l: Seq<SNix>) -> Seq<bool>
    decreases l, 0int,
{
    Seq::new(l.len(), |i: int| if 0 <= i < l.len() { plain(l[i]) } else { true })
}

// ---------------------------------------------------------------------------
// Pieces of text
// ---------------------------------------------------------------------------

/// `t` stands in `s` at `i`.
pub open spec fn text_at(s: Seq<char>, i: int, t: Seq<char>) -> bool {
    0 <= i && i + t.len() <= s.len() && s.subrange(i, i + t.len()) == t
}

proof fn lemma_text_at_char(s: Seq<char>, i: int, t: Seq<char>, j: int)
    requires
        text_at(s, i, t),
        0 <= j < t.len(),
    ensures
        s[i + j] == t[j],
{
    assert(s.subrange(i, i + t.len())[j] == s[i + j]);
}

/// Where `a + b` stands, `a` stands, and `b` right after it.
proof fn lemma_text_at_split(s: Seq<char>, i: int, a: Seq<char>, b: Seq<char>)
    requires
        text_at(s, i, a + b),
    ensures
        text_at(s, i, a),
        text_at(s, i + a.len(), b),
{
    assert(s.subrange(i, i + a.len()) =~= (a + b).subrange(0, a.len() as int));
    assert((a + b).subrange(0, a.len() as int) =~= a);
    assert(s.subrange(i + a.len(), i + a.len() + b.len()) =~= (a + b).subrange(
        a.len() as int,
        (a + b).len() as int,
    ));
    assert((a + b).subrange(a.len() as int, (a + b).len() as int) =~= b);
}

proof fn lemma_spaces_at(s: Seq<char>, i: int, d: nat)
    requires
        text_at(s, i, spaces(d)),
    ensures
        forall|j: int| i <= j < i + 2 * d ==> #[trigger] s[j] == ' ',
{
    assert forall|j: int| i <= j < i + 2 * d implies #[trigger] s[j] == ' ' by {
        lemma_text_at_char(s, i, spaces(d), j - i);
    }
}

// ---------------------------------------------------------------------------
// Runs of whitespace
// ---------------------------------------------------------------------------

/// Skipping from `p` over whitespace that runs up to `q` goes on from `q`.
proof fn lemma_skip_run(s: Seq<char>, p: int, q: int)
    requires
        0 <= p <= q <= s.len(),
        forall|j: int| p <= j < q ==> is_ws(#[trigger] s[j]),
    ensures
        skip_ws(s, p) == skip_ws(s, q),
        ws_end(s, p) == ws_end(s, q),
    decreases q - p,
{
    if p < q {
        assert(is_ws(s[p]));
        lemma_skip_run(s, p + 1, q);
        assert(skip_from(s, p, false) == skip_from(s, p + 1, false));
    }
}

/// Skipping stops at a character that is neither whitespace nor `#`.
proof fn lemma_skip_at(s: Seq<char>, p: int)
    requires
        0 <= p < s.len(),
        !is_ws(s[p]),
        s[p] != '#',
    ensures
        skip_ws(s, p) == p,
        ws_end(s, p) == p,
{
}

/// Right after a value stands `;`, a space, a newline or the end, and past
/// whitespace only `;`, `]` or the end.
pub open spec fn ends_value(s: Seq<char>, j: int) -> bool {
    let k = ws_end(s, j);
    &&& skip_ws(s, j) == k
    &&& (at(s, k) is None || at(s, k) == Some(';') || at(s, k) == Some(']') || at(s, k) == Some(
        ')',
    ))
    &&& (at(s, j) is None || at(s, j) == Some(';') || at(s, j) == Some(' ') || at(s, j) == Some(
        '\n',
    ) || at(s, j) == Some(')'))
}

/// What may follow the text of a single value that is not a function or a
/// `with`: the end, `;`, a space, a newline or `)`, and after whitespace no
/// `@`, `:` or `,` that would make a name the head of a function.
pub open spec fn ends_single(s: Seq<char>, j: int) -> bool {
    let k = ws_end(s, j);
    &&& (at(s, j) is None || at(s, j) == Some(';') || at(s, j) == Some(' ') || at(s, j) == Some(
        '\n',
    ) || at(s, j) == Some(')'))
    &&& at(s, k) != Some('@') && at(s, k) != Some(':') && at(s, k) != Some(',')
}

/// No binding of a `let` block is named `in`.
pub open spec fn no_in_key(m: Seq<(Seq<char>, SNix)>) -> bool {
    forall|j: int| 0 <= j < m.len() ==> #[trigger] m[j].0 != "in"@
}

/// Reading `v` takes in all that follows: a function, a `with`, or an
/// application whose last argument is one.
pub open spec fn greedy(v: SNix) -> bool
    decreases v,
{
    match v {
        SNix::Lambda(_) => true,
        SNix::With(_, _) => true,
        SNix::LetIn(_, _) => true,
        SNix::Apply(_, b) => greedy(*b),
        _ => false,
    }
}

/// Reading `v` as an operand takes in all that follows: its last operand is
/// greedy.
pub open spec fn greedy_expr(v: SNix) -> bool {
    match v {
        SNix::BinaryOp(_, _, r) => greedy(*r),
        _ => greedy(v),
    }
}

/// What follows a value where reading an application stops: nothing, or a
/// character that ends an application, after whitespace only.
pub open spec fn stops_app(s: Seq<char>, e: int) -> bool {
    let k = ws_end(s, e);
    &&& skip_ws(s, e) == k
    &&& (at(s, k) is None || app_stop(s[k]))
}

/// A path that starts with `/`, which reads as a division after a value.
pub open spec fn starts_with_slash(v: SNix) -> bool {
    v matches SNix::Path(p) && p.len() > 0 && p[0] == '/'
}

/// Where reading an application stops: after the last argument as a single
/// value is read.
pub open spec fn app_end(v: SNix, s: Seq<char>, e: int) -> int {
    match v {
        SNix::Apply(_, b) => single_end(*b, s, e),
        _ => single_end(v, s, e),
    }
}

/// The text of `v` ends with a path (which would take in a `)` after it).
pub open spec fn ends_in_path(v: SNix) -> bool
    decreases v,
{
    match v {
        SNix::Path(_) => true,
        SNix::Lambda(SLambda::Nofix(_, b)) => ends_in_path(*b),
        SNix::Lambda(SLambda::Single(_, b)) => ends_in_path(*b),
        SNix::Lambda(SLambda::Prefix(_, _, b)) => ends_in_path(*b),
        SNix::Lambda(SLambda::Suffix(_, _, b)) => ends_in_path(*b),
        SNix::With(_, b) => ends_in_path(*b),
        SNix::LetIn(_, b) => ends_in_path(*b),
        SNix::Apply(_, b) => ends_in_path(*b),
        SNix::BinaryOp(_, _, r) => ends_in_path(*r),
        _ => false,
    }
}

/// A `)` right after the text of `v` closes a group around it.
pub open spec fn closes(v: SNix, s: Seq<char>, e: int) -> bool {
    at(s, e) == Some(')') ==> !ends_in_path(v)
}

// ---------------------------------------------------------------------------
// Numbers
// ---------------------------------------------------------------------------

proof fn lemma_digit_char(d: nat)
    requires
        d < 10,
    ensures
        is_digit(digit_char(d)),
        digit_char(d) as int - '0' as int == d,
{
}

/// The decimal text of `n` is made of digits, is not empty, and has the
/// value `n`.
proof fn lemma_decimal(n: nat)
    ensures
        decimal(n).len() > 0,
        forall|j: int| 0 <= j < decimal(n).len() ==> is_digit(#[trigger] decimal(n)[j]),
        dec_value(decimal(n)) == n,
    decreases n,
{
    if n < 10 {
        lemma_digit_char(n);
        assert(decimal(n).drop_last() =~= Seq::<char>::empty());
        assert(dec_value(decimal(n)) == dec_value(decimal(n).drop_last()) * 10 + ((decimal(n).last() as int
            - '0' as int) as nat));
    } else {
        lemma_decimal(n / 10);
        lemma_digit_char(n % 10);
        let t = decimal(n);
        assert(t.drop_last() =~= decimal(n / 10));
        assert forall|j: int| 0 <= j < t.len() implies is_digit(#[trigger] t[j]) by {
            if j < t.len() - 1 {
                assert(t[j] == decimal(n / 10)[j]);
            }
        }
        assert(dec_value(t) == dec_value(t.drop_last()) * 10 + ((t.last() as int - '0' as int) as nat));
        assert((n / 10) * 10 + n % 10 == n) by (nonlinear_arith);
    }
}

/// Reading digits that run from `p` to `q`, followed by neither a digit nor
/// a dot, ends at `q`.
proof fn lemma_num_run(s: Seq<char>, p: int, q: int)
    requires
        0 <= p <= q <= s.len(),
        forall|j: int| p <= j < q ==> is_digit(#[trigger] s[j]),
        q == s.len() || (!is_digit(s[q]) && s[q] != '.'),
    ensures
        num_end(s, p, false) == (q, false),
    decreases q - p,
{
    if p < q {
        assert(is_digit(s[p]));
        lemma_num_run(s, p + 1, q);
    }
}

proof fn lemma_num_run_from(s: Seq<char>, p: int, q: int, dot: bool)
    requires
        0 <= p <= q <= s.len(),
        forall|j: int| p <= j < q ==> is_digit(#[trigger] s[j]),
        q == s.len() || (!is_digit(s[q]) && (dot || s[q] != '.')),
    ensures
        num_end(s, p, dot) == (q, dot),
    decreases q - p,
{
    if p < q {
        assert(is_digit(s[p]));
        lemma_num_run_from(s, p + 1, q, dot);
    }
}

/// Digits, a dot and digits, followed by neither a digit nor a dot, read as
/// a decimal.
proof fn lemma_float_run(s: Seq<char>, i: int, p: int, e: int)
    requires
        0 <= i < p < e - 1,
        e <= s.len(),
        s[p] == '.',
        forall|j: int| i <= j < e && j != p ==> is_digit(#[trigger] s[j]),
        e == s.len() || (!is_digit(s[e]) && s[e] != '.'),
    ensures
        num_end(s, i, false) == (e, true),
{
    lemma_num_run_from(s, p + 1, e, true);
    assert(num_end(s, p, false) == num_end(s, p + 1, true));
    lemma_num_prefix(s, i, p);
}

/// Reading digits up to `p` without a dot goes on at `p`.
proof fn lemma_num_prefix(s: Seq<char>, i: int, p: int)
    requires
        0 <= i <= p < s.len(),
        forall|j: int| i <= j < p ==> is_digit(#[trigger] s[j]),
    ensures
        num_end(s, i, false) == num_end(s, p, false),
    decreases p - i,
{
    if i < p {
        assert(is_digit(s[i]));
        lemma_num_prefix(s, i + 1, p);
    }
}

// ---------------------------------------------------------------------------
// Braces
// ---------------------------------------------------------------------------

/// Text without braces leaves the count of open braces as it is.
proof fn lemma_brace_run(s: Seq<char>, p: int, q: int, depth: int)
    requires
        0 <= p <= q <= s.len(),
        forall|j: int| p <= j < q ==> #[trigger] s[j] != '{' && s[j] != '}',
    ensures
        brace_end(s, p, depth) == brace_end(s, q, depth),
    decreases q - p,
{
    if p < q {
        assert(s[p] != '{' && s[p] != '}');
        lemma_brace_run(s, p + 1, q, depth);
    }
}

/// Text without braces leaves the count of open braces as it is.
proof fn lemma_no_brace_text(s: Seq<char>, i: int, t: Seq<char>, depth: int)
    requires
        text_at(s, i, t),
        forall|j: int| 0 <= j < t.len() ==> #[trigger] t[j] != '{' && t[j] != '}',
    ensures
        brace_end(s, i, depth) == brace_end(s, i + t.len(), depth),
{
    assert forall|j: int| i <= j < i + t.len() implies #[trigger] s[j] != '{' && s[j] != '}' by {
        lemma_text_at_char(s, i, t, j - i);
    }
    lemma_brace_run(s, i, i + t.len(), depth);
}

/// Reading from a higher count of open braces goes the same way, that much
/// higher.
proof fn lemma_brace_walk_up(t: Seq<char>, d1: int, d2: int)
    requires
        brace_walk(t, d1) is Some,
        d1 <= d2,
    ensures
        brace_walk(t, d2) == Some(brace_walk(t, d1)->Some_0 + d2 - d1),
    decreases t.len(),
{
    if t.len() > 0 {
        lemma_brace_walk_up(t.drop_first(), d1 + brace_step(t[0]), d2 + brace_step(t[0]));
    }
}

/// Text whose braces stay open counts them as it goes.
proof fn lemma_brace_walk_text(s: Seq<char>, i: int, t: Seq<char>, depth: int)
    requires
        text_at(s, i, t),
        depth >= 1,
        brace_walk(t, depth) is Some,
    ensures
        brace_end(s, i, depth) == brace_end(s, i + t.len(), brace_walk(t, depth)->Some_0),
    decreases t.len(),
{
    if t.len() > 0 {
        lemma_text_at_char(s, i, t, 0);
        assert(text_at(s, i + 1, t.drop_first())) by {
            assert(s.subrange(i + 1, i + 1 + t.drop_first().len()) =~= s.subrange(i, i + t.len()).drop_first());
        }
        lemma_brace_walk_text(s, i + 1, t.drop_first(), depth + brace_step(t[0]));
        assert(i + 1 + t.drop_first().len() == i + t.len());
    }
}

proof fn lemma_spaces_no_brace(d: nat)
    ensures
        forall|j: int| 0 <= j < spaces(d).len() ==> #[trigger] spaces(d)[j] != '{' && spaces(d)[j]
            != '}' && is_ws(spaces(d)[j]) && spaces(d)[j] == ' ',
{
}

/// The lines from the `j`-th on of an attribute set at level `e`.
pub open spec fn lines_from(m: Seq<(Seq<char>, SNix)>, e: nat, j: int) -> Seq<char> {
    binding_lines(m, entry_texts(m, e), e).subrange(j, m.len() as int).flatten()
}

proof fn lemma_lines_from_step(m: Seq<(Seq<char>, SNix)>, e: nat, j: int)
    requires
        0 <= j < m.len(),
    ensures
        lines_from(m, e, j) == binding_line(m[j].0, fmt(m[j].1, e), e) + lines_from(m, e, j + 1),
{
    let ls = binding_lines(m, entry_texts(m, e), e);
    let sub = ls.subrange(j, m.len() as int);
    assert(sub.first() == binding_line(m[j].0, fmt(m[j].1, e), e));
    assert(sub.drop_first() =~= ls.subrange(j + 1, m.len() as int));
}

proof fn lemma_lines_braces(m: Seq<(Seq<char>, SNix)>, e: nat, j: int, s: Seq<char>, p: int, depth: int)
    requires
        all_true(entries_plain(m)),
        depth >= 1,
        0 <= j <= m.len(),
        text_at(s, p, lines_from(m, e, j)),
    ensures
        brace_end(s, p, depth) == brace_end(s, p + lines_from(m, e, j).len(), depth),
    decreases m, m.len() - j,
{
    if j < m.len() {
        lemma_lines_from_step(m, e, j);
        assert(entries_plain(m)[j]);
        let k = m[j].0;
        let val = fmt(m[j].1, e);
        reveal_strlit(" = ");
        reveal_strlit(";\n");
        let rest = lines_from(m, e, j + 1);
        assert(binding_line(k, val, e) == spaces(e) + k + " = "@ + val + ";\n"@);
        lemma_text_at_split(s, p, binding_line(k, val, e), rest);
        lemma_text_at_split(s, p, spaces(e) + k + " = "@ + val, ";\n"@);
        lemma_text_at_split(s, p, spaces(e) + k + " = "@, val);
        lemma_text_at_split(s, p, spaces(e) + k, " = "@);
        lemma_text_at_split(s, p, spaces(e), k);
        lemma_spaces_no_brace(e);
        lemma_no_brace_text(s, p, spaces(e), depth);
        let p1 = p + spaces(e).len();
        lemma_no_brace_text(s, p1, k, depth);
        let p2 = p1 + k.len();
        lemma_no_brace_text(s, p2, " = "@, depth);
        let p3 = p2 + 3;
        assert(decreases_to!(m => m[j]));
        assert(decreases_to!(m[j] => m[j].1));
        lemma_fmt_braces(m[j].1, e, s, p3, depth);
        let p4 = p3 + val.len();
        lemma_no_brace_text(s, p4, ";\n"@, depth);
        let p5 = p4 + 2;
        assert(p5 == p + binding_line(k, val, e).len());
        lemma_lines_braces(m, e, j + 1, s, p5, depth);
    } else {
        assert(binding_lines(m, entry_texts(m, e), e).subrange(j, m.len() as int) =~= Seq::<
            Seq<char>,
        >::empty());
    }
}

/// The text of a plain value closes no brace that it did not open.
#[verifier::rlimit(40)]
proof fn lemma_fmt_braces(v: SNix, d: nat, s: Seq<char>, i: int, depth: int)
    requires
        plain(v),
        depth >= 1,
        text_at(s, i, fmt(v, d)),
    ensures
        brace_end(s, i, depth) == brace_end(s, i + fmt(v, d).len(), depth),
    decreases v, 2int,
{
    match v {
        SNix::Int(n) => {
            lemma_decimal(n as nat);
            lemma_no_brace_text(s, i, fmt(v, d), depth);
        },
        SNix::LetIn(m, b) => {
            reveal_strlit("let\n");
            reveal_strlit("in ");
            let x = lines_from(m, d + 1, 0);
            assert(binding_lines(m, entry_texts(m, d + 1), d + 1).subrange(0, m.len() as int)
                =~= binding_lines(m, entry_texts(m, d + 1), d + 1));
            let fb = fmt(*b, d + 1);
            let t = fmt(v, d);
            assert(t == "let\n"@ + x + spaces(d) + "in "@ + fb);
            lemma_text_at_split(s, i, "let\n"@ + x + spaces(d) + "in "@, fb);
            lemma_text_at_split(s, i, "let\n"@ + x + spaces(d), "in "@);
            lemma_text_at_split(s, i, "let\n"@ + x, spaces(d));
            lemma_text_at_split(s, i, "let\n"@, x);
            lemma_no_brace_text(s, i, "let\n"@, depth);
            assert(decreases_to!(v => m));
            lemma_lines_braces(m, d + 1, 0, s, i + 4, depth);
            lemma_spaces_no_brace(d);
            lemma_no_brace_text(s, i + 4 + x.len(), spaces(d), depth);
            lemma_no_brace_text(s, i + 4 + x.len() + spaces(d).len(), "in "@, depth);
            lemma_fmt_braces(*b, d + 1, s, i + 4 + x.len() + spaces(d).len() + 3, depth);
        },
        SNix::BinaryOp(l, op, r) => {
            let fl = fmt(*l, 0);
            let ot = op_text(op);
            let fr = fmt(*r, d);
            let t = fmt(v, d);
            assert(t == fl + ot + fr);
            lemma_text_at_split(s, i, fl + ot, fr);
            lemma_text_at_split(s, i, fl, ot);
            lemma_fmt_braces(*l, 0, s, i, depth);
            lemma_op_text(op);
            lemma_no_brace_text(s, i + fl.len(), ot, depth);
            lemma_fmt_braces(*r, d, s, i + fl.len() + ot.len(), depth);
        },
        SNix::Apply(a, b) => {
            reveal_strlit(" ");
            let fa = fmt(*a, d + 1);
            let fb = fmt(*b, d);
            let t = fmt(v, d);
            assert(t == fa + " "@ + fb);
            lemma_text_at_split(s, i, fa + " "@, fb);
            lemma_text_at_split(s, i, fa, " "@);
            lemma_fmt_braces(*a, d + 1, s, i, depth);
            lemma_no_brace_text(s, i + fa.len(), " "@, depth);
            lemma_fmt_braces(*b, d, s, i + fa.len() + 1, depth);
        },
        SNix::With(a, b) => {
            reveal_strlit("with ");
            reveal_strlit("; ");
            let fa = fmt(*a, 0);
            let fb = fmt(*b, d);
            let t = fmt(v, d);
            assert(t == "with "@ + fa + "; "@ + fb);
            lemma_text_at_split(s, i, "with "@ + fa + "; "@, fb);
            lemma_text_at_split(s, i, "with "@ + fa, "; "@);
            lemma_text_at_split(s, i, "with "@, fa);
            lemma_no_brace_text(s, i, "with "@, depth);
            lemma_fmt_braces(*a, 0, s, i + 5, depth);
            lemma_no_brace_text(s, i + 5 + fa.len(), "; "@, depth);
            lemma_fmt_braces(*b, d, s, i + 7 + fa.len(), depth);
        },
        SNix::Group(b) => {
            reveal_strlit("(");
            reveal_strlit(")");
            let fb = fmt(*b, d);
            let t = fmt(v, d);
            assert(t == "("@ + fb + ")"@);
            lemma_text_at_split(s, i, "("@ + fb, ")"@);
            lemma_text_at_split(s, i, "("@, fb);
            lemma_text_at_char(s, i, t, 0);
            lemma_text_at_char(s, i, t, t.len() - 1);
            lemma_fmt_braces(*b, d, s, i + 1, depth);
            assert(brace_end(s, i, depth) == brace_end(s, i + 1, depth));
            assert(brace_end(s, i + 1 + fb.len(), depth) == brace_end(s, i + t.len(), depth));
        },
        SNix::Float(x) => {
            let p = choose|p: int|
                0 < p < x.len() - 1 && x[p] == '.' && forall|k: int|
                    0 <= k < x.len() && k != p ==> is_digit(#[trigger] x[k]);
            assert forall|k: int| 0 <= k < x.len() implies x[k] != '{' && x[k] != '}' by {
                if k != p {
                    assert(is_digit(x[k]));
                }
            }
            lemma_no_brace_text(s, i, fmt(v, d), depth);
        },
        SNix::Bool(b) => {
            reveal_strlit("true");
            reveal_strlit("false");
            lemma_no_brace_text(s, i, fmt(v, d), depth);
        },
        SNix::Str(t) => {
            reveal_strlit("\"");
            let q = "\""@;
            assert(fmt(v, d) == q + t + q);
            lemma_text_at_split(s, i, q + t, q);
            lemma_text_at_split(s, i, q, t);
            lemma_no_brace_text(s, i, q, depth);
            lemma_brace_walk_up(t, 1, depth);
            lemma_brace_walk_text(s, i + 1, t, depth);
            lemma_no_brace_text(s, i + 1 + t.len(), q, depth);
        },
        SNix::Identifier(w) => {
            lemma_no_brace_text(s, i, fmt(v, d), depth);
        },
        SNix::AttrSet(m) => {
            if m.len() == 0 {
                reveal_strlit("{ }");
                lemma_text_at_char(s, i, fmt(v, d), 0);
                lemma_text_at_char(s, i, fmt(v, d), 1);
                lemma_text_at_char(s, i, fmt(v, d), 2);
                assert(brace_end(s, i + 2, depth + 1) == brace_end(s, i + 3, depth));
                assert(brace_end(s, i + 1, depth + 1) == brace_end(s, i + 2, depth + 1));
            } else {
                reveal_strlit("{\n");
                reveal_strlit("}");
                let x = lines_from(m, d + 1, 0);
                assert(binding_lines(m, entry_texts(m, d + 1), d + 1).subrange(0, m.len() as int)
                    =~= binding_lines(m, entry_texts(m, d + 1), d + 1));
                assert(fmt(v, d) == "{\n"@ + x + spaces(d) + "}"@);
                lemma_text_at_split(s, i, "{\n"@ + x + spaces(d), "}"@);
                lemma_text_at_split(s, i, "{\n"@ + x, spaces(d));
                lemma_text_at_split(s, i, "{\n"@, x);
                lemma_text_at_char(s, i, "{\n"@, 0);
                lemma_text_at_char(s, i, "{\n"@, 1);
                assert(brace_end(s, i, depth) == brace_end(s, i + 1, depth + 1));
                assert(brace_end(s, i + 1, depth + 1) == brace_end(s, i + 2, depth + 1));
                assert(decreases_to!(v => m));
                lemma_lines_braces(m, d + 1, 0, s, i + 2, depth + 1);
                let q = i + 2 + x.len();
                lemma_spaces_no_brace(d);
                lemma_no_brace_text(s, q, spaces(d), depth + 1);
                let r = q + spaces(d).len();
                lemma_text_at_char(s, r, "}"@, 0);
                assert(brace_end(s, r, depth + 1) == brace_end(s, r + 1, depth));
            }
        },
        SNix::List(l) => {
            if l.len() == 0 {
                reveal_strlit("[ ]");
                lemma_no_brace_text(s, i, fmt(v, d), depth);
            } else {
                reveal_strlit("[\n");
                reveal_strlit("]");
                reveal_strlit("\n");
                let its = item_lines(item_texts(l, d + 1), d + 1);
                let y = fmt(l[0], d + 1);
                assert(its.len() == 1);
                assert(its.drop_first() =~= Seq::<Seq<char>>::empty());
                assert(its.flatten() == its[0] + its.drop_first().flatten());
                assert(its.flatten() =~= spaces(d + 1) + y + "\n"@);
                assert(fmt(v, d) == "[\n"@ + (spaces(d + 1) + y + "\n"@) + spaces(d) + "]"@);
                lemma_text_at_split(s, i, "[\n"@ + (spaces(d + 1) + y + "\n"@) + spaces(d), "]"@);
                lemma_text_at_split(s, i, "[\n"@ + (spaces(d + 1) + y + "\n"@), spaces(d));
                lemma_text_at_split(s, i, "[\n"@, spaces(d + 1) + y + "\n"@);
                let p1 = i + 2;
                lemma_text_at_split(s, p1, spaces(d + 1) + y, "\n"@);
                lemma_text_at_split(s, p1, spaces(d + 1), y);
                lemma_spaces_no_brace(d);
                lemma_spaces_no_brace(d + 1);
                lemma_no_brace_text(s, i, "[\n"@, depth);
                lemma_no_brace_text(s, p1, spaces(d + 1), depth);
                let p2 = p1 + spaces(d + 1).len();
                assert(decreases_to!(v => l));
                assert(decreases_to!(l => l[0]));
                assert(items_plain(l)[0]);
                lemma_fmt_braces(l[0], d + 1, s, p2, depth);
                let p3 = p2 + y.len();
                lemma_no_brace_text(s, p3, "\n"@, depth);
                lemma_no_brace_text(s, p3 + 1, spaces(d), depth);
                lemma_no_brace_text(s, p3 + 1 + spaces(d).len(), "]"@, depth);
            }
        },
        SNix::Path(x) => {
            lemma_no_brace_text(s, i, fmt(v, d), depth);
        },
        SNix::Lambda(SLambda::Single(n, b)) => {
            reveal_strlit(": ");
            let fb = fmt(*b, d);
            assert(fmt(v, d) == n + ": "@ + fb);
            lemma_text_at_split(s, i, n + ": "@, fb);
            lemma_text_at_split(s, i, n, ": "@);
            assert forall|k: int| 0 <= k < n.len() implies #[trigger] n[k] != '{' && n[k] != '}' by {
                assert(is_alnum(n[k]) && n[k] <= '\u{7f}');
            }
            lemma_no_brace_text(s, i, n, depth);
            lemma_no_brace_text(s, i + n.len(), ": "@, depth);
            assert(decreases_to!(v => b));
            lemma_fmt_braces(*b, d, s, i + n.len() + 2, depth);
        },
        SNix::Lambda(SLambda::Nofix(args, b)) => {
            assert(decreases_to!(v => b));
            lemma_head_braces(args, *b, d, s, i, depth);
        },
        SNix::Lambda(SLambda::Suffix(args, n, b)) => {
            assert(decreases_to!(v => b));
            lemma_suffix_braces(args, n, *b, d, s, i, depth);
        },
        SNix::Lambda(SLambda::Prefix(args, n, b)) => {
            reveal_strlit(" @ ");
            let w = SNix::Lambda(SLambda::Nofix(args, b));
            assert(fmt(v, d) == n + " @ "@ + fmt(w, d));
            lemma_text_at_split(s, i, n + " @ "@, fmt(w, d));
            lemma_text_at_split(s, i, n, " @ "@);
            assert forall|k: int| 0 <= k < n.len() implies #[trigger] n[k] != '{' && n[k] != '}' by {
                assert(is_alnum(n[k]) && n[k] <= '\u{7f}');
            }
            lemma_no_brace_text(s, i, n, depth);
            lemma_no_brace_text(s, i + n.len(), " @ "@, depth);
            assert(decreases_to!(v => b));
            lemma_head_braces(args, *b, d, s, i + n.len() + 3, depth);
        },
        _ => {},
    }
}

/// The text of a plain function head with its body closes no brace that it
/// did not open.
proof fn lemma_head_braces(args: Seq<Seq<char>>, b: SNix, d: nat, s: Seq<char>, i: int, depth: int)
    requires
        plain_args(args),
        plain(b),
        depth >= 1,
        text_at(s, i, fmt(SNix::Lambda(SLambda::Nofix(args, Box::new(b))), d)),
    ensures
        brace_end(s, i, depth) == brace_end(
            s,
            i + fmt(SNix::Lambda(SLambda::Nofix(args, Box::new(b))), d).len(),
            depth,
        ),
    decreases b, 3int,
{
    reveal_strlit("{\n");
    reveal_strlit("...\n");
    reveal_strlit("}: ");
    lemma_lambda_at(args, b, d, s, i);
    let a = args_from(args, d + 1, 0);
    let p1 = i + 2 + a.len();
    let p2 = p1 + 2 * (d + 1);
    let p3 = p2 + 4;
    let p4 = p3 + 2 * d;
    lemma_text_at_char(s, i, "{\n"@, 0);
    lemma_text_at_char(s, i, "{\n"@, 1);
    assert(brace_end(s, i, depth) == brace_end(s, i + 1, depth + 1));
    assert(brace_end(s, i + 1, depth + 1) == brace_end(s, i + 2, depth + 1));
    lemma_args_no_brace(args, d + 1, 0);
    lemma_no_brace_text(s, i + 2, a, depth + 1);
    lemma_spaces_no_brace(d + 1);
    lemma_spaces_no_brace(d);
    lemma_no_brace_text(s, p1, spaces(d + 1), depth + 1);
    lemma_no_brace_text(s, p2, "...\n"@, depth + 1);
    lemma_no_brace_text(s, p3, spaces(d), depth + 1);
    lemma_text_at_split(s, p4, "}: "@, fmt(b, d));
    lemma_text_at_char(s, p4, "}: "@, 0);
    assert(brace_end(s, p4, depth + 1) == brace_end(s, p4 + 1, depth));
    reveal_strlit(": ");
    lemma_text_at_char(s, p4, "}: "@, 1);
    lemma_text_at_char(s, p4, "}: "@, 2);
    assert(s.subrange(p4 + 1, p4 + 3) =~= ": "@);
    lemma_no_brace_text(s, p4 + 1, ": "@, depth);
    lemma_fmt_braces(b, d, s, p4 + 3, depth);
}

/// The text of a plain function head whose name follows its arguments, with
/// its body, closes no brace that it did not open.
proof fn lemma_suffix_braces(
    args: Seq<Seq<char>>,
    n: Seq<char>,
    b: SNix,
    d: nat,
    s: Seq<char>,
    i: int,
    depth: int,
)
    requires
        plain_args(args),
        plain_alias(n),
        plain(b),
        depth >= 1,
        text_at(s, i, fmt(SNix::Lambda(SLambda::Suffix(args, n, Box::new(b))), d)),
    ensures
        brace_end(s, i, depth) == brace_end(
            s,
            i + fmt(SNix::Lambda(SLambda::Suffix(args, n, Box::new(b))), d).len(),
            depth,
        ),
    decreases b, 3int,
{
    reveal_strlit("{\n");
    reveal_strlit("...\n");
    reveal_strlit("}");
    reveal_strlit(" @ ");
    reveal_strlit(" : ");
    lemma_suffix_at(args, n, b, d, s, i);
    let a = args_from(args, d + 1, 0);
    let p1 = i + 2 + a.len();
    let p2 = p1 + 2 * (d + 1);
    let p3 = p2 + 4;
    let p4 = p3 + 2 * d;
    lemma_text_at_char(s, i, "{\n"@, 0);
    lemma_text_at_char(s, i, "{\n"@, 1);
    assert(brace_end(s, i, depth) == brace_end(s, i + 1, depth + 1));
    assert(brace_end(s, i + 1, depth + 1) == brace_end(s, i + 2, depth + 1));
    lemma_args_no_brace(args, d + 1, 0);
    lemma_no_brace_text(s, i + 2, a, depth + 1);
    lemma_spaces_no_brace(d + 1);
    lemma_spaces_no_brace(d);
    lemma_no_brace_text(s, p1, spaces(d + 1), depth + 1);
    lemma_no_brace_text(s, p2, "...\n"@, depth + 1);
    lemma_no_brace_text(s, p3, spaces(d), depth + 1);
    let fb = fmt(b, d);
    lemma_text_at_split(s, p4, "}"@, " @ "@ + (n + (" : "@ + fb)));
    lemma_text_at_char(s, p4, "}"@, 0);
    assert(brace_end(s, p4, depth + 1) == brace_end(s, p4 + 1, depth));
    lemma_text_at_split(s, p4 + 1, " @ "@, n + (" : "@ + fb));
    lemma_text_at_split(s, p4 + 4, n, " : "@ + fb);
    lemma_text_at_split(s, p4 + 4 + n.len(), " : "@, fb);
    assert forall|k: int| 0 <= k < n.len() implies #[trigger] n[k] != '{' && n[k] != '}' by {
        assert(is_alnum(n[k]) && n[k] <= '\u{7f}');
    }
    lemma_no_brace_text(s, p4 + 1, " @ "@, depth);
    lemma_no_brace_text(s, p4 + 4, n, depth);
    lemma_no_brace_text(s, p4 + 4 + n.len(), " : "@, depth);
    lemma_fmt_braces(b, d, s, p4 + 4 + n.len() + 3, depth);
}


// ---------------------------------------------------------------------------
// Function heads
// ---------------------------------------------------------------------------

/// The argument lines of a function head from the `j`-th on, at level `e`.
pub open spec fn args_from(args: Seq<Seq<char>>, e: nat, j: int) -> Seq<char> {
    arg_lines(args, e).subrange(j, args.len() as int).flatten()
}

proof fn lemma_args_from_step(args: Seq<Seq<char>>, e: nat, j: int)
    requires
        0 <= j < args.len(),
    ensures
        args_from(args, e, j) == arg_line(args[j], e) + args_from(args, e, j + 1),
{
    let ls = arg_lines(args, e);
    let sub = ls.subrange(j, args.len() as int);
    assert(sub.first() == arg_line(args[j], e));
    assert(sub.drop_first() =~= ls.subrange(j + 1, args.len() as int));
}

proof fn lemma_args_from_end(args: Seq<Seq<char>>, e: nat)
    requires
        plain_args(args),
    ensures
        args_from(args, e, args.len() - 1) == Seq::<char>::empty(),
{
    reveal_strlit("...");
    let n = args.len();
    lemma_args_from_step(args, e, n - 1);
    assert(arg_lines(args, e).subrange(n as int, n as int) =~= Seq::<Seq<char>>::empty());
    assert(arg_line(args[n - 1], e) == Seq::<char>::empty());
}

/// The text of a plain function, split at its pieces.
proof fn lemma_lambda_text(args: Seq<Seq<char>>, b: SNix, d: nat)
    requires
        plain_args(args),
    ensures
        fmt(SNix::Lambda(SLambda::Nofix(args, Box::new(b))), d) == "{\n"@ + (args_from(args, d + 1, 0)
            + (spaces(d + 1) + ("...\n"@ + (spaces(d) + ("}: "@ + fmt(b, d)))))),
{
    assert(arg_lines(args, d + 1).subrange(0, args.len() as int) =~= arg_lines(args, d + 1));
    assert(fmt(SNix::Lambda(SLambda::Nofix(args, Box::new(b))), d) == "{\n"@ + args_block(args, d + 1)
        + spaces(d) + "}: "@ + fmt(b, d));
    assert("{\n"@ + args_block(args, d + 1) + spaces(d) + "}: "@ + fmt(b, d) =~= "{\n"@ + (args_from(
        args,
        d + 1,
        0,
    ) + (spaces(d + 1) + ("...\n"@ + (spaces(d) + ("}: "@ + fmt(b, d)))))));
}

/// The text of a function head whose name follows its arguments, split
/// into its pieces.
proof fn lemma_suffix_text(args: Seq<Seq<char>>, n: Seq<char>, b: SNix, d: nat)
    requires
        plain_args(args),
    ensures
        fmt(SNix::Lambda(SLambda::Suffix(args, n, Box::new(b))), d) == "{\n"@ + (args_from(args, d + 1, 0)
            + (spaces(d + 1) + ("...\n"@ + (spaces(d) + ("}"@ + (" @ "@ + (n + (" : "@ + fmt(b, d))))))))),
{
    reveal_strlit("} ");
    reveal_strlit("@ ");
    reveal_strlit("}");
    reveal_strlit(" @ ");
    assert(arg_lines(args, d + 1).subrange(0, args.len() as int) =~= arg_lines(args, d + 1));
    assert(fmt(SNix::Lambda(SLambda::Suffix(args, n, Box::new(b))), d) == "{\n"@ + args_block(args, d + 1)
        + spaces(d) + "} "@ + "@ "@ + n + " : "@ + fmt(b, d));
    assert("{\n"@ + args_block(args, d + 1) + spaces(d) + "} "@ + "@ "@ + n + " : "@ + fmt(b, d) =~= "{\n"@ + (args_from(
        args,
        d + 1,
        0,
    ) + (spaces(d + 1) + ("...\n"@ + (spaces(d) + ("}"@ + (" @ "@ + (n + (" : "@ + fmt(b, d))))))))));
}

/// Where the text of a function head whose name follows its arguments
/// stands, its pieces stand one after the other.
proof fn lemma_suffix_at(args: Seq<Seq<char>>, n: Seq<char>, b: SNix, d: nat, s: Seq<char>, i: int)
    requires
        plain_args(args),
        text_at(s, i, fmt(SNix::Lambda(SLambda::Suffix(args, n, Box::new(b))), d)),
    ensures
        text_at(s, i, "{\n"@),
        text_at(s, i + 2, args_from(args, d + 1, 0)),
        text_at(s, i + 2 + args_from(args, d + 1, 0).len(), spaces(d + 1)),
        text_at(s, i + 2 + args_from(args, d + 1, 0).len() + 2 * (d + 1), "...\n"@),
        text_at(s, i + 2 + args_from(args, d + 1, 0).len() + 2 * (d + 1) + 4, spaces(d)),
        text_at(
            s,
            i + 2 + args_from(args, d + 1, 0).len() + 2 * (d + 1) + 4 + 2 * d,
            "}"@ + (" @ "@ + (n + (" : "@ + fmt(b, d)))),
        ),
        text_at(
            s,
            i + 2,
            args_from(args, d + 1, 0) + (spaces(d + 1) + ("...\n"@ + (spaces(d) + "}"@))),
        ),
        fmt(SNix::Lambda(SLambda::Suffix(args, n, Box::new(b))), d).len() == 2 + args_from(
            args,
            d + 1,
            0,
        ).len() + 2 * (d + 1) + 4 + 2 * d + 1 + 3 + n.len() + 3 + fmt(b, d).len(),
{
    reveal_strlit("{\n");
    reveal_strlit("...\n");
    reveal_strlit("}");
    reveal_strlit(" @ ");
    reveal_strlit(" : ");
    lemma_suffix_text(args, n, b, d);
    let a = args_from(args, d + 1, 0);
    let fb = fmt(b, d);
    let t4 = "}"@ + (" @ "@ + (n + (" : "@ + fb)));
    let t3 = spaces(d) + t4;
    let t2 = "...\n"@ + t3;
    let t1 = spaces(d + 1) + t2;
    let t0 = a + t1;
    lemma_text_at_split(s, i, "{\n"@, t0);
    lemma_text_at_split(s, i + 2, a, t1);
    let p1 = i + 2 + a.len();
    lemma_text_at_split(s, p1, spaces(d + 1), t2);
    let p2 = p1 + 2 * (d + 1);
    lemma_text_at_split(s, p2, "...\n"@, t3);
    let p3 = p2 + 4;
    lemma_text_at_split(s, p3, spaces(d), t4);
    let p4 = p3 + 2 * d;
    lemma_text_at_split(s, p4, "}"@, " @ "@ + (n + (" : "@ + fb)));
    let head = spaces(d + 1) + ("...\n"@ + (spaces(d) + "}"@));
    assert(s.subrange(i + 2, i + 2 + a.len() + head.len()) =~= a + head) by {
        assert forall|q: int| 0 <= q < a.len() + head.len() implies s.subrange(
            i + 2,
            i + 2 + a.len() + head.len(),
        )[q] == (a + head)[q] by {
            if q < a.len() {
                lemma_text_at_char(s, i + 2, a, q);
            } else if q < a.len() + 2 * (d + 1) {
                lemma_text_at_char(s, p1, spaces(d + 1), q - a.len());
            } else if q < a.len() + 2 * (d + 1) + 4 {
                lemma_text_at_char(s, p2, "...\n"@, q - a.len() - 2 * (d + 1));
            } else if q < a.len() + 2 * (d + 1) + 4 + 2 * d {
                lemma_text_at_char(s, p3, spaces(d), q - a.len() - 2 * (d + 1) - 4);
            } else {
                lemma_text_at_char(s, p4, "}"@, 0);
            }
        }
    }
}

/// Where a plain function's text stands, its pieces stand: `{` and a
/// newline, the argument lines, the indented `...` line, the indented `}: `,
/// and the body.
proof fn lemma_lambda_at(args: Seq<Seq<char>>, b: SNix, d: nat, s: Seq<char>, i: int)
    requires
        plain_args(args),
        text_at(s, i, fmt(SNix::Lambda(SLambda::Nofix(args, Box::new(b))), d)),
    ensures
        text_at(s, i, "{\n"@),
        text_at(s, i + 2, args_from(args, d + 1, 0)),
        text_at(s, i + 2 + args_from(args, d + 1, 0).len(), spaces(d + 1)),
        text_at(s, i + 2 + args_from(args, d + 1, 0).len() + 2 * (d + 1), "...\n"@),
        text_at(s, i + 2 + args_from(args, d + 1, 0).len() + 2 * (d + 1) + 4, spaces(d)),
        text_at(s, i + 2 + args_from(args, d + 1, 0).len() + 2 * (d + 1) + 4 + 2 * d, "}: "@),
        text_at(s, i + 2 + args_from(args, d + 1, 0).len() + 2 * (d + 1) + 4 + 2 * d + 3, fmt(b, d)),
        text_at(
            s,
            i + 2 + args_from(args, d + 1, 0).len() + 2 * (d + 1) + 4 + 2 * d,
            "}: "@ + fmt(b, d),
        ),
        text_at(
            s,
            i + 2,
            args_from(args, d + 1, 0) + (spaces(d + 1) + ("...\n"@ + (spaces(d) + "}"@))),
        ),
        fmt(SNix::Lambda(SLambda::Nofix(args, Box::new(b))), d).len() == 2 + args_from(
            args,
            d + 1,
            0,
        ).len() + 2 * (d + 1) + 4 + 2 * d + 3 + fmt(b, d).len(),
{
    reveal_strlit("{\n");
    reveal_strlit("...\n");
    reveal_strlit("}: ");
    reveal_strlit("}");
    lemma_lambda_text(args, b, d);
    let a = args_from(args, d + 1, 0);
    let fb = fmt(b, d);
    let t4 = "}: "@ + fb;
    let t3 = spaces(d) + t4;
    let t2 = "...\n"@ + t3;
    let t1 = spaces(d + 1) + t2;
    let t0 = a + t1;
    lemma_text_at_split(s, i, "{\n"@, t0);
    lemma_text_at_split(s, i + 2, a, t1);
    let p1 = i + 2 + a.len();
    lemma_text_at_split(s, p1, spaces(d + 1), t2);
    let p2 = p1 + 2 * (d + 1);
    lemma_text_at_split(s, p2, "...\n"@, t3);
    let p3 = p2 + 4;
    lemma_text_at_split(s, p3, spaces(d), t4);
    let p4 = p3 + 2 * d;
    lemma_text_at_split(s, p4, "}: "@, fb);
    let head = spaces(d + 1) + ("...\n"@ + (spaces(d) + "}"@));
    assert(s.subrange(i + 2, i + 2 + a.len() + head.len()) =~= a + head) by {
        assert forall|q: int| 0 <= q < a.len() + head.len() implies s.subrange(
            i + 2,
            i + 2 + a.len() + head.len(),
        )[q] == (a + head)[q] by {
            if q < a.len() {
                lemma_text_at_char(s, i + 2, a, q);
            } else if q < a.len() + 2 * (d + 1) {
                lemma_text_at_char(s, p1, spaces(d + 1), q - a.len());
            } else if q < a.len() + 2 * (d + 1) + 4 {
                lemma_text_at_char(s, p2, "...\n"@, q - a.len() - 2 * (d + 1));
            } else if q < a.len() + 2 * (d + 1) + 4 + 2 * d {
                lemma_text_at_char(s, p3, spaces(d), q - a.len() - 2 * (d + 1) - 4);
            } else {
                lemma_text_at_char(s, p4, "}: "@, 0);
            }
        }
    }
}

/// Argument lines hold no braces, and each holds a name, a comma and a
/// newline after its indentation.
proof fn lemma_args_no_brace(args: Seq<Seq<char>>, e: nat, j: int)
    requires
        plain_args(args),
        0 <= j < args.len(),
    ensures
        forall|q: int| 0 <= q < args_from(args, e, j).len() ==> #[trigger] args_from(args, e, j)[q]
            != '{' && args_from(args, e, j)[q] != '}',
    decreases args.len() - j,
{
    reveal_strlit(",\n");
    if j == args.len() - 1 {
        lemma_args_from_end(args, e);
    } else {
        lemma_args_from_step(args, e, j);
        lemma_args_no_brace(args, e, j + 1);
        let a = args[j];
        assert(plain_arg(a));
        reveal_strlit("...");
        assert(a != "..."@) by {
            if a == "..."@ {
                assert(name_char(a[0]));
            }
        }
        let line = arg_line(a, e);
        assert(line == spaces(e) + a + ",\n"@);
        let x = args_from(args, e, j);
        assert forall|q: int| 0 <= q < x.len() implies #[trigger] x[q] != '{' && x[q] != '}' by {
            if q < line.len() {
                assert(x[q] == line[q]);
                if q >= 2 * e && q < 2 * e + a.len() {
                    assert(line[q] == a[q - 2 * e]);
                }
            } else {
                assert(x[q] == args_from(args, e, j + 1)[q - line.len()]);
            }
        }
    }
}

// ---------------------------------------------------------------------------
// Runs of characters read as one token
// ---------------------------------------------------------------------------

/// The look-ahead over a name starting with a letter stops inside the name
/// at a `_` or `-`, or at its end.
proof fn lemma_scout_name(s: Seq<char>, p: int, q: int, c0: char)
    requires
        0 <= p <= q <= s.len(),
        forall|j: int| p <= j < q ==> name_char(#[trigger] s[j]),
        ('a' <= c0 && c0 <= 'z') || ('A' <= c0 && c0 <= 'Z'),
        q == s.len() || s[q] == ';' || s[q] == ']' || s[q] == ' ' || s[q] == '\n' || s[q] == ')',
    ensures
        p <= scout_alias_end(s, p, c0) <= q,
        scout_alias_end(s, p, c0) < q ==> s[scout_alias_end(s, p, c0)] == '_' || s[scout_alias_end(
            s,
            p,
            c0,
        )] == '-',
    decreases q - p,
{
    if p < q {
        assert(name_char(s[p]));
        if is_alnum(s[p]) {
            lemma_scout_name(s, p + 1, q, c0);
        }
    }
}

/// Reading an identifier over name characters stops at the end of the name.
proof fn lemma_ident_run(s: Seq<char>, p: int, q: int)
    requires
        0 <= p <= q <= s.len(),
        forall|j: int| p <= j < q ==> name_char(#[trigger] s[j]),
        q == s.len() || s[q] == ';' || s[q] == ']' || s[q] == ' ' || s[q] == '\n' || s[q] == ')',
    ensures
        ident_scan(s, p) == (true, q),
    decreases q - p,
{
    if p < q {
        assert(name_char(s[p]));
        assert(id_char(s[p]));
        lemma_ident_run(s, p + 1, q);
    }
}

/// Whether the characters of `s` from `p` up to `q` hold an odd number of
/// quotes.
pub open spec fn quotes_odd_at(s: Seq<char>, p: int, q: int) -> bool
    decreases q - p,
{
    if p >= q {
        false
    } else {
        (s[p] == '"') != quotes_odd_at(s, p + 1, q)
    }
}

proof fn lemma_quotes_at(s: Seq<char>, p: int, k: Seq<char>)
    requires
        text_at(s, p, k),
    ensures
        quotes_odd_at(s, p, p + k.len()) == quotes_odd(k),
    decreases k.len(),
{
    if k.len() > 0 {
        lemma_text_at_char(s, p, k, 0);
        assert(text_at(s, p + 1, k.drop_first())) by {
            assert(s.subrange(p + 1, p + 1 + k.drop_first().len()) =~= s.subrange(p, p + k.len()).drop_first());
        }
        lemma_quotes_at(s, p + 1, k.drop_first());
    }
}

/// Reading a key over key characters whose quotes pair up stops at the
/// whitespace after it.
proof fn lemma_key_run(s: Seq<char>, p: int, q: int, open: bool)
    requires
        0 <= p <= q < s.len(),
        forall|j: int| p <= j < q ==> key_char(#[trigger] s[j]),
        is_ws(s[q]),
        open == quotes_odd_at(s, p, q),
    ensures
        key_end(s, p, open) == q,
    decreases q - p,
{
    if p < q {
        assert(key_char(s[p]));
        lemma_key_run(s, p + 1, q, if s[p] == '"' { !open } else { open });
    }
}

/// The closing quote of a string without quotes.
proof fn lemma_quote_run(s: Seq<char>, p: int, q: int)
    requires
        0 <= p <= q < s.len(),
        forall|j: int| p <= j < q ==> #[trigger] s[j] != '"',
        s[q] == '"',
    ensures
        quote_at(s, p) == Some(q),
    decreases q - p,
{
    if p < q {
        assert(s[p] != '"');
        lemma_quote_run(s, p + 1, q);
    }
}

/// The first character of a plain value's text.
proof fn lemma_first_char(v: SNix, d: nat)
    requires
        plain(v),
    ensures
        fmt(v, d).len() > 0,
        !is_ws(fmt(v, d)[0]),
        fmt(v, d)[0] != '#',
        fmt(v, d)[0] != ']',
        fmt(v, d)[0] != '}',
        fmt(v, d)[0] != '@',
        fmt(v, d)[0] != ':',
        fmt(v, d)[0] != ',',
        fmt(v, d)[0] != ';',
        fmt(v, d)[0] == '/' || !app_stop(fmt(v, d)[0]),
        fmt(v, d)[0] == '/' ==> v is Path || v is Apply || v is BinaryOp,
    decreases v,
{
    reveal_strlit("true");
    reveal_strlit("false");
    reveal_strlit("\"");
    reveal_strlit("{ }");
    reveal_strlit("{\n");
    reveal_strlit("[ ]");
    reveal_strlit("[\n");
    match v {
        SNix::Int(n) => {
            lemma_decimal(n as nat);
            assert(is_digit(decimal(n as nat)[0]));
        },
        SNix::Float(x) => {
            let p = choose|p: int|
                0 < p < x.len() - 1 && x[p] == '.' && forall|k: int|
                    0 <= k < x.len() && k != p ==> is_digit(#[trigger] x[k]);
            assert(is_digit(x[0]));
        },
        SNix::Group(b) => {
            reveal_strlit("(");
            assert(fmt(v, d) == "("@ + fmt(*b, d) + ")"@);
            assert(fmt(v, d)[0] == '(');
        },
        SNix::With(a, b) => {
            reveal_strlit("with ");
            assert(fmt(v, d) == "with "@ + fmt(*a, 0) + "; "@ + fmt(*b, d));
            assert(fmt(v, d)[0] == 'w');
        },
        SNix::LetIn(m, b) => {
            reveal_strlit("let\n");
            assert(fmt(v, d)[0] == 'l');
        },
        SNix::Apply(a, b) => {
            lemma_first_char(*a, d + 1);
            assert(fmt(v, d) == fmt(*a, d + 1) + " "@ + fmt(*b, d));
            assert(fmt(v, d)[0] == fmt(*a, d + 1)[0]);
        },
        SNix::BinaryOp(l, op, r) => {
            lemma_first_char(*l, 0);
            assert(fmt(v, d) == fmt(*l, 0) + op_text(op) + fmt(*r, d));
            assert(fmt(v, d)[0] == fmt(*l, 0)[0]);
        },
        SNix::AttrSet(m) => {
            if m.len() > 0 {
                let x = binding_lines(m, entry_texts(m, d + 1), d + 1).flatten();
                assert(fmt(v, d) == "{\n"@ + x + spaces(d) + "}"@);
                assert(fmt(v, d)[0] == '{');
            }
        },
        SNix::List(l) => {
            if l.len() > 0 {
                let x = item_lines(item_texts(l, d + 1), d + 1).flatten();
                assert(fmt(v, d) == "[\n"@ + x + spaces(d) + "]"@);
                assert(fmt(v, d)[0] == '[');
            }
        },
        SNix::Lambda(SLambda::Nofix(args, b)) => {
            lemma_lambda_text(args, *b, d);
            assert(fmt(v, d)[0] == '{');
        },
        SNix::Lambda(SLambda::Suffix(args, n, b)) => {
            lemma_suffix_text(args, n, *b, d);
            assert(fmt(v, d)[0] == '{');
        },
        _ => {},
    }
}

// ---------------------------------------------------------------------------
// Reading the text back
// ---------------------------------------------------------------------------

proof fn lemma_ws_end(s: Seq<char>, p: int)
    requires
        0 <= p <= s.len(),
    ensures
        p <= ws_end(s, p) <= s.len(),
        ws_end(s, p) < s.len() ==> !is_ws(s[ws_end(s, p)]),
    decreases s.len() - p,
{
    if p < s.len() && is_ws(s[p]) {
        lemma_ws_end(s, p + 1);
    }
}

/// A name that starts with a letter, followed by what may follow a value,
/// is no function head and is read as a name up to its end.
proof fn lemma_read_name(s: Seq<char>, i: int, w: Seq<char>)
    requires
        text_at(s, i, w),
        w.len() > 0,
        ('a' <= w[0] && w[0] <= 'z') || ('A' <= w[0] && w[0] <= 'Z'),
        forall|j: int| 0 <= j < w.len() ==> name_char(#[trigger] w[j]),
        ends_single(s, i + w.len()),
    ensures
        !lam_ahead(s, i),
        ident_scan(s, i) == (true, i + w.len()),
        s.subrange(i, i + w.len()) == w,
{
    let e = i + w.len();
    assert forall|k: int| i <= k < e implies name_char(#[trigger] s[k]) by {
        lemma_text_at_char(s, i, w, k - i);
    }
    lemma_text_at_char(s, i, w, 0);
    let c0 = s[i];
    lemma_scout_name(s, i, e, c0);
    lemma_ident_run(s, i, e);
    let p1 = scout_alias_end(s, i, c0);
    lemma_ws_end(s, e);
    if p1 < e {
        assert(ws_end(s, p1) == p1);
    }
}

/// Where reading a single value whose text ends at `e` stops: past the text,
/// or, for a function, whose body is read as a whole value, past the
/// whitespace after it.
pub open spec fn single_end(v: SNix, s: Seq<char>, e: int) -> int {
    if v is Lambda || v is With || v is LetIn {
        ws_end(s, e)
    } else {
        e
    }
}

/// Reading `with`, its plain namespace, `;` and its plain body.
proof fn lemma_read_with(v: SNix, d: nat, s: Seq<char>, j: int, i: int)
    requires
        plain(v),
        v is With,
        text_at(s, i, fmt(v, d)),
        0 <= j <= i,
        skip_ws(s, j) == i,
        ends_value(s, i + fmt(v, d).len()),
        closes(v, s, i + fmt(v, d).len()),
    ensures
        s[i] == 'w',
        !lam_ahead(s, i),
        p_ident(s, i) == (Some(v), ws_end(s, i + fmt(v, d).len())),
    decreases v, 1int,
{
    let t = fmt(v, d);
    let e = i + t.len();
    let a = v->With_0;
    let b = v->With_1;
    reveal_strlit("with ");
    reveal_strlit("; ");
    reveal_strlit("with");
    reveal_strlit("let");
    reveal_strlit("true");
    reveal_strlit("false");
    let fa = fmt(*a, 0);
    let fb = fmt(*b, d);
    assert(t == "with "@ + fa + "; "@ + fb);
    lemma_text_at_split(s, i, "with "@ + fa + "; "@, fb);
    lemma_text_at_split(s, i, "with "@ + fa, "; "@);
    lemma_text_at_split(s, i, "with "@, fa);
    let ia = i + 5;
    let ea = ia + fa.len();
    let ib = ea + 2;
    assert forall|k: int| i <= k < i + 4 implies name_char(#[trigger] s[k]) by {
        lemma_text_at_char(s, i, "with "@, k - i);
    }
    lemma_text_at_char(s, i, "with "@, 0);
    lemma_text_at_char(s, i, "with "@, 4);
    lemma_ident_run(s, i, i + 4);
    assert(s.subrange(i, i + 4) =~= "with"@) by {
        assert forall|k: int| 0 <= k < 4 implies s.subrange(i, i + 4)[k] == "with"@[k] by {
            lemma_text_at_char(s, i, "with "@, k);
        }
    }
    lemma_scout_name(s, i, i + 4, 'w');
    lemma_first_char(*a, 0);
    lemma_text_at_char(s, ia, fa, 0);
    lemma_skip_at(s, ia);
    assert(ws_end(s, i + 4) == ia);
    assert(skip_ws(s, i + 4) == ia);
    assert(!lam_ahead(s, i));
    lemma_text_at_char(s, ea, "; "@, 0);
    lemma_text_at_char(s, ea, "; "@, 1);
    lemma_skip_at(s, ea);
    assert(ends_value(s, ea));
    lemma_read_value(*a, 0, s, ia, ia);
    lemma_first_char(*b, d);
    lemma_text_at_char(s, ib, fb, 0);
    lemma_skip_at(s, ib);
    assert(skip_ws(s, ea + 1) == ib);
    assert(closes(*b, s, e));
    lemma_read_value(*b, d, s, ib, ib);
    assert(ws_end(s, ea) == ea);
    assert(p_value(s, ia) == (Some(*a), ea));
    assert(p_with(s, i + 4) == (Some(v), ws_end(s, e)));
    assert(p_ident(s, i) == (Some(v), ws_end(s, e)));
}

/// Reading a `let` binding name over key characters stops at the
/// whitespace after it.
proof fn lemma_let_key_run(s: Seq<char>, p: int, q: int)
    requires
        0 <= p <= q < s.len(),
        forall|j: int| p <= j < q ==> key_char(#[trigger] s[j]),
        is_ws(s[q]),
    ensures
        let_key_end(s, p) == q,
    decreases q - p,
{
    if p < q {
        assert(key_char(s[p]));
        lemma_let_key_run(s, p + 1, q);
    }
}

/// One binding of a plain `let` block: reading its line, after the newline
/// at `p`, stores the binding and goes on at the newline that ends the line.
proof fn lemma_read_let_entry(m: Seq<(Seq<char>, SNix)>, e: nat, j: int, s: Seq<char>, p: int)
    requires
        all_true(entries_plain(m)),
        keys_unique(m),
        no_in_key(m),
        e >= 1,
        0 <= j < m.len(),
        0 <= p < s.len(),
        s[p] == '\n',
        text_at(s, p + 1, binding_line(m[j].0, fmt(m[j].1, e), e)),
    ensures
        p_let_loop(s, p, m.subrange(0, j)) == p_let_loop(
            s,
            p + binding_line(m[j].0, fmt(m[j].1, e), e).len(),
            m.subrange(0, j + 1),
        ),
    decreases m, m.len() - j, 1int,
{
    reveal_strlit(" = ");
    reveal_strlit(";\n");
    reveal_strlit("\n");
    assert(entries_plain(m)[j]);
    let k = m[j].0;
    let v = m[j].1;
    assert(k != "in"@);
    let val = fmt(v, e);
    let line = binding_line(k, val, e);
    assert(line == spaces(e) + k + " = "@ + val + ";\n"@);
    lemma_text_at_split(s, p + 1, spaces(e) + k + " = "@ + val, ";\n"@);
    lemma_text_at_split(s, p + 1, spaces(e) + k + " = "@, val);
    lemma_text_at_split(s, p + 1, spaces(e) + k, " = "@);
    lemma_text_at_split(s, p + 1, spaces(e), k);
    let p1 = p + 1 + 2 * e;
    let p2 = p1 + k.len();
    let p3 = p2 + 3;
    let p4 = p3 + val.len();
    lemma_spaces_at(s, p + 1, e);
    lemma_text_at_char(s, p1, k, 0);
    lemma_text_at_char(s, p2, " = "@, 0);
    lemma_text_at_char(s, p2, " = "@, 1);
    lemma_text_at_char(s, p2, " = "@, 2);
    lemma_text_at_char(s, p4, ";\n"@, 0);
    lemma_text_at_char(s, p4, ";\n"@, 1);
    lemma_skip_run(s, p, p1);
    lemma_skip_at(s, p1);
    assert forall|q: int| p1 <= q < p2 implies key_char(#[trigger] s[q]) by {
        lemma_text_at_char(s, p1, k, q - p1);
    }
    lemma_let_key_run(s, p1, p2);
    assert(s.subrange(p1, p2) == k);
    lemma_skip_run(s, p2, p2 + 1);
    lemma_skip_at(s, p2 + 1);
    assert(decreases_to!(m => m[j]));
    assert(decreases_to!(m[j] => m[j].1));
    lemma_first_char(v, e);
    lemma_text_at_char(s, p3, val, 0);
    lemma_skip_run(s, p2 + 2, p3);
    lemma_skip_at(s, p3);
    lemma_skip_at(s, p4);
    lemma_read_value(v, e, s, p2 + 2, p3);
    lemma_key_index(m.subrange(0, j), k);
    assert forall|q: int| 0 <= q < j implies m.subrange(0, j)[q].0 != k by {
        assert(m.subrange(0, j)[q] == m[q]);
    }
    assert(map_insert(m.subrange(0, j), k, v) =~= m.subrange(0, j + 1));
    assert(p4 + 1 == p + line.len());
}

/// Reading the bindings of a plain `let` block from the `j`-th on, after
/// the newline at `p`, goes on after the last of them with all bindings
/// stored.
proof fn lemma_read_let_lines(m: Seq<(Seq<char>, SNix)>, e: nat, j: int, s: Seq<char>, p: int)
    requires
        all_true(entries_plain(m)),
        keys_unique(m),
        no_in_key(m),
        e >= 1,
        0 <= j <= m.len(),
        0 <= p < s.len(),
        s[p] == '\n',
        text_at(s, p + 1, lines_from(m, e, j)),
    ensures
        p_let_loop(s, p, m.subrange(0, j)) == p_let_loop(s, p + lines_from(m, e, j).len(), m),
    decreases m, m.len() - j, 2int,
{
    reveal_strlit(";\n");
    if j == m.len() {
        assert(binding_lines(m, entry_texts(m, e), e).subrange(j, m.len() as int) =~= Seq::<
            Seq<char>,
        >::empty());
        assert(m.subrange(0, j) =~= m);
    } else {
        lemma_lines_from_step(m, e, j);
        let line = binding_line(m[j].0, fmt(m[j].1, e), e);
        let rest = lines_from(m, e, j + 1);
        lemma_text_at_split(s, p + 1, line, rest);
        reveal_strlit(" = ");
        assert(line == spaces(e) + m[j].0 + " = "@ + fmt(m[j].1, e) + ";\n"@);
        let q = p + line.len();
        lemma_text_at_char(s, p + 1, line, line.len() - 1);
        assert(s[q] == '\n');
        lemma_read_let_entry(m, e, j, s, p);
        lemma_read_let_lines(m, e, j + 1, s, q);
    }
}

/// Nonempty binding lines end with a newline.
proof fn lemma_lines_last_newline(m: Seq<(Seq<char>, SNix)>, e: nat, s: Seq<char>, p: int)
    requires
        text_at(s, p, lines_from(m, e, 0)),
        lines_from(m, e, 0).len() > 0,
    ensures
        s[p + lines_from(m, e, 0).len() - 1] == '\n',
{
    reveal_strlit(";\n");
    let ls = binding_lines(m, entry_texts(m, e), e);
    assert(ls.subrange(0, m.len() as int) =~= ls);
    let x = lines_from(m, e, 0);
    assert(m.len() > 0) by {
        if m.len() == 0 {
            assert(ls =~= Seq::<Seq<char>>::empty());
        }
    }
    let k = m.len() - 1;
    assert(ls =~= ls.drop_last().push(ls.last()));
    ls.drop_last().lemma_flatten_push(ls.last());
    let line = binding_line(m[k].0, fmt(m[k].1, e), e);
    assert(ls.last() == line);
    reveal_strlit(" = ");
    assert(line == spaces(e) + m[k].0 + " = "@ + fmt(m[k].1, e) + ";\n"@);
    assert(x =~= ls.drop_last().flatten() + line);
    assert(x[x.len() - 1] == '\n');
    lemma_text_at_char(s, p, x, x.len() - 1);
}

/// Reading `let`, the plain bindings, `in` and the plain body.
#[verifier::rlimit(40)]
proof fn lemma_read_let(v: SNix, d: nat, s: Seq<char>, j: int, i: int)
    requires
        plain(v),
        v is LetIn,
        text_at(s, i, fmt(v, d)),
        0 <= j <= i,
        skip_ws(s, j) == i,
        ends_value(s, i + fmt(v, d).len()),
        closes(v, s, i + fmt(v, d).len()),
    ensures
        s[i] == 'l',
        !lam_ahead(s, i),
        p_ident(s, i) == (Some(v), ws_end(s, i + fmt(v, d).len())),
    decreases v, 1int,
{
    reveal_strlit("let\n");
    reveal_strlit("let");
    reveal_strlit("with");
    reveal_strlit("true");
    reveal_strlit("false");
    let m = v->LetIn_0;
    let b = *v->LetIn_1;
    let x = lines_from(m, d + 1, 0);
    assert(binding_lines(m, entry_texts(m, d + 1), d + 1).subrange(0, m.len() as int)
        =~= binding_lines(m, entry_texts(m, d + 1), d + 1));
    let rest = x + spaces(d) + "in "@ + fmt(b, d + 1);
    let t = fmt(v, d);
    assert(t =~= "let\n"@ + rest);
    lemma_text_at_split(s, i, "let\n"@, rest);
    assert forall|k: int| i <= k < i + 3 implies name_char(#[trigger] s[k]) by {
        lemma_text_at_char(s, i, "let\n"@, k - i);
    }
    lemma_text_at_char(s, i, "let\n"@, 0);
    lemma_text_at_char(s, i, "let\n"@, 3);
    lemma_ident_run(s, i, i + 3);
    assert(s.subrange(i, i + 3) =~= "let"@) by {
        assert forall|k: int| 0 <= k < 3 implies s.subrange(i, i + 3)[k] == "let"@[k] by {
            lemma_text_at_char(s, i, "let\n"@, k);
        }
    }
    lemma_scout_name(s, i, i + 3, 'l');
    assert(decreases_to!(v => m));
    let fb = fmt(b, d + 1);
    assert(rest =~= x + (spaces(d) + "in "@ + fb));
    lemma_text_at_split(s, i + 4, x, spaces(d) + "in "@ + fb);
    lemma_read_let_lines(m, d + 1, 0, s, i + 3);
    assert(m.subrange(0, 0) =~= Seq::<(Seq<char>, SNix)>::empty());
    // `in` and the body.
    reveal_strlit("in ");
    reveal_strlit("in");
    let q = i + 3 + x.len();
    assert(s[q] == '\n') by {
        if x.len() > 0 {
            let last = m.len() - 1;
            assert(x.len() > 0);
            lemma_lines_last_newline(m, d + 1, s, i + 4);
        } else {
            lemma_text_at_char(s, i, "let\n"@, 3);
        }
    }
    assert(spaces(d) + "in "@ + fb =~= spaces(d) + ("in "@ + fb));
    lemma_text_at_split(s, i + 4 + x.len(), spaces(d), "in "@ + fb);
    lemma_text_at_split(s, i + 4 + x.len() + 2 * d, "in "@, fb);
    lemma_spaces_at(s, i + 4 + x.len(), d);
    let r = q + 1 + 2 * d;
    lemma_text_at_char(s, r, "in "@, 0);
    lemma_text_at_char(s, r, "in "@, 1);
    lemma_text_at_char(s, r, "in "@, 2);
    lemma_skip_run(s, q, r);
    lemma_skip_at(s, r);
    lemma_let_key_run(s, r, r + 2);
    assert(s.subrange(r, r + 2) =~= "in"@);
    let ib = r + 3;
    lemma_first_char(b, d + 1);
    lemma_text_at_char(s, ib, fb, 0);
    lemma_skip_run(s, r + 2, ib);
    lemma_skip_at(s, ib);
    assert(decreases_to!(v => b));
    assert(ib + fb.len() == i + t.len());
    assert(closes(b, s, i + t.len()));
    lemma_read_value(b, d + 1, s, ib, ib);
    assert(p_let_loop(s, q, m) == (Some(v), ws_end(s, i + t.len())));
    // What follows `let` after whitespace is the first key or `in`.
    if m.len() > 0 {
        lemma_lines_from_step(m, d + 1, 0);
        let k0 = m[0].0;
        assert(entries_plain(m)[0]);
        let line = binding_line(k0, fmt(m[0].1, d + 1), d + 1);
        reveal_strlit(" = ");
        reveal_strlit(";\n");
        assert(line == spaces(d + 1) + k0 + " = "@ + fmt(m[0].1, d + 1) + ";\n"@);
        lemma_text_at_split(s, i + 4, line, lines_from(m, d + 1, 1));
        assert(line =~= (spaces(d + 1) + k0) + (" = "@ + fmt(m[0].1, d + 1) + ";\n"@));
        lemma_text_at_split(s, i + 4, spaces(d + 1) + k0, " = "@ + fmt(m[0].1, d + 1) + ";\n"@);
        lemma_text_at_split(s, i + 4, spaces(d + 1), k0);
        lemma_spaces_at(s, i + 4, d + 1);
        let q = i + 4 + 2 * (d + 1);
        lemma_text_at_char(s, q, k0, 0);
        assert(name_char(k0[0]) || k0[0] == '.' || k0[0] == '"');
        lemma_skip_run(s, i + 3, q);
        lemma_skip_at(s, q);
    } else {
        reveal_strlit("in ");
        assert(x.len() == 0) by {
            assert(binding_lines(m, entry_texts(m, d + 1), d + 1).subrange(0, 0) =~= Seq::<
                Seq<char>,
            >::empty());
        }
        assert(spaces(d) + "in "@ + fb =~= spaces(d) + ("in "@ + fb));
        assert(x + (spaces(d) + "in "@ + fb) =~= spaces(d) + "in "@ + fb);
        lemma_text_at_split(s, i + 4, spaces(d), "in "@ + fmt(b, d + 1));
        lemma_spaces_at(s, i + 4, d);
        let q = i + 4 + 2 * d;
        lemma_text_at_char(s, q, "in "@ + fmt(b, d + 1), 0);
        lemma_skip_run(s, i + 3, q);
        lemma_skip_at(s, q);
    }
}

/// Reading a plain value's text from `j`, where skipping whitespace reaches
/// the text, gives the value and ends past the text.
proof fn lemma_read_single(v: SNix, d: nat, s: Seq<char>, j: int, i: int)
    requires
        plain(v),
        !(v is BinaryOp),
        !(v is Apply),
        text_at(s, i, fmt(v, d)),
        0 <= j <= i,
        skip_ws(s, j) == i,
        ends_single(s, i + fmt(v, d).len()),
        (v is Lambda || v is With || v is LetIn) ==> ends_value(s, i + fmt(v, d).len()),
        closes(v, s, i + fmt(v, d).len()),
    ensures
        p_single(s, j) == (Some(v), single_end(v, s, i + fmt(v, d).len())),
    decreases v, 2int,
{
    lemma_first_char(v, d);
    let t = fmt(v, d);
    let e = i + t.len();
    lemma_text_at_char(s, i, t, 0);
    lemma_ws_end(s, e);
    match v {
        SNix::Int(n) => {
            lemma_decimal(n as nat);
            assert forall|k: int| i <= k < e implies is_digit(#[trigger] s[k]) by {
                lemma_text_at_char(s, i, t, k - i);
            }
            lemma_num_run(s, i, e);
            assert(s.subrange(i, e) == t);
            assert(p_number(s, i) == (Some(v), e));
        },
        SNix::With(_, _) => {
            lemma_read_with(v, d, s, j, i);
        },
        SNix::LetIn(_, _) => {
            lemma_read_let(v, d, s, j, i);
        },
        SNix::Group(b) => {
            reveal_strlit("(");
            reveal_strlit(")");
            let fb = fmt(*b, d);
            assert(t == "("@ + fb + ")"@);
            lemma_text_at_split(s, i, "("@ + fb, ")"@);
            lemma_text_at_split(s, i, "("@, fb);
            lemma_text_at_char(s, i, t, 0);
            let e1 = i + 1 + fb.len();
            lemma_text_at_char(s, i, t, t.len() - 1);
            assert(s[e1] == ')');
            lemma_first_char(*b, d);
            lemma_text_at_char(s, i + 1, fb, 0);
            lemma_skip_at(s, i + 1);
            lemma_skip_at(s, e1);
            assert(ends_value(s, e1));
            assert(closes(*b, s, e1));
            lemma_read_value(*b, d, s, i + 1, i + 1);
            assert(p_expr(s, i + 1) == (Some(*b), e1));
            assert(p_single(s, j) == (Some(v), e));
        },
        SNix::Float(x) => {
            assert(t == x);
            let p = choose|p: int|
                0 < p < x.len() - 1 && x[p] == '.' && forall|k: int|
                    0 <= k < x.len() && k != p ==> is_digit(#[trigger] x[k]);
            assert forall|k: int| i <= k < e && k != i + p implies is_digit(#[trigger] s[k]) by {
                lemma_text_at_char(s, i, t, k - i);
            }
            lemma_text_at_char(s, i, t, p);
            lemma_float_run(s, i, i + p, e);
            assert(s.subrange(i, e) == t);
            assert(p_number(s, i) == (Some(v), e));
        },
        SNix::Bool(b) => {
            reveal_strlit("true");
            reveal_strlit("false");
            reveal_strlit("let");
            reveal_strlit("with");
            lemma_read_name(s, i, t);
            assert(p_ident(s, i) == (Some(v), e));
        },
        SNix::Identifier(w) => {
            lemma_read_name(s, i, t);
            assert(p_ident(s, i) == (Some(v), e));
        },
        SNix::Str(x) => {
            reveal_strlit("\"");
            assert(t == "\""@ + x + "\""@);
            lemma_text_at_split(s, i, "\""@ + x, "\""@);
            lemma_text_at_split(s, i, "\""@, x);
            assert forall|k: int| i + 1 <= k < i + 1 + x.len() implies #[trigger] s[k] != '"' by {
                lemma_text_at_char(s, i + 1, x, k - i - 1);
            }
            lemma_text_at_char(s, i + 1 + x.len(), "\""@, 0);
            lemma_quote_run(s, i + 1, i + 1 + x.len());
            assert(p_string(s, i) == (Some(v), e));
        },
        SNix::AttrSet(_) => {
            lemma_read_attr_set(v, d, s, j, i);
        },
        SNix::List(_) => {
            lemma_read_list(v, d, s, j, i);
        },
        SNix::Path(x) => {
            assert forall|k: int| i <= k < e implies !is_ws(#[trigger] s[k]) && s[k] != ';' by {
                lemma_text_at_char(s, i, t, k - i);
            }
            lemma_path_run(s, i, e);
            assert(s.subrange(i, e) == t);
        },
        SNix::Lambda(_) => {
            lemma_read_lambda(v, d, s, j, i);
        },
        _ => {},
    }
}

/// Reading a plain attribute set from `j` (see `lemma_read_single`).
proof fn lemma_read_attr_set(v: SNix, d: nat, s: Seq<char>, j: int, i: int)
    requires
        plain(v),
        v is AttrSet,
        text_at(s, i, fmt(v, d)),
        0 <= j <= i,
        skip_ws(s, j) == i,
        ends_single(s, i + fmt(v, d).len()),
        closes(v, s, i + fmt(v, d).len()),
    ensures
        p_single(s, j) == (Some(v), i + fmt(v, d).len()),
    decreases v, 1int,
{
    lemma_first_char(v, d);
    let t = fmt(v, d);
    let e = i + t.len();
    lemma_text_at_char(s, i, t, 0);
    lemma_ws_end(s, e);
    match v {
        SNix::AttrSet(m) => {
            if m.len() == 0 {
                reveal_strlit("{ }");
                lemma_text_at_char(s, i, t, 1);
                lemma_text_at_char(s, i, t, 2);
                assert(brace_end(s, i + 2, 1) == Some(i + 3));
                assert(brace_end(s, i + 1, 1) == Some(i + 3));
                assert(ws_end(s, ws_end(s, e)) == ws_end(s, e));
                assert(!lam_brace_ahead(s, i));
                lemma_skip_run(s, i + 1, i + 2);
                lemma_skip_at(s, i + 2);
                assert(m =~= Seq::<(Seq<char>, SNix)>::empty());
                assert(p_attr_loop(s, i + 1, seq![]) == (Some(v), e));
            } else {
                reveal_strlit("{\n");
                reveal_strlit("}");
                let x = lines_from(m, d + 1, 0);
                assert(binding_lines(m, entry_texts(m, d + 1), d + 1).subrange(0, m.len() as int)
                    =~= binding_lines(m, entry_texts(m, d + 1), d + 1));
                assert(t =~= "{\n"@ + (x + spaces(d) + "}"@));
                lemma_text_at_split(s, i, "{\n"@, x + spaces(d) + "}"@);
                lemma_text_at_split(s, i + 2, x + spaces(d), "}"@);
                lemma_text_at_split(s, i + 2, x, spaces(d));
                lemma_text_at_char(s, i, "{\n"@, 1);
                assert(brace_end(s, i + 1, 1) == brace_end(s, i + 2, 1));
                assert(decreases_to!(v => m));
                lemma_lines_braces(m, d + 1, 0, s, i + 2, 1);
                let q = i + 2 + x.len();
                lemma_spaces_no_brace(d);
                lemma_no_brace_text(s, q, spaces(d), 1);
                let r = q + spaces(d).len();
                lemma_text_at_char(s, r, "}"@, 0);
                assert(brace_end(s, r, 1) == Some(r + 1));
                assert(r + 1 == e);
                assert(ws_end(s, ws_end(s, e)) == ws_end(s, e));
                assert(!lam_brace_ahead(s, i));
                lemma_read_lines(m, d + 1, 0, s, i + 1);
                assert(m.subrange(0, 0) =~= Seq::<(Seq<char>, SNix)>::empty());
                assert(p_attr_loop(s, i + 1, seq![]) == (Some(v), e));
            }
        },
        _ => {},
    }
}

/// Reading a plain list from `j` (see `lemma_read_single`).
proof fn lemma_read_list(v: SNix, d: nat, s: Seq<char>, j: int, i: int)
    requires
        plain(v),
        v is List,
        text_at(s, i, fmt(v, d)),
        0 <= j <= i,
        skip_ws(s, j) == i,
        ends_single(s, i + fmt(v, d).len()),
        closes(v, s, i + fmt(v, d).len()),
    ensures
        p_single(s, j) == (Some(v), i + fmt(v, d).len()),
    decreases v, 1int,
{
    lemma_first_char(v, d);
    let t = fmt(v, d);
    let e = i + t.len();
    lemma_text_at_char(s, i, t, 0);
    lemma_ws_end(s, e);
    match v {
        SNix::List(l) => {
            if l.len() == 0 {
                reveal_strlit("[ ]");
                lemma_text_at_char(s, i, t, 1);
                lemma_text_at_char(s, i, t, 2);
                lemma_skip_run(s, i + 1, i + 2);
                lemma_skip_at(s, i + 2);
                assert(l =~= Seq::<SNix>::empty());
                assert(p_list_loop(s, i + 1, seq![]) == (Some(v), e));
            } else {
                reveal_strlit("[\n");
                reveal_strlit("]");
                reveal_strlit("\n");
                let its = item_lines(item_texts(l, d + 1), d + 1);
                let y = fmt(l[0], d + 1);
                assert(its.len() == 1);
                assert(its.drop_first() =~= Seq::<Seq<char>>::empty());
                assert(its.flatten() == its[0] + its.drop_first().flatten());
                assert(its.flatten() =~= spaces(d + 1) + y + "\n"@);
                assert(t =~= "[\n"@ + (spaces(d + 1) + (y + ("\n"@ + (spaces(d) + "]"@)))));
                lemma_text_at_split(s, i, "[\n"@, spaces(d + 1) + (y + ("\n"@ + (spaces(d) + "]"@))));
                lemma_text_at_split(s, i + 2, spaces(d + 1), y + ("\n"@ + (spaces(d) + "]"@)));
                let k = i + 2 + spaces(d + 1).len();
                lemma_text_at_split(s, k, y, "\n"@ + (spaces(d) + "]"@));
                let k2 = k + y.len();
                lemma_text_at_split(s, k2, "\n"@, spaces(d) + "]"@);
                lemma_text_at_split(s, k2 + 1, spaces(d), "]"@);
                let k3 = k2 + 1 + spaces(d).len();
                lemma_text_at_char(s, i, "[\n"@, 1);
                lemma_text_at_char(s, k2, "\n"@, 0);
                lemma_text_at_char(s, k3, "]"@, 0);
                lemma_spaces_at(s, i + 2, d + 1);
                lemma_spaces_at(s, k2 + 1, d);
                lemma_skip_run(s, i + 1, k);
                assert(decreases_to!(v => l));
                assert(decreases_to!(l => l[0]));
                assert(items_plain(l)[0]);
                lemma_first_char(l[0], d + 1);
                lemma_text_at_char(s, k, y, 0);
                lemma_skip_at(s, k);
                lemma_skip_run(s, k2, k3);
                lemma_skip_at(s, k3);
                lemma_read_value(l[0], d + 1, s, k, k);
                assert(seq![l[0]] =~= l);
                assert(p_list_loop(s, k3, seq![l[0]]) == (Some(v), e));
                assert(p_list_loop(s, i + 1, seq![]) == (Some(v), e));
            }
        },
        _ => {},
    }
}

/// A path runs up to whitespace, `;` or the end.
proof fn lemma_path_run(s: Seq<char>, p: int, q: int)
    requires
        0 <= p <= q <= s.len(),
        forall|j: int| p <= j < q ==> !is_ws(#[trigger] s[j]) && s[j] != ';',
        q == s.len() || s[q] == ';' || s[q] == ' ' || s[q] == '\n',
    ensures
        path_end(s, p) == q,
    decreases q - p,
{
    if p < q {
        assert(!is_ws(s[p]) && s[p] != ';');
        lemma_path_run(s, p + 1, q);
    }
}

/// An argument name runs up to whitespace, `,` or `}`.
proof fn lemma_formal_run(s: Seq<char>, p: int, q: int)
    requires
        0 <= p <= q < s.len(),
        forall|j: int| p <= j < q ==> !is_ws(#[trigger] s[j]) && s[j] != ',' && s[j] != '}',
        is_ws(s[q]) || s[q] == ',' || s[q] == '}',
    ensures
        formal_end(s, p) == q,
    decreases q - p,
{
    if p < q {
        assert(!is_ws(s[p]) && s[p] != ',' && s[p] != '}');
        lemma_formal_run(s, p + 1, q);
    }
}

/// Reading the argument lines of a plain function head from the `j`-th on,
/// after the whitespace at `p`, with the names before them read already,
/// gives all the names and ends after the `}`.
proof fn lemma_read_formals(args: Seq<Seq<char>>, d: nat, j: int, s: Seq<char>, p: int)
    requires
        plain_args(args),
        0 <= j < args.len(),
        0 <= p < s.len(),
        is_ws(s[p]),
        text_at(s, p + 1, args_from(args, d + 1, j) + (spaces(d + 1) + ("...\n"@ + (spaces(d) + "}"@)))),
    ensures
        formals_loop(s, p, args.subrange(0, j)) == (
            Some(args),
            p + 1 + args_from(args, d + 1, j).len() + 2 * (d + 1) + 4 + 2 * d + 1,
        ),
    decreases args.len() - j,
{
    reveal_strlit("...\n");
    reveal_strlit("}");
    reveal_strlit(",\n");
    reveal_strlit("...");
    let e = d + 1;
    let n = args.len();
    let x = args_from(args, e, j);
    let tail = spaces(e) + ("...\n"@ + (spaces(d) + "}"@));
    lemma_text_at_split(s, p + 1, x, tail);
    if j == n - 1 {
        lemma_args_from_end(args, e);
        assert(x.len() == 0);
        let p1 = p + 1;
        lemma_text_at_split(s, p1, spaces(e), "...\n"@ + (spaces(d) + "}"@));
        let p2 = p1 + 2 * e;
        lemma_text_at_split(s, p2, "...\n"@, spaces(d) + "}"@);
        let p3 = p2 + 4;
        lemma_text_at_split(s, p3, spaces(d), "}"@);
        let p4 = p3 + 2 * d;
        lemma_spaces_at(s, p1, e);
        lemma_spaces_at(s, p3, d);
        lemma_text_at_char(s, p2, "...\n"@, 0);
        lemma_text_at_char(s, p2, "...\n"@, 1);
        lemma_text_at_char(s, p2, "...\n"@, 2);
        lemma_text_at_char(s, p2, "...\n"@, 3);
        lemma_text_at_char(s, p4, "}"@, 0);
        lemma_skip_run(s, p, p2);
        lemma_skip_at(s, p2);
        lemma_formal_run(s, p2, p2 + 3);
        assert(s.subrange(p2, p2 + 3) =~= "..."@);
        lemma_skip_run(s, p2 + 3, p4);
        lemma_skip_at(s, p4);
        assert(args.subrange(0, j).push("..."@) =~= args);
        assert(formals_loop(s, p4, args) == (Some(args), p4 + 1));
        assert(formals_loop(s, p, args.subrange(0, j)) == formals_loop(s, p4, args));
    } else {
        lemma_args_from_step(args, e, j);
        let a = args[j];
        assert(plain_arg(a));
        let line = arg_line(a, e);
        assert(a != "..."@) by {
            if a == "..."@ {
                assert(name_char(a[0]));
            }
        }
        assert(line == spaces(e) + a + ",\n"@);
        let rest = args_from(args, e, j + 1);
        assert(x + tail =~= spaces(e) + (a + (",\n"@ + (rest + tail))));
        lemma_text_at_split(s, p + 1, spaces(e), a + (",\n"@ + (rest + tail)));
        let p1 = p + 1 + 2 * e;
        lemma_text_at_split(s, p1, a, ",\n"@ + (rest + tail));
        let p2 = p1 + a.len();
        lemma_text_at_split(s, p2, ",\n"@, rest + tail);
        lemma_spaces_at(s, p + 1, e);
        lemma_text_at_char(s, p1, a, 0);
        lemma_text_at_char(s, p2, ",\n"@, 0);
        lemma_text_at_char(s, p2, ",\n"@, 1);
        lemma_skip_run(s, p, p1);
        lemma_skip_at(s, p1);
        assert forall|q: int| p1 <= q < p2 implies !is_ws(#[trigger] s[q]) && s[q] != ',' && s[q]
            != '}' by {
            lemma_text_at_char(s, p1, a, q - p1);
        }
        lemma_formal_run(s, p1, p2);
        assert(s.subrange(p1, p2) == a);
        lemma_skip_at(s, p2);
        assert(args.subrange(0, j).push(a) =~= args.subrange(0, j + 1));
        assert(formals_loop(s, p, args.subrange(0, j)) == formals_loop(
            s,
            p2 + 1,
            args.subrange(0, j + 1),
        ));
        lemma_read_formals(args, d, j + 1, s, p2 + 1);
        assert(p2 + 1 + 1 + rest.len() == p + 1 + x.len());
    }
}

/// Reading a plain function from `j` (see `lemma_read_single`).
/// Over a name of ASCII letters and digits that starts with a letter, both
/// look-aheads for a name stop where it ends.
proof fn lemma_alias_run(s: Seq<char>, p: int, q: int, c0: char)
    requires
        0 <= p <= q < s.len(),
        forall|k: int| p <= k < q ==> is_alnum(#[trigger] s[k]),
        !is_alnum(s[q]) && s[q] != '-' && s[q] != '_',
        c0 != '-' && c0 != '_',
    ensures
        scout_alias_end(s, p, c0) == q,
        alias_end(s, p) == q,
    decreases q - p,
{
    if p < q {
        lemma_alias_run(s, p + 1, q, c0);
    }
}

proof fn lemma_read_lambda(v: SNix, d: nat, s: Seq<char>, j: int, i: int)
    requires
        plain(v),
        v is Lambda,
        text_at(s, i, fmt(v, d)),
        0 <= j <= i,
        skip_ws(s, j) == i,
        ends_value(s, i + fmt(v, d).len()),
        closes(v, s, i + fmt(v, d).len()),
    ensures
        p_single(s, j) == (Some(v), ws_end(s, i + fmt(v, d).len())),
    decreases v, 1int,
{
    if let SNix::Lambda(SLambda::Nofix(args, b)) = v {
        reveal_strlit("{\n");
        reveal_strlit("}: ");
        lemma_first_char(v, d);
        lemma_lambda_at(args, *b, d, s, i);
        let a = args_from(args, d + 1, 0);
        let p1 = i + 2 + a.len();
        let p2 = p1 + 2 * (d + 1);
        let p3 = p2 + 4;
        let p4 = p3 + 2 * d;
        let e = i + fmt(v, d).len();
        lemma_text_at_char(s, i, "{\n"@, 0);
        lemma_text_at_char(s, i, "{\n"@, 1);
        lemma_text_at_char(s, p4, "}: "@, 0);
        lemma_text_at_char(s, p4, "}: "@, 1);
        lemma_text_at_char(s, p4, "}: "@, 2);
        // It is a function head.
        assert(brace_end(s, i + 1, 1) == brace_end(s, i + 2, 1));
        lemma_args_no_brace(args, d + 1, 0);
        lemma_no_brace_text(s, i + 2, a, 1);
        lemma_spaces_no_brace(d + 1);
        lemma_spaces_no_brace(d);
        lemma_no_brace_text(s, p1, spaces(d + 1), 1);
        reveal_strlit("...\n");
        lemma_no_brace_text(s, p2, "...\n"@, 1);
        lemma_no_brace_text(s, p3, spaces(d), 1);
        assert(brace_end(s, p4, 1) == Some(p4 + 1));
        assert(ws_end(s, p4 + 1) == p4 + 1);
        assert(lam_brace_ahead(s, i));
        assert(lam_ahead(s, i));
        // Its head.
        lemma_skip_at(s, i);
        assert(lambda_head(s, i) == (Seq::<char>::empty(), LamType::Undecided, i));
        lemma_read_formals(args, d, 0, s, i + 1);
        assert(args.subrange(0, 0) =~= Seq::<Seq<char>>::empty());
        assert(formals_loop(s, i + 1, seq![]) == (Some(args), p4 + 1));
        lemma_skip_at(s, p4 + 1);
        // Its body.
        let fb = fmt(*b, d);
        lemma_text_at_split(s, p4, "}: "@, fb);
        assert(decreases_to!(v => b));
        lemma_first_char(*b, d);
        lemma_text_at_char(s, p4 + 3, fb, 0);
        lemma_skip_run(s, p4 + 2, p4 + 3);
        lemma_skip_at(s, p4 + 3);
        assert(e == p4 + 3 + fb.len());
        lemma_read_value(*b, d, s, p4 + 3, p4 + 3);
        assert(make_lambda(LamType::Nofix, args, Seq::<char>::empty(), *b) == SLambda::Nofix(args, b));
        assert(p_lambda_body(s, i, p4 + 1, LamType::Nofix, args, Seq::<char>::empty()) == (
            Some(v),
            ws_end(s, e),
        ));
        assert(p_lambda_after(s, i, p4 + 1, LamType::Undecided, args, Seq::<char>::empty()) == (
            Some(v),
            ws_end(s, e),
        ));
        assert(p_lambda(s, i) == (Some(v), ws_end(s, e)));
    } else if v matches SNix::Lambda(SLambda::Single(_, _)) {
        lemma_read_single_arg(v, d, s, j, i);
    } else if v matches SNix::Lambda(SLambda::Prefix(_, _, _)) {
        lemma_read_prefix(v, d, s, j, i);
    } else if v is Lambda {
        lemma_read_suffix(v, d, s, j, i);
    }
}

/// Over whitespace, letters and digits, the look-ahead for the name after
/// `@` stops at the first other character.
proof fn lemma_name_scan_run(s: Seq<char>, p: int, q: int)
    requires
        0 <= p <= q < s.len(),
        forall|k: int| p <= k < q ==> is_ws(#[trigger] s[k]) || is_alnum(s[k]),
        !is_ws(s[q]) && !is_alnum(s[q]) && s[q] != '-' && s[q] != '_',
    ensures
        scout_name_end(s, p) == q,
    decreases q - p,
{
    if p < q {
        lemma_name_scan_run(s, p + 1, q);
    }
}

/// Reading a plain function whose name follows its arguments (see
/// `lemma_read_lambda`).
#[verifier::rlimit(40)]
proof fn lemma_read_suffix(v: SNix, d: nat, s: Seq<char>, j: int, i: int)
    requires
        plain(v),
        v matches SNix::Lambda(SLambda::Suffix(_, _, _)),
        text_at(s, i, fmt(v, d)),
        0 <= j <= i,
        skip_ws(s, j) == i,
        ends_value(s, i + fmt(v, d).len()),
        closes(v, s, i + fmt(v, d).len()),
    ensures
        p_single(s, j) == (Some(v), ws_end(s, i + fmt(v, d).len())),
    decreases v, 0int,
{
    if let SNix::Lambda(SLambda::Suffix(args, n, b)) = v {
        reveal_strlit("{\n");
        reveal_strlit("...\n");
        reveal_strlit("}");
        reveal_strlit(" @ ");
        reveal_strlit(" : ");
        reveal_strlit("true");
        reveal_strlit("false");
        reveal_strlit("let");
        reveal_strlit("with");
        lemma_suffix_at(args, n, *b, d, s, i);
        let t = fmt(v, d);
        let e = i + t.len();
        let a = args_from(args, d + 1, 0);
        let p1 = i + 2 + a.len();
        let p2 = p1 + 2 * (d + 1);
        let p3 = p2 + 4;
        let p4 = p3 + 2 * d;
        let fb = fmt(*b, d);
        let p5 = p4 + 4;
        let p6 = p5 + n.len();
        lemma_text_at_char(s, i, "{\n"@, 0);
        lemma_text_at_char(s, i, "{\n"@, 1);
        lemma_text_at_split(s, p4, "}"@, " @ "@ + (n + (" : "@ + fb)));
        lemma_text_at_split(s, p4 + 1, " @ "@, n + (" : "@ + fb));
        lemma_text_at_split(s, p5, n, " : "@ + fb);
        lemma_text_at_split(s, p6, " : "@, fb);
        lemma_text_at_char(s, p4, "}"@, 0);
        lemma_text_at_char(s, p4 + 1, " @ "@, 0);
        lemma_text_at_char(s, p4 + 1, " @ "@, 1);
        lemma_text_at_char(s, p4 + 1, " @ "@, 2);
        lemma_text_at_char(s, p6, " : "@, 0);
        lemma_text_at_char(s, p6, " : "@, 1);
        lemma_text_at_char(s, p6, " : "@, 2);
        assert forall|k: int| p5 <= k < p6 implies is_alnum(#[trigger] s[k]) && s[k] <= '\u{7f}' by {
            lemma_text_at_char(s, p5, n, k - p5);
        }
        lemma_text_at_char(s, p5, n, 0);
        // It is a function head.
        assert(brace_end(s, i + 1, 1) == brace_end(s, i + 2, 1));
        lemma_args_no_brace(args, d + 1, 0);
        lemma_no_brace_text(s, i + 2, a, 1);
        lemma_spaces_no_brace(d + 1);
        lemma_spaces_no_brace(d);
        lemma_no_brace_text(s, p1, spaces(d + 1), 1);
        lemma_no_brace_text(s, p2, "...\n"@, 1);
        lemma_no_brace_text(s, p3, spaces(d), 1);
        assert(brace_end(s, p4, 1) == Some(p4 + 1));
        lemma_skip_at(s, p4 + 2);
        lemma_skip_run(s, p4 + 1, p4 + 2);
        assert forall|k: int| p4 + 3 <= k < p6 + 1 implies is_ws(#[trigger] s[k]) || is_alnum(s[k]) by {}
        assert(!is_alnum(s[p6 + 1]));
        lemma_name_scan_run(s, p4 + 3, p6 + 1);
        lemma_skip_at(s, p6 + 1);
        assert(lam_brace_ahead(s, i));
        assert(lam_ahead(s, i));
        // Its head.
        lemma_skip_at(s, i);
        assert(lambda_head(s, i) == (Seq::<char>::empty(), LamType::Undecided, i));
        lemma_read_formals(args, d, 0, s, i + 1);
        assert(args.subrange(0, 0) =~= Seq::<Seq<char>>::empty());
        assert(formals_loop(s, i + 1, seq![]) == (Some(args), p4 + 1));
        // Its name.
        lemma_skip_at(s, p5);
        lemma_skip_run(s, p4 + 3, p5);
        assert forall|k: int| p5 <= k < p6 implies name_char(#[trigger] s[k]) by {
            assert(is_alnum(s[k]) && s[k] <= '\u{7f}');
        }
        lemma_ident_run(s, p5, p6);
        assert(s.subrange(p5, p6) == n);
        assert(p_ident(s, p5) == (Some(SNix::Identifier(n)), p6));
        lemma_skip_run(s, p6, p6 + 1);
        // Its body.
        assert(decreases_to!(v => b));
        lemma_first_char(*b, d);
        lemma_text_at_char(s, p6 + 3, fb, 0);
        lemma_skip_run(s, p6 + 2, p6 + 3);
        lemma_skip_at(s, p6 + 3);
        assert(e == p6 + 3 + fb.len());
        lemma_read_value(*b, d, s, p6 + 3, p6 + 3);
        assert(make_lambda(LamType::Suffix, args, n, *b) == SLambda::Suffix(args, n, b));
        assert(p_lambda_body(s, i, p6, LamType::Suffix, args, n) == (Some(v), ws_end(s, e)));
        assert(p_lambda_after(s, i, p4 + 1, LamType::Undecided, args, Seq::<char>::empty()) == (
            Some(v),
            ws_end(s, e),
        ));
        assert(p_lambda(s, i) == (Some(v), ws_end(s, e)));
    }
}

/// Reading a plain function whose head has a name before its arguments (see
/// `lemma_read_lambda`).
proof fn lemma_read_prefix(v: SNix, d: nat, s: Seq<char>, j: int, i: int)
    requires
        plain(v),
        v matches SNix::Lambda(SLambda::Prefix(_, _, _)),
        text_at(s, i, fmt(v, d)),
        0 <= j <= i,
        skip_ws(s, j) == i,
        ends_value(s, i + fmt(v, d).len()),
        closes(v, s, i + fmt(v, d).len()),
    ensures
        p_single(s, j) == (Some(v), ws_end(s, i + fmt(v, d).len())),
    decreases v, 0int,
{
    if let SNix::Lambda(SLambda::Prefix(args, n, b)) = v {
        reveal_strlit(" @ ");
        reveal_strlit("{\n");
        reveal_strlit("}: ");
        reveal_strlit("...\n");
        let w = SNix::Lambda(SLambda::Nofix(args, b));
        let t = fmt(v, d);
        let e = i + t.len();
        assert(t == n + " @ "@ + fmt(w, d));
        lemma_text_at_split(s, i, n + " @ "@, fmt(w, d));
        lemma_text_at_split(s, i, n, " @ "@);
        let p = i + n.len();
        let r = p + 3;
        lemma_text_at_char(s, p, " @ "@, 0);
        lemma_text_at_char(s, p, " @ "@, 1);
        lemma_text_at_char(s, p, " @ "@, 2);
        assert forall|k: int| i <= k < p implies is_alnum(#[trigger] s[k]) && s[k] <= '\u{7f}' by {
            lemma_text_at_char(s, i, n, k - i);
        }
        lemma_text_at_char(s, i, n, 0);
        assert(s[p] == ' ');
        assert(!is_alnum(s[p]));
        lemma_alias_run(s, i, p, s[i]);
        lemma_skip_at(s, p + 1);
        lemma_skip_run(s, p, p + 1);
        // The function head after the name and `@`.
        lemma_lambda_at(args, *b, d, s, r);
        let a = args_from(args, d + 1, 0);
        let p1 = r + 2 + a.len();
        let p2 = p1 + 2 * (d + 1);
        let p3 = p2 + 4;
        let p4 = p3 + 2 * d;
        lemma_text_at_char(s, r, "{\n"@, 0);
        lemma_text_at_char(s, r, "{\n"@, 1);
        lemma_text_at_char(s, p4, "}: "@, 0);
        lemma_text_at_char(s, p4, "}: "@, 1);
        lemma_text_at_char(s, p4, "}: "@, 2);
        lemma_skip_at(s, r);
        lemma_skip_run(s, p + 2, r);
        assert(brace_end(s, r + 1, 1) == brace_end(s, r + 2, 1));
        lemma_args_no_brace(args, d + 1, 0);
        lemma_no_brace_text(s, r + 2, a, 1);
        lemma_spaces_no_brace(d + 1);
        lemma_spaces_no_brace(d);
        lemma_no_brace_text(s, p1, spaces(d + 1), 1);
        lemma_no_brace_text(s, p2, "...\n"@, 1);
        lemma_no_brace_text(s, p3, spaces(d), 1);
        assert(brace_end(s, p4, 1) == Some(p4 + 1));
        assert(ws_end(s, p4 + 1) == p4 + 1);
        assert(lam_brace_ahead(s, r));
        assert(lam_ahead(s, i));
        // Its head.
        lemma_skip_at(s, i);
        assert(s.subrange(i, p) == n);
        assert(lambda_head(s, i) == (n, LamType::Prefix, r));
        lemma_read_formals(args, d, 0, s, r + 1);
        assert(args.subrange(0, 0) =~= Seq::<Seq<char>>::empty());
        assert(formals_loop(s, r + 1, seq![]) == (Some(args), p4 + 1));
        lemma_skip_at(s, p4 + 1);
        // Its body.
        let fb = fmt(*b, d);
        lemma_text_at_split(s, p4, "}: "@, fb);
        assert(decreases_to!(v => b));
        lemma_first_char(*b, d);
        lemma_text_at_char(s, p4 + 3, fb, 0);
        lemma_skip_run(s, p4 + 2, p4 + 3);
        lemma_skip_at(s, p4 + 3);
        assert(e == p4 + 3 + fb.len());
        lemma_read_value(*b, d, s, p4 + 3, p4 + 3);
        assert(make_lambda(LamType::Prefix, args, n, *b) == SLambda::Prefix(args, n, b));
        assert(p_lambda_body(s, i, p4 + 1, LamType::Prefix, args, n) == (Some(v), ws_end(s, e)));
        assert(p_lambda_after(s, i, p4 + 1, LamType::Prefix, args, n) == (Some(v), ws_end(s, e)));
        assert(p_lambda(s, i) == (Some(v), ws_end(s, e)));
    }
}

/// Reading a plain one-argument function (see `lemma_read_lambda`).
proof fn lemma_read_single_arg(v: SNix, d: nat, s: Seq<char>, j: int, i: int)
    requires
        plain(v),
        v matches SNix::Lambda(SLambda::Single(_, _)),
        text_at(s, i, fmt(v, d)),
        0 <= j <= i,
        skip_ws(s, j) == i,
        ends_value(s, i + fmt(v, d).len()),
        closes(v, s, i + fmt(v, d).len()),
    ensures
        p_single(s, j) == (Some(v), ws_end(s, i + fmt(v, d).len())),
    decreases v, 0int,
{
    if let SNix::Lambda(SLambda::Single(n, b)) = v {
        reveal_strlit(": ");
        let fb = fmt(*b, d);
        let t = fmt(v, d);
        let e = i + t.len();
        let p = i + n.len();
        assert(t == n + ": "@ + fb);
        lemma_text_at_split(s, i, n + ": "@, fb);
        lemma_text_at_split(s, i, n, ": "@);
        lemma_text_at_char(s, p, ": "@, 0);
        lemma_text_at_char(s, p, ": "@, 1);
        assert forall|k: int| i <= k < p implies is_alnum(#[trigger] s[k]) && s[k] <= '\u{7f}' by {
            lemma_text_at_char(s, i, n, k - i);
        }
        lemma_text_at_char(s, i, n, 0);
        assert(s[p] == ':');
        assert(!is_alnum(s[p]));
        lemma_alias_run(s, i, p, s[i]);
        lemma_skip_at(s, p);
        lemma_skip_at(s, i);
        // It is a function head, read as a one-argument function.
        assert(lam_ahead(s, i));
        assert(s.subrange(i, p) == n);
        assert(lambda_head(s, i) == (n, LamType::Single, p));
        // Its body.
        lemma_first_char(*b, d);
        lemma_text_at_split(s, i, n + ": "@, fb);
        lemma_text_at_char(s, p + 2, fb, 0);
        assert(s[p + 1] == ' ');
        lemma_skip_run(s, p + 1, p + 2);
        lemma_skip_at(s, p + 2);
        assert(decreases_to!(v => b));
        assert(e == p + 2 + fb.len());
        lemma_read_value(*b, d, s, p + 2, p + 2);
        assert(make_lambda(LamType::Single, seq![], n, *b) == SLambda::Single(n, b));
        assert(p_lambda_body(s, i, p, LamType::Single, seq![], n) == (Some(v), ws_end(s, e)));
        assert(p_lambda_after(s, i, p, LamType::Single, seq![], n) == (Some(v), ws_end(s, e)));
        assert(p_lambda(s, i) == (Some(v), ws_end(s, e)));
    }
}

/// Reading a plain value's text from `j` as a whole value gives the value
/// and stops at what follows it past whitespace.
proof fn lemma_read_value(v: SNix, d: nat, s: Seq<char>, j: int, i: int)
    requires
        plain(v),
        text_at(s, i, fmt(v, d)),
        0 <= j <= i,
        skip_ws(s, j) == i,
        ends_value(s, i + fmt(v, d).len()),
        closes(v, s, i + fmt(v, d).len()),
    ensures
        p_value(s, j) == (Some(v), ws_end(s, i + fmt(v, d).len())),
        p_expr(s, j) == (Some(v), ws_end(s, i + fmt(v, d).len())),
    decreases v, 5int,
{
    lemma_first_char(v, d);
    let e = i + fmt(v, d).len();
    let k = ws_end(s, e);
    lemma_ws_end(s, e);
    if k < s.len() {
        lemma_skip_at(s, k);
    }
    assert(skip_ws(s, k) == k);
    lemma_read_expr(v, d, s, j, i);
    assert(op_at(s, k) == (None::<Operator>, k));
    assert(p_expr_tail(s, k, v) == (Some(v), k));
    assert(p_expr(s, j) == (Some(v), k));
    assert(p_value_tail(s, k, v) == (Some(v), k));
}

/// The text of an operator other than `/`: a space, one or two operator
/// characters, a space.
proof fn lemma_op_text(op: Operator)
    ensures
        op_text(op).len() == 3 || op_text(op).len() == 4,
        op_text(op)[0] == ' ',
        op_text(op)[op_text(op).len() - 1] == ' ',
        forall|k: int| 0 <= k < op_text(op).len() ==> #[trigger] op_text(op)[k] != '{' && op_text(
            op,
        )[k] != '}',
        op != Operator::Divide ==> app_stop(op_text(op)[1]),
{
    reveal_strlit(" + ");
    reveal_strlit(" - ");
    reveal_strlit(" ++ ");
    reveal_strlit(" == ");
    reveal_strlit(" != ");
    reveal_strlit(" && ");
    reveal_strlit(" // ");
    reveal_strlit(" / ");
}

/// Reading an operator other than `/` where its text stands, from its first
/// character.
proof fn lemma_op_read(op: Operator, s: Seq<char>, p: int)
    requires
        op != Operator::Divide,
        text_at(s, p, op_text(op)),
    ensures
        op_at(s, p + 1) == (Some(op), p + op_text(op).len() - 1),
        !is_ws(s[p + 1]),
        s[p + 1] != '#',
        s[p + 1] != '@' && s[p + 1] != ':' && s[p + 1] != ',',
        app_stop(s[p + 1]),
        s[p] == ' ',
        s[p + op_text(op).len() - 1] == ' ',
{
    reveal_strlit(" + ");
    reveal_strlit(" - ");
    reveal_strlit(" ++ ");
    reveal_strlit(" == ");
    reveal_strlit(" != ");
    reveal_strlit(" && ");
    reveal_strlit(" // ");
    lemma_op_text(op);
    let t = op_text(op);
    lemma_text_at_char(s, p, t, 0);
    lemma_text_at_char(s, p, t, 1);
    lemma_text_at_char(s, p, t, 2);
    if t.len() == 4 {
        lemma_text_at_char(s, p, t, 3);
    }
    lemma_skip_at(s, p + 1);
}

/// Reading a plain value as an expression: applications joined by
/// operators, up to the whitespace after the last operand.
proof fn lemma_read_expr(v: SNix, d: nat, s: Seq<char>, j: int, i: int)
    requires
        plain(v),
        text_at(s, i, fmt(v, d)),
        0 <= j <= i,
        skip_ws(s, j) == i,
        ends_single(s, i + fmt(v, d).len()),
        greedy_expr(v) ==> ends_value(s, i + fmt(v, d).len()),
        closes(v, s, i + fmt(v, d).len()),
        stops_app(s, i + fmt(v, d).len()),
    ensures
        p_expr(s, j) == p_expr_tail(s, ws_end(s, i + fmt(v, d).len()), v),
    decreases v, 4int,
{
    let e = i + fmt(v, d).len();
    lemma_first_char(v, d);
    lemma_ws_end(s, e);
    let k = ws_end(s, e);
    match v {
        SNix::BinaryOp(l, op, r) => {
            let fl = fmt(*l, 0);
            let ot = op_text(op);
            let fr = fmt(*r, d);
            let t = fmt(v, d);
            assert(t == fl + ot + fr);
            lemma_text_at_split(s, i, fl + ot, fr);
            lemma_text_at_split(s, i, fl, ot);
            let el = i + fl.len();
            lemma_op_read(op, s, el);
            lemma_op_text(op);
            let kr = el + ot.len() - 1;
            let ir = el + ot.len();
            lemma_first_char(*r, d);
            lemma_text_at_char(s, ir, fr, 0);
            lemma_skip_at(s, ir);
            lemma_skip_at(s, el + 1);
            assert(ws_end(s, el) == el + 1);
            assert(skip_ws(s, el) == el + 1);
            assert(skip_ws(s, kr) == ir);
            assert(ends_single(s, el));
            assert(stops_app(s, el));
            lemma_read_expr(*l, 0, s, j, i);
            assert(greedy_expr(v) == greedy(*r));
            assert(ends_in_path(v) == ends_in_path(*r));
            lemma_read_app(*r, d, s, kr, ir);
            let ae = app_end(*r, s, e);
            if k < s.len() {
                lemma_skip_at(s, k);
            }
            assert(skip_ws(s, ae) == k);
            assert(p_app_tail(s, ae, *r) == (Some(*r), k));
            assert(p_app(s, kr) == (Some(*r), k));
            assert(p_expr_tail(s, el + 1, *l) == p_expr_tail(s, k, v));
        },
        _ => {
            lemma_read_app(v, d, s, j, i);
            let ae = app_end(v, s, e);
            if k < s.len() {
                lemma_skip_at(s, k);
            }
            assert(skip_ws(s, ae) == k);
            assert(p_app_tail(s, ae, v) == (Some(v), k));
            assert(p_app(s, j) == (Some(v), k));
        },
    }
}

/// Reading a plain value as an application: its head and each of its
/// arguments as single values, up to where the last one stops.
proof fn lemma_read_app(v: SNix, d: nat, s: Seq<char>, j: int, i: int)
    requires
        plain(v),
        !(v is BinaryOp),
        text_at(s, i, fmt(v, d)),
        0 <= j <= i,
        skip_ws(s, j) == i,
        ends_single(s, i + fmt(v, d).len()),
        greedy(v) ==> ends_value(s, i + fmt(v, d).len()),
        closes(v, s, i + fmt(v, d).len()),
    ensures
        p_app(s, j) == p_app_tail(s, app_end(v, s, i + fmt(v, d).len()), v),
        i < app_end(v, s, i + fmt(v, d).len()) <= s.len(),
    decreases v, 3int,
{
    let e = i + fmt(v, d).len();
    lemma_first_char(v, d);
    lemma_ws_end(s, e);
    match v {
        SNix::Apply(a, b) => {
            reveal_strlit(" ");
            let fa = fmt(*a, d + 1);
            let fb = fmt(*b, d);
            let t = fmt(v, d);
            assert(t == fa + " "@ + fb);
            lemma_text_at_split(s, i, fa + " "@, fb);
            lemma_text_at_split(s, i, fa, " "@);
            let ea = i + fa.len();
            let ib = ea + 1;
            lemma_text_at_char(s, ea, " "@, 0);
            lemma_first_char(*b, d);
            lemma_text_at_char(s, ib, fb, 0);
            lemma_skip_at(s, ib);
            assert(ws_end(s, ea) == ib);
            assert(skip_ws(s, ea) == ib);
            assert(ends_single(s, ea));
            lemma_read_app(*a, d + 1, s, j, i);
            assert(app_end(*a, s, ea) == ea) by {
                if let SNix::Apply(_, r) = *a {
                    assert(!greedy(*r));
                }
            }
            assert(!app_stop(s[ib])) by {
                if s[ib] == '/' {
                    assert(!starts_with_slash(*b));
                }
            }
            assert(greedy(v) == greedy(*b));
            assert(ends_in_path(v) == ends_in_path(*b));
            lemma_read_single(*b, d, s, ib, ib);
            lemma_ws_end(s, e);
            assert(p_app_tail(s, ea, *a) == p_app_tail(s, single_end(*b, s, e), v));
        },
        _ => {
            lemma_read_single(v, d, s, j, i);
        },
    }
}

/// One entry of a plain attribute set: reading its line, after the newline
/// at `p`, stores the entry and goes on at the newline that ends the line.
proof fn lemma_read_entry(m: Seq<(Seq<char>, SNix)>, e: nat, j: int, s: Seq<char>, p: int)
    requires
        all_true(entries_plain(m)),
        keys_unique(m),
        e >= 1,
        0 <= j < m.len(),
        0 <= p < s.len(),
        s[p] == '\n',
        text_at(s, p + 1, binding_line(m[j].0, fmt(m[j].1, e), e)),
    ensures
        p_attr_loop(s, p, m.subrange(0, j)) == p_attr_loop(
            s,
            p + binding_line(m[j].0, fmt(m[j].1, e), e).len(),
            m.subrange(0, j + 1),
        ),
    decreases m, m.len() - j, 1int,
{
    reveal_strlit(" = ");
    reveal_strlit(";\n");
    reveal_strlit("\n");
    assert(entries_plain(m)[j]);
    let k = m[j].0;
    let v = m[j].1;
    let val = fmt(v, e);
    let line = binding_line(k, val, e);
    assert(line == spaces(e) + k + " = "@ + val + ";\n"@);
    lemma_text_at_split(s, p + 1, spaces(e) + k + " = "@ + val, ";\n"@);
    lemma_text_at_split(s, p + 1, spaces(e) + k + " = "@, val);
    lemma_text_at_split(s, p + 1, spaces(e) + k, " = "@);
    lemma_text_at_split(s, p + 1, spaces(e), k);
    let p1 = p + 1 + 2 * e;
    let p2 = p1 + k.len();
    let p3 = p2 + 3;
    let p4 = p3 + val.len();
    lemma_spaces_at(s, p + 1, e);
    lemma_text_at_char(s, p1, k, 0);
    lemma_text_at_char(s, p2, " = "@, 0);
    lemma_text_at_char(s, p2, " = "@, 1);
    lemma_text_at_char(s, p2, " = "@, 2);
    lemma_text_at_char(s, p4, ";\n"@, 0);
    lemma_text_at_char(s, p4, ";\n"@, 1);
    // The key.
    lemma_skip_run(s, p, p1);
    lemma_skip_at(s, p1);
    assert forall|q: int| p1 <= q < p2 implies key_char(#[trigger] s[q]) by {
        lemma_text_at_char(s, p1, k, q - p1);
    }
    lemma_quotes_at(s, p1, k);
    lemma_key_run(s, p1, p2, false);
    assert(s.subrange(p1, p2) == k);
    lemma_skip_run(s, p2, p2 + 1);
    lemma_skip_at(s, p2 + 1);
    // The value.
    assert(decreases_to!(m => m[j]));
    assert(decreases_to!(m[j] => m[j].1));
    lemma_first_char(v, e);
    lemma_text_at_char(s, p3, val, 0);
    lemma_skip_run(s, p2 + 2, p3);
    lemma_skip_at(s, p3);
    lemma_skip_at(s, p4);
    lemma_read_value(v, e, s, p2 + 2, p3);
    // The entry is new.
    lemma_key_index(m.subrange(0, j), k);
    assert forall|q: int| 0 <= q < j implies m.subrange(0, j)[q].0 != k by {
        assert(m.subrange(0, j)[q] == m[q]);
    }
    assert(map_insert(m.subrange(0, j), k, v) =~= m.subrange(0, j + 1));
    assert(p4 + 1 == p + line.len());
}

/// Reading the lines of a plain attribute set from the `j`-th on, after the
/// newline at `p`, with the entries before them read already, gives the
/// whole set and ends after its `}`.
proof fn lemma_read_lines(m: Seq<(Seq<char>, SNix)>, e: nat, j: int, s: Seq<char>, p: int)
    requires
        all_true(entries_plain(m)),
        keys_unique(m),
        e >= 1,
        0 <= j <= m.len(),
        0 <= p < s.len(),
        s[p] == '\n',
        text_at(s, p + 1, lines_from(m, e, j) + spaces((e - 1) as nat) + "}"@),
    ensures
        p_attr_loop(s, p, m.subrange(0, j)) == (
            Some(SNix::AttrSet(m)),
            p + 1 + lines_from(m, e, j).len() + 2 * (e - 1) + 1,
        ),
    decreases m, m.len() - j, 2int,
{
    reveal_strlit("}");
    reveal_strlit(";\n");
    reveal_strlit("\n");
    let d = (e - 1) as nat;
    let x = lines_from(m, e, j);
    if j == m.len() {
        lemma_text_at_split(s, p + 1, x + spaces(d), "}"@);
        lemma_text_at_split(s, p + 1, x, spaces(d));
        assert(binding_lines(m, entry_texts(m, e), e).subrange(j, m.len() as int) =~= Seq::<
            Seq<char>,
        >::empty());
        assert(x.len() == 0);
        lemma_spaces_at(s, p + 1, d);
        let r = p + 1 + 2 * d;
        lemma_text_at_char(s, r, "}"@, 0);
        lemma_skip_run(s, p, r);
        lemma_skip_at(s, r);
        assert(m.subrange(0, j) =~= m);
    } else {
        lemma_lines_from_step(m, e, j);
        let line = binding_line(m[j].0, fmt(m[j].1, e), e);
        let rest = lines_from(m, e, j + 1);
        let tail = rest + spaces(d) + "}"@;
        assert(x + spaces(d) + "}"@ =~= line + tail);
        lemma_text_at_split(s, p + 1, line, tail);
        assert(line == spaces(e) + m[j].0 + " = "@ + fmt(m[j].1, e) + ";\n"@);
        let q = p + line.len();
        lemma_text_at_char(s, p + 1, line, line.len() - 1);
        assert(s[q] == '\n');
        lemma_read_entry(m, e, j, s, p);
        lemma_read_lines(m, e, j + 1, s, q);
    }
}

// ---------------------------------------------------------------------------
// Function heads with `...` first
// ---------------------------------------------------------------------------

/// The arguments of a sorted function head: `...`, then plain names.
pub open spec fn lead_args(args: Seq<Seq<char>>) -> bool {
    &&& args.len() >= 1
    &&& args[0] == "..."@
    &&& forall|j: int| 1 <= j < args.len() ==> plain_arg(#[trigger] args[j])
}

/// Plain values in which a function head may also list `...` first, as
/// sorting puts it.
pub open spec fn plain_any(v: SNix) -> bool
    decreases v, 1int,
{
    match v {
        SNix::AttrSet(m) => keys_unique(m) && all_true(entries_plain_any(m)),
        SNix::List(l) => l.len() <= 1 && all_true(items_plain_any(l)),
        SNix::Lambda(SLambda::Nofix(args, b)) => (plain_args(args) || lead_args(args)) && plain_any(
            *b,
        ),
        _ => plain(v),
    }
}

pub open spec fn entries_plain_any(m: Seq<(Seq<char>, SNix)>) -> Seq<bool>
    decreases m, 0int,
{
    Seq::new(
        m.len(),
        |i: int| if 0 <= i < m.len() { plain_key(m[i].0) && plain_any(m[i].1) } else { true },
    )
}

pub open spec fn items_plain_any(l: Seq<SNix>) -> Seq<bool>
    decreases l, 0int,
{
    Seq::new(l.len(), |i: int| if 0 <= i < l.len() { plain_any(l[i]) } else { true })
}

/// `...` moved from the front of a function head to its end.
pub open spec fn canon_args(a: Seq<Seq<char>>) -> Seq<Seq<char>> {
    if a.len() > 0 && a[0] == "..."@ {
        a.drop_first().push("..."@)
    } else {
        a
    }
}

/// The value with `...` at the end of every function head, as reading a
/// formatted text gives it.
pub open spec fn canon(v: SNix) -> SNix
    decreases v, 1int,
{
    match v {
        SNix::AttrSet(m) => SNix::AttrSet(canon_entries(m)),
        SNix::List(l) => SNix::List(canon_items(l)),
        SNix::Lambda(SLambda::Nofix(a, b)) => SNix::Lambda(
            SLambda::Nofix(canon_args(a), Box::new(canon(*b))),
        ),
        _ => v,
    }
}

pub open spec fn canon_entries(m: Seq<(Seq<char>, SNix)>) -> Seq<(Seq<char>, SNix)>
    decreases m, 0int,
{
    Seq::new(
        m.len(),
        |i: int| if 0 <= i < m.len() { (m[i].0, canon(m[i].1)) } else { (Seq::empty(), SNix::Int(0)) },
    )
}

pub open spec fn canon_items(l: Seq<SNix>) -> Seq<SNix>
    decreases l, 0int,
{
    Seq::new(l.len(), |i: int| if 0 <= i < l.len() { canon(l[i]) } else { SNix::Int(0) })
}

/// `...` comes before every plain name.
proof fn lemma_dots_first(a: Seq<char>)
    requires
        plain_arg(a),
    ensures
        text_lt("..."@, a),
        !text_lt(a, "..."@),
{
    reveal_strlit("...");
    assert(text_lt_from("..."@, a, 0));
    assert(!text_lt_from(a, "..."@, 0));
}

proof fn lemma_ins_name_elems(t: Seq<Seq<char>>, e: Seq<char>)
    ensures
        forall|j: int|
            0 <= j < ins_name(t, e).len() ==> #[trigger] ins_name(t, e)[j] == e || t.contains(
                ins_name(t, e)[j],
            ),
    decreases t.len(),
{
    if t.len() > 0 && !text_lt(e, t[0]) {
        let t1 = t.drop_first();
        lemma_ins_name_elems(t1, e);
        let r = ins_name(t, e);
        assert forall|j: int| 0 <= j < r.len() implies #[trigger] r[j] == e || t.contains(r[j]) by {
            if j == 0 {
                assert(t[0] == r[0]);
            } else {
                let r1 = ins_name(t1, e);
                assert(r[j] == r1[j - 1]);
                if r1[j - 1] != e {
                    let i = choose|i: int| 0 <= i < t1.len() && t1[i] == r1[j - 1];
                    assert(t[i + 1] == r[j]);
                }
            }
        }
    } else if t.len() > 0 {
        let r = ins_name(t, e);
        assert forall|j: int| 0 <= j < r.len() implies #[trigger] r[j] == e || t.contains(r[j]) by {
            if j > 0 {
                assert(r[j] == t[j - 1]);
            }
        }
    }
}

proof fn lemma_sort_names_elems(r: Seq<Seq<char>>)
    ensures
        forall|j: int| 0 <= j < sort_names(r).len() ==> r.contains(#[trigger] sort_names(r)[j]),
    decreases r.len(),
{
    if r.len() > 0 {
        let d = r.drop_last();
        lemma_sort_names_elems(d);
        lemma_ins_name_elems(sort_names(d), r.last());
        let x = sort_names(r);
        assert forall|j: int| 0 <= j < x.len() implies r.contains(#[trigger] x[j]) by {
            if x[j] == r.last() {
                assert(r[r.len() - 1] == x[j]);
            } else {
                let i = choose|i: int| 0 <= i < sort_names(d).len() && sort_names(d)[i] == x[j];
                assert(d.contains(sort_names(d)[i]));
                let k = choose|k: int| 0 <= k < d.len() && d[k] == sort_names(d)[i];
                assert(r[k] == x[j]);
            }
        }
    }
}

/// Sorting names with `...` in front, or at the end, puts `...` first and
/// the names after it in order.
proof fn lemma_sort_dots(r: Seq<Seq<char>>)
    requires
        forall|j: int| 0 <= j < r.len() ==> plain_arg(#[trigger] r[j]),
    ensures
        sort_names(seq!["..."@] + r) == seq!["..."@] + sort_names(r),
        sort_names(r.push("..."@)) == seq!["..."@] + sort_names(r),
    decreases r.len(),
{
    reveal_strlit("...");
    lemma_sort_names_elems(r);
    let sr = sort_names(r);
    if sr.len() > 0 {
        let i = choose|i: int| 0 <= i < r.len() && r[i] == sr[0];
        lemma_dots_first(r[i]);
    }
    assert(r.push("..."@).drop_last() =~= r);
    if r.len() > 0 {
        let d = r.drop_last();
        assert forall|j: int| 0 <= j < d.len() implies plain_arg(#[trigger] d[j]) by {
            assert(d[j] == r[j]);
        }
        lemma_sort_dots(d);
        let x = seq!["..."@] + r;
        assert(x.drop_last() =~= seq!["..."@] + d);
        assert(x.last() == r.last());
        lemma_dots_first(r[r.len() - 1]);
        let t = seq!["..."@] + sort_names(d);
        assert(t.drop_first() =~= sort_names(d));
        assert(ins_name(t, r.last()) == seq![t[0]] + ins_name(t.drop_first(), r.last()));
        assert(seq![t[0]] + ins_name(sort_names(d), r.last()) =~= seq!["..."@] + sort_names(r));
    } else {
        assert(seq!["..."@] + r =~= seq!["..."@]);
        assert(sort_names(seq!["..."@]) == ins_name(sort_names(Seq::<Seq<char>>::empty()), "..."@)) by {
            assert(seq!["..."@].drop_last() =~= Seq::<Seq<char>>::empty());
        }
    }
}

proof fn lemma_canon_args(a: Seq<Seq<char>>)
    requires
        plain_args(a) || lead_args(a),
    ensures
        plain_args(canon_args(a)),
        sort_names(canon_args(a)) == sort_names(a),
        forall|e: nat| #[trigger] args_block(canon_args(a), e) == args_block(a, e),
{
    reveal_strlit("...");
    if lead_args(a) {
        let r = a.drop_first();
        assert forall|j: int| 0 <= j < r.len() implies plain_arg(#[trigger] r[j]) by {
            assert(r[j] == a[j + 1]);
        }
        assert(a =~= seq!["..."@] + r);
        lemma_sort_dots(r);
        let c = r.push("..."@);
        assert forall|j: int| 0 <= j < c.len() - 1 implies plain_arg(#[trigger] c[j]) by {
            assert(c[j] == r[j]);
        }
        assert forall|e: nat| #[trigger] args_block(canon_args(a), e) == args_block(a, e) by {
            let la = arg_lines(a, e);
            let lc = arg_lines(c, e);
            let lr = arg_lines(r, e);
            assert(la =~= seq![Seq::<char>::empty()] + lr);
            assert(lc =~= lr.push(Seq::<char>::empty()));
            assert(la.drop_first() =~= lr);
            assert(la.flatten() == la[0] + la.drop_first().flatten());
            lr.lemma_flatten_push(Seq::<char>::empty());
            assert(la.flatten() =~= lc.flatten());
        }
    } else {
        assert(canon_args(a) == a) by {
            if a.len() > 0 && a[0] == "..."@ {
                if a.len() > 1 {
                    assert(plain_arg(a[0]));
                } else {
                    assert(a[a.len() - 1] == a[0]);
                }
            }
        }
    }
}

/// Putting `...` at the end makes a plain value with the same text.
proof fn lemma_canon_plain(v: SNix, d: nat)
    requires
        plain_any(v),
    ensures
        plain(canon(v)),
        fmt(canon(v), d) == fmt(v, d),
    decreases v, 2int,
{
    match v {
        SNix::AttrSet(m) => {
            let c = canon_entries(m);
            assert forall|i: int| 0 <= i < m.len() implies plain(#[trigger] canon(m[i].1)) && fmt(
                canon(m[i].1),
                d + 1,
            ) == fmt(m[i].1, d + 1) by {
                assert(decreases_to!(v => m));
                assert(decreases_to!(m => m[i]));
                assert(decreases_to!(m[i] => m[i].1));
                assert(entries_plain_any(m)[i]);
                lemma_canon_plain(m[i].1, d + 1);
            }
            assert forall|i: int| 0 <= i < m.len() implies #[trigger] entries_plain(c)[i] by {
                assert(plain(canon(m[i].1)));
                assert(entries_plain_any(m)[i]);
                assert(c[i] == (m[i].0, canon(m[i].1)));
            }
            assert(canon(v) == SNix::AttrSet(c));
            assert(all_true(entries_plain(c)));
            assert(keys_unique(c));
            assert(plain(SNix::AttrSet(c)));
            assert forall|i: int| 0 <= i < m.len() implies #[trigger] entry_texts(c, d + 1)[i]
                == entry_texts(m, d + 1)[i] by {
                assert(fmt(canon(m[i].1), d + 1) == fmt(m[i].1, d + 1));
            }
            assert(keys_unique(c)) by {
                assert forall|a: int, b: int| 0 <= a < b < c.len() implies c[a].0 != c[b].0 by {
                    assert(c[a].0 == m[a].0);
                    assert(c[b].0 == m[b].0);
                }
            }
            assert(entry_texts(c, d + 1) =~= entry_texts(m, d + 1));
            assert(binding_lines(c, entry_texts(c, d + 1), d + 1) =~= binding_lines(
                m,
                entry_texts(m, d + 1),
                d + 1,
            ));
        },
        SNix::List(l) => {
            let c = canon_items(l);
            assert forall|i: int| 0 <= i < l.len() implies plain(#[trigger] canon(l[i])) && fmt(
                canon(l[i]),
                d + 1,
            ) == fmt(l[i], d + 1) by {
                assert(decreases_to!(v => l));
                assert(decreases_to!(l => l[i]));
                assert(items_plain_any(l)[i]);
                lemma_canon_plain(l[i], d + 1);
            }
            assert forall|i: int| 0 <= i < l.len() implies #[trigger] items_plain(c)[i] by {
                assert(c[i] == canon(l[i]));
                assert(plain(canon(l[i])));
            }
            assert forall|i: int| 0 <= i < l.len() implies #[trigger] item_texts(c, d + 1)[i]
                == item_texts(l, d + 1)[i] by {
                assert(fmt(canon(l[i]), d + 1) == fmt(l[i], d + 1));
            }
            assert(item_texts(c, d + 1) =~= item_texts(l, d + 1));
            assert(canon(v) == SNix::List(c));
            assert(c.len() == l.len() && l.len() <= 1);
            assert(all_true(items_plain(c)));
            assert(plain(canon(v)));
        },
        SNix::Lambda(SLambda::Nofix(a, b)) => {
            assert(decreases_to!(v => b));
            lemma_canon_plain(*b, d);
            lemma_canon_args(a);
            assert(args_block(canon_args(a), d + 1) == args_block(a, d + 1));
            assert(plain(canon(v)));
        },
        _ => {
            assert(plain(canon(v)));
        },
    }
}

/// Putting `...` at the end does not change what sorting gives.
proof fn lemma_canon_sort(v: SNix)
    requires
        plain_any(v),
    ensures
        sort_tree(canon(v)) == sort_tree(v),
    decreases v, 2int,
{
    match v {
        SNix::AttrSet(m) => {
            let c = canon_entries(m);
            assert forall|i: int| 0 <= i < m.len() implies #[trigger] sorted_vals(c)[i] == sorted_vals(
                m,
            )[i] by {
                assert(decreases_to!(v => m));
                assert(decreases_to!(m => m[i]));
                assert(decreases_to!(m[i] => m[i].1));
                assert(entries_plain_any(m)[i]);
                lemma_canon_sort(m[i].1);
            }
            assert(sorted_vals(c) =~= sorted_vals(m));
        },
        SNix::List(l) => {
            let c = canon_items(l);
            assert forall|i: int| 0 <= i < l.len() implies #[trigger] sorted_items(c)[i] == sorted_items(
                l,
            )[i] by {
                assert(decreases_to!(v => l));
                assert(decreases_to!(l => l[i]));
                assert(items_plain_any(l)[i]);
                lemma_canon_sort(l[i]);
            }
            assert(sorted_items(c) =~= sorted_items(l));
        },
        SNix::Lambda(SLambda::Nofix(a, b)) => {
            assert(decreases_to!(v => b));
            lemma_canon_sort(*b);
            lemma_canon_args(a);
        },
        _ => {},
    }
}

/// Putting `...` at the end keeps a value expanded.
proof fn lemma_canon_expanded(v: SNix)
    requires
        plain_any(v),
        is_expanded(v),
    ensures
        is_expanded(canon(v)),
    decreases v, 2int,
{
    match v {
        SNix::AttrSet(m) => {
            let c = canon_entries(m);
            assert forall|i: int| 0 <= i < m.len() implies #[trigger] entries_expanded(c)[i] by {
                assert(decreases_to!(v => m));
                assert(decreases_to!(m => m[i]));
                assert(decreases_to!(m[i] => m[i].1));
                assert(entries_plain_any(m)[i]);
                assert(entries_expanded(m)[i]);
                lemma_canon_expanded(m[i].1);
                assert(c[i] == (m[i].0, canon(m[i].1)));
            }
            assert(keys_unique(c)) by {
                assert forall|a: int, b: int| 0 <= a < b < c.len() implies c[a].0 != c[b].0 by {
                    assert(c[a].0 == m[a].0);
                    assert(c[b].0 == m[b].0);
                }
            }
            assert(canon(v) == SNix::AttrSet(c));
            assert(all_true(entries_expanded(c)));
        },
        SNix::List(l) => {
            let c = canon_items(l);
            assert forall|i: int| 0 <= i < l.len() implies #[trigger] items_expanded(c)[i] by {
                assert(decreases_to!(v => l));
                assert(decreases_to!(l => l[i]));
                assert(items_plain_any(l)[i]);
                assert(items_expanded(l)[i]);
                lemma_canon_expanded(l[i]);
                assert(c[i] == canon(l[i]));
            }
            assert(canon(v) == SNix::List(c));
            assert(all_true(items_expanded(c)));
        },
        SNix::Lambda(SLambda::Nofix(a, b)) => {
            assert(decreases_to!(v => b));
            lemma_canon_expanded(*b);
        },
        _ => {},
    }
}

// ---------------------------------------------------------------------------
// Laws
// ---------------------------------------------------------------------------

/// Formatting a plain value and reading the whole text back gives the value.
pub proof fn lemma_format_then_read(v: SNix)
    requires
        plain(v),
    ensures
        p_value(fmt(v, 0), 0) == (Some(v), fmt(v, 0).len() as int),
{
    let s = fmt(v, 0);
    lemma_first_char(v, 0);
    assert(s.subrange(0, s.len() as int) =~= s);
    lemma_skip_at(s, 0);
    lemma_read_value(v, 0, s, 0, 0);
}

/// The text of an expression read back from `text`, formatted again.
pub open spec fn reformat(text: Seq<char>, restructure: spec_fn(SNix) -> SNix) -> Option<Seq<char>> {
    match p_value(text, 0).0 {
        Some(v) => Some(fmt(restructure(v), 0)),
        None => None,
    }
}

/// Sorting then formatting is idempotent: where sorting an expression gives a
/// plain value, reading its formatted text back, sorting and formatting
/// again gives the same text.
pub proof fn lemma_sort_format_idempotent(u: SNix)
    requires
        plain(sort_tree(u)),
    ensures
        reformat(fmt(sort_tree(u), 0), |w: SNix| sort_tree(w)) == Some(fmt(sort_tree(u), 0)),
{
    lemma_format_then_read(sort_tree(u));
    lemma_sort_tree_idempotent(u);
}

/// Flattening then formatting is idempotent, where flattening gives a plain
/// value.
pub proof fn lemma_flatten_format_idempotent(u: SNix)
    requires
        plain(flat_tree(u)),
    ensures
        reformat(fmt(flat_tree(u), 0), |w: SNix| flat_tree(w)) == Some(fmt(flat_tree(u), 0)),
{
    lemma_format_then_read(flat_tree(u));
    lemma_flat_idempotent(u);
}

/// Expanding then formatting is idempotent, where no key has an empty part
/// and expanding gives a plain value.
pub proof fn lemma_expand_format_idempotent(u: SNix)
    requires
        keys_ok(u),
        plain(expand_tree(u)),
    ensures
        reformat(fmt(expand_tree(u), 0), |w: SNix| expand_tree(w)) == Some(
            fmt(expand_tree(u), 0),
        ),
{
    lemma_format_then_read(expand_tree(u));
    lemma_expand_idempotent(u);
}

/// Expanding, sorting and formatting, as `format` does to each file, is
/// idempotent: where no key has an empty part and the result is plain (its
/// function heads may list `...` first, as sorting puts it), reading its
/// text back, expanding, sorting and formatting again gives the same text.
pub proof fn lemma_expand_sort_format_idempotent(u: SNix)
    requires
        keys_ok(u),
        plain_any(sort_tree(expand_tree(u))),
    ensures
        reformat(fmt(sort_tree(expand_tree(u)), 0), |w: SNix| sort_tree(expand_tree(w))) == Some(
            fmt(sort_tree(expand_tree(u)), 0),
        ),
{
    let v = sort_tree(expand_tree(u));
    lemma_canon_plain(v, 0);
    lemma_format_then_read(canon(v));
    lemma_expand_makes(u);
    lemma_sort_keeps_expanded(expand_tree(u));
    lemma_canon_expanded(v);
    lemma_expand_fix(canon(v));
    lemma_canon_sort(v);
    lemma_sort_tree_idempotent(expand_tree(u));
}

} // verus!
