//! The grammar that the lexer implements, as functions from an input text
//! and a position to the value read and the position after it.
//!
//! Each function describes one method of the lexer: the method returns `Ok`
//! exactly when the function gives `Some`, the value it returns has the
//! model that the function gives, and afterwards the lexer stands at the
//! position that the function gives, on success and on failure alike.
use vstd::prelude::*;
use crate::text::{is_ws, is_alnum, is_digit};
use crate::value::{SNix, SFrag, SLambda, Operator, map_insert};

verus! {

/// The character at position `i`, if there is one.
pub open spec fn at(s: Seq<char>, i: int) -> Option<char> {
    if 0 <= i < s.len() {
        Some(s[i])
    } else {
        None
    }
}

/// The shapes of a function head while it is being read.
#[derive(Debug, Clone, Copy, PartialEq, Eq, Structural)]
pub enum LamType {
    Undecided,
    Nofix,
    Suffix,
    Prefix,
    Single,
}

// ---------------------------------------------------------------------------
// Whitespace and comments
// ---------------------------------------------------------------------------

/// Skips whitespace and `#` comments (a comment ends after its newline).
pub open spec fn skip_from(s: Seq<char>, i: int, in_comment: bool) -> int
    decreases s.len() - i,
{
    if i < 0 || i >= s.len() {
        i
    } else if in_comment {
        if s[i] == '\n' {
            skip_from(s, i + 1, false)
        } else {
            skip_from(s, i + 1, true)
        }
    } else if is_ws(s[i]) {
        skip_from(s, i + 1, false)
    } else if s[i] == '#' {
        skip_from(s, i + 1, true)
    } else {
        i
    }
}

/// Position after the whitespace and comments that start at `i`.
pub open spec fn skip_ws(s: Seq<char>, i: int) -> int {
    skip_from(s, i, false)
}

pub proof fn lemma_skip_from(s: Seq<char>, i: int, c: bool)
    ensures
        i <= skip_from(s, i, c),
        i <= s.len() ==> skip_from(s, i, c) <= s.len(),
        s.len() <= i ==> skip_from(s, i, c) == i,
        0 <= i ==> 0 <= skip_from(s, i, c),
    decreases s.len() - i,
{
    if 0 <= i < s.len() {
        if c {
            if s[i] == '\n' {
                lemma_skip_from(s, i + 1, false);
            } else {
                lemma_skip_from(s, i + 1, true);
            }
        } else if is_ws(s[i]) {
            lemma_skip_from(s, i + 1, false);
        } else if s[i] == '#' {
            lemma_skip_from(s, i + 1, true);
        }
    }
}

pub proof fn lemma_skip(s: Seq<char>, i: int)
    ensures
        i <= skip_ws(s, i),
        i <= s.len() ==> skip_ws(s, i) <= s.len(),
        s.len() <= i ==> skip_ws(s, i) == i,
        0 <= i ==> 0 <= skip_ws(s, i),
{
    lemma_skip_from(s, i, false);
}

/// Inside a comment, skipping goes on up to the next newline, whatever the
/// characters before it.
proof fn lemma_comment_run(s: Seq<char>, i: int, j: int)
    requires
        0 <= i <= j <= s.len(),
        forall|k: int| i <= k < j ==> #[trigger] s[k] != '\n',
    ensures
        skip_from(s, i, true) == skip_from(s, j, true),
    decreases j - i,
{
    if i < j {
        lemma_comment_run(s, i + 1, j);
    }
}

/// A `#` comment runs to the end of its line: skipping from a `#` passes
/// every character before the next newline, and that newline too; without
/// a newline, it passes the rest of the text.
pub proof fn lemma_comment_to_line_end(s: Seq<char>, i: int, j: int)
    requires
        0 <= i < j <= s.len(),
        s[i] == '#',
        forall|k: int| i < k < j ==> #[trigger] s[k] != '\n',
    ensures
        skip_ws(s, i) >= j,
        j < s.len() && s[j] == '\n' ==> skip_ws(s, i) > j,
        j == s.len() ==> skip_ws(s, i) == s.len(),
{
    lemma_comment_run(s, i + 1, j);
    lemma_skip_from(s, j, true);
    if j < s.len() && s[j] == '\n' {
        lemma_skip_from(s, j + 1, false);
    }
}

/// Skipping stops before a character that is neither whitespace nor `#`.
pub proof fn lemma_skip_stop(s: Seq<char>, i: int)
    ensures
        skip_ws(s, i) < s.len() && 0 <= skip_ws(s, i) ==> !is_ws(s[skip_ws(s, i)]) && s[skip_ws(
            s,
            i,
        )] != '#',
{
    lemma_skip_from_stop(s, i, false);
    let k = skip_ws(s, i);
    if 0 <= k < s.len() {
        lemma_skip_from(s, k + 1, false);
        lemma_skip_from(s, k + 1, true);
    }
}

proof fn lemma_skip_from_stop(s: Seq<char>, i: int, c: bool)
    ensures
        skip_from(s, skip_from(s, i, c), false) == skip_from(s, i, c),
    decreases s.len() - i,
{
    if 0 <= i < s.len() {
        if c {
            if s[i] == '\n' {
                lemma_skip_from_stop(s, i + 1, false);
            } else {
                lemma_skip_from_stop(s, i + 1, true);
            }
        } else if is_ws(s[i]) {
            lemma_skip_from_stop(s, i + 1, false);
        } else if s[i] == '#' {
            lemma_skip_from_stop(s, i + 1, true);
        }
    }
}

// ---------------------------------------------------------------------------
// Scanners
// ---------------------------------------------------------------------------

/// End of a run of plain whitespace (no comments).
pub open spec fn ws_end(s: Seq<char>, i: int) -> int
    decreases s.len() - i,
{
    match at(s, i) {
        Some(c) => if is_ws(c) {
            ws_end(s, i + 1)
        } else {
            i
        },
        None => i,
    }
}

/// End of a path: it runs up to whitespace or `;`.
pub open spec fn path_end(s: Seq<char>, i: int) -> int
    decreases s.len() - i,
{
    match at(s, i) {
        Some(c) => if !is_ws(c) && c != ';' {
            path_end(s, i + 1)
        } else {
            i
        },
        None => i,
    }
}

/// Position of the next `"` at or after `i`.
pub open spec fn quote_at(s: Seq<char>, i: int) -> Option<int>
    decreases s.len() - i,
{
    match at(s, i) {
        Some(c) => if c == '"' {
            Some(i)
        } else {
            quote_at(s, i + 1)
        },
        None => None,
    }
}

/// End of a number and whether it holds a dot: digits and at most one dot.
pub open spec fn num_end(s: Seq<char>, i: int, dot: bool) -> (int, bool)
    decreases s.len() - i,
{
    match at(s, i) {
        Some(c) => if is_digit(c) {
            num_end(s, i + 1, dot)
        } else if c == '.' && !dot {
            num_end(s, i + 1, true)
        } else {
            (i, dot)
        },
        None => (i, dot),
    }
}

/// The value of a text of decimal digits.
pub open spec fn dec_value(d: Seq<char>) -> nat
    decreases d.len(),
{
    if d.len() == 0 {
        0
    } else {
        dec_value(d.drop_last()) * 10 + ((d.last() as int - '0' as int) as nat)
    }
}

/// A character that may stand in an identifier.
pub open spec fn id_char(c: char) -> bool {
    is_alnum(c) || c == '_' || c == '-' || c == '.' || c == '!'
}

/// A character that may stand inside `${...}` within an identifier.
pub open spec fn anti_char(c: char) -> bool {
    is_alnum(c) || c == '_' || c == '-' || c == '.'
}

/// Reads the `${...}` part of an identifier after its `${`: whether it is
/// well formed and where it ends.
pub open spec fn anti_scan(s: Seq<char>, i: int) -> (bool, int)
    decreases s.len() - i,
{
    match at(s, i) {
        Some(d) => if anti_char(d) {
            anti_scan(s, i + 1)
        } else if d == '}' {
            (true, i + 1)
        } else {
            (false, i)
        },
        None => (true, i),
    }
}

pub proof fn lemma_anti_scan(s: Seq<char>, i: int)
    ensures
        i <= anti_scan(s, i).1,
        i <= s.len() ==> anti_scan(s, i).1 <= s.len(),
    decreases s.len() - i,
{
    if let Some(d) = at(s, i) {
        if anti_char(d) {
            lemma_anti_scan(s, i + 1);
        }
    }
}

/// Reads an identifier: whether it is well formed and where it ends.
pub open spec fn ident_scan(s: Seq<char>, i: int) -> (bool, int)
    decreases s.len() - i,
{
    match at(s, i) {
        Some(c) => if id_char(c) {
            ident_scan(s, i + 1)
        } else if c == '$' {
            if at(s, i + 1) == Some('{') {
                let r = anti_scan(s, i + 2);
                proof {
                    lemma_anti_scan(s, i + 2);
                }
                if !r.0 {
                    (false, r.1)
                } else {
                    ident_scan(s, r.1)
                }
            } else {
                (false, i + 1)
            }
        } else {
            (true, i)
        },
        None => (true, i),
    }
}

pub proof fn lemma_ident_scan(s: Seq<char>, i: int)
    ensures
        i <= ident_scan(s, i).1,
        i <= s.len() ==> ident_scan(s, i).1 <= s.len(),
    decreases s.len() - i,
{
    if let Some(c) = at(s, i) {
        if id_char(c) {
            lemma_ident_scan(s, i + 1);
        } else if c == '$' && at(s, i + 1) == Some('{') {
            lemma_anti_scan(s, i + 2);
            let r = anti_scan(s, i + 2);
            if r.0 {
                lemma_ident_scan(s, r.1);
            }
        }
    }
}

/// End of an attribute key. Quotes are toggled by `"`; outside quotes the key
/// ends at whitespace or `=`.
pub open spec fn key_end(s: Seq<char>, i: int, quotes: bool) -> int
    decreases s.len() - i,
{
    match at(s, i) {
        Some(c) => {
            let q = if c == '"' {
                !quotes
            } else {
                quotes
            };
            if !q && (is_ws(c) || c == '=') {
                i
            } else {
                key_end(s, i + 1, q)
            }
        },
        None => i,
    }
}

/// End of a `let` binding name: it runs up to whitespace or `=`.
pub open spec fn let_key_end(s: Seq<char>, i: int) -> int
    decreases s.len() - i,
{
    match at(s, i) {
        Some(c) => if !is_ws(c) && c != '=' {
            let_key_end(s, i + 1)
        } else {
            i
        },
        None => i,
    }
}

/// End of a name in an `inherit` list: it runs up to whitespace or `;`.
pub open spec fn inherit_end(s: Seq<char>, i: int) -> int {
    path_end(s, i)
}

/// End of a function argument name: it runs up to whitespace, `,` or `}`.
pub open spec fn formal_end(s: Seq<char>, i: int) -> int
    decreases s.len() - i,
{
    match at(s, i) {
        Some(c) => if !is_ws(c) && c != ',' && c != '}' {
            formal_end(s, i + 1)
        } else {
            i
        },
        None => i,
    }
}

/// End of the alias in front of a function head.
pub open spec fn alias_end(s: Seq<char>, i: int) -> int
    decreases s.len() - i,
{
    match at(s, i) {
        Some(c) => if is_alnum(c) || c == '-' || c == '_' {
            alias_end(s, i + 1)
        } else {
            i
        },
        None => i,
    }
}

/// The look-ahead over a leading name: the run continues while the character
/// is alphanumeric, or while the first character `c0` of the name is `-` or
/// `_`.
pub open spec fn scout_alias_end(s: Seq<char>, i: int, c0: char) -> int
    decreases s.len() - i,
{
    match at(s, i) {
        Some(c) => if is_alnum(c) || c0 == '-' || c0 == '_' {
            scout_alias_end(s, i + 1, c0)
        } else {
            i
        },
        None => i,
    }
}

/// The look-ahead over the name after `@`: whitespace, alphanumerics, `-`
/// and `_`.
pub open spec fn scout_name_end(s: Seq<char>, i: int) -> int
    decreases s.len() - i,
{
    match at(s, i) {
        Some(c) => if is_ws(c) || is_alnum(c) || c == '-' || c == '_' {
            scout_name_end(s, i + 1)
        } else {
            i
        },
        None => i,
    }
}

/// Position after the `}` that closes a brace opened before `i`, with
/// `depth` braces open.
pub open spec fn brace_end(s: Seq<char>, i: int, depth: int) -> Option<int>
    decreases s.len() - i,
{
    match at(s, i) {
        Some(c) => if c == '{' {
            brace_end(s, i + 1, depth + 1)
        } else if c == '}' {
            if depth - 1 == 0 {
                Some(i + 1)
            } else {
                brace_end(s, i + 1, depth - 1)
            }
        } else {
            brace_end(s, i + 1, depth)
        },
        None => None,
    }
}

/// The look-ahead from `j`, inside an argument list whose `{` lies before
/// `j`, over the rest of the list up to its `}`, an optional `@ name`, and a
/// `:`.
pub open spec fn lam_close_ahead(s: Seq<char>, j: int) -> bool {
    match brace_end(s, j, 1) {
        None => false,
        Some(q) => {
            let q1 = ws_end(s, q);
            let q2 = if at(s, q1) == Some('@') {
                scout_name_end(s, q1 + 1)
            } else {
                q1
            };
            at(s, ws_end(s, q2)) == Some(':')
        },
    }
}

/// The look-ahead from `i` over `{ ... }`, an optional `@ name`, and a `:`.
pub open spec fn lam_brace_ahead(s: Seq<char>, i: int) -> bool {
    at(s, i) == Some('{') && lam_close_ahead(s, i + 1)
}

/// Whether a function head starts at `i` (the lexer's `is_lambda_ahead`).
pub open spec fn lam_ahead(s: Seq<char>, i: int) -> bool {
    match at(s, i) {
        Some(c) => if is_alnum(c) || c == '_' {
            let p1 = scout_alias_end(s, i, c);
            let p2 = ws_end(s, p1);
            if at(s, p2) == Some('@') {
                lam_brace_ahead(s, ws_end(s, p2 + 1))
            } else if at(s, p2) == Some(':') {
                true
            } else if at(s, p2) == Some(',') {
                lam_close_ahead(s, p2)
            } else {
                lam_brace_ahead(s, i)
            }
        } else {
            lam_brace_ahead(s, i)
        },
        None => false,
    }
}

/// Binary operator at `i` (after whitespace), and the position after it.
/// A single `/` is recognised without being consumed.
pub open spec fn op_at(s: Seq<char>, i: int) -> (Option<Operator>, int) {
    let k = skip_ws(s, i);
    match at(s, k) {
        Some(c) => if c == '+' {
            if at(s, k + 1) == Some('+') {
                (Some(Operator::Concat), k + 2)
            } else {
                (Some(Operator::Add), k + 1)
            }
        } else if c == '-' {
            (Some(Operator::Sub), k + 1)
        } else if c == '=' {
            if at(s, k + 1) == Some('=') {
                (Some(Operator::Equal), k + 2)
            } else {
                (None, k)
            }
        } else if c == '!' {
            if at(s, k + 1) == Some('=') {
                (Some(Operator::Unequal), k + 2)
            } else {
                (None, k)
            }
        } else if c == '&' {
            if at(s, k + 1) == Some('&') {
                (Some(Operator::And), k + 2)
            } else {
                (None, k)
            }
        } else if c == '/' {
            if at(s, k + 1) == Some('/') {
                (Some(Operator::Merge), k + 2)
            } else {
                (Some(Operator::Divide), k)
            }
        } else {
            (None, k)
        },
        None => (None, k),
    }
}

pub proof fn lemma_op_at(s: Seq<char>, i: int)
    ensures
        i <= op_at(s, i).1,
        i <= s.len() ==> op_at(s, i).1 <= s.len(),
        op_at(s, i).0 is Some ==> skip_ws(s, i) < s.len() && op_at(s, i).1 <= s.len(),
{
    lemma_skip(s, i);
}

// ---------------------------------------------------------------------------
// Leaves
// ---------------------------------------------------------------------------

/// A path runs from `i` up to whitespace or `;`.
pub open spec fn p_path(s: Seq<char>, i: int) -> (Option<SNix>, int) {
    let e = path_end(s, i);
    (Some(SNix::Path(s.subrange(i, e))), e)
}

/// A string: the character at `i` (the opening quote) is passed over, the
/// text runs up to the next `"`, which is consumed, or to the end.
pub open spec fn p_string(s: Seq<char>, i: int) -> (Option<SNix>, int) {
    let st = if 0 <= i < s.len() {
        i + 1
    } else {
        i
    };
    match quote_at(s, st) {
        Some(q) => (Some(SNix::Str(s.subrange(st, q))), q + 1),
        None => (Some(SNix::Str(s.subrange(st, s.len() as int))), s.len() as int),
    }
}

/// A number: digits with at most one dot. With a dot it is a float, which
/// needs at least one digit; without, an integer that fits in 64 bits.
pub open spec fn p_number(s: Seq<char>, i: int) -> (Option<SNix>, int) {
    let (e, dot) = num_end(s, i, false);
    let t = s.subrange(i, e);
    if dot {
        if t.len() >= 2 {
            (Some(SNix::Float(t)), e)
        } else {
            (None, e)
        }
    } else if t.len() > 0 && dec_value(t) <= u64::MAX {
        (Some(SNix::Int(dec_value(t) as u64)), e)
    } else {
        (None, e)
    }
}

/// The names of an `inherit` statement up to its `;`, each bound to itself.
pub open spec fn inherit_loop(s: Seq<char>, i: int, m: Seq<(Seq<char>, SNix)>) -> (
    Option<Seq<(Seq<char>, SNix)>>,
    int,
)
    decreases s.len() - i,
{
    let k = skip_ws(s, i);
    proof {
        lemma_skip(s, i);
    }
    if at(s, k) == Some(';') {
        (Some(m), k + 1)
    } else {
        let e = inherit_end(s, k);
        proof {
            lemma_path_end(s, k);
        }
        if e <= k {
            (None, k)
        } else {
            let name = s.subrange(k, e);
            inherit_loop(s, e, map_insert(m, name, SNix::Identifier(name)))
        }
    }
}

/// The argument names of a function head after its `{`, up to and with the
/// closing `}`. Reaching the end of the input here is an error.
pub open spec fn formals_loop(s: Seq<char>, i: int, acc: Seq<Seq<char>>) -> (
    Option<Seq<Seq<char>>>,
    int,
)
    decreases s.len() - i,
{
    let k = skip_ws(s, i);
    proof {
        lemma_skip(s, i);
    }
    if at(s, k) == Some('}') {
        (Some(acc), k + 1)
    } else {
        let e = formal_end(s, k);
        proof {
            lemma_formal_end(s, k);
        }
        let acc2 = if e > k {
            acc.push(s.subrange(k, e))
        } else {
            acc
        };
        let k2 = skip_ws(s, e);
        proof {
            lemma_skip(s, e);
        }
        if at(s, k2) == Some(',') {
            formals_loop(s, k2 + 1, acc2)
        } else if e > k {
            formals_loop(s, k2, acc2)
        } else {
            (None, k2)
        }
    }
}

/// The end of an indented string at `p`: it must be followed by `;`, which
/// is not consumed.
pub open spec fn indstr_end(s: Seq<char>, p: int, out: Seq<SFrag>) -> (Option<SNix>, int) {
    if at(s, p) == Some(';') {
        (Some(SNix::IndStr(out)), p)
    } else {
        (None, p)
    }
}

/// Adds pending text to the fragments, unless it is empty.
pub open spec fn flush(out: Seq<SFrag>, cur: Seq<char>) -> Seq<SFrag> {
    if cur.len() > 0 {
        out.push(SFrag::Text(cur))
    } else {
        out
    }
}

/// Builds a function from its head and body.
pub open spec fn make_lambda(
    lt: LamType,
    args: Seq<Seq<char>>,
    alias: Seq<char>,
    body: SNix,
) -> SLambda {
    match lt {
        LamType::Suffix => SLambda::Suffix(args, alias, Box::new(body)),
        LamType::Prefix => SLambda::Prefix(args, alias, Box::new(body)),
        LamType::Single => SLambda::Single(alias, Box::new(body)),
        _ => SLambda::Nofix(args, Box::new(body)),
    }
}

/// `j` is a position reached from `i` that lies in the input.
pub open spec fn step(i: int, j: int, len: int) -> bool {
    i <= j && j <= len
}

// ---------------------------------------------------------------------------
// Expressions
// ---------------------------------------------------------------------------

/// An expression followed by arguments, up to `;`, `}`, `]`, `)`, `=` or the
/// end (the lexer's `parse_value`).
pub open spec fn p_value(s: Seq<char>, i: int) -> (Option<SNix>, int)
    decreases s.len() - i, 15int,
{
    let (e, j) = p_expr(s, i);
    match e {
        None => (None, j),
        Some(e) => if step(i, j, s.len() as int) {
            p_value_tail(s, j, e)
        } else {
            (None, j)
        },
    }
}

pub open spec fn p_value_tail(s: Seq<char>, j: int, e: SNix) -> (Option<SNix>, int)
    decreases s.len() - j, 14int,
{
    let k = skip_ws(s, j);
    proof {
        lemma_skip(s, j);
    }
    match at(s, k) {
        Some(c) => if c == ';' || c == '}' || c == ']' || c == ')' || c == '=' {
            (Some(e), k)
        } else {
            let (a, m) = p_single(s, k);
            match a {
                None => (None, m),
                Some(a) => if k < m <= s.len() {
                    p_value_tail(s, m, SNix::Apply(Box::new(e), Box::new(a)))
                } else {
                    (None, m)
                },
            }
        },
        None => (Some(e), k),
    }
}

/// Applications joined by binary operators, folded to the left.
pub open spec fn p_expr(s: Seq<char>, i: int) -> (Option<SNix>, int)
    decreases s.len() - i, 13int,
{
    let (l, j) = p_app(s, i);
    match l {
        None => (None, j),
        Some(l) => if step(i, j, s.len() as int) {
            p_expr_tail(s, j, l)
        } else {
            (None, j)
        },
    }
}

pub open spec fn p_expr_tail(s: Seq<char>, j: int, l: SNix) -> (Option<SNix>, int)
    decreases s.len() - j, 12int,
{
    let (op, k) = op_at(s, j);
    proof {
        lemma_op_at(s, j);
    }
    match op {
        None => (Some(l), k),
        Some(op) => {
            let (r, m) = p_app(s, k);
            match r {
                None => (None, m),
                Some(r) => if k < m <= s.len() {
                    p_expr_tail(s, m, SNix::BinaryOp(Box::new(l), op, Box::new(r)))
                } else {
                    (None, m)
                },
            }
        },
    }
}

/// A value followed by arguments, up to a delimiter or operator character.
pub open spec fn p_app(s: Seq<char>, i: int) -> (Option<SNix>, int)
    decreases s.len() - i, 11int,
{
    let (e, j) = p_single(s, i);
    match e {
        None => (None, j),
        Some(e) => if step(i, j, s.len() as int) {
            p_app_tail(s, j, e)
        } else {
            (None, j)
        },
    }
}

/// Characters that end an application.
pub open spec fn app_stop(c: char) -> bool {
    c == ';' || c == '}' || c == ']' || c == ')' || c == '=' || c == ',' || c == '+' || c == '-'
        || c == '/' || c == '*' || c == '<' || c == '>' || c == '$' || c == '!' || c == '&'
}

pub open spec fn p_app_tail(s: Seq<char>, j: int, e: SNix) -> (Option<SNix>, int)
    decreases s.len() - j, 10int,
{
    let k = skip_ws(s, j);
    proof {
        lemma_skip(s, j);
    }
    match at(s, k) {
        Some(c) => if app_stop(c) {
            (Some(e), k)
        } else {
            let (a, m) = p_single(s, k);
            match a {
                None => (None, m),
                Some(a) => if k < m <= s.len() {
                    p_app_tail(s, m, SNix::Apply(Box::new(e), Box::new(a)))
                } else {
                    (None, m)
                },
            }
        },
        None => (Some(e), k),
    }
}

/// A single value, chosen by its first character after whitespace.
pub open spec fn p_single(s: Seq<char>, i: int) -> (Option<SNix>, int)
    decreases s.len() - i, 9int,
{
    let k = skip_ws(s, i);
    proof {
        lemma_skip(s, i);
    }
    match at(s, k) {
        None => (None, k),
        Some(c) => if c == '{' {
            if lam_ahead(s, k) {
                p_lambda(s, k)
            } else {
                p_attr_set(s, k)
            }
        } else if c == '[' {
            p_list(s, k)
        } else if c == '"' {
            p_string(s, k)
        } else if c == '.' || c == '/' || c == '~' {
            p_path(s, k)
        } else if c == '\'' {
            if at(s, k + 1) == Some('\'') {
                p_indstr(s, k + 2, seq![], seq![])
            } else {
                (None, k + 1)
            }
        } else if c == '(' {
            let (e, j) = p_expr(s, k + 1);
            match e {
                None => (None, j),
                Some(e) => {
                    let m = skip_ws(s, j);
                    if at(s, m) == Some(')') {
                        (Some(SNix::Group(Box::new(e))), m + 1)
                    } else {
                        (None, m)
                    }
                },
            }
        } else if c == '$' {
            if at(s, k + 1) == Some('{') {
                let (e, j) = p_expr(s, k + 2);
                match e {
                    None => (None, j),
                    Some(e) => {
                        let m = skip_ws(s, j);
                        if at(s, m) == Some('}') {
                            (Some(SNix::Antiquotation(Box::new(e))), m + 1)
                        } else {
                            (None, m)
                        }
                    },
                }
            } else {
                (None, k + 1)
            }
        } else if is_digit(c) {
            p_number(s, k)
        } else if is_alnum(c) || c == '_' || c == '!' {
            if lam_ahead(s, k) {
                p_lambda(s, k)
            } else {
                p_ident(s, k)
            }
        } else {
            (None, k)
        },
    }
}

/// An attribute set; the character at `i` (its `{`) is passed over.
pub open spec fn p_attr_set(s: Seq<char>, i: int) -> (Option<SNix>, int)
    decreases s.len() - i, 8int,
{
    let st = if 0 <= i < s.len() {
        i + 1
    } else {
        i
    };
    p_attr_loop(s, st, seq![])
}

pub open spec fn p_attr_loop(s: Seq<char>, i: int, m: Seq<(Seq<char>, SNix)>) -> (
    Option<SNix>,
    int,
)
    decreases s.len() - i, 7int,
{
    let k = skip_ws(s, i);
    proof {
        lemma_skip(s, i);
    }
    if at(s, k) == Some('}') {
        (Some(SNix::AttrSet(m)), k + 1)
    } else {
        let e = key_end(s, k, false);
        proof {
            lemma_key_end(s, k, false);
        }
        if e <= k {
            (None, k)
        } else {
            let key = s.subrange(k, e);
            if key == "inherit"@ {
                let (r, p) = inherit_loop(s, e, m);
                match r {
                    None => (None, p),
                    Some(m2) => if i < p <= s.len() {
                        p_attr_loop(s, p, m2)
                    } else {
                        (None, p)
                    },
                }
            } else {
                let k2 = skip_ws(s, e);
                proof {
                    lemma_skip(s, e);
                }
                if at(s, k2) != Some('=') {
                    (None, k2)
                } else {
                    let (v, j) = p_value(s, k2 + 1);
                    match v {
                        None => (None, j),
                        Some(v) => {
                            let k3 = skip_ws(s, j);
                            if at(s, k3) == Some(';') {
                                if i < k3 + 1 <= s.len() {
                                    p_attr_loop(s, k3 + 1, map_insert(m, key, v))
                                } else {
                                    (None, k3 + 1)
                                }
                            } else {
                                (None, k3)
                            }
                        },
                    }
                }
            }
        }
    }
}

/// A list; the character at `i` (its `[`) is passed over.
pub open spec fn p_list(s: Seq<char>, i: int) -> (Option<SNix>, int)
    decreases s.len() - i, 5int,
{
    if 0 <= i < s.len() {
        p_list_loop(s, i + 1, seq![])
    } else {
        (None, i)
    }
}

pub open spec fn p_list_loop(s: Seq<char>, i: int, acc: Seq<SNix>) -> (Option<SNix>, int)
    decreases s.len() - i, 16int,
{
    let k = skip_ws(s, i);
    proof {
        lemma_skip(s, i);
    }
    if at(s, k) == Some(']') {
        (Some(SNix::List(acc)), k + 1)
    } else {
        let (v, j) = p_value(s, k);
        match v {
            None => (None, j),
            Some(v) => if k < j <= s.len() {
                p_list_loop(s, j, acc.push(v))
            } else {
                (None, j)
            },
        }
    }
}

/// An identifier, a boolean, or the keywords `let` and `with`.
pub open spec fn p_ident(s: Seq<char>, i: int) -> (Option<SNix>, int)
    decreases s.len() - i, 3int,
{
    let (ok, e) = ident_scan(s, i);
    proof {
        lemma_ident_scan(s, i);
    }
    if !ok {
        (None, e)
    } else if e <= i {
        (None, i)
    } else {
        let w = s.subrange(i, e);
        if w == "let"@ {
            p_let_in(s, e)
        } else if w == "with"@ {
            p_with(s, e)
        } else if w == "true"@ {
            (Some(SNix::Bool(true)), e)
        } else if w == "false"@ {
            (Some(SNix::Bool(false)), e)
        } else {
            (Some(SNix::Identifier(w)), e)
        }
    }
}

/// The bindings and the body of `let ... in ...`, after `let`.
pub open spec fn p_let_in(s: Seq<char>, i: int) -> (Option<SNix>, int)
    decreases s.len() - i, 18int,
{
    p_let_loop(s, i, seq![])
}

pub open spec fn p_let_loop(s: Seq<char>, i: int, m: Seq<(Seq<char>, SNix)>) -> (
    Option<SNix>,
    int,
)
    decreases s.len() - i, 17int,
{
    let k = skip_ws(s, i);
    proof {
        lemma_skip(s, i);
    }
    let e = let_key_end(s, k);
    proof {
        lemma_let_key_end(s, k);
    }
    if e <= k {
        (None, k)
    } else {
        let key = s.subrange(k, e);
        if key == "in"@ {
            let b = skip_ws(s, e);
            proof {
                lemma_skip(s, e);
            }
            let (body, j) = p_value(s, b);
            match body {
                None => (None, j),
                Some(body) => (Some(SNix::LetIn(m, Box::new(body))), j),
            }
        } else {
            let k2 = skip_ws(s, e);
            proof {
                lemma_skip(s, e);
            }
            if at(s, k2) != Some('=') {
                (None, k2)
            } else {
                let (v, j) = p_value(s, k2 + 1);
                match v {
                    None => (None, j),
                    Some(v) => {
                        let k3 = skip_ws(s, j);
                        if at(s, k3) == Some(';') {
                            if i < k3 + 1 <= s.len() {
                                p_let_loop(s, k3 + 1, map_insert(m, key, v))
                            } else {
                                (None, k3 + 1)
                            }
                        } else {
                            (None, k3)
                        }
                    },
                }
            }
        }
    }
}

/// `with ns; body`, after `with`.
pub open spec fn p_with(s: Seq<char>, i: int) -> (Option<SNix>, int)
    decreases s.len() - i, 20int,
{
    let k = skip_ws(s, i);
    proof {
        lemma_skip(s, i);
    }
    let (ns, j) = p_value(s, k);
    match ns {
        None => (None, j),
        Some(ns) => {
            let k2 = skip_ws(s, j);
            if at(s, k2) != Some(';') {
                (None, k2)
            } else if step(k, j, s.len() as int) {
                let k3 = skip_ws(s, k2 + 1);
                proof {
                    lemma_skip(s, j);
                    lemma_skip(s, k2 + 1);
                }
                let (body, j2) = p_value(s, k3);
                match body {
                    None => (None, j2),
                    Some(body) => (Some(SNix::With(Box::new(ns), Box::new(body))), j2),
                }
            } else {
                (None, k2 + 1)
            }
        },
    }
}

/// The leading part of a function head from `k0`: the alias, the shape
/// decided so far, and where reading goes on. A name followed by `@` makes a
/// `Prefix` head, a name followed by `:` a `Single` one. A name followed by
/// `,` is the first argument of a list whose `{` came before; the shape is
/// still open and the name is kept, with reading going on at the `,`.
/// Otherwise the shape is still open and the name, if any, is dropped.
pub open spec fn lambda_head(s: Seq<char>, k0: int) -> (Seq<char>, LamType, int) {
    match at(s, k0) {
        Some(c) => if is_alnum(c) || c == '_' {
            let e = alias_end(s, k0);
            let k2 = skip_ws(s, e);
            if at(s, k2) == Some('@') {
                (s.subrange(k0, e), LamType::Prefix, skip_ws(s, k2 + 1))
            } else if at(s, k2) == Some(':') {
                (s.subrange(k0, e), LamType::Single, k2)
            } else if at(s, k2) == Some(',') {
                (s.subrange(k0, e), LamType::Undecided, k2)
            } else {
                (Seq::<char>::empty(), LamType::Undecided, k2)
            }
        } else {
            (Seq::<char>::empty(), LamType::Undecided, k0)
        },
        None => (Seq::<char>::empty(), LamType::Undecided, k0),
    }
}

/// A function: its head, then `:` and the body.
pub open spec fn p_lambda(s: Seq<char>, i: int) -> (Option<SNix>, int)
    decreases s.len() - i, 2int,
{
    let k0 = skip_ws(s, i);
    let (alias, lt, p) = lambda_head(s, k0);
    if lt == LamType::Undecided && alias.len() > 0 {
        let (fr, q) = formals_loop(s, p, seq![alias]);
        match fr {
            None => (None, q),
            Some(args) => p_lambda_after(s, i, q, lt, args, Seq::empty()),
        }
    } else if lt == LamType::Undecided || lt == LamType::Prefix {
        if at(s, p) != Some('{') {
            (None, p)
        } else {
            let (fr, q) = formals_loop(s, p + 1, seq![]);
            match fr {
                None => (None, q),
                Some(args) => p_lambda_after(s, i, q, lt, args, alias),
            }
        }
    } else {
        p_lambda_after(s, i, p, lt, seq![], alias)
    }
}

/// The rest of a function after its head has been read up to `q`: an
/// optional `@ name` (when there was no alias), then `:` and the body.
pub open spec fn p_lambda_after(
    s: Seq<char>,
    i: int,
    q: int,
    lt: LamType,
    args: Seq<Seq<char>>,
    alias: Seq<char>,
) -> (Option<SNix>, int)
    decreases s.len() - i, 1int,
{
    if !(i < q <= s.len()) {
        (None, q)
    } else {
        let k4 = skip_ws(s, q);
        proof {
            lemma_skip(s, q);
        }
        if lt == LamType::Undecided {
            if at(s, k4) == Some('@') {
                let k5 = skip_ws(s, k4 + 1);
                proof {
                    lemma_skip(s, k4 + 1);
                }
                let (idv, j) = p_ident(s, k5);
                match idv {
                    Some(SNix::Identifier(name)) => if step(k5, j, s.len() as int) {
                        p_lambda_body(s, i, j, LamType::Suffix, args, name)
                    } else {
                        (None, j)
                    },
                    _ => (None, j),
                }
            } else {
                p_lambda_body(s, i, k4, LamType::Nofix, args, alias)
            }
        } else {
            p_lambda_body(s, i, k4, lt, args, alias)
        }
    }
}

/// `:` and the body of a function whose head ends at `p`.
pub open spec fn p_lambda_body(
    s: Seq<char>,
    i: int,
    p: int,
    lt: LamType,
    args: Seq<Seq<char>>,
    alias: Seq<char>,
) -> (Option<SNix>, int)
    decreases s.len() - i, 0int,
{
    let k6 = skip_ws(s, p);
    proof {
        lemma_skip(s, p);
    }
    if at(s, k6) != Some(':') {
        (None, k6)
    } else if !(i < k6 + 1 <= s.len()) {
        (None, k6 + 1)
    } else {
        let k7 = skip_ws(s, k6 + 1);
        proof {
            lemma_skip(s, k6 + 1);
        }
        let (body, j) = p_value(s, k7);
        match body {
            None => (None, j),
            Some(b) => (Some(SNix::Lambda(make_lambda(lt, args, alias, b))), j),
        }
    }
}

/// An indented string after its opening `''`: text with `${...}`
/// interpolations and the escapes `'''` and `''$`, up to `''`, which must be
/// followed by `;`.
pub open spec fn p_indstr(s: Seq<char>, i: int, out: Seq<SFrag>, cur: Seq<char>) -> (
    Option<SNix>,
    int,
)
    decreases s.len() - i, 19int,
{
    match at(s, i) {
        None => (None, i),
        Some(c) => if c == '$' {
            if at(s, i + 1) == Some('{') {
                let out2 = flush(out, cur);
                let (e, j) = p_expr(s, i + 2);
                match e {
                    None => (None, j),
                    Some(e) => {
                        let k = skip_ws(s, j);
                        if at(s, k) == Some('}') {
                            if i < k + 1 <= s.len() {
                                p_indstr(s, k + 1, out2.push(SFrag::Anti(Box::new(e))), seq![])
                            } else {
                                (None, k + 1)
                            }
                        } else {
                            (None, k)
                        }
                    },
                }
            } else {
                p_indstr(s, i + 1, out, cur.push('$'))
            }
        } else if c == '\'' {
            if at(s, i + 1) == Some('\'') {
                if at(s, i + 2) == Some('\'') {
                    p_indstr(s, i + 3, out, cur.push('\'').push('\'').push('\''))
                } else if at(s, i + 2) == Some('$') {
                    p_indstr(s, i + 3, out, cur.push('\'').push('\'').push('$'))
                } else {
                    indstr_end(s, i + 2, flush(out, cur))
                }
            } else {
                p_indstr(s, i + 1, out, cur.push('\''))
            }
        } else {
            p_indstr(s, i + 1, out, cur.push(c))
        },
    }
}

pub proof fn lemma_scout_alias_end(s: Seq<char>, i: int, c0: char)
    ensures
        i <= scout_alias_end(s, i, c0),
    decreases s.len() - i,
{
    if let Some(c) = at(s, i) {
        if is_alnum(c) || c0 == '-' || c0 == '_' {
            lemma_scout_alias_end(s, i + 1, c0);
        }
    }
}

pub proof fn lemma_alias_end(s: Seq<char>, i: int)
    ensures
        i <= alias_end(s, i),
        i <= s.len() ==> alias_end(s, i) <= s.len(),
    decreases s.len() - i,
{
    if let Some(c) = at(s, i) {
        if is_alnum(c) || c == '-' || c == '_' {
            lemma_alias_end(s, i + 1);
        }
    }
}

pub proof fn lemma_formals_loop(s: Seq<char>, i: int, acc: Seq<Seq<char>>)
    ensures
        i <= formals_loop(s, i, acc).1,
        i <= s.len() ==> formals_loop(s, i, acc).1 <= s.len(),
    decreases s.len() - i,
{
    lemma_skip(s, i);
    let k = skip_ws(s, i);
    if at(s, k) != Some('}') {
        let e = formal_end(s, k);
        lemma_formal_end(s, k);
        let acc2 = if e > k {
            acc.push(s.subrange(k, e))
        } else {
            acc
        };
        let k2 = skip_ws(s, e);
        lemma_skip(s, e);
        if at(s, k2) == Some(',') {
            lemma_formals_loop(s, k2 + 1, acc2);
        } else if e > k {
            lemma_formals_loop(s, k2, acc2);
        }
    }
}

pub proof fn lemma_formal_end(s: Seq<char>, i: int)
    ensures
        i <= formal_end(s, i),
        i <= s.len() ==> formal_end(s, i) <= s.len(),
    decreases s.len() - i,
{
    if let Some(c) = at(s, i) {
        if !is_ws(c) && c != ',' && c != '}' {
            lemma_formal_end(s, i + 1);
        }
    }
}

pub proof fn lemma_key_end(s: Seq<char>, i: int, q: bool)
    ensures
        i <= key_end(s, i, q),
        i <= s.len() ==> key_end(s, i, q) <= s.len(),
    decreases s.len() - i,
{
    if let Some(c) = at(s, i) {
        let q2 = if c == '"' {
            !q
        } else {
            q
        };
        if !(!q2 && (is_ws(c) || c == '=')) {
            lemma_key_end(s, i + 1, q2);
        }
    }
}

pub proof fn lemma_let_key_end(s: Seq<char>, i: int)
    ensures
        i <= let_key_end(s, i),
        i <= s.len() ==> let_key_end(s, i) <= s.len(),
    decreases s.len() - i,
{
    if let Some(c) = at(s, i) {
        if !is_ws(c) && c != '=' {
            lemma_let_key_end(s, i + 1);
        }
    }
}

pub proof fn lemma_path_end(s: Seq<char>, i: int)
    ensures
        i <= path_end(s, i),
        i <= s.len() ==> path_end(s, i) <= s.len(),
    decreases s.len() - i,
{
    if let Some(c) = at(s, i) {
        if !is_ws(c) && c != ';' {
            lemma_path_end(s, i + 1);
        }
    }
}

} // verus!
