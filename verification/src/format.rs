//! Printing an expression back as Nix source text, indented by two spaces
//! per level.
use vstd::prelude::*;
use crate::text::{decimal, u64_to_text, append_str, append_chars, push_char, string_of, str_eq};
use crate::value::{
    NixValue, AttrMap, StringFragment, LambdaTypes, Operator, SNix, SFrag, SLambda, list_model,
    frags_model, strings_model, lemma_list_model, lemma_indstr_model,
};

verus! {

broadcast use {vstd::seq_lib::group_seq_properties, vstd::seq::Seq::group_seq_flatten};

/// `2 * d` spaces: the indentation of level `d`.
pub open spec fn spaces(d: nat) -> Seq<char> {
    Seq::new(2 * d, |_i: int| ' ')
}

/// A binding `key = value;` on a line of its own at level `d`.
pub open spec fn binding_line(k: Seq<char>, val: Seq<char>, d: nat) -> Seq<char> {
    spaces(d) + k + " = "@ + val + ";\n"@
}

/// A list element on a line of its own at level `d`.
pub open spec fn item_line(val: Seq<char>, d: nat) -> Seq<char> {
    spaces(d) + val + "\n"@
}

/// A function argument on a line of its own at level `d`; a `...` argument
/// is left out, as one is always written at the end.
pub open spec fn arg_line(a: Seq<char>, d: nat) -> Seq<char> {
    if a == "..."@ {
        Seq::empty()
    } else {
        spaces(d) + a + ",\n"@
    }
}

/// The argument lines of a function head at level `d`, closed by `...`.
pub open spec fn args_block(args: Seq<Seq<char>>, d: nat) -> Seq<char> {
    arg_lines(args, d).flatten() + spaces(d) + "...\n"@
}

/// The text of a binary operator with the spaces around it.
pub open spec fn op_text(op: Operator) -> Seq<char> {
    match op {
        Operator::Add => " + "@,
        Operator::Sub => " - "@,
        Operator::Concat => " ++ "@,
        Operator::Equal => " == "@,
        Operator::Unequal => " != "@,
        Operator::And => " && "@,
        Operator::Merge => " // "@,
        Operator::Divide => " / "@,
    }
}

/// The characters of `t` before its first `.` (all of `t` if it has none).
pub open spec fn before_dot(t: Seq<char>) -> Seq<char>
    decreases t.len(),
{
    if t.len() == 0 || t[0] == '.' {
        Seq::empty()
    } else {
        seq![t[0]] + before_dot(t.drop_first())
    }
}

/// The characters of `t` after its first `.` (none if it has none).
pub open spec fn after_dot(t: Seq<char>) -> Seq<char>
    decreases t.len(),
{
    if t.len() == 0 {
        Seq::empty()
    } else if t[0] == '.' {
        t.drop_first()
    } else {
        after_dot(t.drop_first())
    }
}

/// `t` without its leading zeros.
pub open spec fn strip_leading_zeros(t: Seq<char>) -> Seq<char>
    decreases t.len(),
{
    if t.len() > 0 && t[0] == '0' {
        strip_leading_zeros(t.drop_first())
    } else {
        t
    }
}

/// `t` without its trailing zeros.
pub open spec fn strip_trailing_zeros(t: Seq<char>) -> Seq<char>
    decreases t.len(),
{
    if t.len() > 0 && t.last() == '0' {
        strip_trailing_zeros(t.drop_last())
    } else {
        t
    }
}

/// How a decimal literal with a dot is printed: the integer part without
/// leading zeros (`0` if nothing is left), then, if the fraction has a digit
/// other than zero, a dot and the fraction without trailing zeros. For
/// literals of up to fifteen significant digits this is the text that
/// printing the nearest `f64` gives.
pub open spec fn float_text(t: Seq<char>) -> Seq<char> {
    let a = strip_leading_zeros(before_dot(t));
    let f = strip_trailing_zeros(after_dot(t));
    let a2 = if a.len() == 0 {
        "0"@
    } else {
        a
    };
    if f.len() == 0 {
        a2
    } else {
        a2 + "."@ + f
    }
}

/// Every element of a sequence of truth values holds.
pub open spec fn all_true(s: Seq<bool>) -> bool {
    forall|i: int| 0 <= i < s.len() ==> #[trigger] s[i]
}

/// Formatting `v` at level `d` never needs a level past `usize::MAX`: each
/// node also computes the indentation of the level below it.
pub open spec fn fits(v: SNix, d: int) -> bool
    decreases v, 1int,
{
    &&& d < usize::MAX
    &&& match v {
        SNix::AttrSet(m) => all_true(entries_fit(m, d + 1)),
        SNix::List(l) => all_true(items_fit(l, d + 1)),
        SNix::IndStr(f) => all_true(frags_fit(f)),
        SNix::Group(b) => fits(*b, d),
        SNix::LetIn(m, b) => all_true(entries_fit(m, d + 1)) && fits(*b, d + 1),
        SNix::With(a, b) => fits(*a, 0) && fits(*b, d),
        SNix::Lambda(l) => match l {
            SLambda::Nofix(_, b) => fits(*b, d),
            SLambda::Suffix(_, _, b) => fits(*b, d),
            SLambda::Prefix(_, _, b) => fits(*b, d),
            SLambda::Single(_, b) => fits(*b, d),
        },
        SNix::Apply(a, b) => fits(*a, d + 1) && fits(*b, d),
        SNix::Antiquotation(b) => fits(*b, 0),
        SNix::BinaryOp(l, _, r) => fits(*l, 0) && fits(*r, d),
        _ => true,
    }
}

/// Whether each value of a map fits at level `d`.
pub open spec fn entries_fit(m: Seq<(Seq<char>, SNix)>, d: int) -> Seq<bool>
    decreases m, 0int,
{
    Seq::new(m.len(), |i: int| if 0 <= i < m.len() { fits(m[i].1, d) } else { true })
}

/// Whether each element of a list fits at level `d`.
pub open spec fn items_fit(l: Seq<SNix>, d: int) -> Seq<bool>
    decreases l, 0int,
{
    Seq::new(l.len(), |i: int| if 0 <= i < l.len() { fits(l[i], d) } else { true })
}

/// Whether each interpolation of an indented string fits at level 0.
pub open spec fn frags_fit(f: Seq<SFrag>) -> Seq<bool>
    decreases f, 0int,
{
    Seq::new(
        f.len(),
        |i: int|
            if 0 <= i < f.len() {
                match f[i] {
                    SFrag::Anti(b) => fits(*b, 0),
                    SFrag::Text(_) => true,
                }
            } else {
                true
            },
    )
}

/// The binding lines of a map at level `d`, given the text of each value.
pub open spec fn binding_lines(m: Seq<(Seq<char>, SNix)>, texts: Seq<Seq<char>>, d: nat) -> Seq<
    Seq<char>,
> {
    Seq::new(m.len(), |i: int| binding_line(m[i].0, texts[i], d))
}

/// The element lines of a list at level `d`, given the text of each element.
pub open spec fn item_lines(texts: Seq<Seq<char>>, d: nat) -> Seq<Seq<char>> {
    Seq::new(texts.len(), |i: int| item_line(texts[i], d))
}

/// The argument lines of a function head at level `d`.
pub open spec fn arg_lines(args: Seq<Seq<char>>, d: nat) -> Seq<Seq<char>> {
    Seq::new(args.len(), |i: int| arg_line(args[i], d))
}

/// The text of an expression at indentation level `d`.
pub open spec fn fmt(v: SNix, d: nat) -> Seq<char>
    decreases v, 1int,
{
    match v {
        SNix::AttrSet(m) => if m.len() == 0 {
            "{ }"@
        } else {
            "{\n"@ + binding_lines(m, entry_texts(m, d + 1), d + 1).flatten() + spaces(d) + "}"@
        },
        SNix::List(l) => if l.len() == 0 {
            "[ ]"@
        } else {
            "[\n"@ + item_lines(item_texts(l, d + 1), d + 1).flatten() + spaces(d) + "]"@
        },
        SNix::Str(s) => "\""@ + s + "\""@,
        SNix::IndStr(f) => if f.len() == 0 {
            "'' ''"@
        } else {
            "''"@ + frag_texts(f).flatten() + "''"@
        },
        SNix::Int(n) => decimal(n as nat),
        SNix::Float(t) => float_text(t),
        SNix::Bool(b) => if b {
            "true"@
        } else {
            "false"@
        },
        SNix::Identifier(s) => s,
        SNix::Group(b) => "("@ + fmt(*b, d) + ")"@,
        SNix::LetIn(m, b) => "let\n"@ + binding_lines(m, entry_texts(m, d + 1), d + 1).flatten()
            + spaces(d) + "in "@ + fmt(*b, d + 1),
        SNix::With(a, b) => "with "@ + fmt(*a, 0) + "; "@ + fmt(*b, d),
        SNix::Lambda(l) => match l {
            SLambda::Nofix(args, b) => if args.len() == 0 {
                "{ }:"@
            } else {
                "{\n"@ + args_block(args, d + 1) + spaces(d) + "}: "@ + fmt(*b, d)
            },
            SLambda::Suffix(args, alias, b) => (if args.len() == 0 {
                "{ }: "@
            } else {
                "{\n"@ + args_block(args, d + 1) + spaces(d) + "} "@
            }) + "@ "@ + alias + " : "@ + fmt(*b, d),
            SLambda::Prefix(args, alias, b) => alias + " @ "@ + (if args.len() == 0 {
                " { }: "@
            } else {
                "{\n"@ + args_block(args, d + 1) + spaces(d) + "}: "@ + fmt(*b, d)
            }),
            SLambda::Single(alias, b) => alias + ": "@ + fmt(*b, d),
        },
        SNix::Apply(a, b) => fmt(*a, d + 1) + " "@ + fmt(*b, d),
        SNix::Path(s) => s,
        SNix::Antiquotation(b) => "${"@ + fmt(*b, 0) + "}"@,
        SNix::BinaryOp(l, op, r) => fmt(*l, 0) + op_text(op) + fmt(*r, d),
    }
}

/// The text of each value of a map at level `d`.
pub open spec fn entry_texts(m: Seq<(Seq<char>, SNix)>, d: nat) -> Seq<Seq<char>>
    decreases m, 0int,
{
    Seq::new(m.len(), |i: int| if 0 <= i < m.len() { fmt(m[i].1, d) } else { Seq::empty() })
}

/// The text of each element of a list at level `d`.
pub open spec fn item_texts(l: Seq<SNix>, d: nat) -> Seq<Seq<char>>
    decreases l, 0int,
{
    Seq::new(l.len(), |i: int| if 0 <= i < l.len() { fmt(l[i], d) } else { Seq::empty() })
}

/// The text of each piece of an indented string.
pub open spec fn frag_texts(f: Seq<SFrag>) -> Seq<Seq<char>>
    decreases f, 0int,
{
    Seq::new(
        f.len(),
        |i: int|
            if 0 <= i < f.len() {
                match f[i] {
                    SFrag::Text(t) => t,
                    SFrag::Anti(b) => "${"@ + fmt(*b, 0) + "}"@,
                }
            } else {
                Seq::empty()
            },
    )
}

// ---------------------------------------------------------------------------
// Exec
// ---------------------------------------------------------------------------

pub fn push_spaces(out: &mut String, d: usize)
    ensures
        final(out)@ == old(out)@ + spaces(d as nat),
{
    let ghost start = out@;
    let mut i: usize = 0;
    while i < d
        invariant
            i <= d,
            out@ == start + spaces(i as nat),
        decreases d - i,
    {
        push_char(out, ' ');
        push_char(out, ' ');
        i = i + 1;
        assert(out@ =~= start + spaces(i as nat));
    }
}

/// Appends the bindings of a map at level `d`.
fn push_bindings(out: &mut String, m: &AttrMap, d: usize)
    requires
        all_true(entries_fit(m@, d as int)),
    ensures
        final(out)@ == old(out)@ + binding_lines(m@, entry_texts(m@, d as nat), d as nat).flatten(),
    decreases m,
{
    let ghost start = out@;
    let ghost mm = m@;
    let ghost lines = binding_lines(mm, entry_texts(mm, d as nat), d as nat);
    let mut i: usize = 0;
    assert(lines.take(0) =~= Seq::<Seq<char>>::empty());
    while i < m.entries.len()
        invariant
            mm == m@,
            mm.len() == m.entries@.len(),
            lines == binding_lines(mm, entry_texts(mm, d as nat), d as nat),
            all_true(entries_fit(mm, d as int)),
            i <= m.entries@.len(),
            out@ == start + lines.take(i as int).flatten(),
        decreases m.entries@.len() - i,
    {
        let e = &m.entries[i];
        proof {
            assert(decreases_to!(*m => m.entries));
            assert(decreases_to!(m.entries => m.entries@));
            assert(decreases_to!(m.entries@ => m.entries@[i as int]));
            assert(decreases_to!(m.entries@[i as int] => m.entries@[i as int].1));
            assert(mm[i as int].1 == e.1@);
            assert(mm[i as int].0 == e.0@);
            assert(entries_fit(mm, d as int)[i as int]);
            assert(entry_texts(mm, d as nat)[i as int] == fmt(mm[i as int].1, d as nat));
        }
        push_spaces(out, d);
        append_str(out, e.0.as_str());
        append_str(out, " = ");
        let t = format_value(&e.1, d);
        append_str(out, t.as_str());
        append_str(out, ";\n");
        proof {
            assert(lines.take(i + 1) =~= lines.take(i as int).push(lines[i as int]));
        }
        i = i + 1;
    }
    assert(lines.take(i as int) =~= lines);
}

/// Appends the elements of a list at level `d`.
fn push_items(out: &mut String, l: &Vec<NixValue>, d: usize)
    requires
        all_true(items_fit(list_model(l@), d as int)),
    ensures
        final(out)@ == old(out)@ + item_lines(item_texts(list_model(l@), d as nat), d as nat).flatten(),
    decreases l,
{
    let ghost start = out@;
    let ghost ll = list_model(l@);
    let ghost lines = item_lines(item_texts(ll, d as nat), d as nat);
    let mut i: usize = 0;
    assert(lines.take(0) =~= Seq::<Seq<char>>::empty());
    while i < l.len()
        invariant
            ll == list_model(l@),
            lines == item_lines(item_texts(ll, d as nat), d as nat),
            all_true(items_fit(ll, d as int)),
            i <= l@.len(),
            out@ == start + lines.take(i as int).flatten(),
        decreases l@.len() - i,
    {
        proof {
            assert(decreases_to!(*l => l@));
            assert(decreases_to!(l@ => l@[i as int]));
            assert(ll[i as int] == l@[i as int]@);
            assert(items_fit(ll, d as int)[i as int]);
            assert(item_texts(ll, d as nat)[i as int] == fmt(ll[i as int], d as nat));
        }
        push_spaces(out, d);
        let t = format_value(&l[i], d);
        append_str(out, t.as_str());
        append_str(out, "\n");
        proof {
            assert(lines.take(i + 1) =~= lines.take(i as int).push(lines[i as int]));
        }
        i = i + 1;
    }
    assert(lines.take(i as int) =~= lines);
}

/// Appends the pieces of an indented string.
fn push_frags(out: &mut String, f: &Vec<StringFragment>)
    requires
        all_true(frags_fit(frags_model(f@))),
    ensures
        final(out)@ == old(out)@ + frag_texts(frags_model(f@)).flatten(),
    decreases f,
{
    let ghost start = out@;
    let ghost ff = frags_model(f@);
    let ghost parts = frag_texts(ff);
    let mut i: usize = 0;
    assert(parts.take(0) =~= Seq::<Seq<char>>::empty());
    while i < f.len()
        invariant
            ff == frags_model(f@),
            parts == frag_texts(ff),
            all_true(frags_fit(ff)),
            i <= f@.len(),
            out@ == start + parts.take(i as int).flatten(),
        decreases f@.len() - i,
    {
        proof {
            assert(decreases_to!(*f => f@));
            assert(decreases_to!(f@ => f@[i as int]));
            assert(ff[i as int] == f@[i as int]@);
            assert(frags_fit(ff)[i as int]);
        }
        match &f[i] {
            StringFragment::Text(t) => {
                append_str(out, t.as_str());
            },
            StringFragment::Antiquotation(b) => {
                proof {
                    assert(ff[i as int] == SFrag::Anti(Box::new(b@)));
                    assert(fits(b@, 0));
                }
                append_str(out, "${");
                let t = format_value(b, 0);
                append_str(out, t.as_str());
                append_str(out, "}");
            },
        }
        proof {
            assert(parts.take(i + 1) =~= parts.take(i as int).push(parts[i as int]));
        }
        i = i + 1;
    }
    assert(parts.take(i as int) =~= parts);
}

/// Appends the argument lines of a function head at level `d`, closed by
/// `...`.
fn push_args(out: &mut String, args: &Vec<String>, d: usize)
    ensures
        final(out)@ == old(out)@ + args_block(strings_model(*args), d as nat),
{
    let ghost start = out@;
    let ghost aa = strings_model(*args);
    let ghost lines = arg_lines(aa, d as nat);
    let mut i: usize = 0;
    assert(lines.take(0) =~= Seq::<Seq<char>>::empty());
    while i < args.len()
        invariant
            aa == strings_model(*args),
            lines == arg_lines(aa, d as nat),
            i <= args@.len(),
            out@ == start + lines.take(i as int).flatten(),
        decreases args@.len() - i,
    {
        let a = args[i].as_str();
        if !str_eq(a, "...") {
            push_spaces(out, d);
            append_str(out, a);
            append_str(out, ",\n");
        }
        proof {
            assert(lines.take(i + 1) =~= lines.take(i as int).push(lines[i as int]));
        }
        i = i + 1;
    }
    assert(lines.take(i as int) =~= lines);
    push_spaces(out, d);
    append_str(out, "...\n");
}

/// The text of an expression at indentation level `depth`.
pub fn format_value(v: &NixValue, depth: usize) -> (r: String)
    requires
        fits(v@, depth as int),
    ensures
        r@ == fmt(v@, depth as nat),
    decreases v,
{
    match v {
        NixValue::AttrSet(m) => {
            proof {
                assert(decreases_to!(*v => *m));
            }
            assert(v@ == SNix::AttrSet(m@));
            if m.entries.len() == 0 {
                return string_of("{ }");
            }
            let mut out = string_of("{\n");
            push_bindings(&mut out, m, depth + 1);
            push_spaces(&mut out, depth);
            append_str(&mut out, "}");
            out
        },
        NixValue::List(l) => {
            proof {
                assert(decreases_to!(*v => *l));
                lemma_list_model(*l);
            }
            if l.len() == 0 {
                return string_of("[ ]");
            }
            let mut out = string_of("[\n");
            push_items(&mut out, l, depth + 1);
            push_spaces(&mut out, depth);
            append_str(&mut out, "]");
            out
        },
        NixValue::Str(s) => {
            let mut out = string_of("\"");
            append_str(&mut out, s.as_str());
            append_str(&mut out, "\"");
            out
        },
        NixValue::IndStr(f) => {
            proof {
                assert(decreases_to!(*v => *f));
                lemma_indstr_model(*f);
            }
            if f.len() == 0 {
                return string_of("'' ''");
            }
            let mut out = string_of("''");
            push_frags(&mut out, f);
            append_str(&mut out, "''");
            out
        },
        NixValue::Int(n) => {
            let t = u64_to_text(*n);
            let mut out = String::new();
            append_chars(&mut out, t.as_slice());
            out
        },
        NixValue::Float(t) => float_string(t.as_str()),
        NixValue::Bool(b) => if *b {
            string_of("true")
        } else {
            string_of("false")
        },
        NixValue::Identifier(s) => string_of(s.as_str()),
        NixValue::Group(b) => {
            let mut out = string_of("(");
            let t = format_value(b, depth);
            append_str(&mut out, t.as_str());
            append_str(&mut out, ")");
            out
        },
        NixValue::LetIn(m, b) => {
            proof {
                assert(decreases_to!(*v => *m));
            }
            let mut out = string_of("let\n");
            push_bindings(&mut out, m, depth + 1);
            push_spaces(&mut out, depth);
            append_str(&mut out, "in ");
            let t = format_value(b, depth + 1);
            append_str(&mut out, t.as_str());
            out
        },
        NixValue::With(a, b) => {
            let mut out = string_of("with ");
            let t = format_value(a, 0);
            append_str(&mut out, t.as_str());
            append_str(&mut out, "; ");
            let t2 = format_value(b, depth);
            append_str(&mut out, t2.as_str());
            out
        },
        NixValue::Lambda(l) => {
            proof {
                assert(decreases_to!(*v => *l));
            }
            format_lambda(l, depth)
        },
        NixValue::Apply(a, b) => {
            let mut out = format_value(a, depth + 1);
            append_str(&mut out, " ");
            let t = format_value(b, depth);
            append_str(&mut out, t.as_str());
            out
        },
        NixValue::Path(s) => string_of(s.as_str()),
        NixValue::Antiquotation(b) => {
            let mut out = string_of("${");
            let t = format_value(b, 0);
            append_str(&mut out, t.as_str());
            append_str(&mut out, "}");
            out
        },
        NixValue::BinaryOp { left, operator, right } => {
            let mut out = format_value(left, 0);
            let o = match operator {
                Operator::Add => " + ",
                Operator::Sub => " - ",
                Operator::Concat => " ++ ",
                Operator::Equal => " == ",
                Operator::Unequal => " != ",
                Operator::And => " && ",
                Operator::Merge => " // ",
                Operator::Divide => " / ",
            };
            append_str(&mut out, o);
            let t = format_value(right, depth);
            append_str(&mut out, t.as_str());
            out
        },
    }
}

/// The text of a function at indentation level `depth`.
fn format_lambda(l: &LambdaTypes, depth: usize) -> (r: String)
    requires
        fits(SNix::Lambda(l@), depth as int),
    ensures
        r@ == fmt(SNix::Lambda(l@), depth as nat),
    decreases l,
{
    match l {
        LambdaTypes::Nofix(args, body) => {
            if args.len() == 0 {
                return string_of("{ }:");
            }
            let mut out = string_of("{\n");
            push_args(&mut out, args, depth + 1);
            push_spaces(&mut out, depth);
            append_str(&mut out, "}: ");
            let t = format_value(body, depth);
            append_str(&mut out, t.as_str());
            out
        },
        LambdaTypes::Suffix(args, alias, body) => {
            let mut out = String::new();
            if args.len() == 0 {
                append_str(&mut out, "{ }: ");
            } else {
                append_str(&mut out, "{\n");
                push_args(&mut out, args, depth + 1);
                push_spaces(&mut out, depth);
                append_str(&mut out, "} ");
            }
            append_str(&mut out, "@ ");
            append_str(&mut out, alias.as_str());
            append_str(&mut out, " : ");
            let t = format_value(body, depth);
            append_str(&mut out, t.as_str());
            out
        },
        LambdaTypes::Prefix(args, alias, body) => {
            let mut out = string_of(alias.as_str());
            append_str(&mut out, " @ ");
            if args.len() == 0 {
                append_str(&mut out, " { }: ");
                return out;
            }
            append_str(&mut out, "{\n");
            push_args(&mut out, args, depth + 1);
            push_spaces(&mut out, depth);
            append_str(&mut out, "}: ");
            let t = format_value(body, depth);
            append_str(&mut out, t.as_str());
            out
        },
        LambdaTypes::Single(alias, body) => {
            let mut out = string_of(alias.as_str());
            append_str(&mut out, ": ");
            let t = format_value(body, depth);
            append_str(&mut out, t.as_str());
            out
        },
    }
}

proof fn lemma_dot_split(t: Seq<char>, k: int)
    requires
        0 <= k <= t.len(),
        forall|j: int| 0 <= j < k ==> t[j] != '.',
        k == t.len() || t[k] == '.',
    ensures
        before_dot(t) == t.subrange(0, k),
        after_dot(t) == (if k < t.len() {
            t.subrange(k + 1, t.len() as int)
        } else {
            Seq::<char>::empty()
        }),
    decreases k,
{
    if t.len() == 0 {
        assert(t.subrange(0, k) =~= Seq::<char>::empty());
    } else if k == 0 {
        assert(t.subrange(0, 0) =~= Seq::<char>::empty());
        assert(t.drop_first() =~= t.subrange(1, t.len() as int));
    } else {
        let u = t.drop_first();
        lemma_dot_split(u, k - 1);
        assert(t.subrange(0, k) =~= seq![t[0]] + u.subrange(0, k - 1));
        if k < t.len() {
            assert(u.subrange(k, u.len() as int) =~= t.subrange(k + 1, t.len() as int));
        }
    }
}

proof fn lemma_strip_leading(a: Seq<char>, z: int)
    requires
        0 <= z <= a.len(),
        forall|j: int| 0 <= j < z ==> a[j] == '0',
        z == a.len() || a[z] != '0',
    ensures
        strip_leading_zeros(a) == a.subrange(z, a.len() as int),
    decreases z,
{
    if z == 0 {
        assert(a.subrange(0, a.len() as int) =~= a);
    } else {
        let u = a.drop_first();
        lemma_strip_leading(u, z - 1);
        assert(u.subrange(z - 1, u.len() as int) =~= a.subrange(z, a.len() as int));
    }
}

proof fn lemma_strip_trailing(f: Seq<char>, e: int)
    requires
        0 <= e <= f.len(),
        forall|j: int| e <= j < f.len() ==> f[j] == '0',
        e == 0 || f[e - 1] != '0',
    ensures
        strip_trailing_zeros(f) == f.subrange(0, e),
    decreases f.len() - e,
{
    if e == f.len() {
        assert(f.subrange(0, e) =~= f);
    } else {
        let u = f.drop_last();
        lemma_strip_trailing(u, e);
        assert(u.subrange(0, e) =~= f.subrange(0, e));
    }
}

/// Appends the characters of `v` from `from` up to `to`.
fn append_range(out: &mut String, v: &Vec<char>, from: usize, to: usize)
    requires
        from <= to <= v@.len(),
    ensures
        final(out)@ == old(out)@ + v@.subrange(from as int, to as int),
{
    let ghost start = out@;
    let mut i = from;
    while i < to
        invariant
            from <= i <= to <= v@.len(),
            out@ == start + v@.subrange(from as int, i as int),
        decreases to - i,
    {
        push_char(out, v[i]);
        i = i + 1;
        assert(out@ =~= start + v@.subrange(from as int, i as int));
    }
}

/// The printed form of a decimal literal with a dot (see `float_text`).
pub fn float_string(t: &str) -> (r: String)
    ensures
        r@ == float_text(t@),
{
    let v = crate::text::chars_of(t);
    let n = v.len();
    let mut k: usize = 0;
    while k < n && v[k] != '.'
        invariant
            k <= n == v@.len(),
            forall|j: int| 0 <= j < k ==> v@[j] != '.',
        decreases n - k,
    {
        k = k + 1;
    }
    proof {
        lemma_dot_split(v@, k as int);
    }
    let mut z: usize = 0;
    while z < k && v[z] == '0'
        invariant
            z <= k <= n == v@.len(),
            forall|j: int| 0 <= j < z ==> v@[j] == '0',
        decreases k - z,
    {
        z = z + 1;
    }
    let ghost a = v@.subrange(0, k as int);
    proof {
        lemma_strip_leading(a, z as int);
        assert(a.subrange(z as int, a.len() as int) =~= v@.subrange(z as int, k as int));
    }
    let fs = if k < n {
        k + 1
    } else {
        n
    };
    let mut e: usize = n;
    while e > fs && v[e - 1] == '0'
        invariant
            fs <= e <= n == v@.len(),
            forall|j: int| e <= j < n ==> v@[j] == '0',
        decreases e,
    {
        e = e - 1;
    }
    let ghost f = v@.subrange(fs as int, n as int);
    proof {
        lemma_strip_trailing(f, e - fs);
        assert(f.subrange(0, e - fs) =~= v@.subrange(fs as int, e as int));
        if k == n {
            assert(f =~= Seq::<char>::empty());
        }
    }
    let mut out = String::new();
    if z == k {
        append_str(&mut out, "0");
    } else {
        append_range(&mut out, &v, z, k);
    }
    if e > fs {
        append_str(&mut out, ".");
        append_range(&mut out, &v, fs, e);
    }
    out
}

/// Printing as Nix source text.
pub trait Format {
    /// Printing at level `depth` stays within the range of `usize`.
    spec fn printable_at(&self, depth: usize) -> bool;

    /// The text printed at level `depth`.
    spec fn printed_at(&self, depth: usize) -> Seq<char>;

    /// The text at indentation level `depth` (two spaces per level).
    fn format_nix(&self, depth: usize) -> (r: String)
        requires
            self.printable_at(depth),
        ensures
            r@ == self.printed_at(depth),
    ;
}

impl Format for NixValue {
    open spec fn printable_at(&self, depth: usize) -> bool {
        fits(self@, depth as int)
    }

    open spec fn printed_at(&self, depth: usize) -> Seq<char> {
        fmt(self@, depth as nat)
    }

    fn format_nix(&self, depth: usize) -> (r: String) {
        format_value(self, depth)
    }
}

/// Whether formatting `v` at level `depth` stays within the range of
/// `usize` (see `fits`).
pub fn fits_at(v: &NixValue, depth: usize) -> (r: bool)
    ensures
        r == fits(v@, depth as int),
    decreases v,
{
    if depth == usize::MAX {
        return false;
    }
    match v {
        NixValue::AttrSet(m) => {
            proof {
                assert(decreases_to!(*v => *m));
            }
            assert(v@ == SNix::AttrSet(m@));
            entries_fit_at(m, depth + 1)
        },
        NixValue::List(l) => {
            proof {
                assert(decreases_to!(*v => *l));
                lemma_list_model(*l);
            }
            items_fit_at(l, depth + 1)
        },
        NixValue::IndStr(f) => {
            proof {
                assert(decreases_to!(*v => *f));
                lemma_indstr_model(*f);
            }
            frags_fit_at(f)
        },
        NixValue::Group(b) => fits_at(b, depth),
        NixValue::LetIn(m, b) => {
            proof {
                assert(decreases_to!(*v => *m));
            }
            assert(v@ == SNix::LetIn(m@, Box::new(b@)));
            entries_fit_at(m, depth + 1) && fits_at(b, depth + 1)
        },
        NixValue::With(a, b) => fits_at(a, 0) && fits_at(b, depth),
        NixValue::Lambda(l) => {
            proof {
                assert(decreases_to!(*v => *l));
            }
            assert(v@ == SNix::Lambda(l@));
            match l {
                LambdaTypes::Nofix(a, b) => {
                    assert(l@ == SLambda::Nofix(strings_model(*a), Box::new(b@)));
                    fits_at(b, depth)
                },
                LambdaTypes::Suffix(a, n, b) => {
                    assert(l@ == SLambda::Suffix(strings_model(*a), n@, Box::new(b@)));
                    fits_at(b, depth)
                },
                LambdaTypes::Prefix(a, n, b) => {
                    assert(l@ == SLambda::Prefix(strings_model(*a), n@, Box::new(b@)));
                    fits_at(b, depth)
                },
                LambdaTypes::Single(n, b) => {
                    assert(l@ == SLambda::Single(n@, Box::new(b@)));
                    fits_at(b, depth)
                },
            }
        },
        NixValue::Apply(a, b) => fits_at(a, depth + 1) && fits_at(b, depth),
        NixValue::Antiquotation(b) => fits_at(b, 0),
        NixValue::BinaryOp { left, operator: _, right } => fits_at(left, 0) && fits_at(right, depth),
        _ => true,
    }
}

fn entries_fit_at(m: &AttrMap, d: usize) -> (r: bool)
    ensures
        r == all_true(entries_fit(m@, d as int)),
    decreases m,
{
    let ghost mm = m@;
    let mut i: usize = 0;
    while i < m.entries.len()
        invariant
            mm == m@,
            mm.len() == m.entries@.len(),
            i <= m.entries@.len(),
            forall|j: int| 0 <= j < i ==> #[trigger] entries_fit(mm, d as int)[j],
        decreases m.entries@.len() - i,
    {
        proof {
            assert(decreases_to!(*m => m.entries));
            assert(decreases_to!(m.entries => m.entries@));
            assert(decreases_to!(m.entries@ => m.entries@[i as int]));
            assert(decreases_to!(m.entries@[i as int] => m.entries@[i as int].1));
            assert(mm[i as int].1 == m.entries@[i as int].1@);
            assert(entries_fit(mm, d as int)[i as int] == fits(mm[i as int].1, d as int));
        }
        if !fits_at(&m.entries[i].1, d) {
            return false;
        }
        i = i + 1;
    }
    true
}

fn items_fit_at(l: &Vec<NixValue>, d: usize) -> (r: bool)
    ensures
        r == all_true(items_fit(list_model(l@), d as int)),
    decreases l,
{
    let ghost ll = list_model(l@);
    let mut i: usize = 0;
    while i < l.len()
        invariant
            ll == list_model(l@),
            i <= l@.len(),
            forall|j: int| 0 <= j < i ==> #[trigger] items_fit(ll, d as int)[j],
        decreases l@.len() - i,
    {
        proof {
            assert(decreases_to!(*l => l@));
            assert(decreases_to!(l@ => l@[i as int]));
            assert(ll[i as int] == l@[i as int]@);
            assert(items_fit(ll, d as int)[i as int] == fits(ll[i as int], d as int));
        }
        if !fits_at(&l[i], d) {
            return false;
        }
        i = i + 1;
    }
    true
}

fn frags_fit_at(f: &Vec<StringFragment>) -> (r: bool)
    ensures
        r == all_true(frags_fit(frags_model(f@))),
    decreases f,
{
    let ghost ff = frags_model(f@);
    let mut i: usize = 0;
    while i < f.len()
        invariant
            ff == frags_model(f@),
            i <= f@.len(),
            forall|j: int| 0 <= j < i ==> #[trigger] frags_fit(ff)[j],
        decreases f@.len() - i,
    {
        proof {
            assert(decreases_to!(*f => f@));
            assert(decreases_to!(f@ => f@[i as int]));
            assert(ff[i as int] == f@[i as int]@);
        }
        match &f[i] {
            StringFragment::Antiquotation(b) => {
                proof {
                    assert(ff[i as int] == SFrag::Anti(Box::new(b@)));
                    assert(frags_fit(ff)[i as int] == fits(b@, 0));
                }
                if !fits_at(b, 0) {
                    return false;
                }
            },
            StringFragment::Text(_) => {},
        }
        i = i + 1;
    }
    true
}

} // verus!
