//! The recursive readers of the lexer: values, expressions, applications,
//! attribute sets, lists, `let`, `with`, functions and indented strings.
use vstd::prelude::*;
use crate::grammar::{
    at, skip_ws, lemma_skip, lemma_skip_stop, p_value, p_value_tail, p_expr, p_expr_tail, p_app,
    p_app_tail, p_single, p_attr_set, p_attr_loop, p_list, p_list_loop, p_ident, p_let_in,
    p_let_loop, p_with, p_lambda, p_lambda_after, p_lambda_body, p_indstr, inherit_loop,
    formals_loop, indstr_end, flush, make_lambda, LamType, key_end, alias_end,
};
use crate::lexer::{Lexer, parsed, syntax_error, syntax_text, grow, grow_chars, lemma_syntax_error_grows};
use crate::text::{
    char_is_alphanumeric, char_is_digit, chars_of, chars_eq, string_from_chars, append_str,
    string_of,
};
use crate::value::{
    NixValue, AttrMap, StringFragment, LambdaTypes, ParseEvent, SNix, SFrag, list_model,
    frags_model, strings_model, lemma_list_model, lemma_indstr_model,
};

verus! {

/// The text that `format!("{:#?}", ..)` gives for a list of names.
pub uninterp spec fn names_debug_text(v: Seq<Seq<char>>) -> Seq<char>;

/// `format!("{:#?}", v)` of a list of names, for error messages: the derived
/// pretty `Debug` text, which is named, not written out.
#[verifier::external_body]
fn debug_names(v: &Vec<String>) -> (r: String)
    ensures
        r@ == names_debug_text(strings_model(*v)),
{
    format!("{:#?}", v)
}

/// The reader kept its source, moved forward within the input, and agrees
/// with the grammar `g`.
pub open spec fn reads(lo: Lexer, ln: Lexer, r: Result<NixValue, String>, g: (Option<SNix>, int)) -> bool {
    &&& ln.same_source(&lo)
    &&& parsed(r, g, ln.at_pos())
    &&& lo.at_pos() <= ln.at_pos() <= ln.input().len()
}

impl Lexer {
    fn pos_now(&self) -> (r: usize)
        ensures
            r == self.at_pos(),
            r <= self.input().len(),
    {
        self.chars.position()
    }

    fn peek_is(&self, c: char) -> (r: bool)
        ensures
            r == (at(self.input(), self.at_pos()) == Some(c)),
            self.at_pos() <= self.input().len(),
    {
        match self.chars.peek() {
            Some(d) => d == c,
            None => false,
        }
    }

    /// An expression followed by arguments, up to `;`, `}`, `]`, `)`, `=` or
    /// the end of the input.
    pub fn parse_value(&mut self) -> (r: Result<NixValue, String>)
        ensures
            reads(*old(self), *final(self), r, p_value(old(self).input(), old(self).at_pos())),
            r is Ok ==> old(self).at_pos() < final(self).at_pos(),
        decreases old(self).input().len() - old(self).at_pos(), 5int,
    {
        let ghost s = self.input();
        let ghost i = self.at_pos();
        self.log_event(ParseEvent::StartValue);
        let mut expr = match self.parse_expression() {
            Ok(e) => e,
            Err(m) => return Err(m),
        };
        loop
            invariant_except_break
                p_value(s, i) == p_value_tail(s, self.at_pos(), expr@),
            invariant
                self.same_source(old(self)),
                s == self.input(),
                s == old(self).input(),
                i == old(self).at_pos(),
                i < self.at_pos() <= s.len(),
            ensures
                p_value(s, i) == (Some(expr@), self.at_pos()),
            decreases s.len() - self.at_pos(),
        {
            let ghost j = self.at_pos();
            self.skip_whitespace();
            proof {
                lemma_skip(s, j);
            }
            match self.chars.peek() {
                None => {
                    break ;
                },
                Some(c) => {
                    if c == ';' || c == '}' || c == ']' || c == ')' || c == '=' {
                        break ;
                    }
                    let arg = match self.parse_single_value() {
                        Ok(a) => a,
                        Err(m) => return Err(m),
                    };
                    expr = NixValue::Apply(Box::new(expr), Box::new(arg));
                },
            }
        }
        self.log_event(ParseEvent::EndValue);
        Ok(expr)
    }

    /// Applications joined by binary operators, folded to the left.
    pub fn parse_expression(&mut self) -> (r: Result<NixValue, String>)
        ensures
            reads(*old(self), *final(self), r, p_expr(old(self).input(), old(self).at_pos())),
            r is Ok ==> old(self).at_pos() < final(self).at_pos(),
        decreases old(self).input().len() - old(self).at_pos(), 4int,
    {
        let ghost s = self.input();
        let ghost i = self.at_pos();
        self.log_event(ParseEvent::StartExpression);
        let mut left = match self.parse_application() {
            Ok(e) => e,
            Err(m) => return Err(m),
        };
        loop
            invariant_except_break
                p_expr(s, i) == p_expr_tail(s, self.at_pos(), left@),
            invariant
                self.same_source(old(self)),
                s == self.input(),
                s == old(self).input(),
                i == old(self).at_pos(),
                i < self.at_pos() <= s.len(),
            ensures
                p_expr(s, i) == (Some(left@), self.at_pos()),
            decreases s.len() - self.at_pos(),
        {
            let ghost j = self.at_pos();
            proof {
                crate::grammar::lemma_op_at(s, j);
            }
            match self.parse_operator() {
                None => {
                    break ;
                },
                Some(op) => {
                    let right = match self.parse_application() {
                        Ok(e) => e,
                        Err(m) => return Err(m),
                    };
                    left = NixValue::BinaryOp {
                        left: Box::new(left),
                        operator: op,
                        right: Box::new(right),
                    };
                },
            }
        }
        self.log_event(ParseEvent::EndExpression);
        Ok(left)
    }

    /// A value followed by arguments, up to a delimiter or an operator
    /// character.
    pub fn parse_application(&mut self) -> (r: Result<NixValue, String>)
        ensures
            reads(*old(self), *final(self), r, p_app(old(self).input(), old(self).at_pos())),
            r is Ok ==> old(self).at_pos() < final(self).at_pos(),
        decreases old(self).input().len() - old(self).at_pos(), 3int,
    {
        let ghost s = self.input();
        let ghost i = self.at_pos();
        let mut expr = match self.parse_single_value() {
            Ok(e) => e,
            Err(m) => return Err(m),
        };
        loop
            invariant_except_break
                p_app(s, i) == p_app_tail(s, self.at_pos(), expr@),
            invariant
                self.same_source(old(self)),
                s == self.input(),
                s == old(self).input(),
                i == old(self).at_pos(),
                i < self.at_pos() <= s.len(),
            ensures
                p_app(s, i) == (Some(expr@), self.at_pos()),
            decreases s.len() - self.at_pos(),
        {
            let ghost j = self.at_pos();
            self.skip_whitespace();
            proof {
                lemma_skip(s, j);
            }
            match self.chars.peek() {
                None => {
                    break ;
                },
                Some(c) => {
                    if c == ';' || c == '}' || c == ']' || c == ')' || c == '=' || c == ','
                        || c == '+' || c == '-' || c == '/' || c == '*' || c == '<' || c == '>'
                        || c == '$' || c == '!' || c == '&' {
                        break ;
                    }
                    let arg = match self.parse_single_value() {
                        Ok(a) => a,
                        Err(m) => return Err(m),
                    };
                    expr = NixValue::Apply(Box::new(expr), Box::new(arg));
                },
            }
        }
        Ok(expr)
    }

    /// A single value, chosen by its first character after whitespace.
    pub fn parse_single_value(&mut self) -> (r: Result<NixValue, String>)
        ensures
            reads(*old(self), *final(self), r, p_single(old(self).input(), old(self).at_pos())),
            r is Ok ==> old(self).at_pos() < final(self).at_pos(),
        decreases old(self).input().len() - old(self).at_pos(), 2int,
    {
        let ghost s = self.input();
        let ghost i = self.at_pos();
        self.skip_whitespace();
        proof {
            lemma_skip(s, i);
            lemma_skip_stop(s, i);
        }
        let ghost k = self.at_pos();
        let c = match self.chars.peek() {
            Some(c) => c,
            None => {
                return Err(
                    self.syntax_at("Unerwaretes Ende der Datei ", "Unknown"),
                );
            },
        };
        if c == '{' {
            if self.is_lambda_ahead() {
                self.parse_lambda()
            } else {
                self.parse_attr_set()
            }
        } else if c == '[' {
            self.parse_list()
        } else if c == '"' {
            self.parse_string()
        } else if c == '.' || c == '/' || c == '~' {
            proof {
                crate::grammar::lemma_path_end(s, k + 1);
            }
            self.parse_path()
        } else if c == '\'' {
            self.chars.next();
            if self.peek_is('\'') {
                self.chars.next();
                self.log_event(ParseEvent::StartIndentedString);
                self.parse_indented_string()
            } else {
                Err(
                    self.syntax_at(
                        "Erwartet ''' um einen Indented String zu starten ",
                        "Indented String",
                    ),
                )
            }
        } else if c == '(' {
            let g0 = self.pos_now();
            self.chars.next();
            self.log_event(ParseEvent::StartGroup);
            let e = match self.parse_expression() {
                Ok(e) => e,
                Err(m) => return Err(m),
            };
            let expr = NixValue::Group(Box::new(e));
            self.skip_whitespace();
            if self.peek_is(')') {
                self.chars.next();
                self.log_event(ParseEvent::EndGroup);
                Ok(expr)
            } else {
                let mut m = syntax_text("Erwartet ')' nach der Gruppe: '");
                let read = self.chars.slice(g0, self.pos_now());
                grow_chars(&mut m, read.as_slice());
                grow(&mut m, "' ");
                let tail = self.error_at("", "Group");
                grow(&mut m, tail.as_str());
                Err(m)
            }
        } else if c == '$' {
            self.chars.next();
            if self.peek_is('{') {
                self.chars.next();
                self.log_event(ParseEvent::StartAntiquotation);
                let e = match self.parse_expression() {
                    Ok(e) => e,
                    Err(m) => return Err(m),
                };
                let expr = NixValue::Antiquotation(Box::new(e));
                self.skip_whitespace();
                if self.peek_is('}') {
                    self.chars.next();
                    self.log_event(ParseEvent::EndAntiquotation);
                    Ok(expr)
                } else {
                    Err(
                        self.syntax_at(
                            "Erwartet '}' nach der Antiquotation ",
                            "Antiquotation",
                        ),
                    )
                }
            } else {
                Err(
                    self.syntax_at(
                        "Erwartet '{' nach '$' für eine Antiquotation ",
                        "Antiquotation",
                    ),
                )
            }
        } else if char_is_digit(c) {
            self.parse_number()
        } else if char_is_alphanumeric(c) || c == '_' || c == '!' {
            if self.is_lambda_ahead() {
                self.parse_lambda()
            } else {
                self.parse_identifier()
            }
        } else {
            let cs = vec![c];
            Err(
                self.syntax_about(
                    "Unerwartetes Zeichen '",
                    cs.as_slice(),
                    "' ",
                    "Unknown",
                ),
            )
        }
    }

    /// An attribute set; the character at the position (its `{`) is passed
    /// over.
    pub fn parse_attr_set(&mut self) -> (r: Result<NixValue, String>)
        ensures
            reads(*old(self), *final(self), r, p_attr_set(old(self).input(), old(self).at_pos())),
            old(self).at_pos() < old(self).input().len() ==> old(self).at_pos() < final(self).at_pos(),
        decreases old(self).input().len() - old(self).at_pos(), 1int,
    {
        let ghost s = self.input();
        let ghost i = self.at_pos();
        self.log_event(ParseEvent::StartAttrSet);
        self.chars.next();
        let mut map = AttrMap::new();
        assert(map@ =~= Seq::<(Seq<char>, SNix)>::empty());
        assert(p_attr_set(s, i) == p_attr_loop(s, self.at_pos(), map@));
        loop
            invariant_except_break
                p_attr_set(s, i) == p_attr_loop(s, self.at_pos(), map@),
            invariant
                self.same_source(old(self)),
                s == self.input(),
                s == old(self).input(),
                i == old(self).at_pos(),
                i <= self.at_pos() <= s.len(),
                i < s.len() ==> i < self.at_pos(),
            ensures
                p_attr_set(s, i) == (Some(SNix::AttrSet(map@)), self.at_pos()),
            decreases s.len() - self.at_pos(),
        {
            let ghost i2 = self.at_pos();
            self.skip_whitespace();
            if self.peek_is('}') {
                self.chars.next();
                break ;
            }
            let k = self.pos_now();
            let e = self.chars.key_end_at(k);
            let key = self.chars.slice(k, e);
            self.chars.advance_to(e);
            if e == k {
                return Err(
                    self.syntax_at("Leerer Key im AttrSet ", "Attribut Set"),
                );
            }
            let inh = chars_of("inherit");
            if chars_eq(key.as_slice(), inh.as_slice()) {
                let ghost m0 = map@;
                loop
                    invariant_except_break
                        inherit_loop(s, e as int, m0) == inherit_loop(s, self.at_pos(), map@),
                    invariant
                        self.same_source(old(self)),
                        s == self.input(),
                        s == old(self).input(),
                        i == old(self).at_pos(),
                        i <= i2,
                        e <= self.at_pos() <= s.len(),
                        i2 <= k < e,
                        p_attr_set(s, i) == p_attr_loop(s, i2, m0),
                        skip_ws(s, i2) == k,
                        at(s, k as int) != Some('}'),
                        key_end(s, k as int, false) == e,
                        s.subrange(k as int, e as int) == "inherit"@,
                    ensures
                        inherit_loop(s, e as int, m0) == (Some(map@), self.at_pos() as int),
                    decreases s.len() - self.at_pos(),
                {
                    self.skip_whitespace();
                    if self.peek_is(';') {
                        self.chars.next();
                        break ;
                    }
                    let k2 = self.pos_now();
                    let e2 = self.chars.path_end_at(k2);
                    if e2 == k2 {
                        return Err(
                            self.syntax_at(
                                "Unerwartetes Zeichen im 'inherit' Statment ",
                                "Attribut Set(Inherit Statment)",
                            ),
                        );
                    }
                    let name = self.chars.slice(k2, e2);
                    self.chars.advance_to(e2);
                    let n1 = string_from_chars(name.as_slice());
                    let n2 = string_from_chars(name.as_slice());
                    map.insert(n1, NixValue::Identifier(n2));
                }
            } else {
                self.skip_whitespace();
                if !self.peek_is('=') {
                    return Err(
                        self.syntax_about(
                            "Erwartet '=' nach Key '",
                            key.as_slice(),
                            "' ",
                            "Attribut Set",
                        ),
                    );
                }
                self.chars.next();
                let value = match self.parse_value() {
                    Ok(v) => v,
                    Err(m) => return Err(m),
                };
                self.skip_whitespace();
                if !self.peek_is(';') {
                    return Err(
                        self.syntax_about(
                            "Erwartet ';' nach dem Wert von '",
                            key.as_slice(),
                            "' ",
                            "Attribut Set",
                        ),
                    );
                }
                self.chars.next();
                map.insert(string_from_chars(key.as_slice()), value);
            }
        }
        self.log_event(ParseEvent::EndAttrSet);
        Ok(NixValue::AttrSet(map))
    }

    /// A list; the character at the position (its `[`) is passed over.
    pub fn parse_list(&mut self) -> (r: Result<NixValue, String>)
        ensures
            reads(*old(self), *final(self), r, p_list(old(self).input(), old(self).at_pos())),
            old(self).at_pos() < old(self).input().len() ==> old(self).at_pos() < final(self).at_pos(),
        decreases old(self).input().len() - old(self).at_pos(), 1int,
    {
        let ghost s = self.input();
        let ghost i = self.at_pos();
        self.log_event(ParseEvent::StartList);
        if self.chars.peek().is_none() {
            return Err(self.syntax_at("Unerwaretes Ende der Datei ", "Unknown"));
        }
        self.chars.next();
        let mut out: Vec<NixValue> = Vec::new();
        assert(list_model(out@) =~= Seq::<SNix>::empty());
        loop
            invariant_except_break
                p_list(s, i) == p_list_loop(s, self.at_pos(), list_model(out@)),
            invariant
                self.same_source(old(self)),
                s == self.input(),
                s == old(self).input(),
                i == old(self).at_pos(),
                i < self.at_pos() <= s.len(),
            ensures
                p_list(s, i) == (Some(SNix::List(list_model(out@))), self.at_pos()),
            decreases s.len() - self.at_pos(),
        {
            self.skip_whitespace();
            if self.peek_is(']') {
                self.chars.next();
                break ;
            }
            let v = match self.parse_value() {
                Ok(v) => v,
                Err(m) => return Err(m),
            };
            let ghost before = out@;
            out.push(v);
            assert(list_model(out@) =~= list_model(before).push(v@));
        }
        self.log_event(ParseEvent::EndList);
        let r = NixValue::List(out);
        proof {
            lemma_list_model(out);
        }
        Ok(r)
    }

    /// An identifier, a boolean, or the keywords `let` and `with`.
    pub fn parse_identifier(&mut self) -> (r: Result<NixValue, String>)
        ensures
            reads(*old(self), *final(self), r, p_ident(old(self).input(), old(self).at_pos())),
            r is Ok ==> old(self).at_pos() < final(self).at_pos(),
        decreases old(self).input().len() - old(self).at_pos(), 1int,
    {
        let ghost s = self.input();
        let ghost i = self.at_pos();
        self.log_event(ParseEvent::StartIdentifier);
        let p = self.pos_now();
        let (ok, e, n) = self.chars.ident_scan_events(p);
        let mut k: usize = 0;
        while k < n
            decreases n - k,
        {
            self.log_event(ParseEvent::StartAntiquotation);
            k = k + 1;
        }
        let word = self.chars.slice(p, e);
        self.chars.advance_to(e);
        if !ok {
            if e >= 1 && self.chars.char_at(e - 1) == Some('$') && !self.peek_is('{') {
                return Err(
                    self.syntax_at(
                        "Erwartet '{' nach einem '$' für eine Antiquotation ",
                        "Antiquotation(Antiquotation inside an Indentifier)",
                    ),
                );
            }
            let cs = vec!['$'];
            return Err(
                self.syntax_about(
                    "Unerwartetes Zeichen: '",
                    cs.as_slice(),
                    "' ",
                    "Antiquotation(Antiquotation inside an Identifier)",
                ),
            );
        }
        if e == p {
            return Err(
                self.syntax_at("Unerwartet leerer Identifier ", "Identifier"),
            );
        }
        if chars_eq(word.as_slice(), chars_of("let").as_slice()) {
            self.log_event(ParseEvent::EndIdentifier);
            self.parse_let_in()
        } else if chars_eq(word.as_slice(), chars_of("with").as_slice()) {
            self.log_event(ParseEvent::EndIdentifier);
            self.parse_with()
        } else if chars_eq(word.as_slice(), chars_of("true").as_slice()) {
            self.log_event(ParseEvent::EndIdentifier);
            Ok(NixValue::Bool(true))
        } else if chars_eq(word.as_slice(), chars_of("false").as_slice()) {
            self.log_event(ParseEvent::EndIdentifier);
            Ok(NixValue::Bool(false))
        } else {
            self.log_event(ParseEvent::EndIdentifier);
            Ok(NixValue::Identifier(string_from_chars(word.as_slice())))
        }
    }

    /// The bindings and the body of `let ... in ...`, after `let`.
    pub fn parse_let_in(&mut self) -> (r: Result<NixValue, String>)
        ensures
            reads(*old(self), *final(self), r, p_let_in(old(self).input(), old(self).at_pos())),
        decreases old(self).input().len() - old(self).at_pos(), 1int,
    {
        let ghost s = self.input();
        let ghost i = self.at_pos();
        self.log_event(ParseEvent::StartLetIn);
        self.pos_now();
        let mut map = AttrMap::new();
        assert(map@ =~= Seq::<(Seq<char>, SNix)>::empty());
        loop
            invariant
                self.same_source(old(self)),
                s == self.input(),
                s == old(self).input(),
                i == old(self).at_pos(),
                i <= self.at_pos() <= s.len(),
                p_let_in(s, i) == p_let_loop(s, self.at_pos(), map@),
            decreases s.len() - self.at_pos(),
        {
            self.skip_whitespace();
            let k = self.pos_now();
            let e = self.chars.let_key_end_at(k);
            let key = self.chars.slice(k, e);
            self.chars.advance_to(e);
            if e == k {
                return Err(
                    self.syntax_at(
                        "Leerer Key im Let-In Statment ",
                        "Let-In Statment",
                    ),
                );
            }
            if chars_eq(key.as_slice(), chars_of("in").as_slice()) {
                self.skip_whitespace();
                proof {
                    lemma_skip(s, e as int);
                }
                let body = match self.parse_value() {
                    Ok(b) => b,
                    Err(m) => return Err(m),
                };
                self.log_event(ParseEvent::EndLetIn);
                return Ok(NixValue::LetIn(map, Box::new(body)));
            }
            self.skip_whitespace();
            proof {
                lemma_skip(s, e as int);
            }
            if !self.peek_is('=') {
                return Err(
                    self.syntax_about(
                        "Erwartet '=' nach Key '",
                        key.as_slice(),
                        "' ",
                        "Let-In Statment",
                    ),
                );
            }
            self.chars.next();
            let value = match self.parse_value() {
                Ok(v) => v,
                Err(m) => return Err(m),
            };
            let ghost j = self.at_pos();
            self.skip_whitespace();
            proof {
                lemma_skip(s, j);
            }
            if !self.peek_is(';') {
                return Err(
                    self.syntax_about(
                        "Erwartet ';' nach dem Wert '",
                        key.as_slice(),
                        "' ",
                        "Let-In Statment",
                    ),
                );
            }
            self.chars.next();
            map.insert(string_from_chars(key.as_slice()), value);
        }
    }

    /// `with ns; body`, after `with`.
    pub fn parse_with(&mut self) -> (r: Result<NixValue, String>)
        ensures
            reads(*old(self), *final(self), r, p_with(old(self).input(), old(self).at_pos())),
        decreases old(self).input().len() - old(self).at_pos(), 6int,
    {
        let ghost s = self.input();
        let ghost i = self.at_pos();
        self.log_event(ParseEvent::StartWith);
        self.skip_whitespace();
        proof {
            lemma_skip(s, i);
        }
        let namespace = match self.parse_value() {
            Ok(v) => v,
            Err(m) => return Err(m),
        };
        let ghost j = self.at_pos();
        self.skip_whitespace();
        proof {
            lemma_skip(s, j);
        }
        if !self.peek_is(';') {
            return Err(
                self.syntax_at("Erwartet ';' im 'with' Statment ", "With Statment"),
            );
        }
        self.chars.next();
        let ghost k2 = self.at_pos();
        self.skip_whitespace();
        proof {
            lemma_skip(s, k2);
        }
        let body = match self.parse_value() {
            Ok(v) => v,
            Err(m) => return Err(m),
        };
        self.log_event(ParseEvent::EndWith);
        Ok(NixValue::With(Box::new(namespace), Box::new(body)))
    }

    /// The argument names of a function head after its `{`, up to and with
    /// the closing `}`, after the names `first` already read.
    fn parse_formals(&mut self, first: Vec<String>) -> (r: Result<Vec<String>, String>)
        ensures
            final(self).same_source(old(self)),
            old(self).at_pos() <= final(self).at_pos() <= final(self).input().len(),
            final(self).at_pos() == formals_loop(
                old(self).input(),
                old(self).at_pos(),
                strings_model(first),
            ).1,
            match r {
                Ok(v) => formals_loop(old(self).input(), old(self).at_pos(), strings_model(first)).0
                    == Some(strings_model(v)),
                Err(m) => formals_loop(
                    old(self).input(),
                    old(self).at_pos(),
                    strings_model(first),
                ).0 is None && syntax_error(m@),
            },
    {
        let ghost s = self.input();
        let ghost i = self.at_pos();
        let ghost f0 = strings_model(first);
        self.pos_now();
        let mut args: Vec<String> = first;
        loop
            invariant_except_break
                formals_loop(s, i, f0) == formals_loop(s, self.at_pos(), strings_model(args)),
            invariant
                self.same_source(old(self)),
                s == self.input(),
                s == old(self).input(),
                i == old(self).at_pos(),
                i <= self.at_pos() <= s.len(),
                f0 == strings_model(first),
            ensures
                formals_loop(s, i, f0) == (Some(strings_model(args)), self.at_pos() as int),
            decreases s.len() - self.at_pos(),
        {
            self.skip_whitespace();
            if self.peek_is('}') {
                self.chars.next();
                break ;
            }
            let k = self.pos_now();
            let e = self.chars.formal_end_at(k);
            let key = self.chars.slice(k, e);
            self.chars.advance_to(e);
            if e > k {
                let ghost before = args;
                args.push(string_from_chars(key.as_slice()));
                assert(strings_model(args) =~= strings_model(before).push(key@));
            }
            self.skip_whitespace();
            if self.peek_is(',') {
                self.chars.next();
            } else if e == k {
                return Err(
                    self.syntax_at("Unerwartetes Ende der Argumente ", "Lambda"),
                );
            }
        }
        Ok(args)
    }

    /// The leading part of a function head: an alias followed by `@` or
    /// `:`, or the first argument of a list opened before, if there is one.
    fn read_lambda_head(&mut self) -> (r: (Vec<char>, LamType))
        ensures
            final(self).same_source(old(self)),
            old(self).at_pos() <= final(self).at_pos() <= final(self).input().len(),
            crate::grammar::lambda_head(old(self).input(), old(self).at_pos()) == (
                r.0@,
                r.1,
                final(self).at_pos(),
            ),
    {
        let ghost s = self.input();
        let ghost k0 = self.at_pos();
        proof {
            crate::grammar::lemma_alias_end(s, k0);
        }
        let mut alias: Vec<char> = Vec::new();
        let mut lt = LamType::Undecided;
        match self.chars.peek() {
            Some(c) => if char_is_alphanumeric(c) || c == '_' {
                let p0 = self.pos_now();
                let e = self.chars.alias_end_at(p0);
                let temp = self.chars.slice(p0, e);
                self.chars.advance_to(e);
                self.skip_whitespace();
                if self.peek_is('@') {
                    self.chars.next();
                    alias = temp;
                    lt = LamType::Prefix;
                    self.skip_whitespace();
                } else if self.peek_is(':') {
                    alias = temp;
                    lt = LamType::Single;
                } else if self.peek_is(',') {
                    alias = temp;
                }
            },
            None => {},
        }
        (alias, lt)
    }

    /// A function: a head (`{ a, b }`, `{ a } @ name`, `name @ { a }` or
    /// `name`), then `:` and the body.
    pub fn parse_lambda(&mut self) -> (r: Result<NixValue, String>)
        ensures
            reads(*old(self), *final(self), r, p_lambda(old(self).input(), old(self).at_pos())),
            r is Ok ==> old(self).at_pos() < final(self).at_pos(),
        decreases old(self).input().len() - old(self).at_pos(), 1int,
    {
        let ghost s = self.input();
        let ghost i = self.at_pos();
        self.log_event(ParseEvent::StartLambda);
        let mut args: Vec<String> = Vec::new();
        self.skip_whitespace();
        let ghost k0 = self.at_pos();
        let (mut alias, mut lt) = self.read_lambda_head();
        let ghost p = self.at_pos();
        proof {
            assert(strings_model(args) =~= Seq::<Seq<char>>::empty());
        }
        if lt == LamType::Undecided && alias.len() > 0 {
            proof {
                let c = s[k0];
                crate::grammar::lemma_alias_end(s, k0 + 1);
                lemma_skip(s, alias_end(s, k0));
                assert(at(s, k0) == Some(c));
            }
            let mut first: Vec<String> = Vec::new();
            first.push(string_from_chars(alias.as_slice()));
            assert(strings_model(first) =~= seq![alias@]);
            args = match self.parse_formals(first) {
                Ok(a) => a,
                Err(m) => return Err(m),
            };
            assert(formals_loop(s, p, seq![alias@]) == (Some(strings_model(args)), self.at_pos()));
            alias = Vec::new();
        } else if lt == LamType::Undecided || lt == LamType::Prefix {
            if !self.peek_is('{') {
                return Err(self.syntax_at("Erwartet '{' für ein Lambda ", "Lambda"));
            }
            self.chars.next();
            let none: Vec<String> = Vec::new();
            assert(strings_model(none) =~= Seq::<Seq<char>>::empty());
            args = match self.parse_formals(none) {
                Ok(a) => a,
                Err(m) => return Err(m),
            };
            assert(formals_loop(s, p + 1, seq![]) == (Some(strings_model(args)), self.at_pos()));
        } else {
            proof {
                let c = s[k0];
                crate::grammar::lemma_alias_end(s, k0 + 1);
                lemma_skip(s, alias_end(s, k0));
                assert(at(s, k0) == Some(c));
            }
        }
        let ghost q = self.at_pos();
        assert(i < q);
        assert(p_lambda(s, i) == p_lambda_after(s, i, q, lt, strings_model(args), alias@));
        self.skip_whitespace();
        let ghost lt0 = lt;
        if lt == LamType::Undecided {
            if self.peek_is('@') {
                self.chars.next();
                self.skip_whitespace();
                lt = LamType::Suffix;
                match self.parse_identifier() {
                    Ok(v) => match v {
                        NixValue::Identifier(name) => {
                            alias = chars_of(name.as_str());
                        },
                        _ => {
                            let mut m = syntax_text(
                                "Gültiger Variablename nach '@' erwartet ",
                            );
                            let t = self.error_at("", "Lambda \nAttribute:    Attr: ");
                            grow(&mut m, t.as_str());
                            let d = debug_names(&args);
                            grow(&mut m, d.as_str());
                            return Err(m);
                        },
                    },
                    Err(m) => return Err(m),
                }
            } else {
                lt = LamType::Nofix;
            }
        }
        let ghost p2 = self.at_pos();
        assert(p_lambda(s, i) == p_lambda_body(s, i, p2, lt, strings_model(args), alias@));
        self.parse_lambda_body(Ghost(i), lt, args, alias)
    }

    /// The `:` and the body of a function whose head has been read; `lt` is
    /// the shape of the head, `args` its argument names and `alias` its name.
    fn parse_lambda_body(
        &mut self,
        Ghost(i): Ghost<int>,
        lt: LamType,
        args: Vec<String>,
        alias: Vec<char>,
    ) -> (r: Result<NixValue, String>)
        requires
            i < old(self).at_pos(),
            lt != LamType::Undecided,
        ensures
            reads(
                *old(self),
                *final(self),
                r,
                p_lambda_body(
                    old(self).input(),
                    i,
                    old(self).at_pos(),
                    lt,
                    strings_model(args),
                    alias@,
                ),
            ),
        decreases old(self).input().len() - old(self).at_pos(), 0int,
    {
        let ghost s = self.input();
        let ghost p2 = self.at_pos();
        self.skip_whitespace();
        if !self.peek_is(':') {
            let mut m = syntax_text("Erwartetes ':' nach den Funktions-Argumenten ");
            let t = self.error_at("", "Lambda \nAttribute: \n    Attr: ");
            grow(&mut m, t.as_str());
            let d = debug_names(&args);
            grow(&mut m, d.as_str());
            grow(&mut m, " \n    Alias: ");
            let ghost m0 = m@;
            crate::text::append_chars(&mut m, alias.as_slice());
            proof {
                lemma_syntax_error_grows(m0, alias@);
            }
            return Err(m);
        }
        self.chars.next();
        self.skip_whitespace();
        let body = match self.parse_value() {
            Ok(b) => b,
            Err(m) => return Err(m),
        };
        self.log_event(ParseEvent::EndLambda);
        let ghost bm = body@;
        let ghost am = strings_model(args);
        let ghost al = alias@;
        let l = match lt {
            LamType::Suffix => LambdaTypes::Suffix(
                args,
                string_from_chars(alias.as_slice()),
                Box::new(body),
            ),
            LamType::Prefix => LambdaTypes::Prefix(
                args,
                string_from_chars(alias.as_slice()),
                Box::new(body),
            ),
            LamType::Single => LambdaTypes::Single(
                string_from_chars(alias.as_slice()),
                Box::new(body),
            ),
            _ => LambdaTypes::Nofix(args, Box::new(body)),
        };
        assert(l@ == make_lambda(lt, am, al, bm));
        let r = NixValue::Lambda(l);
        assert(r@ == SNix::Lambda(l@));
        Ok(r)
    }

    /// An indented string after its opening `''`: text with `${...}`
    /// interpolations and the escapes `'''` and `''$`, up to `''`, which must
    /// be followed by `;` (the `;` is not consumed).
    pub fn parse_indented_string(&mut self) -> (r: Result<NixValue, String>)
        ensures
            reads(
                *old(self),
                *final(self),
                r,
                p_indstr(old(self).input(), old(self).at_pos(), seq![], seq![]),
            ),
        decreases old(self).input().len() - old(self).at_pos(), 1int,
    {
        let ghost s = self.input();
        let ghost i = self.at_pos();
        let mut out: Vec<StringFragment> = Vec::new();
        let mut cur: Vec<char> = Vec::new();
        let mut ended = false;
        proof {
            assert(frags_model(out@) =~= Seq::<SFrag>::empty());
            assert(cur@ =~= Seq::<char>::empty());
        }
        let start = self.pos_now();
        while !ended
            invariant
                self.same_source(old(self)),
                s == self.input(),
                s == old(self).input(),
                i == old(self).at_pos(),
                start == i,
                i <= self.at_pos() <= s.len(),
                !ended ==> p_indstr(s, i, seq![], seq![]) == p_indstr(
                    s,
                    self.at_pos(),
                    frags_model(out@),
                    cur@,
                ),
                ended ==> p_indstr(s, i, seq![], seq![]) == indstr_end(
                    s,
                    self.at_pos(),
                    frags_model(out@),
                ),
            decreases s.len() - self.at_pos() + (if ended {
                0int
            } else {
                1int
            }),
        {
            let ghost fo = frags_model(out@);
            let ghost co = cur@;
            match self.chars.peek() {
                None => {
                    ended = true;
                },
                Some(c) => {
                    if c == '$' {
                        self.chars.next();
                        if self.peek_is('{') {
                            self.chars.next();
                            if cur.len() > 0 {
                                let t = string_from_chars(cur.as_slice());
                                out.push(StringFragment::Text(t));
                                cur = Vec::new();
                            }
                            assert(frags_model(out@) =~= flush(fo, co));
                            let ghost fo2 = frags_model(out@);
                            let e = match self.parse_expression() {
                                Ok(e) => e,
                                Err(m) => return Err(m),
                            };
                            out.push(StringFragment::Antiquotation(Box::new(e)));
                            assert(frags_model(out@) =~= fo2.push(SFrag::Anti(Box::new(e@))));
                            let ghost j = self.at_pos();
                            self.skip_whitespace();
                            proof {
                                lemma_skip(s, j);
                            }
                            if self.peek_is('}') {
                                self.chars.next();
                                cur = Vec::new();
                                assert(cur@ =~= Seq::<char>::empty());
                            } else {
                                let mut m = syntax_text(
                                    "Erwartet '}' am Ende der Antiquotation im Indented String: '",
                                );
                                let read = self.chars.slice(start, self.pos_now());
                                grow_chars(&mut m, read.as_slice());
                                grow(&mut m, "' ");
                                let t = self.error_at("", "Indented String(Antiquotation)");
                                grow(&mut m, t.as_str());
                                return Err(m);
                            }
                        } else {
                            cur.push('$');
                        }
                    } else if c == '\'' {
                        self.chars.next();
                        if self.peek_is('\'') {
                            self.chars.next();
                            if self.peek_is('\'') {
                                self.chars.next();
                                cur.push('\'');
                                cur.push('\'');
                                cur.push('\'');
                            } else if self.peek_is('$') {
                                self.chars.next();
                                cur.push('\'');
                                cur.push('\'');
                                cur.push('$');
                            } else {
                                if cur.len() > 0 {
                                    let t = string_from_chars(cur.as_slice());
                                    out.push(StringFragment::Text(t));
                                    cur = Vec::new();
                                }
                                assert(frags_model(out@) =~= flush(fo, co));
                                ended = true;
                            }
                        } else {
                            cur.push('\'');
                        }
                    } else {
                        cur.push(c);
                        self.chars.next();
                    }
                },
            }
        }
        if self.peek_is(';') {
            self.log_event(ParseEvent::EndIndentedString);
            let r = NixValue::IndStr(out);
            proof {
                lemma_indstr_model(out);
            }
            Ok(r)
        } else {
            Err(
                self.syntax_at(
                    "Erwartet ';' nach dem Indented String ",
                    "Indented String",
                ),
            )
        }
    }
}

} // verus!
