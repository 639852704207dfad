//! The lexer's state: the input, the read position, the file name and the
//! channel to which it reports progress; and the readers of the leaves of
//! the grammar (whitespace, paths, strings, numbers, operators).
use std::sync::mpsc::Sender;
use vstd::prelude::*;
use crate::grammar::{
    at, skip_ws, skip_from, ws_end, path_end, quote_at, num_end, dec_value, anti_scan, ident_scan,
    key_end, let_key_end, formal_end, alias_end, scout_alias_end, scout_name_end, brace_end,
    lam_close_ahead, lam_brace_ahead, lam_ahead, op_at, p_path, p_string, p_number,
};
use crate::text::{
    is_digit, char_is_whitespace, char_is_alphanumeric, char_is_digit, chars_of, string_from_chars,
    append_str, append_chars, string_of,
};
use crate::value::{NixValue, Operator, ParseEvent, SNix};

verus! {

#[verifier::external_type_specification]
#[verifier::external_body]
#[verifier::reject_recursive_types(T)]
pub struct ExSender<T>(std::sync::mpsc::Sender<T>);

/// `Sender::send`. A send whose receiver is gone fails; the failure is
/// ignored, as the lexer does not depend on anyone listening.
#[verifier::external_body]
pub(crate) fn send_event(tx: &Sender<ParseEvent>, ev: ParseEvent) {
    let _ = tx.send(ev);
}

/// `Sender::clone`: another handle to the same channel. Nothing about the
/// channel is stated.
#[verifier::external_body]
pub(crate) fn clone_sender(tx: &Sender<ParseEvent>) -> Sender<ParseEvent> {
    tx.clone()
}

/// The input of the lexer and the position of the next character.
pub struct CharStream {
    text: Vec<char>,
    pos: usize,
}

impl CharStream {
    #[verifier::type_invariant]
    spec fn inv(&self) -> bool {
        self.pos <= self.text@.len()
    }

    /// The whole input.
    pub closed spec fn text(&self) -> Seq<char> {
        self.text@
    }

    /// The position of the next character.
    pub closed spec fn pos(&self) -> nat {
        self.pos as nat
    }

    pub fn new(v: Vec<char>) -> (r: Self)
        ensures
            r.text() == v@,
            r.pos() == 0,
    {
        CharStream { text: v, pos: 0 }
    }

    /// The position, which never passes the end of the input.
    pub fn position(&self) -> (r: usize)
        ensures
            r == self.pos(),
            r <= self.text().len(),
    {
        proof {
            use_type_invariant(self);
        }
        self.pos
    }

    pub fn len(&self) -> (r: usize)
        ensures
            r == self.text().len(),
    {
        self.text.len()
    }

    /// The next character, without consuming it.
    pub fn peek(&self) -> (r: Option<char>)
        ensures
            r == at(self.text(), self.pos() as int),
            self.pos() <= self.text().len(),
    {
        proof {
            use_type_invariant(self);
        }
        if self.pos < self.text.len() {
            Some(self.text[self.pos])
        } else {
            None
        }
    }

    /// The character `k` places after the next one.
    pub fn look(&self, k: usize) -> (r: Option<char>)
        ensures
            r == at(self.text(), self.pos() + k),
    {
        proof {
            use_type_invariant(self);
        }
        if k < self.text.len() - self.pos {
            Some(self.text[self.pos + k])
        } else {
            None
        }
    }

    /// The character at position `i`.
    pub fn char_at(&self, i: usize) -> (r: Option<char>)
        ensures
            r == at(self.text(), i as int),
            r is Some ==> i < self.text().len(),
            self.text().len() <= usize::MAX,
    {
        if i < self.text.len() {
            Some(self.text[i])
        } else {
            None
        }
    }

    /// Consumes and returns the next character, if there is one.
    pub fn next(&mut self) -> (r: Option<char>)
        ensures
            final(self).text() == old(self).text(),
            r == at(old(self).text(), old(self).pos() as int),
            final(self).pos() == (if old(self).pos() < old(self).text().len() {
                old(self).pos() + 1
            } else {
                old(self).pos()
            }),
            final(self).pos() <= final(self).text().len(),
    {
        proof {
            use_type_invariant(&*self);
        }
        if self.pos < self.text.len() {
            let c = self.text[self.pos];
            self.pos = self.pos + 1;
            Some(c)
        } else {
            None
        }
    }

    /// Consumes the characters up to position `p`.
    pub fn advance_to(&mut self, p: usize)
        requires
            old(self).pos() <= p <= old(self).text().len(),
        ensures
            final(self).text() == old(self).text(),
            final(self).pos() == p,
    {
        self.pos = p;
    }

    /// The characters from `from` up to `to`.
    pub fn slice(&self, from: usize, to: usize) -> (r: Vec<char>)
        requires
            from <= to <= self.text().len(),
        ensures
            r@ == self.text().subrange(from as int, to as int),
    {
        let mut r: Vec<char> = Vec::new();
        let mut i = from;
        while i < to
            invariant
                from <= i <= to,
                to <= self.text@.len(),
                r@ == self.text@.subrange(from as int, i as int),
            decreases to - i,
        {
            r.push(self.text[i]);
            i = i + 1;
            assert(r@ =~= self.text@.subrange(from as int, i as int));
        }
        r
    }

    /// Position after the whitespace and comments that start at `i`.
    pub fn skip_end(&self, i: usize) -> (r: usize)
        requires
            i <= self.text().len(),
        ensures
            r == skip_ws(self.text(), i as int),
            i <= r <= self.text().len(),
    {
        let ghost s = self.text@;
        let mut p = i;
        let mut c = false;
        let mut done = false;
        while p < self.text.len() && !done
            invariant
                s == self.text@,
                i <= p <= s.len(),
                skip_from(s, p as int, c) == skip_from(s, i as int, false),
                done ==> !c && skip_from(s, p as int, c) == p,
            decreases s.len() - p + (if done {
                0int
            } else {
                1int
            }),
        {
            let ch = self.text[p];
            if c {
                p = p + 1;
                if ch == '\n' {
                    c = false;
                }
            } else if char_is_whitespace(ch) {
                p = p + 1;
            } else if ch == '#' {
                p = p + 1;
                c = true;
            } else {
                done = true;
            }
        }
        p
    }

    /// Position after the plain whitespace that starts at `i`.
    pub fn ws_end_at(&self, i: usize) -> (r: usize)
        requires
            i <= self.text().len(),
        ensures
            r == ws_end(self.text(), i as int),
            i <= r <= self.text().len(),
    {
        let ghost s = self.text@;
        let mut p = i;
        while p < self.text.len() && char_is_whitespace(self.text[p])
            invariant
                s == self.text@,
                i <= p <= s.len(),
                ws_end(s, p as int) == ws_end(s, i as int),
            decreases s.len() - p,
        {
            p = p + 1;
        }
        p
    }

    /// End of a path that starts at `i`.
    pub fn path_end_at(&self, i: usize) -> (r: usize)
        requires
            i <= self.text().len(),
        ensures
            r == path_end(self.text(), i as int),
            i <= r <= self.text().len(),
    {
        let ghost s = self.text@;
        let mut p = i;
        while p < self.text.len() && !char_is_whitespace(self.text[p]) && self.text[p] != ';'
            invariant
                s == self.text@,
                i <= p <= s.len(),
                path_end(s, p as int) == path_end(s, i as int),
            decreases s.len() - p,
        {
            p = p + 1;
        }
        p
    }

    /// Position of the next `"` at or after `i`.
    pub fn quote_at_from(&self, i: usize) -> (r: Option<usize>)
        requires
            i <= self.text().len(),
        ensures
            r matches Some(q) ==> quote_at(self.text(), i as int) == Some(q as int) && i <= q
                < self.text().len(),
            r is None ==> quote_at(self.text(), i as int) is None,
    {
        let ghost s = self.text@;
        let mut p = i;
        while p < self.text.len() && self.text[p] != '"'
            invariant
                s == self.text@,
                i <= p <= s.len(),
                quote_at(s, p as int) == quote_at(s, i as int),
            decreases s.len() - p,
        {
            p = p + 1;
        }
        if p < self.text.len() {
            Some(p)
        } else {
            None
        }
    }

    /// End of a number that starts at `i`, and whether it holds a dot.
    pub fn num_end_at(&self, i: usize) -> (r: (usize, bool))
        requires
            i <= self.text().len(),
        ensures
            (r.0 as int, r.1) == num_end(self.text(), i as int, false),
            i <= r.0 <= self.text().len(),
    {
        let ghost s = self.text@;
        let mut p = i;
        let mut dot = false;
        let mut done = false;
        while p < self.text.len() && !done
            invariant
                s == self.text@,
                i <= p <= s.len(),
                num_end(s, p as int, dot) == num_end(s, i as int, false),
                done ==> num_end(s, p as int, dot) == (p as int, dot),
            decreases s.len() - p + (if done {
                0int
            } else {
                1int
            }),
        {
            let c = self.text[p];
            if char_is_digit(c) {
                p = p + 1;
            } else if c == '.' && !dot {
                dot = true;
                p = p + 1;
            } else {
                done = true;
            }
        }
        (p, dot)
    }

    /// Reads the `${...}` part of an identifier from `i`.
    pub fn anti_scan_at(&self, i: usize) -> (r: (bool, usize))
        requires
            i <= self.text().len(),
        ensures
            (r.0, r.1 as int) == anti_scan(self.text(), i as int),
            i <= r.1 <= self.text().len(),
    {
        let ghost s = self.text@;
        let mut p = i;
        while p < self.text.len() && (char_is_alphanumeric(self.text[p]) || self.text[p] == '_'
            || self.text[p] == '-' || self.text[p] == '.')
            invariant
                s == self.text@,
                i <= p <= s.len(),
                anti_scan(s, p as int) == anti_scan(s, i as int),
            decreases s.len() - p,
        {
            p = p + 1;
        }
        if p < self.text.len() {
            if self.text[p] == '}' {
                (true, p + 1)
            } else {
                (false, p)
            }
        } else {
            (true, p)
        }
    }

    /// Reads an identifier from `i`; also counts the `${` met on the way.
    pub fn ident_scan_events(&self, i: usize) -> (r: (bool, usize, usize))
        requires
            i <= self.text().len(),
        ensures
            (r.0, r.1 as int) == ident_scan(self.text(), i as int),
            i <= r.1 <= self.text().len(),
    {
        let ghost s = self.text@;
        let mut p = i;
        let mut n: usize = 0;
        loop
            invariant
                s == self.text@,
                i <= p <= s.len(),
                n <= p,
                ident_scan(s, p as int) == ident_scan(s, i as int),
            decreases s.len() - p,
        {
            if p >= self.text.len() {
                return (true, p, n);
            }
            let c = self.text[p];
            if char_is_alphanumeric(c) || c == '_' || c == '-' || c == '.' || c == '!' {
                p = p + 1;
            } else if c == '$' {
                if p + 1 < self.text.len() && self.text[p + 1] == '{' {
                    let (ok, k) = self.anti_scan_at(p + 2);
                    n = n + 1;
                    if !ok {
                        return (false, k, n);
                    }
                    p = k;
                } else {
                    return (false, p + 1, n);
                }
            } else {
                return (true, p, n);
            }
        }
    }

    /// End of an attribute key that starts at `i`.
    pub fn key_end_at(&self, i: usize) -> (r: usize)
        requires
            i <= self.text().len(),
        ensures
            r == key_end(self.text(), i as int, false),
            i <= r <= self.text().len(),
    {
        let ghost s = self.text@;
        let mut p = i;
        let mut q = false;
        loop
            invariant
                s == self.text@,
                i <= p <= s.len(),
                key_end(s, p as int, q) == key_end(s, i as int, false),
            decreases s.len() - p,
        {
            if p >= self.text.len() {
                return p;
            }
            let c = self.text[p];
            if c == '"' {
                q = !q;
            }
            if !q && (char_is_whitespace(c) || c == '=') {
                return p;
            }
            p = p + 1;
        }
    }

    /// End of a `let` binding name that starts at `i`.
    pub fn let_key_end_at(&self, i: usize) -> (r: usize)
        requires
            i <= self.text().len(),
        ensures
            r == let_key_end(self.text(), i as int),
            i <= r <= self.text().len(),
    {
        let ghost s = self.text@;
        let mut p = i;
        while p < self.text.len() && !char_is_whitespace(self.text[p]) && self.text[p] != '='
            invariant
                s == self.text@,
                i <= p <= s.len(),
                let_key_end(s, p as int) == let_key_end(s, i as int),
            decreases s.len() - p,
        {
            p = p + 1;
        }
        p
    }

    /// End of a function argument name that starts at `i`.
    pub fn formal_end_at(&self, i: usize) -> (r: usize)
        requires
            i <= self.text().len(),
        ensures
            r == formal_end(self.text(), i as int),
            i <= r <= self.text().len(),
    {
        let ghost s = self.text@;
        let mut p = i;
        while p < self.text.len() && !char_is_whitespace(self.text[p]) && self.text[p] != ','
            && self.text[p] != '}'
            invariant
                s == self.text@,
                i <= p <= s.len(),
                formal_end(s, p as int) == formal_end(s, i as int),
            decreases s.len() - p,
        {
            p = p + 1;
        }
        p
    }

    /// End of the alias of a function head that starts at `i`.
    pub fn alias_end_at(&self, i: usize) -> (r: usize)
        requires
            i <= self.text().len(),
        ensures
            r == alias_end(self.text(), i as int),
            i <= r <= self.text().len(),
    {
        let ghost s = self.text@;
        let mut p = i;
        while p < self.text.len() && (char_is_alphanumeric(self.text[p]) || self.text[p] == '-'
            || self.text[p] == '_')
            invariant
                s == self.text@,
                i <= p <= s.len(),
                alias_end(s, p as int) == alias_end(s, i as int),
            decreases s.len() - p,
        {
            p = p + 1;
        }
        p
    }

    fn scout_alias_end_at(&self, i: usize, c0: char) -> (r: usize)
        requires
            i <= self.text().len(),
        ensures
            r == scout_alias_end(self.text(), i as int, c0),
            i <= r <= self.text().len(),
    {
        let ghost s = self.text@;
        let mut p = i;
        while p < self.text.len() && (char_is_alphanumeric(self.text[p]) || c0 == '-' || c0
            == '_')
            invariant
                s == self.text@,
                i <= p <= s.len(),
                scout_alias_end(s, p as int, c0) == scout_alias_end(s, i as int, c0),
            decreases s.len() - p,
        {
            p = p + 1;
        }
        p
    }

    fn scout_name_end_at(&self, i: usize) -> (r: usize)
        requires
            i <= self.text().len(),
        ensures
            r == scout_name_end(self.text(), i as int),
            i <= r <= self.text().len(),
    {
        let ghost s = self.text@;
        let mut p = i;
        while p < self.text.len() && (char_is_whitespace(self.text[p]) || char_is_alphanumeric(
            self.text[p],
        ) || self.text[p] == '-' || self.text[p] == '_')
            invariant
                s == self.text@,
                i <= p <= s.len(),
                scout_name_end(s, p as int) == scout_name_end(s, i as int),
            decreases s.len() - p,
        {
            p = p + 1;
        }
        p
    }

    fn brace_end_at(&self, i: usize) -> (r: Option<usize>)
        requires
            1 <= i <= self.text().len(),
        ensures
            r matches Some(q) ==> brace_end(self.text(), i as int, 1) == Some(q as int) && q
                <= self.text().len(),
            r is None ==> brace_end(self.text(), i as int, 1) is None,
    {
        let ghost s = self.text@;
        let mut p = i;
        let mut depth: usize = 1;
        while p < self.text.len()
            invariant
                s == self.text@,
                1 <= i <= p <= s.len(),
                1 <= depth <= p - i + 1,
                brace_end(s, p as int, depth as int) == brace_end(s, i as int, 1),
            decreases s.len() - p,
        {
            let c = self.text[p];
            if c == '{' {
                depth = depth + 1;
            } else if c == '}' {
                if depth - 1 == 0 {
                    return Some(p + 1);
                }
                depth = depth - 1;
            }
            p = p + 1;
        }
        None
    }

    fn lam_close_ahead_at(&self, j: usize) -> (r: bool)
        requires
            1 <= j <= self.text().len(),
        ensures
            r == lam_close_ahead(self.text(), j as int),
    {
        match self.brace_end_at(j) {
            None => false,
            Some(q) => {
                let q1 = self.ws_end_at(q);
                let q2 = match self.char_at(q1) {
                    Some(c) => if c == '@' {
                        self.scout_name_end_at(q1 + 1)
                    } else {
                        q1
                    },
                    None => q1,
                };
                let q3 = self.ws_end_at(q2);
                match self.char_at(q3) {
                    Some(c) => c == ':',
                    None => false,
                }
            },
        }
    }

    fn lam_brace_ahead_at(&self, i: usize) -> (r: bool)
        requires
            i <= self.text().len(),
        ensures
            r == lam_brace_ahead(self.text(), i as int),
    {
        match self.char_at(i) {
            Some(c) => if c != '{' {
                return false;
            },
            None => {
                return false;
            },
        }
        self.lam_close_ahead_at(i + 1)
    }

    /// Whether a function head starts at position `i`.
    pub fn lam_ahead_at(&self, i: usize) -> (r: bool)
        requires
            i <= self.text().len(),
        ensures
            r == lam_ahead(self.text(), i as int),
    {
        match self.char_at(i) {
            Some(c) => if char_is_alphanumeric(c) || c == '_' {
                let p1 = self.scout_alias_end_at(i, c);
                let p2 = self.ws_end_at(p1);
                match self.char_at(p2) {
                    Some(d) => if d == '@' {
                        let p3 = self.ws_end_at(p2 + 1);
                        self.lam_brace_ahead_at(p3)
                    } else if d == ':' {
                        true
                    } else if d == ',' {
                        proof {
                            crate::grammar::lemma_scout_alias_end(self.text(), i + 1, c);
                        }
                        self.lam_close_ahead_at(p2)
                    } else {
                        self.lam_brace_ahead_at(i)
                    },
                    None => self.lam_brace_ahead_at(i),
                }
            } else {
                self.lam_brace_ahead_at(i)
            },
            None => false,
        }
    }
}

/// A reader of Nix source text.
pub struct Lexer {
    pub chars: CharStream,
    pub path: String,
    pub trans: Option<Sender<ParseEvent>>,
}

/// An error message of the readers: it starts with `Syntax-Fehler: `.
pub open spec fn syntax_error(m: Seq<char>) -> bool {
    "Syntax-Fehler: "@.is_prefix_of(m)
}

/// A text after the head of an error message is an error message.
pub proof fn lemma_syntax_error(rest: Seq<char>)
    ensures
        syntax_error("Syntax-Fehler: "@ + rest),
{
    assert(("Syntax-Fehler: "@ + rest).subrange(0, "Syntax-Fehler: "@.len() as int) =~= "Syntax-Fehler: "@);
}

/// More text after an error message keeps it one.
pub proof fn lemma_syntax_error_grows(m: Seq<char>, more: Seq<char>)
    requires
        syntax_error(m),
    ensures
        syntax_error(m + more),
{
    let h = "Syntax-Fehler: "@;
    assert((m + more).subrange(0, h.len() as int) =~= m.subrange(0, h.len() as int));
}

/// `Syntax-Fehler: ` followed by `rest`.
pub fn syntax_text(rest: &str) -> (m: String)
    ensures
        m@ == "Syntax-Fehler: "@ + rest@,
        syntax_error(m@),
{
    let mut m = string_of("Syntax-Fehler: ");
    append_str(&mut m, rest);
    proof {
        lemma_syntax_error(rest@);
    }
    m
}

/// Appends `s` to an error message.
pub fn grow(m: &mut String, s: &str)
    requires
        syntax_error(old(m)@),
    ensures
        final(m)@ == old(m)@ + s@,
        syntax_error(final(m)@),
{
    let ghost m0 = m@;
    append_str(m, s);
    proof {
        lemma_syntax_error_grows(m0, s@);
    }
}

/// Appends the characters `c` to an error message.
pub fn grow_chars(m: &mut String, c: &[char])
    requires
        syntax_error(old(m)@),
    ensures
        final(m)@ == old(m)@ + c@,
        syntax_error(final(m)@),
{
    let ghost m0 = m@;
    append_chars(m, c);
    proof {
        lemma_syntax_error_grows(m0, c@);
    }
}

/// What a reader method returned agrees with what the grammar gives: the
/// final position is the grammar's, `Ok` carries a value with the grammar's
/// model exactly when the grammar gives one, and an error message starts
/// with `Syntax-Fehler: `.
pub open spec fn parsed(r: Result<NixValue, String>, g: (Option<SNix>, int), pos: int) -> bool {
    &&& pos == g.1
    &&& match r {
        Ok(v) => g.0 == Some(v@),
        Err(m) => g.0 is None && syntax_error(m@),
    }
}

impl Lexer {
    /// The text being read.
    pub open spec fn input(&self) -> Seq<char> {
        self.chars.text()
    }

    /// The position of the next character.
    pub open spec fn at_pos(&self) -> int {
        self.chars.pos() as int
    }

    /// Reading changes neither the text, nor the file name, nor the channel.
    pub open spec fn same_source(&self, other: &Lexer) -> bool {
        &&& self.input() == other.input()
        &&& self.path == other.path
        &&& self.trans == other.trans
    }

    /// A lexer at the start of `content` that reports nothing.
    pub fn new(content: &str, path: String) -> (r: Self)
        ensures
            r.input() == content@,
            r.at_pos() == 0,
            r.path == path,
            r.trans is None,
    {
        Lexer { chars: CharStream::new(chars_of(content)), path, trans: None }
    }

    /// A lexer at the start of `content` that reports its progress to `sender`.
    pub fn new_trans(content: &str, path: String, sender: Sender<ParseEvent>) -> (r: Self)
        ensures
            r.input() == content@,
            r.at_pos() == 0,
            r.path == path,
            r.trans == Some(sender),
    {
        Lexer { chars: CharStream::new(chars_of(content)), path, trans: Some(sender) }
    }

    /// Reports an event to the channel, if there is one. The lexer is not
    /// changed.
    pub fn log_event(&self, event: ParseEvent) {
        if let Some(tx) = &self.trans {
            send_event(tx, event);
        }
    }

    /// Passes over whitespace and `#` comments.
    pub fn skip_whitespace(&mut self)
        ensures
            final(self).same_source(old(self)),
            final(self).at_pos() == skip_ws(old(self).input(), old(self).at_pos()),
            old(self).at_pos() <= final(self).at_pos() <= final(self).input().len(),
    {
        let p = self.chars.position();
        let e = self.chars.skip_end(p);
        self.chars.advance_to(e);
    }

    /// An error message that names the file: `head`, the file name, `tail`.
    pub fn error_at(&self, head: &str, tail: &str) -> (m: String)
        ensures
            m@ == head@ + "\nDatei: "@ + self.path@ + " \nErwartet: "@ + tail@,
    {
        let mut m = string_of(head);
        append_str(&mut m, "\nDatei: ");
        append_str(&mut m, self.path.as_str());
        append_str(&mut m, " \nErwartet: ");
        append_str(&mut m, tail);
        m
    }

    /// A syntax error message that names the file: `Syntax-Fehler: `,
    /// `rest`, the file name, `tail`.
    pub fn syntax_at(&self, rest: &str, tail: &str) -> (m: String)
        ensures
            m@ == "Syntax-Fehler: "@ + rest@ + "\nDatei: "@ + self.path@ + " \nErwartet: "@ + tail@,
            syntax_error(m@),
    {
        let mut m = syntax_text(rest);
        grow(&mut m, "\nDatei: ");
        grow(&mut m, self.path.as_str());
        grow(&mut m, " \nErwartet: ");
        grow(&mut m, tail);
        m
    }

    /// A syntax error message about a named thing: `Syntax-Fehler: `, `rest`,
    /// `name`, `mid`, the file name, `tail`.
    pub fn syntax_about(&self, rest: &str, name: &[char], mid: &str, tail: &str) -> (m: String)
        ensures
            m@ == "Syntax-Fehler: "@ + rest@ + name@ + mid@ + "\nDatei: "@ + self.path@
                + " \nErwartet: "@ + tail@,
            syntax_error(m@),
    {
        let mut m = syntax_text(rest);
        let ghost m0 = m@;
        append_chars(&mut m, name);
        proof {
            lemma_syntax_error_grows(m0, name@);
        }
        grow(&mut m, mid);
        grow(&mut m, "\nDatei: ");
        grow(&mut m, self.path.as_str());
        grow(&mut m, " \nErwartet: ");
        grow(&mut m, tail);
        m
    }


    /// Whether a function head starts at the current position.
    pub fn is_lambda_ahead(&self) -> (r: bool)
        ensures
            r == lam_ahead(self.input(), self.at_pos()),
    {
        let p = self.chars.position();
        self.chars.lam_ahead_at(p)
    }

    /// A binary operator after whitespace; a single `/` is recognised without
    /// being consumed.
    pub fn parse_operator(&mut self) -> (r: Option<Operator>)
        ensures
            final(self).same_source(old(self)),
            (r, final(self).at_pos()) == op_at(old(self).input(), old(self).at_pos()),
    {
        self.skip_whitespace();
        let first = self.chars.peek();
        let second = self.chars.look(1);
        match first {
            None => None,
            Some(c) => if c == '+' {
                if second == Some('+') {
                    self.chars.next();
                    self.chars.next();
                    self.log_event(ParseEvent::StartOperator);
                    self.log_event(ParseEvent::EndOperator);
                    Some(Operator::Concat)
                } else {
                    self.chars.next();
                    self.log_event(ParseEvent::StartOperator);
                    self.log_event(ParseEvent::EndOperator);
                    Some(Operator::Add)
                }
            } else if c == '-' {
                self.chars.next();
                self.log_event(ParseEvent::StartOperator);
                self.log_event(ParseEvent::EndOperator);
                Some(Operator::Sub)
            } else if c == '=' {
                if second == Some('=') {
                    self.chars.next();
                    self.chars.next();
                    self.log_event(ParseEvent::StartOperator);
                    self.log_event(ParseEvent::EndOperator);
                    Some(Operator::Equal)
                } else {
                    None
                }
            } else if c == '!' {
                if second == Some('=') {
                    self.chars.next();
                    self.chars.next();
                    self.log_event(ParseEvent::StartOperator);
                    self.log_event(ParseEvent::EndOperator);
                    Some(Operator::Unequal)
                } else {
                    None
                }
            } else if c == '&' {
                if second == Some('&') {
                    self.chars.next();
                    self.chars.next();
                    self.log_event(ParseEvent::StartOperator);
                    self.log_event(ParseEvent::EndOperator);
                    Some(Operator::And)
                } else {
                    None
                }
            } else if c == '/' {
                if second == Some('/') {
                    self.chars.next();
                    self.chars.next();
                    self.log_event(ParseEvent::StartOperator);
                    self.log_event(ParseEvent::EndOperator);
                    Some(Operator::Merge)
                } else {
                    self.log_event(ParseEvent::StartOperator);
                    self.log_event(ParseEvent::EndOperator);
                    Some(Operator::Divide)
                }
            } else {
                None
            },
        }
    }

    /// A path: everything up to whitespace or `;`.
    pub fn parse_path(&mut self) -> (r: Result<NixValue, String>)
        ensures
            final(self).same_source(old(self)),
            parsed(r, p_path(old(self).input(), old(self).at_pos()), final(self).at_pos()),
            r is Ok,
            old(self).at_pos() <= final(self).at_pos() <= final(self).input().len(),
    {
        self.log_event(ParseEvent::StartPath);
        let p = self.chars.position();
        let e = self.chars.path_end_at(p);
        let t = self.chars.slice(p, e);
        self.chars.advance_to(e);
        self.log_event(ParseEvent::EndPath);
        Ok(NixValue::Path(string_from_chars(t.as_slice())))
    }

    /// A string: the opening quote is passed over, the text runs up to the
    /// next `"` or to the end of the input.
    pub fn parse_string(&mut self) -> (r: Result<NixValue, String>)
        ensures
            final(self).same_source(old(self)),
            parsed(r, p_string(old(self).input(), old(self).at_pos()), final(self).at_pos()),
            r is Ok,
            old(self).at_pos() <= final(self).at_pos() <= final(self).input().len(),
            old(self).at_pos() < old(self).input().len() ==> old(self).at_pos() < final(self).at_pos(),
    {
        self.log_event(ParseEvent::StartString);
        self.chars.next();
        let st = self.chars.position();
        let len = self.chars.len();
        let r = match self.chars.quote_at_from(st) {
            Some(q) => {
                let t = self.chars.slice(st, q);
                self.chars.advance_to(q + 1);
                NixValue::Str(string_from_chars(t.as_slice()))
            },
            None => {
                let t = self.chars.slice(st, len);
                self.chars.advance_to(len);
                NixValue::Str(string_from_chars(t.as_slice()))
            },
        };
        self.log_event(ParseEvent::EndString);
        Ok(r)
    }

    /// A number: an integer that fits in 64 bits, or digits with one dot.
    pub fn parse_number(&mut self) -> (r: Result<NixValue, String>)
        ensures
            final(self).same_source(old(self)),
            parsed(r, p_number(old(self).input(), old(self).at_pos()), final(self).at_pos()),
            old(self).at_pos() <= final(self).at_pos() <= final(self).input().len(),
            r is Ok ==> old(self).at_pos() < final(self).at_pos(),
    {
        self.log_event(ParseEvent::StartNumber);
        let p = self.chars.position();
        let (e, dot) = self.chars.num_end_at(p);
        let t = self.chars.slice(p, e);
        self.chars.advance_to(e);
        if dot {
            if t.len() >= 2 {
                self.log_event(ParseEvent::EndNumber);
                Ok(NixValue::Float(string_from_chars(t.as_slice())))
            } else {
                Err(
                    self.syntax_about(
                        "Ungültige Kommazahl: '",
                        t.as_slice(),
                        "' ",
                        "Number(f64)",
                    ),
                )
            }
        } else {
            proof {
                lemma_num_digits(self.input(), p as int, e as int);
            }
            match digits_value(t.as_slice()) {
                Some(v) => {
                    self.log_event(ParseEvent::EndNumber);
                    Ok(NixValue::Int(v))
                },
                None => Err(
                    self.syntax_about(
                        "Ungültige Ganzzahl '",
                        t.as_slice(),
                        "' ",
                        "Number(u64)",
                    ),
                ),
            }
        }
    }
}

/// Without a dot, a number is made of digits only.
proof fn lemma_num_digits(s: Seq<char>, i: int, e: int)
    requires
        0 <= i <= e <= s.len(),
        num_end(s, i, false) == (e, false),
    ensures
        forall|k: int| i <= k < e ==> is_digit(#[trigger] s[k]),
    decreases e - i,
{
    if i < e {
        let c = s[i];
        assert(at(s, i) == Some(c));
        if is_digit(c) {
            lemma_num_digits(s, i + 1, e);
        } else if c == '.' {
            lemma_num_end_dot(s, i + 1);
        }
    }
}

proof fn lemma_num_end_dot(s: Seq<char>, i: int)
    ensures
        num_end(s, i, true).1,
    decreases s.len() - i,
{
    if let Some(c) = at(s, i) {
        if is_digit(c) {
            lemma_num_end_dot(s, i + 1);
        }
    }
}

proof fn lemma_dec_value_prefix(d: Seq<char>, k: int)
    requires
        0 <= k < d.len(),
    ensures
        dec_value(d.subrange(0, k + 1)) == dec_value(d.subrange(0, k)) * 10 + ((d[k] as int
            - '0' as int) as nat),
{
    assert(d.subrange(0, k + 1).drop_last() =~= d.subrange(0, k));
}

proof fn lemma_dec_value_mono(d: Seq<char>, k: int, m: int)
    requires
        0 <= k <= m <= d.len(),
        forall|j: int| 0 <= j < d.len() ==> is_digit(#[trigger] d[j]),
    ensures
        dec_value(d.subrange(0, k)) <= dec_value(d.subrange(0, m)),
    decreases m - k,
{
    if k < m {
        lemma_dec_value_mono(d, k, m - 1);
        lemma_dec_value_prefix(d, m - 1);
    }
}

/// The value of a text of digits, if it fits in 64 bits (what
/// `str::parse::<u64>` gives for such a text).
pub fn digits_value(d: &[char]) -> (r: Option<u64>)
    requires
        forall|j: int| 0 <= j < d@.len() ==> is_digit(#[trigger] d@[j]),
    ensures
        r matches Some(v) ==> d@.len() > 0 && dec_value(d@) == v,
        r is None ==> d@.len() == 0 || dec_value(d@) > u64::MAX,
{
    if d.len() == 0 {
        return None;
    }
    let mut v: u64 = 0;
    let mut k: usize = 0;
    while k < d.len()
        invariant
            k <= d@.len(),
            forall|j: int| 0 <= j < d@.len() ==> is_digit(#[trigger] d@[j]),
            v == dec_value(d@.subrange(0, k as int)),
        decreases d@.len() - k,
    {
        let dg = (d[k] as u32 - '0' as u32) as u64;
        proof {
            lemma_dec_value_prefix(d@, k as int);
        }
        if v > (u64::MAX - dg) / 10 {
            proof {
                lemma_dec_value_mono(d@, k as int + 1, d@.len() as int);
                assert(d@.subrange(0, d@.len() as int) =~= d@);
                assert(v * 10 + dg > u64::MAX) by (nonlinear_arith)
                    requires
                        v > (u64::MAX - dg) / 10,
                        dg <= 9,
                ;
            }
            return None;
        }
        proof {
            assert(v * 10 + dg <= u64::MAX) by (nonlinear_arith)
                requires
                    v <= (u64::MAX - dg) / 10,
                    dg <= 9,
            ;
        }
        v = v * 10 + dg;
        k = k + 1;
    }
    assert(d@.subrange(0, d@.len() as int) =~= d@);
    Some(v)
}

} // verus!
