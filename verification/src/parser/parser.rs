//! The parser: turns the tokens of a source text into values, one
//! top-level value at a time.
use std::sync::Arc;
use vstd::prelude::*;

use super::scanner::{scan, Scanner};
use super::token::{opt_lexeme, opt_text, Lexeme, Token, Type};
use crate::list::FlList;
use crate::Value;

verus! {

/// A parsed value as a mathematical tree.
pub enum Parsed {
    Integer(i64),
    Float(u64),
    Symbol(Seq<char>, Option<Seq<char>>),
    Text(Seq<char>),
    Error(Seq<char>),
    List(Seq<Parsed>),
}

/// Where the parser stands after reading one value: what it read, its
/// lookahead token and the tokens the scanner still holds. `hits_quote` says
/// that reading reached a quote, which the parser cannot read yet.
pub struct Step {
    pub parsed: Parsed,
    pub next: Option<Lexeme>,
    pub rest: Seq<Lexeme>,
    pub hits_quote: bool,
}

/// The message of the error read at an end of source inside a list.
pub open spec fn unexpected_end() -> Seq<char> {
    "Unexpected end of source in list"@
}

/// The message of the error read for a stray right parenthesis.
pub open spec fn unexpected_paren() -> Seq<char> {
    "unexpected )"@
}

/// The value `v` is the parsed tree `p`: lists hold the values of the
/// tree's items, in order.
pub open spec fn value_matches(v: Value, p: Parsed) -> bool
    decreases p,
{
    match p {
        Parsed::Integer(i) => v == Value::Integer(i),
        Parsed::Float(b) => v == Value::Float(b),
        Parsed::Symbol(name, comment) => match v {
            Value::Symbol(n, c) => n@ == name && opt_text(c) == comment,
            _ => false,
        },
        Parsed::Text(t) => match v {
            Value::Text(x) => x@ == t,
            _ => false,
        },
        Parsed::Error(m) => match v {
            Value::Error(x) => x@ == m,
            _ => false,
        },
        Parsed::List(items) => match v {
            Value::List(l) => {
                &&& l@.len() == items.len()
                &&& forall|i: int| 0 <= i < items.len() ==> value_matches(#[trigger] l@[i], items[i])
            },
            _ => false,
        },
    }
}

/// The lookahead and the scanner's tokens after the parser fetches the next
/// token from `rest`.
pub open spec fn fetch(rest: Seq<Lexeme>) -> (Option<Lexeme>, Seq<Lexeme>) {
    if rest.len() == 0 {
        (None, rest)
    } else {
        (Some(rest[0]), rest.drop_first())
    }
}

/// Reading an atom: the token becomes `parsed` and the next token is fetched.
pub open spec fn atom_step(parsed: Parsed, rest: Seq<Lexeme>) -> Step {
    Step { parsed, next: fetch(rest).0, rest: fetch(rest).1, hits_quote: false }
}

/// Reading ends without fetching: the parser has no lookahead from now on.
pub open spec fn stop_step(parsed: Parsed, ahead: Option<Lexeme>, rest: Seq<Lexeme>) -> Step {
    Step { parsed, next: ahead, rest, hits_quote: false }
}

/// Puts `items` in front of the items of a list read by `s`; an error read
/// by `s` stays as it is.
pub open spec fn prepend(items: Seq<Parsed>, s: Step) -> Step {
    match s.parsed {
        Parsed::List(tail) => Step { parsed: Parsed::List(items + tail), ..s },
        _ => s,
    }
}

/// Reading the value that starts with token `t`, with `ahead` the parser's
/// lookahead and `rest` the scanner's tokens.
///
/// An atom is read as itself; a left parenthesis starts a list (see
/// `parse_items`); a stray right parenthesis and a token that could not be
/// scanned are read as errors, and then nothing more is fetched.
pub open spec fn parse_value(t: Lexeme, ahead: Option<Lexeme>, rest: Seq<Lexeme>) -> Step
    decreases rest.len(), 0nat,
{
    match t {
        Lexeme::LeftParen => if rest.len() == 0 {
            stop_step(Parsed::Error(unexpected_end()), None, rest)
        } else {
            parse_items(Some(rest[0]), rest.drop_first())
        },
        Lexeme::Quote => Step { parsed: Parsed::Error(Seq::empty()), next: ahead, rest, hits_quote: true },
        Lexeme::Integer(i) => atom_step(Parsed::Integer(i), rest),
        Lexeme::Float(b) => atom_step(Parsed::Float(b), rest),
        Lexeme::Symbol(name, comment) => atom_step(Parsed::Symbol(name, comment), rest),
        Lexeme::Text(x) => atom_step(Parsed::Text(x), rest),
        Lexeme::NonScanable(m) => stop_step(Parsed::Error(m), ahead, rest),
        Lexeme::RightParen => stop_step(Parsed::Error(unexpected_paren()), ahead, rest),
    }
}

/// Reading the items of a list up to its right parenthesis, with `next` the
/// lookahead and `rest` the scanner's tokens. Running out of tokens reads
/// the whole list as an error.
pub open spec fn parse_items(next: Option<Lexeme>, rest: Seq<Lexeme>) -> Step
    decreases rest.len(), if next is Some { 1nat } else { 0nat },
{
    match next {
        None => stop_step(Parsed::Error(unexpected_end()), None, rest),
        Some(Lexeme::RightParen) => atom_step(Parsed::List(Seq::empty()), rest),
        Some(t) => {
            let s = parse_value(t, None, rest);
            if s.hits_quote {
                s
            } else if s.rest.len() < rest.len() || (s.rest.len() == rest.len() && s.next is None) {
                prepend(seq![s.parsed], parse_items(s.next, s.rest))
            } else {
                // not reached: see `lemma_parse_progress`
                s
            }
        },
    }
}

/// Reading a value never gives tokens back: the scanner holds at most as many
/// tokens as before, and as many only when the parser has no lookahead left
/// or the token was read without fetching.
pub proof fn lemma_parse_progress(t: Lexeme, ahead: Option<Lexeme>, rest: Seq<Lexeme>)
    ensures
        parse_value(t, ahead, rest).rest.len() <= rest.len(),
        t is LeftParen ==> (parse_value(t, ahead, rest).rest.len() < rest.len() || (
        parse_value(t, ahead, rest).rest.len() == rest.len() && parse_value(t, ahead, rest).next is None)),
        !(t is LeftParen || t is Quote || t is NonScanable || t is RightParen) ==> (parse_value(t, ahead, rest).rest.len() < rest.len() || (
        parse_value(t, ahead, rest).rest.len() == rest.len() && parse_value(t, ahead, rest).next is None)),
        (t is NonScanable || t is RightParen) ==> parse_value(t, ahead, rest).rest == rest
            && parse_value(t, ahead, rest).next == ahead,
    decreases rest.len(), 0nat,
{
    if t is LeftParen && rest.len() > 0 {
        lemma_items_progress(Some(rest[0]), rest.drop_first());
    }
}

/// Reading the items of a list never gives tokens back.
pub proof fn lemma_items_progress(next: Option<Lexeme>, rest: Seq<Lexeme>)
    ensures
        parse_items(next, rest).rest.len() <= rest.len(),
        next is None ==> parse_items(next, rest).next is None,
    decreases rest.len(), if next is Some { 1nat } else { 0nat },
{
    match next {
        None => {},
        Some(Lexeme::RightParen) => {},
        Some(t) => {
            lemma_parse_progress(t, None, rest);
            let s = parse_value(t, None, rest);
            if !s.hits_quote && (s.rest.len() < rest.len() || (s.rest.len() == rest.len()
                && s.next is None)) {
                lemma_items_progress(s.next, s.rest);
            }
        },
    }
}

/// Going through the tokens `ts` from left to right, `depth` lists being
/// open: whether a quote comes before the value being read is complete. A
/// stray right parenthesis, a token that could not be scanned and the end
/// of the tokens complete it too.
pub open spec fn quote_ahead(ts: Seq<Lexeme>, depth: nat) -> bool
    decreases ts.len(),
{
    if ts.len() == 0 {
        false
    } else {
        match ts[0] {
            Lexeme::Quote => true,
            Lexeme::LeftParen => quote_ahead(ts.drop_first(), depth + 1),
            Lexeme::RightParen => if depth <= 1 {
                false
            } else {
                quote_ahead(ts.drop_first(), (depth - 1) as nat)
            },
            Lexeme::NonScanable(_) => false,
            _ => if depth == 0 {
                false
            } else {
                quote_ahead(ts.drop_first(), depth)
            },
        }
    }
}

/// After a read that left the parser in state `s`, inside `depth` lists:
/// whether a quote comes before those lists are complete.
pub open spec fn quote_after(s: Step, depth: nat) -> bool {
    match s.next {
        None => false,
        Some(n) => depth > 0 && quote_ahead(seq![n] + s.rest, depth),
    }
}

/// Reading a value that starts with `t`, inside `depth` lists, reaches a
/// quote exactly when the left-to-right walk meets one first.
proof fn lemma_quote_value(t: Lexeme, rest: Seq<Lexeme>, depth: nat)
    requires
        depth == 0 || !(t is RightParen),
    ensures
        quote_ahead(seq![t] + rest, depth) == (parse_value(t, None, rest).hits_quote || quote_after(
            parse_value(t, None, rest),
            depth,
        )),
    decreases rest.len(), 0nat,
{
    let ts = seq![t] + rest;
    assert(ts.len() > 0 && ts[0] == t);
    assert(ts.drop_first() =~= rest);
    let s = parse_value(t, None, rest);
    match t {
        Lexeme::LeftParen => {
            assert(quote_ahead(ts, depth) == quote_ahead(rest, depth + 1));
            if rest.len() > 0 {
                lemma_quote_items(rest[0], rest.drop_first(), depth);
                assert(seq![rest[0]] + rest.drop_first() =~= rest);
                assert(s == parse_items(Some(rest[0]), rest.drop_first()));
            }
        },
        Lexeme::Quote => {},
        Lexeme::RightParen => {},
        Lexeme::NonScanable(_) => {},
        _ => {
            assert(s == atom_step(atom_parsed(t), rest));
            if depth > 0 {
                assert(quote_ahead(ts, depth) == quote_ahead(rest, depth));
                if rest.len() > 0 {
                    assert(seq![rest[0]] + rest.drop_first() =~= rest);
                }
            }
        },
    }
}

/// Reading the items of a list from the lookahead `t` on, inside `depth`
/// further lists, reaches a quote exactly when the walk meets one first.
proof fn lemma_quote_items(t: Lexeme, rest: Seq<Lexeme>, depth: nat)
    ensures
        quote_ahead(seq![t] + rest, depth + 1) == (parse_items(Some(t), rest).hits_quote
            || quote_after(parse_items(Some(t), rest), depth)),
    decreases rest.len(), 1nat,
{
    let ts = seq![t] + rest;
    assert(ts.len() > 0 && ts[0] == t);
    assert(ts.drop_first() =~= rest);
    if t is RightParen {
        let s = parse_items(Some(t), rest);
        assert(s == atom_step(Parsed::List(Seq::empty()), rest));
        if depth == 0 {
            assert(quote_ahead(ts, depth + 1) == false);
        } else {
            assert(quote_ahead(ts, depth + 1) == quote_ahead(rest, depth));
            if rest.len() > 0 {
                assert(seq![rest[0]] + rest.drop_first() =~= rest);
            }
        }
    } else {
        lemma_quote_value(t, rest, depth + 1);
        lemma_parse_progress(t, None, rest);
        let s = parse_value(t, None, rest);
        if !s.hits_quote {
            assert(parse_items(Some(t), rest) == prepend(seq![s.parsed], parse_items(s.next, s.rest)));
            match s.next {
                None => {},
                Some(n) => {
                    lemma_quote_items(n, s.rest, depth);
                },
            }
        }
    }
}

/// Reads source text into values.
pub struct Parser {
    scanner: Scanner,
    next_token: Option<Token>,
}

impl Parser {
    /// The lookahead token: the start of the next value.
    pub closed spec fn lookahead(self) -> Option<Lexeme> {
        opt_lexeme(self.next_token)
    }

    /// The tokens the scanner still holds.
    pub closed spec fn remaining(self) -> Seq<Lexeme> {
        self.scanner@
    }

    /// Reading the next value would reach a quote.
    pub open spec fn next_hits_quote(self) -> bool {
        match self.lookahead() {
            Some(t) => parse_value(t, None, self.remaining()).hits_quote,
            None => false,
        }
    }

    /// Whether reading the next value would reach a quote, which `next`
    /// cannot read yet.
    pub fn next_reaches_quote(&self) -> (res: bool)
        ensures
            res == self.next_hits_quote(),
    {
        let first = match &self.next_token {
            None => {
                return false;
            },
            Some(t) => t,
        };
        let ghost all = seq![first@] + self.remaining();
        proof {
            lemma_quote_value(first@, self.remaining(), 0);
        }
        let total = self.scanner.len();
        // Walk the lookahead, then the scanner's tokens; `depth` counts the
        // lists open so far (at most the number of tokens walked).
        let mut depth: u128 = 0;
        let mut k: usize = 0;
        assert(all.skip(0) =~= all);
        while k <= total
            invariant
                total == self.remaining().len(),
                total <= usize::MAX,
                all == seq![first@] + self.remaining(),
                self.next_hits_quote() == quote_ahead(all, 0),
                k <= total + 1,
                depth <= k,
                quote_ahead(all, 0) == quote_ahead(all.skip(k as int), depth as nat),
            decreases total + 1 - k,
        {
            let token = if k == 0 {
                first
            } else {
                self.scanner.peek(k - 1)
            };
            let ghost ts = all.skip(k as int);
            let ghost depth_before = depth;
            assert(ts[0] == token@);
            assert(ts.drop_first() =~= all.skip(k + 1));
            match token.t_type {
                Type::Quote => {
                    return true;
                },
                Type::LeftParen => {
                    depth = depth + 1;
                },
                Type::RightParen => {
                    if depth <= 1 {
                        return false;
                    }
                    depth = depth - 1;
                },
                Type::NonScanable { .. } => {
                    return false;
                },
                _ => {
                    if depth == 0 {
                        return false;
                    }
                },
            }
            assert(quote_ahead(ts, depth_before as nat) == quote_ahead(all.skip(k + 1), depth as nat));
            if k == total {
                assert(all.skip(k + 1).len() == 0);
                assert(!quote_ahead(all.skip(k + 1), depth as nat));
                return false;
            }
            k = k + 1;
        }
        false
    }

    /// The next top-level value, if the parser has a lookahead token.
    pub fn next(&mut self) -> (res: Option<Value>)
        requires
            !old(self).next_hits_quote(),
        ensures
            old(self).lookahead() is None ==> res is None && *final(self) == *old(self),
            old(self).lookahead() matches Some(t) ==> {
                let s = parse_value(t, None, old(self).remaining());
                &&& res matches Some(v) && value_matches(v, s.parsed)
                &&& final(self).lookahead() == s.next
                &&& final(self).remaining() == s.rest
            },
    {
        match self.next_token.take() {
            None => None,
            Some(token) => Some(self.value(token)),
        }
    }

    /// A parser for the tokens of `scanner`; it fetches the first one.
    pub fn from_scanner(scanner: Scanner) -> (res: Parser)
        ensures
            res.lookahead() == fetch(scanner@).0,
            res.remaining() == fetch(scanner@).1,
    {
        let mut scanner = scanner;
        let t = scanner.next();
        Parser { scanner: scanner, next_token: t }
    }

    /// Reads the value that starts with `token`, fetching what follows it.
    pub fn value(&mut self, token: Token) -> (res: Value)
        requires
            !parse_value(token@, old(self).lookahead(), old(self).remaining()).hits_quote,
        ensures
            ({
                let s = parse_value(token@, old(self).lookahead(), old(self).remaining());
                &&& value_matches(res, s.parsed)
                &&& final(self).lookahead() == s.next
                &&& final(self).remaining() == s.rest
            }),
        decreases 2 * old(self).remaining().len() + 1,
    {
        match token.t_type {
            Type::LeftParen => self.list(),
            Type::Quote => {
                // not reached: ruled out by `requires`
                Value::Nil
            },
            Type::Integer { value } => self.integer(value),
            Type::Float { value } => self.float(value),
            Type::Symbol { value, comment } => self.symbol(value, comment),
            Type::Text { value } => self.text(value),
            Type::NonScanable { message } => Value::Error(message),
            _ => Value::Error(Arc::new(String::from_str("unexpected )"))),
        }
    }

    /// A parser for the source text `str`.
    pub fn parser_from_str(str: &str) -> (res: Parser)
        ensures
            res.lookahead() == fetch(scan(str@)).0,
            res.remaining() == fetch(scan(str@)).1,
    {
        Parser::from_scanner(Scanner::from_str(str))
    }

    fn integer(&mut self, i: i64) -> (res: Value)
        ensures
            res == Value::Integer(i),
            final(self).lookahead() == fetch(old(self).remaining()).0,
            final(self).remaining() == fetch(old(self).remaining()).1,
    {
        self.fetch_next_token();
        Value::Integer(i)
    }

    fn float(&mut self, f: u64) -> (res: Value)
        ensures
            res == Value::Float(f),
            final(self).lookahead() == fetch(old(self).remaining()).0,
            final(self).remaining() == fetch(old(self).remaining()).1,
    {
        self.fetch_next_token();
        Value::Float(f)
    }

    fn symbol(&mut self, symbol: Arc<String>, comment: Option<Arc<String>>) -> (res: Value)
        ensures
            res == Value::Symbol(symbol, comment),
            final(self).lookahead() == fetch(old(self).remaining()).0,
            final(self).remaining() == fetch(old(self).remaining()).1,
    {
        self.fetch_next_token();
        Value::Symbol(symbol, comment)
    }

    fn text(&mut self, text: Arc<String>) -> (res: Value)
        ensures
            res == Value::Text(text),
            final(self).lookahead() == fetch(old(self).remaining()).0,
            final(self).remaining() == fetch(old(self).remaining()).1,
    {
        self.fetch_next_token();
        Value::Text(text)
    }

    /// Reads the items of a list, the left parenthesis being the token just
    /// read, and the closing right parenthesis.
    fn list(&mut self) -> (res: Value)
        requires
            !parse_value(Lexeme::LeftParen, old(self).lookahead(), old(self).remaining()).hits_quote,
        ensures
            ({
                let s = parse_value(Lexeme::LeftParen, old(self).lookahead(), old(self).remaining());
                &&& value_matches(res, s.parsed)
                &&& final(self).lookahead() == s.next
                &&& final(self).remaining() == s.rest
            }),
        decreases 2 * old(self).remaining().len(),
    {
        let ghost start = old(self).remaining();
        self.fetch_next_token();  // skip (
        let ghost whole = parse_items(self.lookahead(), self.remaining());
        assert(whole == parse_value(Lexeme::LeftParen, old(self).lookahead(), start));
        let mut elements: Vec<Value> = Vec::new();
        let ghost mut read: Seq<Parsed> = Seq::empty();
        proof {
            assert(prepend(read, whole) == whole) by {
                if whole.parsed is List {
                    assert(read + whole.parsed->List_0 =~= whole.parsed->List_0);
                }
            }
        }
        loop
            invariant_except_break
                whole == prepend(read, parse_items(self.lookahead(), self.remaining())),
                !parse_items(self.lookahead(), self.remaining()).hits_quote,
            invariant
                start == old(self).remaining(),
                whole == parse_value(Lexeme::LeftParen, old(self).lookahead(), start),
                elements@.len() == read.len(),
                forall|i: int| 0 <= i < read.len() ==> value_matches(#[trigger] elements@[i], read[i]),
                start.len() > 0 ==> self.remaining().len() < start.len() || self.lookahead() is None,
                start.len() == 0 ==> self.lookahead() is None,
            ensures
                self.lookahead() == Some(Lexeme::RightParen),
                whole == prepend(read, parse_items(self.lookahead(), self.remaining())),
            decreases self.remaining().len(), if self.lookahead() is Some { 1nat } else { 0nat },
        {
            match &self.next_token {
                None => {
                    assert(parse_items(self.lookahead(), self.remaining()).parsed == Parsed::Error(unexpected_end()));
                    assert(whole.parsed == Parsed::Error(unexpected_end()));
                    return Value::Error(Arc::new(String::from_str("Unexpected end of source in list")));
                },
                Some(token) if matches!(token.t_type, Type::RightParen) => break,
                Some(_) => {
                    let ghost before_next = self.lookahead();
                    let ghost before_rest = self.remaining();
                    let token = self.next_token.take().unwrap();
                    assert(self.remaining().len() < start.len());
                    proof {
                        lemma_parse_progress(token@, None, before_rest);
                    }
                    let v = self.value(token);
                    proof {
                        let s = parse_value(token@, None, before_rest);
                        assert(token@ != Lexeme::RightParen);
                        assert(parse_items(before_next, before_rest) == prepend(seq![s.parsed], parse_items(s.next, s.rest)));
                        lemma_prepend_prepend(read, seq![s.parsed], parse_items(s.next, s.rest));
                        let old_read = read;
                        read = old_read.push(s.parsed);
                        assert(old_read + seq![s.parsed] =~= read);
                    }
                    elements.push(v);
                },
            }
        }
        self.fetch_next_token();  // skip )
        let list = FlList::from_values(elements);
        Value::List(list)
    }

    /// Fetches the next token from the scanner as the new lookahead.
    pub fn fetch_next_token(&mut self)
        ensures
            final(self).lookahead() == fetch(old(self).remaining()).0,
            final(self).remaining() == fetch(old(self).remaining()).1,
    {
        self.next_token = self.scanner.next();
    }
}

/// A token that is read as itself: a number, a symbol or a text.
pub open spec fn is_atom(t: Lexeme) -> bool {
    t is Integer || t is Float || t is Symbol || t is Text
}

/// What an atom is read as.
pub open spec fn atom_parsed(t: Lexeme) -> Parsed {
    match t {
        Lexeme::Integer(i) => Parsed::Integer(i),
        Lexeme::Float(b) => Parsed::Float(b),
        Lexeme::Symbol(name, comment) => Parsed::Symbol(name, comment),
        Lexeme::Text(x) => Parsed::Text(x),
        _ => Parsed::Error(Seq::empty()),
    }
}

/// The items from position `k` on of a parenthesized run of atoms read as
/// the list of those atoms.
proof fn lemma_atom_items(atoms: Seq<Lexeme>, rest: Seq<Lexeme>, k: int)
    requires
        0 <= k <= atoms.len(),
        forall|i: int| 0 <= i < atoms.len() ==> is_atom(#[trigger] atoms[i]),
    ensures
        ({
            let s = atoms + seq![Lexeme::RightParen] + rest;
            parse_items(Some(s[k]), s.skip(k + 1)) == atom_step(
                Parsed::List(atoms.skip(k).map_values(|t: Lexeme| atom_parsed(t))),
                rest,
            )
        }),
    decreases atoms.len() - k,
{
    let s = atoms + seq![Lexeme::RightParen] + rest;
    if k == atoms.len() {
        assert(s[k] == Lexeme::RightParen);
        assert(s.skip(k + 1) =~= rest);
        assert(atoms.skip(k).map_values(|t: Lexeme| atom_parsed(t)) =~= Seq::<Parsed>::empty());
    } else {
        lemma_atom_items(atoms, rest, k + 1);
        let t = s[k];
        assert(t == atoms[k]);
        assert(s.skip(k + 1)[0] == s[k + 1]);
        assert(s.skip(k + 1).drop_first() =~= s.skip(k + 2));
        let step = parse_value(t, None, s.skip(k + 1));
        assert(step == atom_step(atom_parsed(t), s.skip(k + 1)));
        assert(atoms.skip(k).map_values(|t: Lexeme| atom_parsed(t)) =~= seq![atom_parsed(t)]
            + atoms.skip(k + 1).map_values(|t: Lexeme| atom_parsed(t)));
    }
}

/// A parenthesized run of atoms reads as the list of those atoms, and the
/// parser then looks at the token after the right parenthesis.
pub proof fn lemma_flat_list(atoms: Seq<Lexeme>, ahead: Option<Lexeme>, rest: Seq<Lexeme>)
    requires
        forall|i: int| 0 <= i < atoms.len() ==> is_atom(#[trigger] atoms[i]),
    ensures
        parse_value(Lexeme::LeftParen, ahead, atoms + seq![Lexeme::RightParen] + rest) == atom_step(
            Parsed::List(atoms.map_values(|t: Lexeme| atom_parsed(t))),
            rest,
        ),
{
    lemma_atom_items(atoms, rest, 0);
    let s = atoms + seq![Lexeme::RightParen] + rest;
    assert(s.skip(1) =~= s.drop_first());
    assert(atoms.skip(0) =~= atoms);
}

/// Every item read inside a list is kept: when the items read from the
/// lookahead `t` on form a list, its first item is the value read from `t`,
/// and the other items are the list read from where that value ended.
pub proof fn lemma_items_keep_each(t: Lexeme, rest: Seq<Lexeme>)
    requires
        !(t is RightParen),
        !parse_value(t, None, rest).hits_quote,
        parse_items(Some(t), rest).parsed is List,
    ensures
        ({
            let s = parse_value(t, None, rest);
            let whole = parse_items(Some(t), rest);
            let items = whole.parsed->List_0;
            let tail = parse_items(s.next, s.rest);
            &&& items.len() >= 1
            &&& items[0] == s.parsed
            &&& tail.parsed == Parsed::List(items.drop_first())
            &&& tail.next == whole.next
            &&& tail.rest == whole.rest
        }),
{
    lemma_parse_progress(t, None, rest);
    let s = parse_value(t, None, rest);
    let tail = parse_items(s.next, s.rest);
    assert(parse_items(Some(t), rest) == prepend(seq![s.parsed], tail));
    assert(tail.parsed is List);
    let items = parse_items(Some(t), rest).parsed->List_0;
    assert(items == seq![s.parsed] + tail.parsed->List_0);
    assert(items.drop_first() =~= tail.parsed->List_0);
}

/// A list whose first item is `()` keeps it: reading `( ( ) ...` gives a
/// list whose first item is the empty list, followed by the items read
/// after the inner `)`.
pub proof fn lemma_empty_list_item_kept(rest: Seq<Lexeme>, ahead: Option<Lexeme>)
    requires
        parse_value(
            Lexeme::LeftParen,
            ahead,
            seq![Lexeme::LeftParen, Lexeme::RightParen] + rest,
        ).parsed is List,
    ensures
        ({
            let outer = parse_value(
                Lexeme::LeftParen,
                ahead,
                seq![Lexeme::LeftParen, Lexeme::RightParen] + rest,
            );
            let items = outer.parsed->List_0;
            &&& items.len() >= 1
            &&& items[0] == Parsed::List(Seq::empty())
            &&& parse_items(fetch(rest).0, fetch(rest).1).parsed == Parsed::List(items.drop_first())
        }),
{
    let ts = seq![Lexeme::LeftParen, Lexeme::RightParen] + rest;
    assert(ts[0] == Lexeme::LeftParen);
    assert(ts.drop_first() =~= seq![Lexeme::RightParen] + rest);
    let r = seq![Lexeme::RightParen] + rest;
    assert(r[0] == Lexeme::RightParen);
    assert(r.drop_first() =~= rest);
    assert(parse_value(Lexeme::LeftParen, None, r) == atom_step(Parsed::List(Seq::empty()), rest));
    lemma_items_keep_each(Lexeme::LeftParen, r);
}

/// Putting `a` and then `b` in front is putting `a + b` in front.
pub proof fn lemma_prepend_prepend(a: Seq<Parsed>, b: Seq<Parsed>, s: Step)
    ensures
        prepend(a, prepend(b, s)) == prepend(a + b, s),
{
    if s.parsed is List {
        assert(a + (b + s.parsed->List_0) =~= (a + b) + s.parsed->List_0);
    }
}

} // verus!
