//! The scanner: turns source text into tokens.
//!
//! Blanks separate tokens. `(`, `)` and `'` are tokens of their own. A `"`
//! starts a text that ends at the next `"`. A `;` starts a comment that runs
//! to the end of the line; comments are kept for the symbol that follows
//! them. Any other run of characters up to a delimiter is an atom: a number
//! or a symbol (see `classify`).
use std::sync::Arc;
use vstd::prelude::*;

use super::literal::{classify, classify_atom, non_scanable, text_of};
use super::token::{Lexeme, Token, Type};

verus! {

/// A blank: space, tab, newline or carriage return.
pub open spec fn is_blank(c: char) -> bool {
    c == ' ' || c == '\t' || c == '\n' || c == '\r'
}

/// A character that ends an atom.
pub open spec fn is_delimiter(c: char) -> bool {
    is_blank(c) || c == '(' || c == ')' || c == '\'' || c == '"' || c == ';'
}

/// The end of the atom that starts at `i`: the first delimiter from `i` on,
/// or the end of `s`.
pub open spec fn atom_end(s: Seq<char>, i: int) -> int
    decreases s.len() - i,
{
    if i >= s.len() || is_delimiter(s[i]) {
        i
    } else {
        atom_end(s, i + 1)
    }
}

/// The position of the next `target` from `i` on, or the end of `s`.
pub open spec fn char_end(s: Seq<char>, i: int, target: char) -> int
    decreases s.len() - i,
{
    if i >= s.len() || s[i] == target {
        i
    } else {
        char_end(s, i + 1, target)
    }
}

/// `t` without its leading blanks.
pub open spec fn trim_start(t: Seq<char>) -> Seq<char>
    decreases t.len(),
{
    if t.len() > 0 && is_blank(t[0]) {
        trim_start(t.drop_first())
    } else {
        t
    }
}

/// `t` without its trailing blanks.
pub open spec fn trim_end(t: Seq<char>) -> Seq<char>
    decreases t.len(),
{
    if t.len() > 0 && is_blank(t.last()) {
        trim_end(t.drop_last())
    } else {
        t
    }
}

/// A comment line after another one: the two joined by a newline.
pub open spec fn join_comment(before: Option<Seq<char>>, line: Seq<char>) -> Seq<char> {
    match before {
        Some(b) => b + seq!['\n'] + line,
        None => line,
    }
}

/// The message for a text without its closing `"`.
pub open spec fn unterminated_text_message() -> Seq<char> {
    "unterminated text"@
}

/// An atom's end lies between its start and the end of `s`, and no
/// delimiter comes before it.
pub proof fn lemma_atom_end(s: Seq<char>, i: int)
    requires
        0 <= i <= s.len(),
    ensures
        i <= atom_end(s, i) <= s.len(),
        atom_end(s, i) < s.len() ==> is_delimiter(s[atom_end(s, i)]),
        forall|j: int| i <= j < atom_end(s, i) ==> !is_delimiter(#[trigger] s[j]),
        i < s.len() && !is_delimiter(s[i]) ==> atom_end(s, i) > i,
    decreases s.len() - i,
{
    if i < s.len() && !is_delimiter(s[i]) {
        lemma_atom_end(s, i + 1);
    }
}

/// The next `target` lies between `i` and the end of `s`.
pub proof fn lemma_char_end(s: Seq<char>, i: int, target: char)
    requires
        0 <= i <= s.len(),
    ensures
        i <= char_end(s, i, target) <= s.len(),
        char_end(s, i, target) < s.len() ==> s[char_end(s, i, target)] == target,
        forall|j: int| i <= j < char_end(s, i, target) ==> #[trigger] s[j] != target,
    decreases s.len() - i,
{
    if i < s.len() && s[i] != target {
        lemma_char_end(s, i + 1, target);
    }
}

/// The tokens of `s` from position `i` on, with `comment` the comment lines
/// read since the last token.
pub open spec fn scan_from(s: Seq<char>, i: int, comment: Option<Seq<char>>) -> Seq<Lexeme>
    decreases s.len() - i,
{
    if i < 0 || i >= s.len() {
        Seq::empty()
    } else {
        let c = s[i];
        if is_blank(c) {
            scan_from(s, i + 1, comment)
        } else if c == '(' {
            seq![Lexeme::LeftParen] + scan_from(s, i + 1, None)
        } else if c == ')' {
            seq![Lexeme::RightParen] + scan_from(s, i + 1, None)
        } else if c == '\'' {
            seq![Lexeme::Quote] + scan_from(s, i + 1, None)
        } else if c == ';' {
            let e = char_end(s, i + 1, '\n');
            proof {
                lemma_char_end(s, i + 1, '\n');
            }
            let line = trim_end(trim_start(s.subrange(i + 1, e)));
            scan_from(s, e, Some(join_comment(comment, line)))
        } else if c == '"' {
            let e = char_end(s, i + 1, '"');
            proof {
                lemma_char_end(s, i + 1, '"');
            }
            if e >= s.len() {
                seq![Lexeme::NonScanable(unterminated_text_message())]
            } else {
                seq![Lexeme::Text(s.subrange(i + 1, e))] + scan_from(s, e + 1, None)
            }
        } else {
            let e = atom_end(s, i);
            proof {
                lemma_atom_end(s, i);
            }
            seq![classify(s.subrange(i, e), comment)] + scan_from(s, e, None)
        }
    }
}

/// The tokens of the source text `s`.
pub open spec fn scan(s: Seq<char>) -> Seq<Lexeme> {
    scan_from(s, 0, None)
}

/// From inside a text on, the next `"` is the one that closes it.
proof fn lemma_closing_quote(src: Seq<char>, text: Seq<char>, rest: Seq<char>, j: int)
    requires
        src == seq!['"'] + text + seq!['"'] + rest,
        forall|i: int| 0 <= i < text.len() ==> text[i] != '"',
        1 <= j <= text.len() + 1,
    ensures
        char_end(src, j, '"') == text.len() + 1,
    decreases text.len() + 1 - j,
{
    if j <= text.len() {
        assert(src[j] == text[j - 1]);
        lemma_closing_quote(src, text, rest, j + 1);
    } else {
        assert(src[j] == '"');
    }
}

/// A text literal reads as exactly the characters between its quotes, and
/// scanning goes on right after the closing quote.
pub proof fn lemma_text_literal(text: Seq<char>, rest: Seq<char>)
    requires
        forall|i: int| 0 <= i < text.len() ==> text[i] != '"',
    ensures
        scan(seq!['"'] + text + seq!['"'] + rest) == seq![Lexeme::Text(text)] + scan_from(
            seq!['"'] + text + seq!['"'] + rest,
            text.len() + 2int,
            None,
        ),
        rest.len() == 0 ==> scan(seq!['"'] + text + seq!['"']) == seq![Lexeme::Text(text)],
{
    let src = seq!['"'] + text + seq!['"'] + rest;
    assert(src[0] == '"');
    lemma_closing_quote(src, text, rest, 1);
    assert(src.subrange(1, text.len() + 1int) =~= text);
    if rest.len() == 0 {
        assert(seq!['"'] + text + seq!['"'] + rest =~= seq!['"'] + text + seq!['"']);
        assert(scan_from(src, text.len() + 2int, None) =~= Seq::<Lexeme>::empty());
    }
}

/// The tokens of a source text, handed out one at a time.
pub struct Scanner {
    /// The tokens not yet handed out, the next one last.
    pending: Vec<Token>,
}

impl View for Scanner {
    type V = Seq<Lexeme>;

    /// The tokens not yet handed out, the next one first.
    closed spec fn view(&self) -> Seq<Lexeme> {
        self.pending@.reverse().map_values(|t: Token| t@)
    }
}

/// The characters of `s`, in order.
/// Trusted: collects `str::chars` into a vector, which holds the characters
/// of the text in order.
#[verifier::external_body]
fn chars_of(s: &str) -> (res: Vec<char>)
    ensures
        res@ == s@,
{
    s.chars().collect()
}

/// The character is a blank.
fn is_blank_char(c: char) -> (res: bool)
    ensures
        res == is_blank(c),
{
    c == ' ' || c == '\t' || c == '\n' || c == '\r'
}

/// The character ends an atom.
fn is_delimiter_char(c: char) -> (res: bool)
    ensures
        res == is_delimiter(c),
{
    is_blank_char(c) || c == '(' || c == ')' || c == '\'' || c == '"' || c == ';'
}

/// The end of the atom of `chars` that starts at `i`.
fn find_atom_end(chars: &Vec<char>, i: usize) -> (res: usize)
    requires
        i <= chars@.len(),
    ensures
        res == atom_end(chars@, i as int),
{
    let ghost s = chars@;
    let mut j = i;
    while j < chars.len() && !is_delimiter_char(chars[j])
        invariant
            i <= j <= chars@.len(),
            s == chars@,
            atom_end(s, i as int) == atom_end(s, j as int),
        decreases chars@.len() - j,
    {
        j = j + 1;
    }
    j
}

/// The position of the next `c` in `chars` from `i` on, or the end.
fn find_char(chars: &Vec<char>, i: usize, c: char) -> (res: usize)
    requires
        i <= chars@.len(),
    ensures
        res == char_end(chars@, i as int, c),
{
    let ghost s = chars@;
    let mut j = i;
    while j < chars.len() && chars[j] != c
        invariant
            i <= j <= chars@.len(),
            s == chars@,
            char_end(s, i as int, c) == char_end(s, j as int, c),
        decreases chars@.len() - j,
    {
        j = j + 1;
    }
    j
}

/// The text `from .. to` of `chars` without leading and trailing blanks.
fn trimmed_text(chars: &Vec<char>, from: usize, to: usize) -> (res: String)
    requires
        from <= to <= chars@.len(),
    ensures
        res@ == trim_end(trim_start(chars@.subrange(from as int, to as int))),
{
    let ghost t = chars@.subrange(from as int, to as int);
    let mut lo = from;
    while lo < to && is_blank_char(chars[lo])
        invariant
            from <= lo <= to <= chars@.len(),
            t == chars@.subrange(from as int, to as int),
            trim_start(t) == trim_start(chars@.subrange(lo as int, to as int)),
        decreases to - lo,
    {
        assert(chars@.subrange(lo as int, to as int).drop_first() =~= chars@.subrange(lo + 1, to as int));
        lo = lo + 1;
    }
    let ghost u = chars@.subrange(lo as int, to as int);
    assert(trim_start(t) == u);
    let mut hi = to;
    while hi > lo && is_blank_char(chars[hi - 1])
        invariant
            lo <= hi <= to <= chars@.len(),
            u == chars@.subrange(lo as int, to as int),
            trim_end(u) == trim_end(chars@.subrange(lo as int, hi as int)),
        decreases hi - lo,
    {
        assert(chars@.subrange(lo as int, hi as int).drop_last() =~= chars@.subrange(lo as int, hi - 1));
        hi = hi - 1;
    }
    text_of(chars, lo, hi)
}

/// The characters of an optional text.
pub open spec fn opt_string(t: Option<String>) -> Option<Seq<char>> {
    match t {
        Some(s) => Some(s@),
        None => None,
    }
}

/// The lexemes of the tokens `ts`, in order.
pub open spec fn lexemes(ts: Seq<Token>) -> Seq<Lexeme> {
    ts.map_values(|t: Token| t@)
}

impl Scanner {
    /// A scanner holding the tokens of `source` (see `scan`).
    pub fn from_str(source: &str) -> (res: Scanner)
        ensures
            res@ == scan(source@),
    {
        let chars = chars_of(source);
        let ghost s = chars@;
        let n = chars.len();
        let mut tokens: Vec<Token> = Vec::new();
        let mut comment: Option<String> = None;
        let mut i: usize = 0;
        while i < n
            invariant
                n == chars@.len(),
                s == chars@,
                s == source@,
                i <= n,
                scan(s) == lexemes(tokens@) + scan_from(s, i as int, opt_string(comment)),
            decreases n - i,
        {
            let ghost before = tokens@;
            let ghost cv = opt_string(comment);
            let c = chars[i];
            if is_blank_char(c) {
                i = i + 1;
            } else if c == '(' || c == ')' || c == '\'' {
                let t_type = if c == '(' {
                    Type::LeftParen
                } else if c == ')' {
                    Type::RightParen
                } else {
                    Type::Quote
                };
                tokens.push(Token { t_type });
                comment = None;
                i = i + 1;
                assert(lexemes(tokens@) =~= lexemes(before) + seq![tokens@.last()@]);
                assert(scan_from(s, i - 1, cv) == seq![tokens@.last()@] + scan_from(s, i as int, None));
                assert(scan(s) =~= lexemes(tokens@) + scan_from(s, i as int, None));
            } else if c == ';' {
                let e = find_char(&chars, i + 1, '\n');
                proof {
                    lemma_char_end(s, i + 1, '\n');
                }
                let line = trimmed_text(&chars, i + 1, e);
                let joined = match comment {
                    Some(before_text) => {
                        let mut text = before_text;
                        proof {
                            reveal_strlit("\n");
                        }
                        text.append("\n");
                        text.append(line.as_str());
                        assert(text@ =~= join_comment(cv, line@));
                        text
                    },
                    None => line,
                };
                assert(joined@ == join_comment(cv, line@));
                comment = Some(joined);
                assert(scan_from(s, i as int, cv) == scan_from(s, e as int, opt_string(comment)));
                i = e;
            } else if c == '"' {
                let e = find_char(&chars, i + 1, '"');
                proof {
                    lemma_char_end(s, i + 1, '"');
                }
                if e >= n {
                    tokens.push(non_scanable("unterminated text"));
                    comment = None;
                    assert(scan_from(s, i as int, cv) == seq![tokens@.last()@]);
                    i = n;
                    assert(lexemes(tokens@) =~= lexemes(before) + seq![tokens@.last()@]);
                    assert(scan(s) =~= lexemes(tokens@) + scan_from(s, i as int, None));
                } else {
                    let text = text_of(&chars, i + 1, e);
                    tokens.push(Token { t_type: Type::Text { value: Arc::new(text) } });
                    comment = None;
                    assert(scan_from(s, i as int, cv) == seq![tokens@.last()@] + scan_from(s, e + 1, None));
                    i = e + 1;
                    assert(lexemes(tokens@) =~= lexemes(before) + seq![tokens@.last()@]);
                    assert(scan(s) =~= lexemes(tokens@) + scan_from(s, i as int, None));
                }
            } else {
                let e = find_atom_end(&chars, i);
                proof {
                    lemma_atom_end(s, i as int);
                }
                let shared = match comment {
                    Some(text) => Some(Arc::new(text)),
                    None => None,
                };
                tokens.push(classify_atom(&chars, i, e, shared));
                comment = None;
                assert(scan_from(s, i as int, cv) == seq![tokens@.last()@] + scan_from(s, e as int, None));
                i = e;
                assert(lexemes(tokens@) =~= lexemes(before) + seq![tokens@.last()@]);
                assert(scan(s) =~= lexemes(tokens@) + scan_from(s, i as int, None));
            }
        }
        assert(scan_from(s, i as int, None) =~= Seq::<Lexeme>::empty());
        // Hand the tokens out first to last: keep them last to first.
        let ghost all = tokens@;
        let mut pending: Vec<Token> = Vec::new();
        while tokens.len() > 0
            invariant
                all == tokens@ + pending@.reverse(),
            decreases tokens@.len(),
        {
            let ghost before_tokens = tokens@;
            let ghost before_pending = pending@;
            let t = tokens.pop().unwrap();
            pending.push(t);
            assert(pending@.reverse() =~= seq![t] + before_pending.reverse());
            assert(before_tokens =~= tokens@ + seq![t]);
        }
        assert(all =~= pending@.reverse());
        let res = Scanner { pending };
        assert(res@ =~= lexemes(all));
        res
    }

    /// The number of tokens not yet handed out.
    pub fn len(&self) -> (res: usize)
        ensures
            res == self@.len(),
    {
        self.pending.len()
    }

    /// The token `i` places ahead (`0`: the next one), without handing it out.
    pub fn peek(&self, i: usize) -> (res: &Token)
        requires
            i < self@.len(),
        ensures
            res@ == self@[i as int],
    {
        let n = self.pending.len();
        &self.pending[n - 1 - i]
    }

    /// The next token, if any is left.
    pub fn next(&mut self) -> (res: Option<Token>)
        ensures
            old(self)@.len() == 0 ==> res is None && final(self)@ == old(self)@,
            old(self)@.len() > 0 ==> (res matches Some(t) && t@ == old(self)@[0]) && final(self)@
                == old(self)@.drop_first(),
    {
        if self.pending.len() == 0 {
            return None;
        }
        let ghost before = self.pending@;
        let res = self.pending.pop();
        assert(before.reverse() =~= seq![before.last()] + self.pending@.reverse());
        assert(old(self)@ =~= seq![before.last()@] + self@);
        res
    }
}

} // verus!
