//! The parser: single-pass recursive descent from text to a [`Node`].
//!
//! A node body is a sequence of `key value` properties and
//! `BEGIN key ... END` child blocks. ASCII whitespace separates tokens and
//! is otherwise insignificant. A token is either a run of non-whitespace
//! characters, ending at the first whitespace character or at the end of
//! input, or a quoted string, in which `\"` decodes to a double quote,
//! `\n` to a newline, and any other backslash is dropped before the
//! character it precedes. The first malformed construct aborts the parse
//! with a positioned [`ParseError`].

use vstd::prelude::*;

use crate::text::is_ws;
use crate::{mm_add, node_view, Node, NodeView};

verus! {

/// What went wrong, and for an unterminated object, its key.
pub enum ErrKind {
    UnexpectedEof,
    UnterminatedString,
    IncompleteEscape,
    UnterminatedObject(Seq<char>),
}

/// The outcome of one parsing step: a value and the position after it, or
/// an error kind and the position it is reported at.
pub enum Parsed<T> {
    Found(T, int),
    Failed(ErrKind, int),
}

/// The first position at or after `pos` holding a non-whitespace
/// character, or the end of input.
pub open spec fn sp_skip_ws(text: Seq<char>, pos: int) -> int
    decreases text.len() - pos,
        when 0 <= pos <= text.len()
{
    if pos == text.len() {
        pos
    } else if is_ws(text[pos]) {
        sp_skip_ws(text, pos + 1)
    } else {
        pos
    }
}

/// Where a plain token starting at `pos` ends: at the first whitespace
/// character or at the end of input.
pub open spec fn sp_plain_end(text: Seq<char>, pos: int) -> int
    decreases text.len() - pos,
        when 0 <= pos <= text.len()
{
    if pos == text.len() {
        pos
    } else if is_ws(text[pos]) {
        pos
    } else {
        sp_plain_end(text, pos + 1)
    }
}

/// Whether `pat` occurs at position `pos` of `text`.
pub open spec fn starts_with(text: Seq<char>, pos: int, pat: Seq<char>) -> bool {
    0 <= pos && pos + pat.len() <= text.len() && text.subrange(pos, pos + pat.len() as int) == pat
}

pub open spec fn begin_at(text: Seq<char>, pos: int) -> bool {
    starts_with(text, pos, seq!['B', 'E', 'G', 'I', 'N'])
}

pub open spec fn end_at(text: Seq<char>, pos: int) -> bool {
    starts_with(text, pos, seq!['E', 'N', 'D'])
}

/// The body of a quoted string read from `pos` (after the opening quote),
/// accumulated onto `acc`; errors are reported at `errpos`, the position
/// right after the opening quote.
pub open spec fn sp_quoted(text: Seq<char>, pos: int, errpos: int, acc: Seq<char>) -> Parsed<
    Seq<char>,
>
    decreases text.len() - pos,
        when 0 <= pos <= text.len()
{
    if pos == text.len() {
        Parsed::Failed(ErrKind::UnterminatedString, errpos)
    } else if text[pos] == '"' {
        Parsed::Found(acc, pos + 1)
    } else if text[pos] == '\\' {
        if pos + 1 == text.len() {
            Parsed::Failed(ErrKind::IncompleteEscape, errpos)
        } else if text[pos + 1] == 'n' {
            sp_quoted(text, pos + 2, errpos, acc.push('\n'))
        } else if text[pos + 1] == '"' {
            sp_quoted(text, pos + 2, errpos, acc.push('"'))
        } else {
            sp_quoted(text, pos + 1, errpos, acc)
        }
    } else {
        sp_quoted(text, pos + 1, errpos, acc.push(text[pos]))
    }
}

/// One token read from `pos`: quoted if it starts with a double quote, a
/// plain run otherwise; the end of input is an error.
pub open spec fn sp_string(text: Seq<char>, pos: int) -> Parsed<Seq<char>> {
    if pos == text.len() {
        Parsed::Failed(ErrKind::UnexpectedEof, pos)
    } else if text[pos] == '"' {
        sp_quoted(text, pos + 1, pos + 1, Seq::empty())
    } else {
        Parsed::Found(text.subrange(pos, sp_plain_end(text, pos)), sp_plain_end(text, pos))
    }
}

/// One `key value` property read from `pos`: a token, whitespace, a token.
pub open spec fn sp_attr(text: Seq<char>, pos: int) -> Parsed<(Seq<char>, Seq<char>)> {
    match sp_string(text, pos) {
        Parsed::Failed(k, a) => Parsed::Failed(k, a),
        Parsed::Found(key, p1) => match sp_string(text, sp_skip_ws(text, p1)) {
            Parsed::Failed(k, a) => Parsed::Failed(k, a),
            Parsed::Found(value, p2) => Parsed::Found((key, value), p2),
        },
    }
}

/// The node with no properties and no children.
pub open spec fn empty_nv() -> NodeView {
    NodeView { props: Seq::empty(), kids: Seq::empty() }
}

pub open spec fn nv_add_prop(acc: NodeView, k: Seq<char>, v: Seq<char>) -> NodeView {
    NodeView { props: mm_add(acc.props, k, v), kids: acc.kids }
}

pub open spec fn nv_add_kid(acc: NodeView, k: Seq<char>, n: NodeView) -> NodeView {
    NodeView { props: acc.props, kids: mm_add(acc.kids, k, n) }
}

/// Clamps a successor position into `(lo, len]`, so that the parser's
/// measure always shrinks; on the positions the parser actually produces
/// it is the identity.
pub open spec fn next_pos(lo: int, q: int, len: int) -> int {
    if q <= lo {
        lo + 1
    } else if q > len {
        len
    } else {
        q
    }
}

/// A node body read from `pos` onto the accumulator `acc`: properties and
/// `BEGIN ... END` blocks until the end of input or, inside a child, a
/// position where `END` begins. Returns the accumulated node and the
/// position of the terminator.
pub open spec fn sp_node(text: Seq<char>, pos: int, child: bool, acc: NodeView) -> Parsed<NodeView>
    decreases text.len() - pos,
        when 0 <= pos <= text.len()
{
    let p = sp_skip_ws(text, pos);
    if begin_at(text, p) {
        let p1 = sp_skip_ws(text, p + 5);
        match sp_string(text, p1) {
            Parsed::Failed(k, a) => Parsed::Failed(k, a),
            Parsed::Found(key, kp) => match sp_node(
                text,
                next_pos(pos, kp, text.len() as int),
                true,
                empty_nv(),
            ) {
                Parsed::Failed(k, a) => Parsed::Failed(k, a),
                Parsed::Found(inner, ip) => {
                    if end_at(text, ip) {
                        sp_node(
                            text,
                            next_pos(pos, ip + 3, text.len() as int),
                            child,
                            nv_add_kid(acc, key, inner),
                        )
                    } else {
                        Parsed::Failed(ErrKind::UnterminatedObject(key), ip)
                    }
                },
            },
        }
    } else if p == text.len() || (child && end_at(text, p)) {
        Parsed::Found(acc, p)
    } else {
        match sp_attr(text, p) {
            Parsed::Failed(k, a) => Parsed::Failed(k, a),
            Parsed::Found(kv, ap) => sp_node(
                text,
                next_pos(pos, ap, text.len() as int),
                child,
                nv_add_prop(acc, kv.0, kv.1),
            ),
        }
    }
}

/// A whole document: the root node body, which must reach the end of
/// input.
pub open spec fn sp_parse(text: Seq<char>) -> Parsed<NodeView> {
    sp_node(text, 0, false, empty_nv())
}

// ---------------------------------------------------------------------------
// Error positions and messages.
// ---------------------------------------------------------------------------

/// The number of newline characters before `pos`.
pub open spec fn line_of(text: Seq<char>, pos: int) -> int
    decreases pos,
        when 0 <= pos <= text.len()
{
    if pos == 0 {
        0
    } else if text[pos - 1] == '\n' {
        line_of(text, pos - 1) + 1
    } else {
        line_of(text, pos - 1)
    }
}

/// The number of characters on the current line before `pos`.
pub open spec fn col_of(text: Seq<char>, pos: int) -> int
    decreases pos,
        when 0 <= pos <= text.len()
{
    if pos == 0 {
        0
    } else if text[pos - 1] == '\n' {
        0
    } else {
        col_of(text, pos - 1) + 1
    }
}

/// The message text of each error kind.
pub open spec fn msg_of(k: ErrKind) -> Seq<char> {
    match k {
        ErrKind::UnexpectedEof => "unexpected eof"@,
        ErrKind::UnterminatedString => "unterminated string"@,
        ErrKind::IncompleteEscape => "incomplete escape"@,
        ErrKind::UnterminatedObject(key) => "unterminated object '"@ + key + "'"@,
    }
}

/// Whether a [`ParseError`] reports the kind `k` raised at position `at`
/// of `text`.
pub open spec fn err_matches(e: ParseError, text: Seq<char>, k: ErrKind, at: int) -> bool {
    &&& e.message@ == msg_of(k)
    &&& e.line == line_of(text, at)
    &&& e.col == col_of(text, at)
}

/// An error from parsing malformed text: a short message and the
/// zero-indexed line and column where parsing stopped.
#[derive(Debug)]
pub struct ParseError {
    pub message: String,
    pub line: usize,
    pub col: usize,
}

impl ParseError {
    /// The error as one line of text: 1-indexed line, 1-indexed column,
    /// and the message, separated by colons.
    pub fn describe(&self) -> (r: String)
        requires
            self.line < usize::MAX,
            self.col < usize::MAX,
        ensures
            r@ == crate::text::usize_digits((self.line + 1) as nat) + seq![':']
                + crate::text::usize_digits((self.col + 1) as nat) + seq![':', ' ']
                + self.message@,
    {
        let mut r = crate::text::usize_to_string(self.line + 1);
        r.append(":");
        let c = crate::text::usize_to_string(self.col + 1);
        r.append(c.as_str());
        r.append(": ");
        r.append(self.message.as_str());
        proof {
            reveal_strlit(":");
            reveal_strlit(": ");
            assert(":"@ =~= seq![':']);
            assert(": "@ =~= seq![':', ' ']);
            assert(r@ =~= crate::text::usize_digits((self.line + 1) as nat) + seq![':']
                + crate::text::usize_digits((self.col + 1) as nat) + seq![':', ' ']
                + self.message@);
        }
        r
    }
}

/// `sp_skip_ws` lands between `pos` and the end, skips only whitespace,
/// and stops at a non-whitespace character or the end.
pub proof fn sp_skip_ws_props(text: Seq<char>, pos: int)
    requires
        0 <= pos <= text.len(),
    ensures
        pos <= sp_skip_ws(text, pos) <= text.len(),
        forall|j: int| pos <= j < sp_skip_ws(text, pos) ==> is_ws(#[trigger] text[j]),
        sp_skip_ws(text, pos) < text.len() ==> !is_ws(text[sp_skip_ws(text, pos)]),
    decreases text.len() - pos,
{
    if pos < text.len() && is_ws(text[pos]) {
        sp_skip_ws_props(text, pos + 1);
    }
}

/// A plain token ends at or after its start, spans no whitespace, and is
/// delimited by whitespace or the end of input.
pub proof fn sp_plain_end_props(text: Seq<char>, pos: int)
    requires
        0 <= pos <= text.len(),
    ensures
        pos <= sp_plain_end(text, pos) <= text.len(),
        forall|j: int| pos <= j < sp_plain_end(text, pos) ==> !is_ws(#[trigger] text[j]),
        sp_plain_end(text, pos) < text.len() ==> is_ws(text[sp_plain_end(text, pos)]),
    decreases text.len() - pos,
{
    if pos < text.len() && !is_ws(text[pos]) {
        sp_plain_end_props(text, pos + 1);
    }
}

/// A successfully read quoted body ends strictly after it starts, within
/// the input.
pub proof fn sp_quoted_found_props(text: Seq<char>, pos: int, errpos: int, acc: Seq<char>)
    requires
        0 <= pos <= text.len(),
    ensures
        sp_quoted(text, pos, errpos, acc) matches Parsed::Found(_, np) ==> pos < np <= text.len(),
    decreases text.len() - pos,
{
    if pos < text.len() {
        if text[pos] == '"' {
        } else if text[pos] == '\\' {
            if pos + 1 < text.len() {
                if text[pos + 1] == 'n' {
                    sp_quoted_found_props(text, pos + 2, errpos, acc.push('\n'));
                } else if text[pos + 1] == '"' {
                    sp_quoted_found_props(text, pos + 2, errpos, acc.push('"'));
                } else {
                    sp_quoted_found_props(text, pos + 1, errpos, acc);
                }
            }
        } else {
            sp_quoted_found_props(text, pos + 1, errpos, acc.push(text[pos]));
        }
    }
}

/// A successfully read token ends strictly after a non-whitespace start,
/// within the input.
pub proof fn sp_string_found_props(text: Seq<char>, pos: int)
    requires
        0 <= pos <= text.len(),
        pos < text.len() ==> !is_ws(text[pos]),
    ensures
        sp_string(text, pos) matches Parsed::Found(_, np) ==> pos < np <= text.len(),
{
    if pos < text.len() {
        if text[pos] == '"' {
            sp_quoted_found_props(text, pos + 1, pos + 1, Seq::empty());
        } else {
            sp_plain_end_props(text, pos);
        }
    }
}

/// Reads tokens out of a sequence of characters, tracking the current
/// position.
pub struct Parser {
    pub input: Vec<char>,
    pub pos: usize,
}

impl Parser {
    /// The position never passes the end of the input.
    pub open spec fn wf(&self) -> bool {
        self.pos <= self.input@.len()
    }

    /// A parser at the start of the given text.
    pub fn new(input: &str) -> (r: Parser)
        ensures
            r.input@ == input@,
            r.pos == 0,
            r.wf(),
    {
        Parser { input: crate::text::str_chars(input), pos: 0 }
    }

    /// The characters from the current position to the end.
    pub fn remainder(&self) -> (r: &[char])
        requires
            self.wf(),
        ensures
            r@ == self.input@.subrange(self.pos as int, self.input@.len() as int),
    {
        vstd::slice::slice_subrange(self.input.as_slice(), self.pos, self.input.len())
    }

    /// Whether the whole input is consumed.
    pub fn eof(&self) -> (r: bool)
        ensures
            r == (self.pos == self.input@.len()),
    {
        self.pos == self.input.len()
    }

    /// The character at the current position, if any.
    pub fn peek(&self) -> (r: Option<char>)
        requires
            self.wf(),
        ensures
            self.pos < self.input@.len() ==> r == Some(self.input@[self.pos as int]),
            self.pos == self.input@.len() ==> r is None,
    {
        if self.pos < self.input.len() {
            Some(self.input[self.pos])
        } else {
            None
        }
    }

    /// Steps over the current character.
    pub fn bump(&mut self)
        requires
            old(self).wf(),
            old(self).pos < old(self).input@.len(),
        ensures
            final(self).input == old(self).input,
            final(self).pos == old(self).pos + 1,
            final(self).wf(),
    {
        let total = self.input.len();
        assert(self.pos < total);
        self.pos = self.pos + 1;
    }

    /// Whether `token` occurs at the current position.
    fn peeks(&self, token: &str) -> (r: bool)
        requires
            self.wf(),
        ensures
            r == starts_with(self.input@, self.pos as int, token@),
    {
        let n = token.unicode_len();
        let total = self.input.len();
        if n > total || self.pos > total - n {
            assert(!starts_with(self.input@, self.pos as int, token@));
            return false;
        }
        let mut i: usize = 0;
        while i < n
            invariant
                self.wf(),
                0 <= i <= n,
                n == token@.len(),
                total == self.input@.len(),
                self.pos + n <= total,
                forall|j: int| 0 <= j < i ==> self.input@[self.pos + j] == token@[j],
            decreases n - i,
        {
            if self.input[self.pos + i] != token.get_char(i) {
                assert(self.input@.subrange(
                    self.pos as int,
                    self.pos + token@.len(),
                )[i as int] != token@[i as int]);
                return false;
            }
            i += 1;
        }
        proof {
            assert(self.input@.subrange(self.pos as int, self.pos + token@.len()) =~= token@);
        }
        true
    }

    /// Consumes `token` if it occurs at the current position.
    pub fn eat(&mut self, token: &str) -> (r: bool)
        requires
            old(self).wf(),
        ensures
            final(self).input == old(self).input,
            final(self).wf(),
            r == starts_with(old(self).input@, old(self).pos as int, token@),
            r ==> final(self).pos == old(self).pos + token@.len(),
            !r ==> final(self).pos == old(self).pos,
    {
        if self.peeks(token) {
            let total = self.input.len();
            assert(self.pos + token@.len() <= total);
            self.pos = self.pos + token.unicode_len();
            true
        } else {
            false
        }
    }

    /// Steps over the whitespace at the current position.
    pub fn skip_whitespace(&mut self)
        requires
            old(self).wf(),
        ensures
            final(self).input == old(self).input,
            final(self).pos == sp_skip_ws(old(self).input@, old(self).pos as int),
            final(self).wf(),
    {
        while self.pos < self.input.len() && crate::text::is_whitespace(self.input[self.pos])
            invariant
                self.wf(),
                self.input == old(self).input,
                sp_skip_ws(self.input@, old(self).pos as int) == sp_skip_ws(
                    self.input@,
                    self.pos as int,
                ),
            decreases self.input@.len() - self.pos,
        {
            self.pos = self.pos + 1;
        }
    }

    /// An error whose position is the current one: the count of newlines
    /// before it, and the count of characters on the line holding it.
    pub fn error(&self, message: String) -> (r: ParseError)
        requires
            self.wf(),
        ensures
            r.message == message,
            r.line == line_of(self.input@, self.pos as int),
            r.col == col_of(self.input@, self.pos as int),
            r.line <= self.pos,
            r.col <= self.pos,
    {
        let mut line: usize = 0;
        let mut col: usize = 0;
        let mut i: usize = 0;
        while i < self.pos
            invariant
                self.wf(),
                0 <= i <= self.pos,
                line == line_of(self.input@, i as int),
                col == col_of(self.input@, i as int),
                line <= i,
                col <= i,
            decreases self.pos - i,
        {
            if self.input[i] == '\n' {
                line += 1;
                col = 0;
            } else {
                col += 1;
            }
            i += 1;
        }
        ParseError { message, line, col }
    }
}

impl Parser {
    /// Reads a plain token: the characters up to the next whitespace or
    /// the end of input.
    #[verifier::loop_isolation(false)]
    pub fn parse_plain_string(&mut self) -> (r: String)
        requires
            old(self).wf(),
        ensures
            final(self).input == old(self).input,
            final(self).wf(),
            final(self).pos == sp_plain_end(old(self).input@, old(self).pos as int),
            r@ == old(self).input@.subrange(old(self).pos as int, final(self).pos as int),
    {
        let ghost text = self.input@;
        let ghost pos0 = self.pos as int;
        let total = self.input.len();
        let mut out: Vec<char> = Vec::new();
        while self.pos < total && !crate::text::is_whitespace(self.input[self.pos])
            invariant
                self.wf(),
                self.input == old(self).input,
                self.input@ == text,
                total == text.len(),
                pos0 <= self.pos,
                sp_plain_end(text, pos0) == sp_plain_end(text, self.pos as int),
                out@ == text.subrange(pos0, self.pos as int),
            decreases text.len() - self.pos,
        {
            out.push(self.input[self.pos]);
            self.pos = self.pos + 1;
            proof {
                assert(out@ =~= text.subrange(pos0, self.pos as int));
            }
        }
        crate::text::chars_to_string(&out)
    }

    /// Reads the body of a quoted string; the opening quote stands at the
    /// current position. Inside, `\"` decodes to a double quote, `\n` to
    /// a newline, and any other backslash is dropped before the character
    /// it precedes. A missing closing quote, or a backslash as the last
    /// character of the input, is an error, reported at the position right
    /// after the opening quote.
    #[verifier::loop_isolation(false)]
    pub fn parse_quoted_string(&mut self) -> (r: Result<String, ParseError>)
        requires
            old(self).wf(),
            old(self).pos < old(self).input@.len(),
            old(self).input@[old(self).pos as int] == '"',
        ensures
            final(self).input == old(self).input,
            final(self).wf(),
            final(self).pos > old(self).pos,
            match sp_quoted(
                old(self).input@,
                old(self).pos + 1,
                old(self).pos + 1,
                Seq::empty(),
            ) {
                Parsed::Found(tok, np) => r matches Ok(v) && v@ == tok && final(self).pos == np,
                Parsed::Failed(k, a) => r matches Err(e) && err_matches(
                    e,
                    old(self).input@,
                    k,
                    a,
                ),
            },
    {
        let ghost text = self.input@;
        let total = self.input.len();
        self.pos = self.pos + 1;
        let errstart = self.pos;
        let ghost errp = self.pos as int;
        let mut out: Vec<char> = Vec::new();
        loop
            invariant
                self.wf(),
                self.input == old(self).input,
                self.input@ == text,
                total == text.len(),
                errstart == errp,
                errp <= self.pos,
                sp_quoted(text, errp, errp, Seq::empty()) == sp_quoted(
                    text,
                    self.pos as int,
                    errp,
                    out@,
                ),
            decreases text.len() - self.pos,
        {
            if self.pos == total {
                self.pos = errstart;
                return Err(self.error("unterminated string".to_owned()));
            }
            let c = self.input[self.pos];
            if c == '"' {
                self.pos = self.pos + 1;
                return Ok(crate::text::chars_to_string(&out));
            } else if c == '\\' {
                if self.pos + 1 == total {
                    self.pos = errstart;
                    return Err(self.error("incomplete escape".to_owned()));
                }
                let c2 = self.input[self.pos + 1];
                if c2 == 'n' {
                    out.push('\n');
                    self.pos = self.pos + 2;
                } else if c2 == '"' {
                    out.push('"');
                    self.pos = self.pos + 2;
                } else {
                    self.pos = self.pos + 1;
                }
            } else {
                out.push(c);
                self.pos = self.pos + 1;
            }
        }
    }

    /// Reads one token: a quoted string if the current character is a
    /// double quote, the end of input is an error, and a plain token
    /// otherwise.
    pub fn parse_string(&mut self) -> (r: Result<String, ParseError>)
        requires
            old(self).wf(),
        ensures
            final(self).input == old(self).input,
            final(self).wf(),
            final(self).pos >= old(self).pos,
            match sp_string(old(self).input@, old(self).pos as int) {
                Parsed::Found(tok, np) => r matches Ok(v) && v@ == tok && final(self).pos == np,
                Parsed::Failed(k, a) => r matches Err(e) && err_matches(
                    e,
                    old(self).input@,
                    k,
                    a,
                ),
            },
    {
        proof {
            sp_plain_end_props(self.input@, self.pos as int);
        }
        if self.eof() {
            Err(self.error("unexpected eof".to_owned()))
        } else if self.input[self.pos] == '"' {
            let r = self.parse_quoted_string();
            proof {
                sp_quoted_found_props(
                    old(self).input@,
                    old(self).pos + 1,
                    old(self).pos + 1,
                    Seq::empty(),
                );
            }
            r
        } else {
            Ok(self.parse_plain_string())
        }
    }

    /// Reads one `key value` property: a token, whitespace, a token.
    pub fn parse_attribute(&mut self) -> (r: Result<(String, String), ParseError>)
        requires
            old(self).wf(),
        ensures
            final(self).input == old(self).input,
            final(self).wf(),
            final(self).pos >= old(self).pos,
            match sp_attr(old(self).input@, old(self).pos as int) {
                Parsed::Found(kv, np) => r matches Ok(v) && v.0@ == kv.0 && v.1@ == kv.1
                    && final(self).pos == np,
                Parsed::Failed(k, a) => r matches Err(e) && err_matches(
                    e,
                    old(self).input@,
                    k,
                    a,
                ),
            },
    {
        let key = match self.parse_string() {
            Ok(k) => k,
            Err(e) => {
                return Err(e);
            },
        };
        let ghost mid = self.pos as int;
        self.skip_whitespace();
        proof {
            sp_skip_ws_props(self.input@, mid);
        }
        let value = match self.parse_string() {
            Ok(v) => v,
            Err(e) => {
                return Err(e);
            },
        };
        Ok((key, value))
    }
}

/// A successfully read property ends strictly after a non-whitespace
/// start, within the input.
pub proof fn sp_attr_found_props(text: Seq<char>, pos: int)
    requires
        0 <= pos <= text.len(),
        pos < text.len() ==> !is_ws(text[pos]),
    ensures
        sp_attr(text, pos) matches Parsed::Found(_, np) ==> pos < np <= text.len(),
{
    sp_string_found_props(text, pos);
    match sp_string(text, pos) {
        Parsed::Found(_, p1) => {
            sp_skip_ws_props(text, p1);
            let mid = sp_skip_ws(text, p1);
            sp_string_found_props(text, mid);
        },
        Parsed::Failed(_, _) => {},
    }
}

impl Parser {
    /// Reads a node body: properties and `BEGIN ... END` child blocks,
    /// until the end of input or, inside a child, an `END` terminator,
    /// which is left for the enclosing call to consume. Repeated keys
    /// accumulate in order.
    #[verifier::loop_isolation(false)]
    #[verifier::rlimit(100)]
    pub fn parse_node(&mut self, child: bool) -> (r: Result<Node, ParseError>)
        requires
            old(self).wf(),
        ensures
            final(self).input == old(self).input,
            final(self).wf(),
            final(self).pos >= old(self).pos,
            match sp_node(old(self).input@, old(self).pos as int, child, empty_nv()) {
                Parsed::Found(nv, np) => r matches Ok(n) && n@ == nv && n.inv() && final(self).pos
                    == np,
                Parsed::Failed(k, a) => r matches Err(e) && err_matches(
                    e,
                    old(self).input@,
                    k,
                    a,
                ),
            },
        decreases old(self).input@.len() - old(self).pos,
    {
        let ghost text = self.input@;
        let ghost pos0 = self.pos as int;
        let mut node = Node::new();
        proof {
            assert(node@ =~= empty_nv());
        }
        loop
            invariant
                self.wf(),
                self.input == old(self).input,
                self.pos >= pos0,
                node.inv(),
                sp_node(text, pos0, child, empty_nv()) == sp_node(
                    text,
                    self.pos as int,
                    child,
                    node@,
                ),
            decreases text.len() - self.pos,
        {
            let ghost lpos = self.pos as int;
            let ghost acc0 = node@;
            self.skip_whitespace();
            proof {
                sp_skip_ws_props(text, lpos);
            }
            let ghost p = self.pos as int;
            let began = self.eat("BEGIN");
            proof {
                reveal_strlit("BEGIN");
                assert("BEGIN"@ =~= seq!['B', 'E', 'G', 'I', 'N']);
                assert(began == begin_at(text, p));
            }
            if began {
                let ghost mid = self.pos as int;
                self.skip_whitespace();
                proof {
                    sp_skip_ws_props(text, mid);
                }
                let ghost p1 = self.pos as int;
                let key = match self.parse_string() {
                    Ok(k) => k,
                    Err(e) => {
                        return Err(e);
                    },
                };
                let ghost kp = self.pos as int;
                proof {
                    sp_string_found_props(text, p1);
                    assert(next_pos(lpos, kp, text.len() as int) == kp);
                }
                let inner = match self.parse_node(true) {
                    Ok(n) => n,
                    Err(e) => {
                        return Err(e);
                    },
                };
                let ghost ip = self.pos as int;
                let ended = self.eat("END");
                proof {
                    reveal_strlit("END");
                    assert("END"@ =~= seq!['E', 'N', 'D']);
                    assert(ended == end_at(text, ip));
                }
                if ended {
                    node.add_child(key.as_str(), inner);
                    proof {
                        assert(node@ =~= nv_add_kid(acc0, key@, node_view(inner)));
                        assert(next_pos(lpos, ip + 3, text.len() as int) == self.pos as int);
                        assert(sp_node(text, lpos, child, acc0) == sp_node(
                            text,
                            self.pos as int,
                            child,
                            node@,
                        ));
                    }
                } else {
                    let mut m = String::new();
                    m.append("unterminated object '");
                    m.append(key.as_str());
                    m.append("'");
                    proof {
                        assert(m@ =~= "unterminated object '"@ + key@ + "'"@);
                        assert(sp_node(text, lpos, child, acc0) == Parsed::<NodeView>::Failed(
                            ErrKind::UnterminatedObject(key@),
                            ip,
                        ));
                    }
                    return Err(self.error(m));
                }
            } else {
                let at_end = child && self.peeks("END");
                proof {
                    reveal_strlit("END");
                    assert("END"@ =~= seq!['E', 'N', 'D']);
                }
                if self.eof() || at_end {
                    proof {
                        assert(sp_node(text, lpos, child, acc0) == Parsed::<NodeView>::Found(
                            acc0,
                            p,
                        ));
                    }
                    return Ok(node);
                }
                let kv = match self.parse_attribute() {
                    Ok(kv) => kv,
                    Err(e) => {
                        return Err(e);
                    },
                };
                let ghost ap = self.pos as int;
                node.add_property(kv.0.as_str(), kv.1.as_str());
                proof {
                    sp_attr_found_props(text, p);
                    assert(node@ =~= nv_add_prop(acc0, kv.0@, kv.1@));
                    assert(next_pos(lpos, ap, text.len() as int) == ap);
                    assert(sp_node(text, lpos, child, acc0) == sp_node(
                        text,
                        self.pos as int,
                        child,
                        node@,
                    ));
                }
            }
        }
    }
}

impl Node {
    /// Parses a whole document into a node; malformed text gives the
    /// first error, with its position.
    pub fn parse(input: &str) -> (r: Result<Node, ParseError>)
        ensures
            match sp_parse(input@) {
                Parsed::Found(nv, np) => r matches Ok(n) && node_view(n) == nv && n.inv(),
                Parsed::Failed(k, a) => r matches Err(e) && err_matches(e, input@, k, a),
            },
    {
        let mut p = Parser::new(input);
        p.parse_node(false)
    }
}

impl core::str::FromStr for Node {
    type Err = ParseError;

    fn from_str(s: &str) -> Result<Node, ParseError> {
        Node::parse(s)
    }
}

} // verus!
