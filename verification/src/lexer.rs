//! Positions, the character source with one character of lookahead, and the
//! tokenizer.

use crate::number::{decimal_text, is_digit, push_decimal};
use vstd::prelude::*;

verus! {

/// A place in the source text: a line and a column, both counted from zero.
#[derive(Copy, Clone, Debug, PartialEq, Eq, Structural)]
pub struct Position {
    pub line: usize,
    pub col: usize,
}

/// The stretch of source text that a token or an expression covers, from
/// the position of its first character to that of its last. Spans serve
/// diagnostics only; nothing is decided by them.
#[derive(Copy, Clone, Debug, PartialEq, Eq, Structural)]
pub struct Span {
    pub from: Position,
    pub to: Position,
}

/// The number of newlines in `s`.
pub open spec fn newlines_in(s: Seq<char>) -> nat
    decreases s.len(),
{
    if s.len() == 0 {
        0
    } else if s.last() == '\n' {
        newlines_in(s.drop_last()) + 1
    } else {
        newlines_in(s.drop_last())
    }
}

/// The number of characters in `s` after its last newline.
pub open spec fn tail_width(s: Seq<char>) -> nat
    decreases s.len(),
{
    if s.len() == 0 || s.last() == '\n' {
        0
    } else {
        tail_width(s.drop_last()) + 1
    }
}

/// The position reached after the first `n` characters of `text`: the line
/// is the number of newlines among them, the column the number of
/// characters since the last of those newlines.
pub open spec fn position_at(text: Seq<char>, n: int) -> Position {
    Position {
        line: newlines_in(text.take(n)) as usize,
        col: tail_width(text.take(n)) as usize,
    }
}

/// The position from which the `n`-th character of `text` was read: the one
/// reached before it, or the origin when nothing has been read.
pub open spec fn position_before(text: Seq<char>, n: int) -> Position {
    if n <= 0 {
        Position { line: 0, col: 0 }
    } else {
        position_at(text, n - 1)
    }
}

/// Lines and columns never exceed the number of characters read, so the
/// fields of a position hold them exactly for any text that fits in memory.
pub proof fn lemma_position_bounded(s: Seq<char>)
    ensures
        newlines_in(s) + tail_width(s) <= s.len(),
    decreases s.len(),
{
    if s.len() > 0 {
        lemma_position_bounded(s.drop_last());
    }
}

/// The position after the character `c` has been read at `from`: a newline
/// starts the next line at column zero, any other character moves one
/// column to the right.
pub open spec fn advance(from: Position, c: char) -> Position {
    if c == '\n' {
        Position { line: (from.line + 1) as usize, col: 0 }
    } else {
        Position { line: from.line, col: (from.col + 1) as usize }
    }
}

/// Reading one more character advances the position by that character, and
/// neither counter runs over: line and column together never exceed the
/// number of characters read.
pub proof fn lemma_position_step(text: Seq<char>, n: int)
    requires
        0 <= n < text.len(),
        text.len() <= usize::MAX,
    ensures
        position_at(text, n + 1) == advance(position_at(text, n), text[n]),
        position_at(text, n).line + position_at(text, n).col <= n,
{
    let longer = text.take(n + 1);
    assert(longer.drop_last() =~= text.take(n));
    assert(longer.last() == text[n]);
    lemma_position_bounded(text.take(n));
    lemma_position_bounded(longer);
}

impl Default for Position {
    /// The origin: line zero, column zero.
    fn default() -> (r: Position)
        ensures
            r == (Position { line: 0, col: 0 }),
    {
        Position { line: 0, col: 0 }
    }
}

impl Position {
    /// The span that starts here and ends at `other`.
    pub fn to(self, other: Position) -> (r: Span)
        ensures
            r == (Span { from: self, to: other }),
    {
        Span { from: self, to: other }
    }

    /// The text `line:col` as a reader expects it: lines counted from one,
    /// columns from zero.
    pub open spec fn text(self) -> Seq<char> {
        decimal_text((self.line + 1) as nat) + seq![':'] + decimal_text(self.col as nat)
    }

    /// Renders the position as `line:col`, the line counted from one.
    pub fn as_string(&self) -> (r: String)
        ensures
            r@ == self.text(),
    {
        let mut out = String::new();
        push_decimal(self.line as u128 + 1, &mut out);
        out.push(':');
        push_decimal(self.col as u128, &mut out);
        assert(out@ =~= self.text());
        out
    }
}

impl Span {
    /// The text `from-to`, each end written as a position.
    pub open spec fn text(self) -> Seq<char> {
        self.from.text() + seq!['-'] + self.to.text()
    }

    /// Renders the span as its two positions joined by a dash.
    pub fn as_string(&self) -> (r: String)
        ensures
            r@ == self.text(),
    {
        let mut out = self.from.as_string();
        out.push('-');
        let end = self.to.as_string();
        out.append(end.as_str());
        assert(out@ =~= self.text());
        out
    }
}

/// The characters with the Unicode property `White_Space`: the blank, the
/// controls from tab to carriage return, next line, the no-break spaces,
/// the spaces of fixed width, the line and paragraph separators, and the
/// Ogham, mathematical and ideographic spaces.
pub open spec fn is_whitespace(c: char) -> bool {
    ||| c == ' '
    ||| '\u{9}' <= c <= '\u{d}'
    ||| c == '\u{85}'
    ||| c == '\u{a0}'
    ||| c == '\u{1680}'
    ||| '\u{2000}' <= c <= '\u{200a}'
    ||| c == '\u{2028}'
    ||| c == '\u{2029}'
    ||| c == '\u{202f}'
    ||| c == '\u{205f}'
    ||| c == '\u{3000}'
}

/// `char::is_whitespace` of std: true exactly for the characters with the
/// Unicode property `White_Space`, which `is_whitespace` lists.
pub assume_specification[ char::is_whitespace ](c: char) -> (r: bool)
    ensures
        r == is_whitespace(c),
;

/// A stream of characters that remembers where it is: each character read
/// advances a line and column counter, and one character can be looked at
/// before it is read.
pub struct Source {
    pub name: String,
    chars: Vec<char>,
    index: usize,
    peeked: Option<(Option<char>, Position, Position)>,
    cur_pos: Position,
    prev_pos: Position,
}

impl Source {
    /// The name that the source was given.
    pub closed spec fn label(&self) -> Seq<char> {
        self.name@
    }

    /// The whole text of the source, read or not.
    pub closed spec fn text(&self) -> Seq<char> {
        self.chars@
    }

    /// How many characters have been handed out by `next`.
    pub closed spec fn offset(&self) -> int {
        if self.peeked matches Some((Some(_), _, _)) {
            self.index - 1
        } else {
            self.index as int
        }
    }

    /// Whether a character has been looked at and not yet handed out.
    pub closed spec fn lookahead_pending(&self) -> bool {
        self.peeked is Some
    }

    /// The counters agree with the characters taken so far, and a pending
    /// lookahead holds the character just taken with the positions from
    /// before it.
    pub closed spec fn wf(&self) -> bool {
        &&& self.index <= self.chars.len()
        &&& self.cur_pos == position_at(self.chars@, self.index as int)
        &&& self.prev_pos == position_before(self.chars@, self.index as int)
        &&& match self.peeked {
            None => true,
            Some((Some(c), cur, prev)) => {
                &&& self.index > 0
                &&& c == self.chars@[self.index - 1]
                &&& cur == position_at(self.chars@, self.index - 1)
                &&& prev == position_before(self.chars@, self.index - 1)
            },
            Some((None, cur, prev)) => {
                &&& self.index == self.chars.len()
                &&& cur == self.cur_pos
                &&& prev == self.prev_pos
            },
        }
    }

    /// The character that `next` hands out at offset `at`, if any is left.
    pub open spec fn char_at(text: Seq<char>, at: int) -> Option<char> {
        if 0 <= at < text.len() {
            Some(text[at])
        } else {
            None
        }
    }

    /// The offset never runs past the end of the text, and the text is no
    /// longer than a vector can be.
    pub proof fn lemma_offset_in_text(&self)
        requires
            self.wf(),
        ensures
            0 <= self.offset() <= self.text().len() <= usize::MAX,
    {
    }

    /// A source named `name` over the characters `chars`, with nothing read.
    pub fn new(name: String, chars: Vec<char>) -> (r: Source)
        ensures
            r.wf(),
            r.label() == name@,
            r.text() == chars@,
            r.offset() == 0,
            !r.lookahead_pending(),
    {
        Source {
            name,
            chars,
            index: 0,
            peeked: None,
            cur_pos: Position::default(),
            prev_pos: Position::default(),
        }
    }

    /// Moves one column to the right, remembering the position left.
    fn incr_col(&mut self)
        requires
            old(self).cur_pos.col < usize::MAX,
        ensures
            final(self).prev_pos == old(self).cur_pos,
            final(self).cur_pos == (Position {
                line: old(self).cur_pos.line,
                col: (old(self).cur_pos.col + 1) as usize,
            }),
            final(self).name == old(self).name,
            final(self).chars == old(self).chars,
            final(self).index == old(self).index,
            final(self).peeked == old(self).peeked,
    {
        self.prev_pos = self.cur_pos;
        self.cur_pos.col += 1;
    }

    /// Moves to the start of the next line, remembering the position left.
    fn incr_line(&mut self)
        requires
            old(self).cur_pos.line < usize::MAX,
        ensures
            final(self).prev_pos == old(self).cur_pos,
            final(self).cur_pos == (Position {
                line: (old(self).cur_pos.line + 1) as usize,
                col: 0,
            }),
            final(self).name == old(self).name,
            final(self).chars == old(self).chars,
            final(self).index == old(self).index,
            final(self).peeked == old(self).peeked,
    {
        self.prev_pos = self.cur_pos;
        self.cur_pos.line += 1;
        self.cur_pos.col = 0;
    }

    /// The position reached by the characters handed out so far. A pending
    /// lookahead does not count.
    pub fn current_pos(&self) -> (r: Position)
        requires
            self.wf(),
        ensures
            r == position_at(self.text(), self.offset()),
    {
        match self.peeked {
            Some((_, pos, _)) => pos,
            None => self.cur_pos,
        }
    }

    /// The position from which the last character handed out was read, or
    /// the origin when none was.
    pub fn previous_pos(&self) -> (r: Position)
        requires
            self.wf(),
        ensures
            r == position_before(self.text(), self.offset()),
    {
        match self.peeked {
            Some((_, _, pos)) => pos,
            None => self.prev_pos,
        }
    }

    /// The character that the next call of `next` will hand out, without
    /// reading it: neither the offset nor the positions change, so looking
    /// twice sees the same.
    pub fn peek(&mut self) -> (r: Option<char>)
        requires
            old(self).wf(),
        ensures
            final(self).wf(),
            final(self).label() == old(self).label(),
            final(self).text() == old(self).text(),
            final(self).offset() == old(self).offset(),
            final(self).lookahead_pending(),
            r == Self::char_at(old(self).text(), old(self).offset()),
    {
        match self.peeked {
            None => {
                let cur_pos = self.current_pos();
                let prev_pos = self.previous_pos();
                let next = self.next();
                self.peeked = Some((next, cur_pos, prev_pos));
                next
            },
            Some((p, _, _)) => p,
        }
    }

    /// Hands out the next character and moves past it, or reports the end
    /// of the text, at which nothing changes. A pending lookahead is used
    /// up first.
    pub fn next(&mut self) -> (r: Option<char>)
        requires
            old(self).wf(),
        ensures
            final(self).wf(),
            final(self).label() == old(self).label(),
            final(self).text() == old(self).text(),
            r == Self::char_at(old(self).text(), old(self).offset()),
            final(self).offset() == (if r is Some {
                old(self).offset() + 1
            } else {
                old(self).offset()
            }),
            !final(self).lookahead_pending(),
    {
        match self.peeked.take() {
            Some((item, _, _)) => item,
            None => {
                if self.index < self.chars.len() {
                    let c = self.chars[self.index];
                    proof {
                        lemma_position_step(self.chars@, self.index as int);
                    }
                    self.index += 1;
                    if c == '\n' {
                        self.incr_line();
                    } else {
                        self.incr_col();
                    }
                    Some(c)
                } else {
                    None
                }
            },
        }
    }
}

impl Source {
    /// The tokenizer over what is left of this source.
    pub fn tokenize(self) -> (r: Tokens)
        requires
            self.wf(),
        ensures
            r.wf(),
            r.text() == self.text(),
            r.offset() == self.offset(),
    {
        Tokens(self)
    }
}

/// A lexical token. Identifiers and numbers carry their text as it stood in
/// the source; whether a number's text is a well-formed literal is decided
/// when it is parsed.
#[derive(Debug, PartialEq, Eq)]
pub enum Token {
    OpeningBrace,
    ClosingBrace,
    Ident(String),
    Num(String),
}

/// What a token is, with its text as a sequence of characters.
pub enum TokenModel {
    OpeningBrace,
    ClosingBrace,
    Ident(Seq<char>),
    Num(Seq<char>),
}

impl View for Token {
    type V = TokenModel;

    open spec fn view(&self) -> TokenModel {
        match self {
            Token::OpeningBrace => TokenModel::OpeningBrace,
            Token::ClosingBrace => TokenModel::ClosingBrace,
            Token::Ident(s) => TokenModel::Ident(s@),
            Token::Num(s) => TokenModel::Num(s@),
        }
    }
}

impl Clone for Token {
    /// A copy: the same token with the same text.
    fn clone(&self) -> (r: Token)
        ensures
            r@ == self@,
    {
        match self {
            Token::OpeningBrace => Token::OpeningBrace,
            Token::ClosingBrace => Token::ClosingBrace,
            Token::Ident(s) => Token::Ident(s.clone()),
            Token::Num(s) => Token::Num(s.clone()),
        }
    }
}

/// The models of a run of tokens, each with its span.
pub open spec fn token_models(tokens: Seq<(Token, Span)>) -> Seq<(TokenModel, Span)> {
    Seq::new(tokens.len(), |i: int| (tokens[i].0@, tokens[i].1))
}

/// The characters that are skipped between tokens.
pub open spec fn blank() -> spec_fn(char) -> bool {
    |c: char| is_whitespace(c)
}

/// The characters that continue an identifier or a number: anything but a
/// brace or whitespace.
pub open spec fn word_char() -> spec_fn(char) -> bool {
    |c: char| c != '(' && c != ')' && !is_whitespace(c)
}

/// Whether `c` is skipped between tokens.
pub fn is_blank(c: char) -> (b: bool)
    ensures
        b == blank()(c),
{
    c.is_whitespace()
}

/// Whether `c` continues an identifier or a number.
pub fn is_word_char(c: char) -> (b: bool)
    ensures
        b == word_char()(c),
{
    c != '(' && c != ')' && !c.is_whitespace()
}

/// The end of the longest run of characters that satisfy `keep`, starting
/// at offset `from` of `text`: the offset of the first character that does
/// not, or the length of the text.
pub open spec fn run_end(text: Seq<char>, from: int, keep: spec_fn(char) -> bool) -> int
    decreases text.len() - from,
{
    if 0 <= from < text.len() && keep(text[from]) {
        run_end(text, from + 1, keep)
    } else {
        from
    }
}

/// One step of the tokenizer: the token found, its span, and the offset at
/// which the next step starts.
pub struct Scan {
    pub token: TokenModel,
    pub span: Span,
    pub end: int,
}

/// The token that starts at or after offset `from` of `text`.
///
/// Whitespace is skipped. At the end of the text there is no token. A
/// brace is a token by itself. Anything else runs up to the next brace or
/// whitespace; it is a number if it starts with a digit, or with `-` and
/// then a digit, and an identifier otherwise. The span runs from the
/// position of the token's first character to that of its last.
pub open spec fn next_token(text: Seq<char>, from: int) -> Option<Scan> {
    let start = run_end(text, from, blank());
    if 0 <= start < text.len() {
        let first = text[start];
        let end = if first == '(' || first == ')' {
            start + 1
        } else {
            run_end(text, start + 1, word_char())
        };
        let word = text.subrange(start, end);
        let token = if first == '(' {
            TokenModel::OpeningBrace
        } else if first == ')' {
            TokenModel::ClosingBrace
        } else if is_digit(first) || (first == '-' && start + 1 < text.len() && is_digit(
            text[start + 1],
        )) {
            TokenModel::Num(word)
        } else {
            TokenModel::Ident(word)
        };
        Some(
            Scan {
                token,
                span: Span { from: position_at(text, start), to: position_at(text, end - 1) },
                end,
            },
        )
    } else {
        None
    }
}

/// A run ends at or after its start and within the text, everything in it
/// satisfies the predicate, and the character at its end, if there is one,
/// does not.
pub proof fn lemma_run_end(text: Seq<char>, from: int, keep: spec_fn(char) -> bool)
    requires
        0 <= from <= text.len(),
    ensures
        from <= run_end(text, from, keep) <= text.len(),
        forall|i: int| from <= i < run_end(text, from, keep) ==> keep(#[trigger] text[i]),
        run_end(text, from, keep) < text.len() ==> !keep(text[run_end(text, from, keep)]),
    decreases text.len() - from,
{
    if from < text.len() && keep(text[from]) {
        lemma_run_end(text, from + 1, keep);
    }
}

/// Every token takes at least one character, and ends within the text.
pub proof fn lemma_next_token_advances(text: Seq<char>, from: int)
    requires
        0 <= from <= text.len(),
    ensures
        next_token(text, from) matches Some(scan) ==> from < scan.end <= text.len(),
{
    lemma_run_end(text, from, blank());
    let start = run_end(text, from, blank());
    if start < text.len() {
        lemma_run_end(text, start + 1, word_char());
    }
}

/// All the tokens of `text` from offset `from` on, in order.
pub open spec fn tokens_from(text: Seq<char>, from: int) -> Seq<(TokenModel, Span)>
    decreases text.len() - from,
{
    if 0 <= from <= text.len() {
        match next_token(text, from) {
            Some(scan) => {
                proof {
                    lemma_next_token_advances(text, from);
                }
                seq![(scan.token, scan.span)] + tokens_from(text, scan.end)
            },
            None => Seq::empty(),
        }
    } else {
        Seq::empty()
    }
}

/// The tokenizer: hands out the tokens of a source one by one.
pub struct Tokens(Source);

impl Tokens {
    /// The whole text that is being tokenized.
    pub closed spec fn text(&self) -> Seq<char> {
        self.0.text()
    }

    /// How many characters have been consumed.
    pub closed spec fn offset(&self) -> int {
        self.0.offset()
    }

    /// The underlying source is well formed.
    pub closed spec fn wf(&self) -> bool {
        self.0.wf()
    }

    /// The offset never runs past the end of the text, and the text is no
    /// longer than a vector can be.
    pub proof fn lemma_offset_in_text(&self)
        requires
            self.wf(),
        ensures
            0 <= self.offset() <= self.text().len() <= usize::MAX,
    {
    }

    /// Reads and drops characters for as long as `predicate` holds of the
    /// next one.
    fn discard_while<F>(&mut self, predicate: F, Ghost(keep): Ghost<spec_fn(char) -> bool>)
        where F: Fn(char) -> bool + Copy
        requires
            old(self).wf(),
            forall|c: char| call_requires(predicate, (c,)),
            forall|c: char, b: bool| call_ensures(predicate, (c,), b) ==> b == keep(c),
        ensures
            final(self).wf(),
            final(self).text() == old(self).text(),
            final(self).offset() == run_end(old(self).text(), old(self).offset(), keep),
    {
        proof {
            self.0.lemma_offset_in_text();
        }
        loop
            invariant
                self.wf(),
                self.text() == old(self).text(),
                0 <= old(self).offset() <= self.offset() <= self.text().len(),
                run_end(self.text(), self.offset(), keep) == run_end(
                    old(self).text(),
                    old(self).offset(),
                    keep,
                ),
                forall|c: char| call_requires(predicate, (c,)),
                forall|c: char, b: bool| call_ensures(predicate, (c,), b) ==> b == keep(c),
            ensures
                self.wf(),
                self.text() == old(self).text(),
                self.offset() == run_end(old(self).text(), old(self).offset(), keep),
            decreases self.text().len() - self.offset(),
        {
            match self.0.peek() {
                Some(c) => {
                    if predicate(c) {
                        self.0.next();
                    } else {
                        break ;
                    }
                },
                None => {
                    break ;
                },
            }
        }
    }

    /// Reads characters for as long as `predicate` holds of the next one and
    /// appends them to `target`.
    fn read_while<F>(
        &mut self,
        predicate: F,
        target: &mut String,
        Ghost(keep): Ghost<spec_fn(char) -> bool>,
    )
        where F: Fn(char) -> bool + Copy
        requires
            old(self).wf(),
            forall|c: char| call_requires(predicate, (c,)),
            forall|c: char, b: bool| call_ensures(predicate, (c,), b) ==> b == keep(c),
        ensures
            final(self).wf(),
            final(self).text() == old(self).text(),
            final(self).offset() == run_end(old(self).text(), old(self).offset(), keep),
            final(target)@ == old(target)@ + old(self).text().subrange(
                old(self).offset(),
                final(self).offset(),
            ),
    {
        proof {
            self.0.lemma_offset_in_text();
        }
        loop
            invariant
                self.wf(),
                self.text() == old(self).text(),
                0 <= old(self).offset() <= self.offset() <= self.text().len(),
                run_end(self.text(), self.offset(), keep) == run_end(
                    old(self).text(),
                    old(self).offset(),
                    keep,
                ),
                target@ == old(target)@ + self.text().subrange(old(self).offset(), self.offset()),
                forall|c: char| call_requires(predicate, (c,)),
                forall|c: char, b: bool| call_ensures(predicate, (c,), b) ==> b == keep(c),
            ensures
                self.wf(),
                self.text() == old(self).text(),
                self.offset() == run_end(old(self).text(), old(self).offset(), keep),
                target@ == old(target)@ + self.text().subrange(old(self).offset(), self.offset()),
            decreases self.text().len() - self.offset(),
        {
            match self.0.peek() {
                Some(c) => {
                    if predicate(c) {
                        self.0.next();
                        target.push(c);
                        assert(target@ =~= old(target)@ + self.text().subrange(
                            old(self).offset(),
                            self.offset(),
                        ));
                    } else {
                        break ;
                    }
                },
                None => {
                    break ;
                },
            }
        }
    }

    /// The next token with its span, or `None` once only whitespace is
    /// left. The characters of the token, and the whitespace before it, are
    /// consumed.
    pub fn next(&mut self) -> (r: Option<(Token, Span)>)
        requires
            old(self).wf(),
        ensures
            final(self).wf(),
            final(self).text() == old(self).text(),
            match next_token(old(self).text(), old(self).offset()) {
                Some(scan) => {
                    &&& r matches Some((token, span))
                    &&& token@ == scan.token
                    &&& span == scan.span
                    &&& final(self).offset() == scan.end
                },
                None => r is None && final(self).offset() == old(self).text().len(),
            },
    {
        proof {
            self.0.lemma_offset_in_text();
            lemma_run_end(self.text(), self.offset(), blank());
        }
        self.discard_while(
            is_blank,
            Ghost(blank()),
        );

        let start_pos = self.0.current_pos();
        let ghost start = self.offset();
        match self.0.next() {
            None => None,
            Some(ch) => {
                let next = self.0.peek();
                proof {
                    lemma_run_end(self.text(), start + 1, word_char());
                }
                let tok = match (ch, next) {
                    ('(', _) => Token::OpeningBrace,
                    (')', _) => Token::ClosingBrace,
                    ('-', Some(d)) if d.is_ascii_digit() => {
                        let mut str = String::new();
                        str.push('-');
                        self.read_while(
                            is_word_char,
                            &mut str,
                            Ghost(word_char()),
                        );
                        assert(str@ =~= self.text().subrange(start, self.offset()));
                        Token::Num(str)
                    },
                    (c, _) if c.is_ascii_digit() => {
                        let mut str = String::new();
                        str.push(c);
                        self.read_while(
                            is_word_char,
                            &mut str,
                            Ghost(word_char()),
                        );
                        assert(str@ =~= self.text().subrange(start, self.offset()));
                        Token::Num(str)
                    },
                    (c, _) => {
                        let mut str = String::new();
                        str.push(c);
                        self.read_while(
                            is_word_char,
                            &mut str,
                            Ghost(word_char()),
                        );
                        assert(str@ =~= self.text().subrange(start, self.offset()));
                        Token::Ident(str)
                    },
                };

                let span = start_pos.to(self.0.previous_pos());
                Some((tok, span))
            },
        }
    }

    /// All the tokens that are left, in order. Afterwards the whole text
    /// has been consumed.
    pub fn collect(self) -> (r: Vec<(Token, Span)>)
        requires
            self.wf(),
        ensures
            token_models(r@) == tokens_from(self.text(), self.offset()),
    {
        let mut tokens = self;
        let mut out: Vec<(Token, Span)> = Vec::new();
        proof {
            tokens.0.lemma_offset_in_text();
            assert(token_models(out@) =~= Seq::empty());
        }
        loop
            invariant
                tokens.wf(),
                tokens.text() == self.text(),
                0 <= tokens.offset() <= tokens.text().len(),
                tokens_from(self.text(), self.offset()) == token_models(out@) + tokens_from(
                    tokens.text(),
                    tokens.offset(),
                ),
            ensures
                token_models(out@) == tokens_from(self.text(), self.offset()),
            decreases tokens.text().len() - tokens.offset(),
        {
            let ghost before = tokens.offset();
            let ghost seen = out@;
            proof {
                lemma_next_token_advances(tokens.text(), before);
            }
            match tokens.next() {
                Some(item) => {
                    out.push(item);
                    proof {
                        let scan = next_token(self.text(), before)->0;
                        assert(token_models(out@) =~= token_models(seen) + seq![
                            (scan.token, scan.span),
                        ]);
                        assert(token_models(out@) + tokens_from(self.text(), scan.end)
                            =~= token_models(seen) + (seq![(scan.token, scan.span)] + tokens_from(
                            self.text(),
                            scan.end,
                        )));
                    }
                },
                None => {
                    assert(token_models(out@) + Seq::<(TokenModel, Span)>::empty() =~= token_models(
                        out@,
                    ));
                    break ;
                },
            }
        }
        out
    }
}

} // verus!
