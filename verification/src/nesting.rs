//! Parsing and the bracket structure of the tokens: which runs of tokens
//! parse, and what the parsed expressions keep of them.

use crate::lexer::{Position, Span, TokenModel};
use crate::number::{is_i128_literal, literal_value};
use crate::parser::{
    lemma_parse_expr_within, lemma_parse_within, parse_all_at, parse_expr_at, parse_items_at,
    parse_program, tokens_left, AstModel,
};
use vstd::prelude::*;

verus! {

/// By how much a token changes the nesting depth: an opening brace goes one
/// level deeper, a closing brace comes one level back, anything else stays.
pub open spec fn depth_change(token: TokenModel) -> int {
    match token {
        TokenModel::OpeningBrace => 1,
        TokenModel::ClosingBrace => -1,
        _ => 0,
    }
}

/// The nesting depth after the first `n` tokens: the opening braces among
/// them less the closing ones.
pub open spec fn depth_at(tokens: Seq<(TokenModel, Span)>, n: int) -> int
    decreases n,
{
    if n <= 0 {
        0
    } else {
        depth_at(tokens, n - 1) + depth_change(tokens[n - 1].0)
    }
}

/// The braces balance: no closing brace comes without an opening one before
/// it, and every opening brace is closed in the end.
pub open spec fn balanced(tokens: Seq<(TokenModel, Span)>) -> bool {
    &&& forall|n: int| 0 <= n <= tokens.len() ==> depth_at(tokens, n) >= 0
    &&& depth_at(tokens, tokens.len() as int) == 0
}

/// The text of every number token is an integer literal of 128 bits.
pub open spec fn literals_well_formed(tokens: Seq<(TokenModel, Span)>) -> bool {
    forall|i: int|
        0 <= i < tokens.len() ==> ((#[trigger] tokens[i]).0 matches TokenModel::Num(text)
            ==> is_i128_literal(text))
}

/// What a parsed program keeps of a token: where it opened a list; where
/// it closed one; or the node that it stands for, with its span.
pub enum Piece {
    Open(Position),
    Close(Position),
    Leaf(AstModel, Span),
}

/// What parsing keeps of the token `token` at `span`. Of an opening brace
/// it keeps where the brace starts, and of a closing brace where it ends:
/// the two ends of the span of the list. Of a number it keeps the value,
/// not the spelling.
pub open spec fn piece_of(token: TokenModel, span: Span) -> Piece {
    match token {
        TokenModel::OpeningBrace => Piece::Open(span.from),
        TokenModel::ClosingBrace => Piece::Close(span.to),
        TokenModel::Ident(name) => if name == "def"@ {
            Piece::Leaf(AstModel::Def, span)
        } else {
            Piece::Leaf(AstModel::Symbol(name), span)
        },
        TokenModel::Num(text) => Piece::Leaf(AstModel::Int(literal_value(text) as i128), span),
    }
}

/// What parsing keeps of a run of tokens, token by token.
pub open spec fn pieces_of_tokens(tokens: Seq<(TokenModel, Span)>) -> Seq<Piece> {
    Seq::new(tokens.len(), |i: int| piece_of(tokens[i].0, tokens[i].1))
}

/// An expression written out: a list as an opening piece where its span
/// starts, its children in order, and a closing piece where its span ends;
/// anything else as a leaf.
pub open spec fn pieces_of_node(node: AstModel, span: Span) -> Seq<Piece>
    decreases node, 0nat,
{
    match node {
        AstModel::List(items) => seq![Piece::Open(span.from)] + pieces_of_nodes(items, 0) + seq![
            Piece::Close(span.to),
        ],
        _ => seq![Piece::Leaf(node, span)],
    }
}

/// The expressions `nodes` from position `from` on, written out one after
/// the other.
pub open spec fn pieces_of_nodes(nodes: Seq<(AstModel, Span)>, from: nat) -> Seq<Piece>
    decreases nodes, nodes.len() - from,
{
    if from >= nodes.len() {
        Seq::empty()
    } else {
        pieces_of_node(nodes[from as int].0, nodes[from as int].1) + pieces_of_nodes(
            nodes,
            from + 1,
        )
    }
}

/// The position of the token that closes the list open at nesting depth
/// `level`: the first position at or after `from` behind which the depth is
/// below `level`, or the number of tokens when there is none.
pub open spec fn close_of(tokens: Seq<(TokenModel, Span)>, from: int, level: int) -> int
    decreases tokens.len() - from,
{
    if 0 <= from < tokens.len() && depth_at(tokens, from + 1) >= level {
        close_of(tokens, from + 1, level)
    } else {
        from
    }
}

/// The closing position lies at or after the start, the depth stays at or
/// above the level before it, and falls below the level behind it.
proof fn lemma_close_of(tokens: Seq<(TokenModel, Span)>, from: int, level: int)
    requires
        0 <= from <= tokens.len(),
    ensures
        from <= close_of(tokens, from, level) <= tokens.len(),
        forall|n: int|
            from <= n < close_of(tokens, from, level) ==> #[trigger] depth_at(tokens, n + 1)
                >= level,
        close_of(tokens, from, level) < tokens.len() ==> depth_at(
            tokens,
            close_of(tokens, from, level) + 1,
        ) < level,
    decreases tokens.len() - from,
{
    if from < tokens.len() && depth_at(tokens, from + 1) >= level {
        lemma_close_of(tokens, from + 1, level);
    }
}

/// Positions behind which the depth stays at or above the level can be
/// skipped in the search for the closing position.
proof fn lemma_close_of_skip(tokens: Seq<(TokenModel, Span)>, from: int, to: int, level: int)
    requires
        0 <= from <= to <= tokens.len(),
        forall|n: int| from <= n < to ==> #[trigger] depth_at(tokens, n + 1) >= level,
    ensures
        close_of(tokens, from, level) == close_of(tokens, to, level),
    decreases to - from,
{
    if from < to {
        assert(depth_at(tokens, from + 1) >= level);
        lemma_close_of_skip(tokens, from + 1, to, level);
    }
}

/// Gluing the pieces of neighbouring stretches of tokens.
proof fn lemma_glue(pieces: Seq<Piece>, a: int, b: int, c: int)
    requires
        0 <= a <= b <= c <= pieces.len(),
    ensures
        pieces.subrange(a, b) + pieces.subrange(b, c) == pieces.subrange(a, c),
{
    assert(pieces.subrange(a, b) + pieces.subrange(b, c) =~= pieces.subrange(a, c));
}

/// The pieces of a run of expressions, the first one apart.
proof fn lemma_pieces_cons(first: (AstModel, Span), others: Seq<(AstModel, Span)>)
    ensures
        pieces_of_nodes(seq![first] + others, 0) == pieces_of_node(first.0, first.1)
            + pieces_of_nodes(others, 0),
{
    let all = seq![first] + others;
    lemma_pieces_shift(first, others, 0);
    assert(all[0] == first);
}

/// The pieces of a run of expressions do not depend on what stands before
/// the run.
proof fn lemma_pieces_shift(first: (AstModel, Span), others: Seq<(AstModel, Span)>, from: nat)
    ensures
        pieces_of_nodes(seq![first] + others, from + 1) == pieces_of_nodes(others, from),
    decreases others.len() - from,
{
    let all = seq![first] + others;
    if from < others.len() {
        assert(all[from as int + 1] == others[from as int]);
        lemma_pieces_shift(first, others, from + 1);
    }
}

/// An expression written out is the stretch of tokens that it was parsed
/// from.
proof fn lemma_expr_pieces(tokens: Seq<(TokenModel, Span)>, at: int)
    requires
        0 <= at,
    ensures
        parse_expr_at(tokens, at) matches Ok(found) ==> pieces_of_node(found.node, found.span)
            == pieces_of_tokens(tokens).subrange(at, at + found.rest + 1),
    decreases tokens_left(tokens, at), 0nat,
{
    let pieces = pieces_of_tokens(tokens);
    if let Ok(found) = parse_expr_at(tokens, at) {
        lemma_parse_expr_within(tokens, at);
        if tokens[at].0 is OpeningBrace {
            lemma_items_pieces(tokens, at + 1);
            lemma_parse_within(tokens, at + 1);
            let inner = parse_items_at(tokens, at + 1)->Ok_0;
            let close = at + 1 + inner.rest;
            let open_piece = seq![Piece::Open(tokens[at].1.from)];
            let close_piece = seq![Piece::Close(tokens[close].1.to)];
            assert(open_piece =~= pieces.subrange(at, at + 1));
            assert(close_piece =~= pieces.subrange(close, close + 1));
            lemma_glue(pieces, at, at + 1, close);
            lemma_glue(pieces, at, close, close + 1);
        } else {
            assert(seq![piece_of(tokens[at].0, tokens[at].1)] =~= pieces.subrange(at, at + 1));
        }
    }
}

/// The children of a list written out are the stretch of tokens that they
/// were parsed from, up to the closing brace.
proof fn lemma_items_pieces(tokens: Seq<(TokenModel, Span)>, at: int)
    requires
        0 <= at,
    ensures
        parse_items_at(tokens, at) matches Ok(found) ==> pieces_of_nodes(found.items, 0)
            == pieces_of_tokens(tokens).subrange(at, at + found.rest),
    decreases tokens_left(tokens, at), 1nat,
{
    let pieces = pieces_of_tokens(tokens);
    if let Ok(found) = parse_items_at(tokens, at) {
        lemma_parse_within(tokens, at);
        if tokens[at].0 is ClosingBrace {
            assert(pieces.subrange(at, at) =~= Seq::empty());
        } else {
            let first = parse_expr_at(tokens, at)->Ok_0;
            let next = at + first.rest + 1;
            let others = parse_items_at(tokens, next)->Ok_0;
            lemma_expr_pieces(tokens, at);
            lemma_parse_expr_within(tokens, at);
            lemma_items_pieces(tokens, next);
            lemma_parse_within(tokens, next);
            lemma_pieces_cons((first.node, first.span), others.items);
            lemma_glue(pieces, at, next, next + others.rest);
        }
    }
}

/// A program written out is the stretch of tokens that it was parsed from.
proof fn lemma_all_pieces(tokens: Seq<(TokenModel, Span)>, at: int)
    requires
        0 <= at <= tokens.len(),
    ensures
        parse_all_at(tokens, at) matches Ok(nodes) ==> pieces_of_nodes(nodes, 0)
            == pieces_of_tokens(tokens).subrange(at, tokens.len() as int),
    decreases tokens_left(tokens, at),
{
    let pieces = pieces_of_tokens(tokens);
    if let Ok(nodes) = parse_all_at(tokens, at) {
        if at < tokens.len() {
            let first = parse_expr_at(tokens, at)->Ok_0;
            let next = at + first.rest + 1;
            let others = parse_all_at(tokens, next)->Ok_0;
            lemma_expr_pieces(tokens, at);
            lemma_parse_expr_within(tokens, at);
            lemma_all_pieces(tokens, next);
            lemma_pieces_cons((first.node, first.span), others);
            lemma_glue(pieces, at, next, tokens.len() as int);
        } else {
            assert(pieces.subrange(at, tokens.len() as int) =~= Seq::empty());
        }
    }
}

/// Over an expression the depth never falls below where it started and
/// ends where it started, and the numbers in it are well formed.
proof fn lemma_expr_depths(tokens: Seq<(TokenModel, Span)>, at: int)
    requires
        0 <= at,
    ensures
        parse_expr_at(tokens, at) matches Ok(found) ==> {
            &&& depth_at(tokens, at + found.rest + 1) == depth_at(tokens, at)
            &&& forall|n: int|
                at <= n <= at + found.rest + 1 ==> depth_at(tokens, n) >= depth_at(tokens, at)
            &&& forall|i: int|
                at <= i <= at + found.rest ==> ((#[trigger] tokens[i]).0 matches TokenModel::Num(
                    text,
                ) ==> is_i128_literal(text))
        },
    decreases tokens_left(tokens, at), 0nat,
{
    if let Ok(found) = parse_expr_at(tokens, at) {
        if tokens[at].0 is OpeningBrace {
            lemma_items_depths(tokens, at + 1);
        }
    }
}

/// Over the children of a list the depth never falls below where it
/// started, behind the closing brace it is one less, and the numbers among
/// the children are well formed.
proof fn lemma_items_depths(tokens: Seq<(TokenModel, Span)>, at: int)
    requires
        0 <= at,
    ensures
        parse_items_at(tokens, at) matches Ok(found) ==> {
            &&& depth_at(tokens, at + found.rest + 1) == depth_at(tokens, at) - 1
            &&& forall|n: int|
                at <= n <= at + found.rest ==> depth_at(tokens, n) >= depth_at(tokens, at)
            &&& forall|i: int|
                at <= i <= at + found.rest ==> ((#[trigger] tokens[i]).0 matches TokenModel::Num(
                    text,
                ) ==> is_i128_literal(text))
        },
    decreases tokens_left(tokens, at), 1nat,
{
    if let Ok(found) = parse_items_at(tokens, at) {
        if !(tokens[at].0 is ClosingBrace) {
            let first = parse_expr_at(tokens, at)->Ok_0;
            let next = at + first.rest + 1;
            lemma_expr_depths(tokens, at);
            lemma_items_depths(tokens, next);
        }
    }
}

/// Over a program the depth never falls below where it started and ends
/// where it started, and the numbers in it are well formed.
proof fn lemma_all_depths(tokens: Seq<(TokenModel, Span)>, at: int)
    requires
        0 <= at <= tokens.len(),
    ensures
        parse_all_at(tokens, at) is Ok ==> {
            &&& depth_at(tokens, tokens.len() as int) == depth_at(tokens, at)
            &&& forall|n: int| at <= n <= tokens.len() ==> depth_at(tokens, n) >= depth_at(tokens, at)
            &&& forall|i: int|
                at <= i < tokens.len() ==> ((#[trigger] tokens[i]).0 matches TokenModel::Num(text)
                    ==> is_i128_literal(text))
        },
    decreases tokens_left(tokens, at),
{
    if parse_all_at(tokens, at) is Ok && at < tokens.len() {
        let first = parse_expr_at(tokens, at)->Ok_0;
        let next = at + first.rest + 1;
        lemma_expr_depths(tokens, at);
        lemma_parse_expr_within(tokens, at);
        lemma_all_depths(tokens, next);
    }
}

/// An expression whose braces close parses, and ends where they close.
proof fn lemma_expr_parses(tokens: Seq<(TokenModel, Span)>, at: int)
    requires
        0 <= at < tokens.len(),
        literals_well_formed(tokens),
        !(tokens[at].0 is ClosingBrace),
        tokens[at].0 is OpeningBrace ==> close_of(tokens, at + 1, depth_at(tokens, at) + 1)
            < tokens.len(),
    ensures
        parse_expr_at(tokens, at) matches Ok(found) && at + found.rest == (if tokens[at].0
            is OpeningBrace {
            close_of(tokens, at + 1, depth_at(tokens, at) + 1)
        } else {
            at
        }),
    decreases tokens_left(tokens, at), 0nat,
{
    if tokens[at].0 is OpeningBrace {
        assert(depth_at(tokens, at + 1) == depth_at(tokens, at) + 1);
        lemma_items_parse(tokens, at + 1);
    }
}

/// The children of a list that is closed parse, and end where it closes.
proof fn lemma_items_parse(tokens: Seq<(TokenModel, Span)>, at: int)
    requires
        0 <= at <= tokens.len(),
        literals_well_formed(tokens),
        close_of(tokens, at, depth_at(tokens, at)) < tokens.len(),
    ensures
        parse_items_at(tokens, at) matches Ok(found) && at + found.rest == close_of(
            tokens,
            at,
            depth_at(tokens, at),
        ),
    decreases tokens_left(tokens, at), 1nat,
{
    let level = depth_at(tokens, at);
    let end = close_of(tokens, at, level);
    lemma_close_of(tokens, at, level);
    assert(depth_at(tokens, at + 1) == level + depth_change(tokens[at].0));
    match tokens[at].0 {
        TokenModel::ClosingBrace => {},
        TokenModel::OpeningBrace => {
            let inner = close_of(tokens, at + 1, level + 1);
            lemma_close_of(tokens, at + 1, level + 1);
            lemma_close_of(tokens, at + 1, level);
            if inner >= tokens.len() {
                assert(depth_at(tokens, end + 1) >= level + 1);
            }
            assert(depth_at(tokens, inner + 1) == depth_at(tokens, inner) + depth_change(
                tokens[inner].0,
            ));
            if inner > at + 1 {
                assert(depth_at(tokens, (inner - 1) + 1) >= level + 1);
            }
            assert(depth_at(tokens, inner + 1) == level);
            lemma_expr_parses(tokens, at);
            assert forall|n: int| at + 1 <= n < inner + 1 implies #[trigger] depth_at(
                tokens,
                n + 1,
            ) >= level by {
                if n < inner {
                    assert(depth_at(tokens, n + 1) >= level + 1);
                }
            }
            lemma_close_of_skip(tokens, at + 1, inner + 1, level);
            lemma_items_parse(tokens, inner + 1);
        },
        _ => {
            lemma_expr_parses(tokens, at);
            lemma_items_parse(tokens, at + 1);
        },
    }
}

/// A balanced stretch of tokens at depth zero parses.
proof fn lemma_all_parse(tokens: Seq<(TokenModel, Span)>, at: int)
    requires
        0 <= at <= tokens.len(),
        literals_well_formed(tokens),
        balanced(tokens),
        depth_at(tokens, at) == 0,
    ensures
        parse_all_at(tokens, at) is Ok,
    decreases tokens_left(tokens, at),
{
    if at < tokens.len() {
        assert(depth_at(tokens, at + 1) == depth_change(tokens[at].0));
        match tokens[at].0 {
            TokenModel::ClosingBrace => {
                assert(depth_at(tokens, at + 1) >= 0);
            },
            TokenModel::OpeningBrace => {
                let inner = close_of(tokens, at + 1, 1);
                lemma_close_of(tokens, at + 1, 1);
                if inner >= tokens.len() {
                    if tokens.len() > at + 1 {
                        assert(depth_at(tokens, (tokens.len() - 1) + 1) >= 1);
                    }
                }
                assert(depth_at(tokens, inner + 1) >= 0);
                lemma_expr_parses(tokens, at);
                lemma_all_parse(tokens, inner + 1);
            },
            _ => {
                lemma_expr_parses(tokens, at);
                lemma_all_parse(tokens, at + 1);
            },
        }
    }
}

/// A run of tokens parses exactly if its braces balance and its numbers are
/// well formed.
pub proof fn law_balanced_tokens_parse(tokens: Seq<(TokenModel, Span)>)
    ensures
        parse_program(tokens) is Ok <==> balanced(tokens) && literals_well_formed(tokens),
{
    if balanced(tokens) && literals_well_formed(tokens) {
        lemma_all_parse(tokens, 0);
    }
    if parse_program(tokens) is Ok {
        lemma_all_depths(tokens, 0);
    }
}

/// Parsing keeps the bracket structure: the parsed expressions, written
/// out with a piece for every opening brace, every closing brace and every
/// leaf, are the tokens piece by piece. So every list has the children that
/// stood between its braces, in their order, its span runs from the start
/// of its opening brace to the end of its closing brace, and every leaf
/// stands as deep in lists as its token stood in braces.
pub proof fn law_parse_keeps_nesting(tokens: Seq<(TokenModel, Span)>)
    requires
        parse_program(tokens) is Ok,
    ensures
        pieces_of_nodes(parse_program(tokens)->Ok_0, 0) == pieces_of_tokens(tokens),
{
    lemma_all_pieces(tokens, 0);
    assert(pieces_of_tokens(tokens).subrange(0, tokens.len() as int) =~= pieces_of_tokens(tokens));
}

/// How deep the lists of an expression nest: zero for a leaf, and for a
/// list one more than for its deepest child.
pub open spec fn height(node: AstModel) -> nat
    decreases node, 0nat,
{
    match node {
        AstModel::List(items) => 1 + heights(items, 0),
        _ => 0,
    }
}

/// The greatest height among the expressions `nodes` from position `from`
/// on, zero when there is none.
pub open spec fn heights(nodes: Seq<(AstModel, Span)>, from: nat) -> nat
    decreases nodes, nodes.len() - from,
{
    if from >= nodes.len() {
        0
    } else {
        let first = height(nodes[from as int].0);
        let others = heights(nodes, from + 1);
        if first >= others {
            first
        } else {
            others
        }
    }
}

/// The greatest nesting depth reached after `from`, `from + 1`, ... up to
/// `to` tokens.
pub open spec fn peak(tokens: Seq<(TokenModel, Span)>, from: int, to: int) -> int
    decreases to - from,
{
    if to <= from {
        depth_at(tokens, from)
    } else {
        let before = peak(tokens, from, to - 1);
        let last = depth_at(tokens, to);
        if before >= last {
            before
        } else {
            last
        }
    }
}

/// How many expressions start at nesting depth `level` among the tokens
/// from position `from` up to, but not at, position `to`: the tokens at
/// that depth other than closing braces.
pub open spec fn starts(tokens: Seq<(TokenModel, Span)>, from: int, to: int, level: int) -> nat
    decreases to - from,
{
    if to <= from {
        0
    } else if depth_at(tokens, to - 1) == level && !(tokens[to - 1].0 is ClosingBrace) {
        starts(tokens, from, to - 1, level) + 1
    } else {
        starts(tokens, from, to - 1, level)
    }
}

/// The peak over a stretch is the greater of the peaks over its two parts.
proof fn lemma_peak_split(tokens: Seq<(TokenModel, Span)>, a: int, b: int, c: int)
    requires
        a <= b <= c,
    ensures
        peak(tokens, a, c) == (if peak(tokens, a, b) >= peak(tokens, b, c) {
            peak(tokens, a, b)
        } else {
            peak(tokens, b, c)
        }),
    decreases c - b,
{
    if b < c {
        lemma_peak_split(tokens, a, b, c - 1);
    } else {
        lemma_peak_bounds(tokens, a, b);
    }
}

/// The peak over a stretch is one of the depths in it, and the greatest.
proof fn lemma_peak_bounds(tokens: Seq<(TokenModel, Span)>, a: int, b: int)
    requires
        a <= b,
    ensures
        forall|n: int| a <= n <= b ==> depth_at(tokens, n) <= peak(tokens, a, b),
        exists|n: int| a <= n <= b && depth_at(tokens, n) == peak(tokens, a, b),
    decreases b - a,
{
    if a < b {
        lemma_peak_bounds(tokens, a, b - 1);
        let n = choose|n: int| a <= n <= b - 1 && depth_at(tokens, n) == peak(tokens, a, b - 1);
        if peak(tokens, a, b - 1) >= depth_at(tokens, b) {
            assert(a <= n <= b && depth_at(tokens, n) == peak(tokens, a, b));
        } else {
            assert(a <= b <= b && depth_at(tokens, b) == peak(tokens, a, b));
        }
    } else {
        assert(a <= a <= b && depth_at(tokens, a) == peak(tokens, a, b));
    }
}

/// The starts in a stretch are those in its two parts together.
proof fn lemma_starts_split(tokens: Seq<(TokenModel, Span)>, a: int, b: int, c: int, level: int)
    requires
        a <= b <= c,
    ensures
        starts(tokens, a, c, level) == starts(tokens, a, b, level) + starts(tokens, b, c, level),
    decreases c - b,
{
    if b < c {
        lemma_starts_split(tokens, a, b, c - 1, level);
    }
}

/// Where the depth stays above a level, nothing starts at that level.
proof fn lemma_no_starts(tokens: Seq<(TokenModel, Span)>, a: int, b: int, level: int)
    requires
        a <= b,
        forall|n: int| a <= n < b ==> depth_at(tokens, n) > level,
    ensures
        starts(tokens, a, b, level) == 0,
    decreases b - a,
{
    if a < b {
        lemma_no_starts(tokens, a, b - 1, level);
    }
}

/// The heights of a run of expressions, the first one apart.
proof fn lemma_heights_cons(first: (AstModel, Span), others: Seq<(AstModel, Span)>)
    ensures
        heights(seq![first] + others, 0) == (if height(first.0) >= heights(others, 0) {
            height(first.0)
        } else {
            heights(others, 0)
        }),
{
    let all = seq![first] + others;
    lemma_heights_shift(first, others, 0);
    assert(all[0] == first);
}

/// The heights of a run of expressions do not depend on what stands before
/// the run.
proof fn lemma_heights_shift(first: (AstModel, Span), others: Seq<(AstModel, Span)>, from: nat)
    ensures
        heights(seq![first] + others, from + 1) == heights(others, from),
    decreases others.len() - from,
{
    let all = seq![first] + others;
    if from < others.len() {
        assert(all[from as int + 1] == others[from as int]);
        lemma_heights_shift(first, others, from + 1);
    }
}

/// Over an expression the depth peaks as high above its start as the
/// expression is high, and exactly one expression starts at the depth of
/// its start.
proof fn lemma_expr_shape(tokens: Seq<(TokenModel, Span)>, at: int)
    requires
        0 <= at,
    ensures
        parse_expr_at(tokens, at) matches Ok(found) ==> {
            &&& peak(tokens, at, at + found.rest + 1) == depth_at(tokens, at) + height(found.node)
            &&& starts(tokens, at, at + found.rest + 1, depth_at(tokens, at)) == 1
        },
    decreases tokens_left(tokens, at), 0nat,
{
    if let Ok(found) = parse_expr_at(tokens, at) {
        let level = depth_at(tokens, at);
        let end = at + found.rest + 1;
        lemma_expr_depths(tokens, at);
        if tokens[at].0 is OpeningBrace {
            let inner = parse_items_at(tokens, at + 1)->Ok_0;
            lemma_items_shape(tokens, at + 1);
            lemma_items_depths(tokens, at + 1);
            assert(depth_at(tokens, at + 1) == level + 1);
            assert(end - 1 == at + 1 + inner.rest);
            lemma_peak_split(tokens, at, at + 1, end - 1);
            lemma_peak_split(tokens, at, end - 1, end);
            assert(peak(tokens, at, at + 1) == level + 1) by {
                assert(peak(tokens, at, at) == level);
            }
            assert(peak(tokens, end - 1, end) == depth_at(tokens, end - 1)) by {
                assert(peak(tokens, end - 1, end - 1) == depth_at(tokens, end - 1));
                assert(depth_at(tokens, end) == level);
                assert(depth_at(tokens, end - 1) >= level + 1);
            }
            lemma_peak_bounds(tokens, at + 1, end - 1);
            lemma_starts_split(tokens, at, at + 1, end, level);
            assert(starts(tokens, at, at + 1, level) == 1) by {
                assert(starts(tokens, at, at, level) == 0);
            }
            lemma_no_starts(tokens, at + 1, end, level);
        } else {
            assert(peak(tokens, at, at) == level);
            assert(depth_at(tokens, at + 1) == level);
            assert(starts(tokens, at, at, level) == 0);
        }
    }
}

/// Over the children of a list the depth peaks as high above its start as
/// the highest child, and as many expressions start at the depth of the
/// start as the list has children.
proof fn lemma_items_shape(tokens: Seq<(TokenModel, Span)>, at: int)
    requires
        0 <= at,
    ensures
        parse_items_at(tokens, at) matches Ok(found) ==> {
            &&& peak(tokens, at, at + found.rest) == depth_at(tokens, at) + heights(found.items, 0)
            &&& starts(tokens, at, at + found.rest + 1, depth_at(tokens, at)) == found.items.len()
        },
    decreases tokens_left(tokens, at), 1nat,
{
    if let Ok(found) = parse_items_at(tokens, at) {
        let level = depth_at(tokens, at);
        if tokens[at].0 is ClosingBrace {
            assert(peak(tokens, at, at) == level);
            assert(starts(tokens, at, at, level) == 0);
        } else {
            let first = parse_expr_at(tokens, at)->Ok_0;
            let next = at + first.rest + 1;
            let others = parse_items_at(tokens, next)->Ok_0;
            lemma_expr_shape(tokens, at);
            lemma_expr_depths(tokens, at);
            lemma_items_shape(tokens, next);
            lemma_heights_cons((first.node, first.span), others.items);
            lemma_peak_split(tokens, at, next, next + others.rest);
            lemma_starts_split(tokens, at, next, next + others.rest + 1, level);
        }
    }
}

/// Over a program the depth peaks as high above its start as the highest
/// expression, and as many expressions start at the depth of the start as
/// the program has.
proof fn lemma_all_shape(tokens: Seq<(TokenModel, Span)>, at: int)
    requires
        0 <= at <= tokens.len(),
    ensures
        parse_all_at(tokens, at) matches Ok(nodes) ==> {
            &&& peak(tokens, at, tokens.len() as int) == depth_at(tokens, at) + heights(nodes, 0)
            &&& starts(tokens, at, tokens.len() as int, depth_at(tokens, at)) == nodes.len()
        },
    decreases tokens_left(tokens, at),
{
    if let Ok(nodes) = parse_all_at(tokens, at) {
        let level = depth_at(tokens, at);
        if at < tokens.len() {
            let first = parse_expr_at(tokens, at)->Ok_0;
            let next = at + first.rest + 1;
            let others = parse_all_at(tokens, next)->Ok_0;
            lemma_expr_shape(tokens, at);
            lemma_expr_depths(tokens, at);
            lemma_parse_expr_within(tokens, at);
            lemma_all_shape(tokens, next);
            lemma_heights_cons((first.node, first.span), others);
            lemma_peak_split(tokens, at, next, tokens.len() as int);
            lemma_starts_split(tokens, at, next, tokens.len() as int, level);
        } else {
            assert(peak(tokens, at, at) == level);
            assert(starts(tokens, at, at, level) == 0);
        }
    }
}

/// Parsing keeps the nesting depth: the expressions of a program nest as
/// deep as the braces of its tokens.
pub proof fn law_parse_keeps_depth(tokens: Seq<(TokenModel, Span)>)
    requires
        parse_program(tokens) is Ok,
    ensures
        heights(parse_program(tokens)->Ok_0, 0) == peak(tokens, 0, tokens.len() as int),
{
    lemma_all_shape(tokens, 0);
}

/// Parsing keeps the child counts of a program: it has as many
/// expressions as start outside all braces.
pub proof fn law_parse_keeps_top_level_count(tokens: Seq<(TokenModel, Span)>)
    requires
        parse_program(tokens) is Ok,
    ensures
        parse_program(tokens)->Ok_0.len() == starts(tokens, 0, tokens.len() as int, 0),
{
    lemma_all_shape(tokens, 0);
}

/// Parsing keeps the child counts of a list, wherever it stands: it has as
/// many children as expressions start directly inside its braces.
pub proof fn law_parse_keeps_child_counts(tokens: Seq<(TokenModel, Span)>, at: int)
    requires
        0 <= at < tokens.len(),
        tokens[at].0 is OpeningBrace,
        parse_expr_at(tokens, at) is Ok,
    ensures
        ({
            let found = parse_expr_at(tokens, at)->Ok_0;
            &&& found.node is List
            &&& found.node->List_0.len() == starts(
                tokens,
                at + 1,
                at + found.rest + 1,
                depth_at(tokens, at) + 1,
            )
        }),
{
    lemma_items_shape(tokens, at + 1);
    assert(depth_at(tokens, at + 1) == depth_at(tokens, at) + 1);
}

} // verus!
