//! The recursive-descent parser: from a run of tokens to span-annotated
//! expressions.

use crate::lexer::{token_models, Span, Token, TokenModel};
use crate::number::{
    integer_text, is_i128_literal, lemma_integer_text_round_trip, literal_value,
    number_error_detail, parse_i128,
};
use vstd::prelude::*;

verus! {

/// Why a run of tokens is not a program.
#[derive(Debug, PartialEq, Eq)]
pub enum ParseError {
    /// A number token whose text is not an integer literal of 128 bits,
    /// with the reason as std words it.
    InvalidNumberFormat(Span, String),
    /// A closing brace where an expression was expected.
    MismatchedClosingBrace(Span),
    /// The tokens ended inside a list, or where an expression was expected.
    UnexpectedEndOfInput,
}

/// A parse error with its detail as a sequence of characters.
pub enum ParseErrorModel {
    InvalidNumberFormat(Span, Seq<char>),
    MismatchedClosingBrace(Span),
    UnexpectedEndOfInput,
}

impl View for ParseError {
    type V = ParseErrorModel;

    open spec fn view(&self) -> ParseErrorModel {
        match self {
            ParseError::InvalidNumberFormat(span, detail) => ParseErrorModel::InvalidNumberFormat(
                *span,
                detail@,
            ),
            ParseError::MismatchedClosingBrace(span) => ParseErrorModel::MismatchedClosingBrace(
                *span,
            ),
            ParseError::UnexpectedEndOfInput => ParseErrorModel::UnexpectedEndOfInput,
        }
    }
}

impl ParseErrorModel {
    /// The message of the error, as `ParseError::as_string` renders it.
    pub open spec fn text(self) -> Seq<char> {
        match self {
            ParseErrorModel::InvalidNumberFormat(span, detail) => "invalid number format: "@
                + detail + " at "@ + span.text(),
            ParseErrorModel::MismatchedClosingBrace(span) => "mismatched closing brace at "@
                + span.text(),
            ParseErrorModel::UnexpectedEndOfInput => "unexpected end of input"@,
        }
    }
}

impl ParseError {
    /// The error as a sentence for the user.
    pub fn as_string(&self) -> (r: String)
        ensures
            r@ == self@.text(),
    {
        match self {
            ParseError::InvalidNumberFormat(span, detail) => {
                let mut out = "invalid number format: ".to_owned();
                out.append(detail.as_str());
                out.append(" at ");
                out.append(span.as_string().as_str());
                out
            },
            ParseError::MismatchedClosingBrace(span) => {
                let mut out = "mismatched closing brace at ".to_owned();
                out.append(span.as_string().as_str());
                out
            },
            ParseError::UnexpectedEndOfInput => "unexpected end of input".to_owned(),
        }
    }
}

/// An expression. Every expression travels with the span of the source
/// text that it covers, a list from its opening brace to its closing
/// brace; the children of a list carry theirs beside them.
#[derive(Debug, PartialEq, Eq)]
pub enum Ast {
    /// The word `def`.
    Def,
    /// An integer literal.
    Int(i128),
    /// A parenthesised run of expressions, possibly empty.
    List(Vec<(Ast, Span)>),
    /// Any other identifier.
    Symbol(String),
}

/// An expression as a mathematical value.
pub enum AstModel {
    Def,
    Int(i128),
    List(Seq<(AstModel, Span)>),
    Symbol(Seq<char>),
}

impl View for Ast {
    type V = AstModel;

    open spec fn view(&self) -> AstModel
        decreases self,
    {
        match self {
            Ast::Def => AstModel::Def,
            Ast::Int(n) => AstModel::Int(*n),
            Ast::List(items) => AstModel::List(node_models(items@)),
            Ast::Symbol(s) => AstModel::Symbol(s@),
        }
    }
}

/// The models of a run of expressions, each with its span.
pub open spec fn node_models(nodes: Seq<(Ast, Span)>) -> Seq<(AstModel, Span)>
    decreases nodes,
{
    Seq::new(
        nodes.len(),
        |i: int|
            if 0 <= i < nodes.len() {
                (nodes[i].0.view(), nodes[i].1)
            } else {
                (AstModel::Def, nodes[i].1)
            },
    )
}

impl Clone for Ast {
    /// A deep copy: the same expression, every child with its span.
    fn clone(&self) -> (r: Ast)
        ensures
            r@ == self@,
        decreases self,
    {
        match self {
            Ast::Def => Ast::Def,
            Ast::Int(n) => Ast::Int(*n),
            Ast::Symbol(s) => Ast::Symbol(s.clone()),
            Ast::List(items) => {
                let mut copies: Vec<(Ast, Span)> = Vec::new();
                let mut i: usize = 0;
                while i < items.len()
                    invariant
                        i <= items.len(),
                        copies.len() == i,
                        forall|j: int| 0 <= j < i ==> copies[j].0@ == items[j].0@,
                        forall|j: int| 0 <= j < i ==> copies[j].1 == items[j].1,
                        self == Ast::List(*items),
                    decreases items.len() - i,
                {
                    proof {
                        assert(self->List_0 == *items);
                        assert(decreases_to!(*self => self->List_0));
                        assert(decreases_to!(*items => items[i as int]));
                        assert(decreases_to!(items[i as int] => items[i as int].0));
                    }
                    let child = items[i].0.clone();
                    copies.push((child, items[i].1));
                    i += 1;
                }
                proof {
                    assert(node_models(copies@) =~= node_models(items@));
                }
                Ast::List(copies)
            },
        }
    }
}

/// An expression found in a run of tokens: the node, its span, and how
/// many tokens it takes after its first one.
pub struct Parsed {
    pub node: AstModel,
    pub span: Span,
    pub rest: nat,
}

/// The children of a list found in a run of tokens, and how many tokens
/// come after the first of them up to and including the closing brace.
pub struct ParsedItems {
    pub items: Seq<(AstModel, Span)>,
    pub rest: nat,
}

/// How many tokens are left at position `at`.
pub open spec fn tokens_left(tokens: Seq<(TokenModel, Span)>, at: int) -> nat {
    if at < tokens.len() {
        (tokens.len() - at) as nat
    } else {
        0
    }
}

/// The node that a number token with the text `text` stands for, or the
/// error that rejects the text.
pub open spec fn number_at(text: Seq<char>, span: Span) -> Result<Parsed, ParseErrorModel> {
    if is_i128_literal(text) {
        Ok(Parsed { node: AstModel::Int(literal_value(text) as i128), span, rest: 0 })
    } else {
        Err(ParseErrorModel::InvalidNumberFormat(span, number_error_detail(text)))
    }
}

/// The expression that starts at position `at` of `tokens`.
///
/// At the end of the tokens there is none. An opening brace starts a list,
/// whose span runs from where the brace starts to where the closing brace
/// ends; a closing brace is out of place; the identifier `def` is the node
/// `Def` and any other identifier a symbol; a number is the integer that
/// its text denotes, if it is a literal of 128 bits. Anything but a list
/// has the span of its token.
pub open spec fn parse_expr_at(tokens: Seq<(TokenModel, Span)>, at: int) -> Result<
    Parsed,
    ParseErrorModel,
>
    decreases tokens_left(tokens, at), 0nat,
{
    if 0 <= at < tokens.len() {
        let span = tokens[at].1;
        match tokens[at].0 {
            TokenModel::OpeningBrace => match parse_items_at(tokens, at + 1) {
                Ok(found) => Ok(
                    Parsed {
                        node: AstModel::List(found.items),
                        span: Span { from: span.from, to: tokens[at + 1 + found.rest].1.to },
                        rest: found.rest + 1,
                    },
                ),
                Err(e) => Err(e),
            },
            TokenModel::ClosingBrace => Err(ParseErrorModel::MismatchedClosingBrace(span)),
            TokenModel::Ident(name) => if name == "def"@ {
                Ok(Parsed { node: AstModel::Def, span, rest: 0 })
            } else {
                Ok(Parsed { node: AstModel::Symbol(name), span, rest: 0 })
            },
            TokenModel::Num(text) => number_at(text, span),
        }
    } else {
        Err(ParseErrorModel::UnexpectedEndOfInput)
    }
}

/// The children of a list whose first child, or closing brace, stands at
/// position `at` of `tokens`. The first error among the children is the
/// error of the list; tokens that end before the closing brace are an
/// error too.
pub open spec fn parse_items_at(tokens: Seq<(TokenModel, Span)>, at: int) -> Result<
    ParsedItems,
    ParseErrorModel,
>
    decreases tokens_left(tokens, at), 1nat,
{
    if 0 <= at < tokens.len() {
        if tokens[at].0 is ClosingBrace {
            Ok(ParsedItems { items: Seq::empty(), rest: 0 })
        } else {
            match parse_expr_at(tokens, at) {
                Ok(first) => match parse_items_at(tokens, at + first.rest + 1) {
                    Ok(others) => Ok(
                        ParsedItems {
                            items: seq![(first.node, first.span)] + others.items,
                            rest: first.rest + 1 + others.rest,
                        },
                    ),
                    Err(e) => Err(e),
                },
                Err(e) => Err(e),
            }
        }
    } else {
        Err(ParseErrorModel::UnexpectedEndOfInput)
    }
}

/// The expressions that the tokens from position `at` on spell out, one
/// after the other, or the first error among them.
pub open spec fn parse_all_at(tokens: Seq<(TokenModel, Span)>, at: int) -> Result<
    Seq<(AstModel, Span)>,
    ParseErrorModel,
>
    decreases tokens_left(tokens, at),
{
    if 0 <= at < tokens.len() {
        match parse_expr_at(tokens, at) {
            Ok(first) => match parse_all_at(tokens, at + first.rest + 1) {
                Ok(others) => Ok(seq![(first.node, first.span)] + others),
                Err(e) => Err(e),
            },
            Err(e) => Err(e),
        }
    } else {
        Ok(Seq::empty())
    }
}

/// The program that a run of tokens spells out: its top-level expressions
/// in order.
pub open spec fn parse_program(tokens: Seq<(TokenModel, Span)>) -> Result<
    Seq<(AstModel, Span)>,
    ParseErrorModel,
> {
    parse_all_at(tokens, 0)
}

/// An expression ends within the tokens, and so do the children of a list,
/// behind which the closing brace stands.
pub proof fn lemma_parse_within(tokens: Seq<(TokenModel, Span)>, at: int)
    requires
        0 <= at,
    ensures
        parse_expr_at(tokens, at) matches Ok(found) ==> at + found.rest < tokens.len(),
        parse_items_at(tokens, at) matches Ok(found) ==> at + found.rest < tokens.len()
            && tokens[at + found.rest].0 is ClosingBrace,
    decreases tokens_left(tokens, at), 1nat,
{
    if at < tokens.len() {
        if tokens[at].0 is OpeningBrace {
            lemma_parse_within(tokens, at + 1);
        }
        if !(tokens[at].0 is ClosingBrace) {
            lemma_parse_expr_within(tokens, at);
            if let Ok(first) = parse_expr_at(tokens, at) {
                lemma_parse_within(tokens, at + first.rest + 1);
            }
        }
    }
}

/// An expression ends within the tokens.
pub proof fn lemma_parse_expr_within(tokens: Seq<(TokenModel, Span)>, at: int)
    requires
        0 <= at,
    ensures
        parse_expr_at(tokens, at) matches Ok(found) ==> at + found.rest < tokens.len(),
    decreases tokens_left(tokens, at), 0nat,
{
    if at < tokens.len() {
        if tokens[at].0 is OpeningBrace {
            lemma_parse_within(tokens, at + 1);
        }
    }
}

/// Whether `name` is the word `def`.
fn is_def(name: &String) -> (b: bool)
    ensures
        b == (name@ == "def"@),
{
    let word = "def".to_owned();
    *name == word
}

/// The outcome of parsing as a model: the expressions with their spans, or
/// the error.
pub open spec fn program_model(r: Result<Vec<(Ast, Span)>, ParseError>) -> Result<
    Seq<(AstModel, Span)>,
    ParseErrorModel,
> {
    match r {
        Ok(nodes) => Ok(node_models(nodes@)),
        Err(e) => Err(e@),
    }
}

impl Ast {
    /// Turns the outcome of reading a number's text into a node with the
    /// span `span`, or into the error that carries the reason and the span.
    pub fn number_node(read: Result<i128, String>, span: Span) -> (r: Result<
        (Ast, Span),
        ParseError,
    >)
        ensures
            match read {
                Ok(value) => r matches Ok((node, at)) && node@ == AstModel::Int(value) && at
                    == span,
                Err(detail) => r matches Err(e) && e@ == ParseErrorModel::InvalidNumberFormat(
                    span,
                    detail@,
                ),
            },
    {
        match read {
            Ok(value) => Ok((Ast::Int(value), span)),
            Err(detail) => Err(ParseError::InvalidNumberFormat(span, detail)),
        }
    }

    /// Parses the expression that starts at position `at` of `tokens`, and
    /// says where the next one starts.
    pub fn parse_expr(tokens: &Vec<(Token, Span)>, at: usize) -> (r: Result<
        ((Ast, Span), usize),
        ParseError,
    >)
        ensures
            match parse_expr_at(token_models(tokens@), at as int) {
                Ok(found) => {
                    &&& r matches Ok(((node, span), next))
                    &&& node@ == found.node
                    &&& span == found.span
                    &&& next == at + found.rest + 1
                },
                Err(e) => r matches Err(error) && error@ == e,
            },
        decreases tokens_left(token_models(tokens@), at as int), 0nat,
    {
        let ghost models = token_models(tokens@);
        if at >= tokens.len() {
            return Err(ParseError::UnexpectedEndOfInput);
        }
        let span = tokens[at].1;
        match &tokens[at].0 {
            Token::OpeningBrace => {
                let mut args: Vec<(Ast, Span)> = Vec::new();
                let mut pos: usize = at + 1;
                proof {
                    assert(node_models(args@) =~= Seq::empty());
                }
                loop
                    invariant
                        models == token_models(tokens@),
                        at < pos <= tokens.len(),
                        models[at as int].0 is OpeningBrace,
                        span == models[at as int].1,
                        parse_items_at(models, at + 1) == join_items(
                            node_models(args@),
                            pos - (at + 1),
                            parse_items_at(models, pos as int),
                        ),
                    decreases tokens.len() - pos,
                {
                    if pos >= tokens.len() {
                        return Err(ParseError::UnexpectedEndOfInput);
                    }
                    if let Token::ClosingBrace = &tokens[pos].0 {
                        proof {
                            assert(node_models(args@) + Seq::<(AstModel, Span)>::empty()
                                =~= node_models(args@));
                        }
                        let whole = Span { from: span.from, to: tokens[pos].1.to };
                        return Ok(((Ast::List(args), whole), pos + 1));
                    }
                    let ghost before = node_models(args@);
                    proof {
                        lemma_parse_expr_within(models, pos as int);
                    }
                    match Ast::parse_expr(tokens, pos) {
                        Ok((child, next)) => {
                            args.push(child);
                            proof {
                                let first = parse_expr_at(models, pos as int)->Ok_0;
                                assert(node_models(args@) =~= before + seq![
                                    (first.node, first.span),
                                ]);
                                lemma_join_items(
                                    before,
                                    pos - (at + 1),
                                    first,
                                    parse_items_at(models, next as int),
                                );
                            }
                            pos = next;
                        },
                        Err(e) => {
                            return Err(e);
                        },
                    }
                }
            },
            Token::ClosingBrace => Err(ParseError::MismatchedClosingBrace(span)),
            Token::Ident(s) => {
                if is_def(s) {
                    Ok(((Ast::Def, span), at + 1))
                } else {
                    Ok(((Ast::Symbol(s.clone()), span), at + 1))
                }
            },
            Token::Num(n) => {
                match Ast::number_node(parse_i128(n.as_str()), span) {
                    Ok(node) => Ok((node, at + 1)),
                    Err(e) => Err(e),
                }
            },
        }
    }

    /// Parses a whole run of tokens into its top-level expressions. The
    /// first error ends the parse; nothing is recovered.
    pub fn parse(tokens: &Vec<(Token, Span)>) -> (r: Result<Vec<(Ast, Span)>, ParseError>)
        ensures
            program_model(r) == parse_program(token_models(tokens@)),
    {
        let ghost models = token_models(tokens@);
        let mut exprs: Vec<(Ast, Span)> = Vec::new();
        let mut pos: usize = 0;
        proof {
            assert(node_models(exprs@) =~= Seq::empty());
        }
        while pos < tokens.len()
            invariant
                models == token_models(tokens@),
                pos <= tokens.len(),
                parse_program(models) == join_all(
                    node_models(exprs@),
                    parse_all_at(models, pos as int),
                ),
            decreases tokens.len() - pos,
        {
            let ghost before = node_models(exprs@);
            proof {
                lemma_parse_expr_within(models, pos as int);
            }
            match Ast::parse_expr(tokens, pos) {
                Ok((expr, next)) => {
                    exprs.push(expr);
                    proof {
                        let first = parse_expr_at(models, pos as int)->Ok_0;
                        assert(node_models(exprs@) =~= before + seq![(first.node, first.span)]);
                        lemma_join_all(before, first, parse_all_at(models, next as int));
                    }
                    pos = next;
                },
                Err(e) => {
                    return Err(e);
                },
            }
        }
        proof {
            assert(node_models(exprs@) + Seq::<(AstModel, Span)>::empty() =~= node_models(exprs@));
        }
        Ok(exprs)
    }
}

/// The children `front`, which took `taken` tokens, followed by the
/// outcome `tail` of parsing the rest of the list.
pub open spec fn join_items(
    front: Seq<(AstModel, Span)>,
    taken: int,
    tail: Result<ParsedItems, ParseErrorModel>,
) -> Result<ParsedItems, ParseErrorModel> {
    match tail {
        Ok(others) => Ok(
            ParsedItems { items: front + others.items, rest: (taken + others.rest) as nat },
        ),
        Err(e) => Err(e),
    }
}

/// The expressions `front` followed by the outcome `tail` of parsing what
/// comes after them.
pub open spec fn join_all(
    front: Seq<(AstModel, Span)>,
    tail: Result<Seq<(AstModel, Span)>, ParseErrorModel>,
) -> Result<Seq<(AstModel, Span)>, ParseErrorModel> {
    match tail {
        Ok(others) => Ok(front + others),
        Err(e) => Err(e),
    }
}

/// Joining children one by one is joining them all at once.
proof fn lemma_join_items(
    front: Seq<(AstModel, Span)>,
    taken: int,
    first: Parsed,
    tail: Result<ParsedItems, ParseErrorModel>,
)
    requires
        0 <= taken,
    ensures
        join_items(
            front,
            taken,
            join_items(seq![(first.node, first.span)], first.rest as int + 1, tail),
        ) == join_items(front + seq![(first.node, first.span)], taken + first.rest + 1, tail),
{
    if let Ok(others) = tail {
        assert(front + (seq![(first.node, first.span)] + others.items) =~= (front + seq![
            (first.node, first.span),
        ]) + others.items);
    }
}

/// Joining expressions one by one is joining them all at once.
proof fn lemma_join_all(
    front: Seq<(AstModel, Span)>,
    first: Parsed,
    tail: Result<Seq<(AstModel, Span)>, ParseErrorModel>,
)
    ensures
        join_all(front, join_all(seq![(first.node, first.span)], tail)) == join_all(
            front + seq![(first.node, first.span)],
            tail,
        ),
{
    if let Ok(others) = tail {
        assert(front + (seq![(first.node, first.span)] + others) =~= (front + seq![
            (first.node, first.span),
        ]) + others);
    }
}

/// The span of an expression covers its tokens: it runs from where the
/// first of them starts to where the last of them ends. For a list these
/// are its two braces.
pub proof fn law_span_covers_expression(tokens: Seq<(TokenModel, Span)>, at: int)
    requires
        0 <= at,
        parse_expr_at(tokens, at) is Ok,
    ensures
        ({
            let found = parse_expr_at(tokens, at)->Ok_0;
            &&& at + found.rest < tokens.len()
            &&& found.span == Span { from: tokens[at].1.from, to: tokens[at + found.rest].1.to }
            &&& tokens[at].0 is OpeningBrace ==> tokens[at + found.rest].0 is ClosingBrace
        }),
{
    lemma_parse_expr_within(tokens, at);
    if tokens[at].0 is OpeningBrace {
        lemma_parse_within(tokens, at + 1);
    }
}

/// A number token whose text is a literal of 128 bits parses to the integer
/// that the text denotes, whatever surrounds it.
pub proof fn law_literal_parses_to_its_value(tokens: Seq<(TokenModel, Span)>, at: int)
    requires
        0 <= at < tokens.len(),
        tokens[at].0 matches TokenModel::Num(text) && is_i128_literal(text),
    ensures
        parse_expr_at(tokens, at) == Ok::<Parsed, ParseErrorModel>(
            Parsed {
                node: AstModel::Int(literal_value(tokens[at].0->Num_0) as i128),
                span: tokens[at].1,
                rest: 0,
            },
        ),
{
}

/// Writing an integer of 128 bits in decimal and parsing the text gives
/// the integer back.
pub proof fn law_integer_text_round_trips(value: i128, span: Span)
    ensures
        parse_program(seq![(TokenModel::Num(integer_text(value as int)), span)]) == Ok::<
            Seq<(AstModel, Span)>,
            ParseErrorModel,
        >(seq![(AstModel::Int(value), span)]),
{
    let tokens = seq![(TokenModel::Num(integer_text(value as int)), span)];
    lemma_integer_text_round_trip(value as int);
    let first = parse_expr_at(tokens, 0)->Ok_0;
    assert(parse_all_at(tokens, 1) == Ok::<Seq<(AstModel, Span)>, ParseErrorModel>(Seq::empty()));
    assert(seq![(first.node, first.span)] + Seq::<(AstModel, Span)>::empty() =~= seq![
        (AstModel::Int(value), span),
    ]);
}

} // verus!
