//! The grammar of expressions, and the reading of a text as an expression
//! over the attributes of a table.
use crate::ast::Node;
use crate::decimal::Decimal;
use crate::error::{ATreeParseError, ParserError};
use crate::events::{AttributeKind, AttributeTable, EventError};
use crate::lexer::{end_of, fails, lexed, spaces_end, Token, tokenize};
use crate::predicates::{
    ComparisonOperator, ComparisonValue, EqualityOperator, ListLiteral, ListOperator,
    NullOperator, Predicate, PredicateKind, PrimitiveLiteral, SetOperator,
};
use crate::strings::{StringId, StringTable};
use vstd::prelude::*;
use vstd::string::StrSliceExecFns;

verus! {

/// Tokens, each with the places of its start and its end.
pub type Tokens = Seq<(usize, Token, usize)>;

/// A literal as it is written.
#[derive(Debug)]
pub enum Literal {
    Integer(i64),
    Float(Decimal),
    Text(String),
}

/// An expression as it is written: names stand for attributes, and nothing
/// is known yet of their types.
#[derive(Debug)]
pub enum Clause {
    And(Box<Clause>, Box<Clause>),
    Or(Box<Clause>, Box<Clause>),
    Not(Box<Clause>),
    Variable(String),
    Null(String, NullOperator),
    Comparison(String, ComparisonOperator, ComparisonValue),
    Equality(String, EqualityOperator, Literal),
    Membership(String, SetOperator, Items),
    List(String, ListOperator, Items),
}

/// The items of a list as they are written: integers alone, or texts alone.
#[derive(Debug)]
pub enum Items {
    Integers(Vec<i64>),
    Texts(Vec<String>),
}

/// What a list holds.
pub enum ItemsView {
    Integers(Seq<i64>),
    Texts(Seq<Seq<char>>),
}

impl View for Items {
    type V = ItemsView;

    open spec fn view(&self) -> ItemsView {
        match self {
            Items::Integers(values) => ItemsView::Integers(values@),
            Items::Texts(values) => ItemsView::Texts(Seq::new(values@.len(), |i: int| values@[i]@)),
        }
    }
}

/// The integer that a literal is; 0 stands for a literal that is none.
pub open spec fn integer_of(literal: LiteralView) -> i64 {
    match literal {
        LiteralView::Integer(value) => value,
        _ => 0,
    }
}

/// The text that a literal is; the empty text stands for a literal that is
/// none.
pub open spec fn text_of(literal: LiteralView) -> Seq<char> {
    match literal {
        LiteralView::Text(value) => value,
        _ => Seq::empty(),
    }
}

/// The items of a list of literals of one type: texts if the first is one,
/// integers otherwise.
pub open spec fn as_items(literals: Seq<LiteralView>) -> ItemsView {
    if literals.len() > 0 && literals[0] is Text {
        ItemsView::Texts(Seq::new(literals.len(), |i: int| text_of(literals[i])))
    } else {
        ItemsView::Integers(Seq::new(literals.len(), |i: int| integer_of(literals[i])))
    }
}

/// The number that a literal is; 0 stands for a text.
pub open spec fn number_of(literal: LiteralView) -> ComparisonValue {
    match literal {
        LiteralView::Float(value) => ComparisonValue::Float(value),
        other => ComparisonValue::Integer(integer_of(other)),
    }
}

/// What a literal holds.
pub enum LiteralView {
    Integer(i64),
    Float(Decimal),
    Text(Seq<char>),
}

/// What a written expression holds.
pub enum ClauseView {
    And(Box<ClauseView>, Box<ClauseView>),
    Or(Box<ClauseView>, Box<ClauseView>),
    Not(Box<ClauseView>),
    Variable(Seq<char>),
    Null(Seq<char>, NullOperator),
    Comparison(Seq<char>, ComparisonOperator, ComparisonValue),
    Equality(Seq<char>, EqualityOperator, LiteralView),
    Membership(Seq<char>, SetOperator, ItemsView),
    List(Seq<char>, ListOperator, ItemsView),
}

impl View for Literal {
    type V = LiteralView;

    open spec fn view(&self) -> LiteralView {
        match self {
            Literal::Integer(value) => LiteralView::Integer(*value),
            Literal::Float(value) => LiteralView::Float(*value),
            Literal::Text(value) => LiteralView::Text(value@),
        }
    }
}

/// What a list of literals holds.
pub open spec fn literal_views(literals: Seq<Literal>) -> Seq<LiteralView> {
    Seq::new(literals.len(), |i: int| literals[i]@)
}

impl Clause {
    /// What the expression holds.
    pub open spec fn shape(&self) -> ClauseView
        decreases self,
    {
        match self {
            Clause::And(left, right) => ClauseView::And(
                Box::new(left.shape()),
                Box::new(right.shape()),
            ),
            Clause::Or(left, right) => ClauseView::Or(
                Box::new(left.shape()),
                Box::new(right.shape()),
            ),
            Clause::Not(inner) => ClauseView::Not(Box::new(inner.shape())),
            Clause::Variable(name) => ClauseView::Variable(name@),
            Clause::Null(name, operator) => ClauseView::Null(name@, *operator),
            Clause::Comparison(name, operator, literal) => ClauseView::Comparison(
                name@,
                *operator,
                *literal,
            ),
            Clause::Equality(name, operator, literal) => ClauseView::Equality(
                name@,
                *operator,
                literal@,
            ),
            Clause::Membership(name, operator, literals) => ClauseView::Membership(
                name@,
                *operator,
                literals@,
            ),
            Clause::List(name, operator, literals) => ClauseView::List(name@, *operator, literals@),
        }
    }
}

/// The literal that the token at `index` is, if it is one.
pub open spec fn literal_at(tokens: Tokens, index: int) -> Option<LiteralView> {
    if 0 <= index < tokens.len() {
        match tokens[index].1 {
            Token::IntegerLiteral(value) => Some(LiteralView::Integer(value)),
            Token::FloatLiteral(value) => Some(LiteralView::Float(value)),
            Token::StringLiteral(value) => Some(LiteralView::Text(value@)),
            _ => None,
        }
    } else {
        None
    }
}

/// The comparison that the token at `index` asks for, if it asks for one.
pub open spec fn comparison_at(tokens: Tokens, index: int) -> Option<ComparisonOperator> {
    if 0 <= index < tokens.len() {
        match tokens[index].1 {
            Token::LessThan => Some(ComparisonOperator::LessThan),
            Token::LessThanEqual => Some(ComparisonOperator::LessThanEqual),
            Token::GreaterThan => Some(ComparisonOperator::GreaterThan),
            Token::GreaterThanEqual => Some(ComparisonOperator::GreaterThanEqual),
            _ => None,
        }
    } else {
        None
    }
}

/// The comparison with its sides swapped.
pub open spec fn flipped(operator: ComparisonOperator) -> ComparisonOperator {
    match operator {
        ComparisonOperator::LessThan => ComparisonOperator::GreaterThan,
        ComparisonOperator::LessThanEqual => ComparisonOperator::GreaterThanEqual,
        ComparisonOperator::GreaterThan => ComparisonOperator::LessThan,
        ComparisonOperator::GreaterThanEqual => ComparisonOperator::LessThanEqual,
    }
}

/// The equality that the token at `index` asks for, if it asks for one.
pub open spec fn equality_at(tokens: Tokens, index: int) -> Option<EqualityOperator> {
    if 0 <= index < tokens.len() {
        match tokens[index].1 {
            Token::Equal => Some(EqualityOperator::Equal),
            Token::NotEqual => Some(EqualityOperator::NotEqual),
            _ => None,
        }
    } else {
        None
    }
}

/// The check for null or emptiness that the token at `index` asks for, if it
/// asks for one.
pub open spec fn null_at(tokens: Tokens, index: int) -> Option<NullOperator> {
    if 0 <= index < tokens.len() {
        match tokens[index].1 {
            Token::IsNull => Some(NullOperator::IsNull),
            Token::IsNotNull => Some(NullOperator::IsNotNull),
            Token::IsEmpty => Some(NullOperator::IsEmpty),
            Token::IsNotEmpty => Some(NullOperator::IsNotEmpty),
            _ => None,
        }
    } else {
        None
    }
}

/// The set operator that the token at `index` is, if it is one.
pub open spec fn set_at(tokens: Tokens, index: int) -> Option<SetOperator> {
    if 0 <= index < tokens.len() {
        match tokens[index].1 {
            Token::In => Some(SetOperator::In),
            Token::NotIn => Some(SetOperator::NotIn),
            _ => None,
        }
    } else {
        None
    }
}

/// The list operator that the token at `index` is, if it is one.
pub open spec fn list_at(tokens: Tokens, index: int) -> Option<ListOperator> {
    if 0 <= index < tokens.len() {
        match tokens[index].1 {
            Token::OneOf => Some(ListOperator::OneOf),
            Token::NoneOf => Some(ListOperator::NoneOf),
            Token::AllOf => Some(ListOperator::AllOf),
            _ => None,
        }
    } else {
        None
    }
}

/// Whether two literals are of one type, and of a type that a list can have:
/// integers or texts.
pub open spec fn alike(first: LiteralView, other: LiteralView) -> bool {
    (first is Integer && other is Integer) || (first is Text && other is Text)
}

/// Whether the token at `index` closes a list that was opened by a square
/// bracket, or by a parenthesis.
pub open spec fn closes(tokens: Tokens, index: int, square: bool) -> bool {
    0 <= index < tokens.len() && if square {
        tokens[index].1 is RightSquareBracket
    } else {
        tokens[index].1 is RightParenthesis
    }
}

/// The rest of a list behind one of its items: commas and items of the type
/// of the first one, up to the bracket that closes the list. The place
/// behind the list comes with the items; a place alone is where the list
/// goes wrong.
pub open spec fn items(tokens: Tokens, index: int, square: bool, first: LiteralView) -> Result<
    (Seq<LiteralView>, int),
    int,
>
    decreases tokens.len() - index,
{
    if closes(tokens, index, square) {
        Ok((Seq::empty(), index + 1))
    } else if 0 <= index < tokens.len() && tokens[index].1 is Comma {
        match literal_at(tokens, index + 1) {
            Some(literal) => if alike(first, literal) {
                match items(tokens, index + 2, square, first) {
                    Ok((rest, end)) => Ok((seq![literal] + rest, end)),
                    Err(place) => Err(place),
                }
            } else {
                Err(index + 1)
            },
            None => Err(index + 1),
        }
    } else {
        Err(index)
    }
}

/// A list of literals: between square brackets or parentheses, with commas
/// between its items, not empty, and of integers alone or of texts alone.
pub open spec fn list(tokens: Tokens, index: int) -> Result<(Seq<LiteralView>, int), int> {
    if 0 <= index < tokens.len() && (tokens[index].1 is LeftSquareBracket
        || tokens[index].1 is LeftParenthesis) {
        match literal_at(tokens, index + 1) {
            Some(first) => if alike(first, first) {
                match items(tokens, index + 2, tokens[index].1 is LeftSquareBracket, first) {
                    Ok((rest, end)) => Ok((seq![first] + rest, end)),
                    Err(place) => Err(place),
                }
            } else {
                Err(index + 1)
            },
            None => Err(index + 1),
        }
    } else {
        Err(index)
    }
}

/// A predicate: a name alone, a name with a check, a comparison of a name
/// and a number or of a number and a name, an equality of a name and a
/// literal on either side, or a name with an operator and a list.
pub open spec fn predicate(tokens: Tokens, index: int) -> Result<(ClauseView, int), int> {
    if !(0 <= index < tokens.len()) {
        Err(index)
    } else {
        match tokens[index].1 {
            Token::Identifier(name) => {
                if comparison_at(tokens, index + 1) is Some {
                    match literal_at(tokens, index + 2) {
                        Some(literal) => if literal is Text {
                            Err(index + 2)
                        } else {
                            Ok(
                                (
                                    ClauseView::Comparison(
                                        name@,
                                        comparison_at(tokens, index + 1).unwrap(),
                                        number_of(literal),
                                    ),
                                    index + 3,
                                ),
                            )
                        },
                        None => Err(index + 2),
                    }
                } else if equality_at(tokens, index + 1) is Some {
                    match literal_at(tokens, index + 2) {
                        Some(literal) => Ok(
                            (
                                ClauseView::Equality(
                                    name@,
                                    equality_at(tokens, index + 1).unwrap(),
                                    literal,
                                ),
                                index + 3,
                            ),
                        ),
                        None => Err(index + 2),
                    }
                } else if null_at(tokens, index + 1) is Some {
                    Ok((ClauseView::Null(name@, null_at(tokens, index + 1).unwrap()), index + 2))
                } else if set_at(tokens, index + 1) is Some {
                    match list(tokens, index + 2) {
                        Ok((literals, end)) => Ok(
                            (
                                ClauseView::Membership(
                                    name@,
                                    set_at(tokens, index + 1).unwrap(),
                                    as_items(literals),
                                ),
                                end,
                            ),
                        ),
                        Err(place) => Err(place),
                    }
                } else if list_at(tokens, index + 1) is Some {
                    match list(tokens, index + 2) {
                        Ok((literals, end)) => Ok(
                            (
                                ClauseView::List(
                                    name@,
                                    list_at(tokens, index + 1).unwrap(),
                                    as_items(literals),
                                ),
                                end,
                            ),
                        ),
                        Err(place) => Err(place),
                    }
                } else {
                    Ok((ClauseView::Variable(name@), index + 1))
                }
            },
            _ => match literal_at(tokens, index) {
                Some(literal) => {
                    if comparison_at(tokens, index + 1) is Some && !(literal is Text) {
                        if index + 2 < tokens.len() && tokens[index + 2].1 is Identifier {
                            Ok(
                                (
                                    ClauseView::Comparison(
                                        tokens[index + 2].1->Identifier_0@,
                                        flipped(comparison_at(tokens, index + 1).unwrap()),
                                        number_of(literal),
                                    ),
                                    index + 3,
                                ),
                            )
                        } else {
                            Err(index + 2)
                        }
                    } else if equality_at(tokens, index + 1) is Some {
                        if index + 2 < tokens.len() && tokens[index + 2].1 is Identifier {
                            Ok(
                                (
                                    ClauseView::Equality(
                                        tokens[index + 2].1->Identifier_0@,
                                        equality_at(tokens, index + 1).unwrap(),
                                        literal,
                                    ),
                                    index + 3,
                                ),
                            )
                        } else {
                            Err(index + 2)
                        }
                    } else {
                        Err(index + 1)
                    }
                },
                None => Err(index),
            },
        }
    }
}

/// An expression: operands joined by `or`, from left to right.
pub open spec fn disjunction(tokens: Tokens, index: int) -> Result<(ClauseView, int), int>
    decreases tokens.len() - index, 5nat,
{
    match conjunction(tokens, index) {
        Ok((left, end)) => if index < end <= tokens.len() {
            more_disjuncts(tokens, left, end)
        } else {
            Err(index)
        },
        Err(place) => Err(place),
    }
}

/// What follows an operand of `or`: more of them, or nothing.
pub open spec fn more_disjuncts(tokens: Tokens, left: ClauseView, index: int) -> Result<
    (ClauseView, int),
    int,
>
    decreases tokens.len() - index, 4nat,
{
    if 0 <= index < tokens.len() && tokens[index].1 is Or {
        match conjunction(tokens, index + 1) {
            Ok((right, end)) => if index < end <= tokens.len() {
                more_disjuncts(tokens, ClauseView::Or(Box::new(left), Box::new(right)), end)
            } else {
                Err(index)
            },
            Err(place) => Err(place),
        }
    } else {
        Ok((left, index))
    }
}

/// Operands joined by `and`, from left to right: `and` binds tighter than
/// `or`.
pub open spec fn conjunction(tokens: Tokens, index: int) -> Result<(ClauseView, int), int>
    decreases tokens.len() - index, 3nat,
{
    match negation(tokens, index) {
        Ok((left, end)) => if index < end <= tokens.len() {
            more_conjuncts(tokens, left, end)
        } else {
            Err(index)
        },
        Err(place) => Err(place),
    }
}

/// What follows an operand of `and`: more of them, or nothing.
pub open spec fn more_conjuncts(tokens: Tokens, left: ClauseView, index: int) -> Result<
    (ClauseView, int),
    int,
>
    decreases tokens.len() - index, 2nat,
{
    if 0 <= index < tokens.len() && tokens[index].1 is And {
        match negation(tokens, index + 1) {
            Ok((right, end)) => if index < end <= tokens.len() {
                more_conjuncts(tokens, ClauseView::And(Box::new(left), Box::new(right)), end)
            } else {
                Err(index)
            },
            Err(place) => Err(place),
        }
    } else {
        Ok((left, index))
    }
}

/// An operand, with any number of `not` before it: `not` binds tightest.
pub open spec fn negation(tokens: Tokens, index: int) -> Result<(ClauseView, int), int>
    decreases tokens.len() - index, 1nat,
{
    if 0 <= index < tokens.len() && tokens[index].1 is Not {
        match negation(tokens, index + 1) {
            Ok((inner, end)) => Ok((ClauseView::Not(Box::new(inner)), end)),
            Err(place) => Err(place),
        }
    } else {
        operand(tokens, index)
    }
}

/// An expression between parentheses, or a predicate.
pub open spec fn operand(tokens: Tokens, index: int) -> Result<(ClauseView, int), int>
    decreases tokens.len() - index, 0nat,
{
    if 0 <= index < tokens.len() && tokens[index].1 is LeftParenthesis {
        match disjunction(tokens, index + 1) {
            Ok((inner, end)) => if 0 <= end < tokens.len() && tokens[end].1 is RightParenthesis {
                Ok((inner, end + 1))
            } else {
                Err(end)
            },
            Err(place) => Err(place),
        }
    } else {
        predicate(tokens, index)
    }
}

/// The expression that the tokens are, all of them; or the place of the
/// token at which they stop being one, which is their number if they end too
/// early.
pub open spec fn syntax(tokens: Tokens) -> Result<ClauseView, int> {
    match disjunction(tokens, 0) {
        Ok((clause, end)) => if end == tokens.len() {
            Ok(clause)
        } else {
            Err(end)
        },
        Err(place) => Err(place),
    }
}

/// The tokens of a text, each with the places of its start and its end.
pub type TokenList = Vec<(usize, Token, usize)>;

/// Whether the outcome of reading is the one that the grammar gives.
pub open spec fn agrees(
    outcome: Result<(Clause, usize), usize>,
    expected: Result<(ClauseView, int), int>,
    length: nat,
) -> bool {
    match outcome {
        Ok((clause, end)) => expected == Ok::<(ClauseView, int), int>((clause.shape(), end as int))
            && end <= length,
        Err(place) => expected == Err::<(ClauseView, int), int>(place as int) && place <= length,
    }
}

fn read_literal(tokens: &TokenList, index: usize) -> (literal: Option<Literal>)
    ensures
        match literal {
            Some(literal) => literal_at(tokens@, index as int) == Some(literal@),
            None => literal_at(tokens@, index as int) is None,
        },
{
    if index < tokens.len() {
        match &tokens[index].1 {
            Token::IntegerLiteral(value) => Some(Literal::Integer(*value)),
            Token::FloatLiteral(value) => Some(Literal::Float(*value)),
            Token::StringLiteral(value) => Some(Literal::Text(value.clone())),
            _ => None,
        }
    } else {
        None
    }
}

fn read_comparison(tokens: &TokenList, index: usize) -> (operator: Option<ComparisonOperator>)
    ensures
        operator == comparison_at(tokens@, index as int),
{
    if index < tokens.len() {
        match &tokens[index].1 {
            Token::LessThan => Some(ComparisonOperator::LessThan),
            Token::LessThanEqual => Some(ComparisonOperator::LessThanEqual),
            Token::GreaterThan => Some(ComparisonOperator::GreaterThan),
            Token::GreaterThanEqual => Some(ComparisonOperator::GreaterThanEqual),
            _ => None,
        }
    } else {
        None
    }
}

fn flip(operator: ComparisonOperator) -> (result: ComparisonOperator)
    ensures
        result == flipped(operator),
{
    match operator {
        ComparisonOperator::LessThan => ComparisonOperator::GreaterThan,
        ComparisonOperator::LessThanEqual => ComparisonOperator::GreaterThanEqual,
        ComparisonOperator::GreaterThan => ComparisonOperator::LessThan,
        ComparisonOperator::GreaterThanEqual => ComparisonOperator::LessThanEqual,
    }
}

fn read_equality(tokens: &TokenList, index: usize) -> (operator: Option<EqualityOperator>)
    ensures
        operator == equality_at(tokens@, index as int),
{
    if index < tokens.len() {
        match &tokens[index].1 {
            Token::Equal => Some(EqualityOperator::Equal),
            Token::NotEqual => Some(EqualityOperator::NotEqual),
            _ => None,
        }
    } else {
        None
    }
}

fn read_null(tokens: &TokenList, index: usize) -> (operator: Option<NullOperator>)
    ensures
        operator == null_at(tokens@, index as int),
{
    if index < tokens.len() {
        match &tokens[index].1 {
            Token::IsNull => Some(NullOperator::IsNull),
            Token::IsNotNull => Some(NullOperator::IsNotNull),
            Token::IsEmpty => Some(NullOperator::IsEmpty),
            Token::IsNotEmpty => Some(NullOperator::IsNotEmpty),
            _ => None,
        }
    } else {
        None
    }
}

fn read_set(tokens: &TokenList, index: usize) -> (operator: Option<SetOperator>)
    ensures
        operator == set_at(tokens@, index as int),
{
    if index < tokens.len() {
        match &tokens[index].1 {
            Token::In => Some(SetOperator::In),
            Token::NotIn => Some(SetOperator::NotIn),
            _ => None,
        }
    } else {
        None
    }
}

fn read_list_operator(tokens: &TokenList, index: usize) -> (operator: Option<ListOperator>)
    ensures
        operator == list_at(tokens@, index as int),
{
    if index < tokens.len() {
        match &tokens[index].1 {
            Token::OneOf => Some(ListOperator::OneOf),
            Token::NoneOf => Some(ListOperator::NoneOf),
            Token::AllOf => Some(ListOperator::AllOf),
            _ => None,
        }
    } else {
        None
    }
}

fn same_type(first: &Literal, other: &Literal) -> (result: bool)
    ensures
        result == alike(first@, other@),
{
    match (first, other) {
        (Literal::Integer(_), Literal::Integer(_)) => true,
        (Literal::Text(_), Literal::Text(_)) => true,
        _ => false,
    }
}

fn is_closing(tokens: &TokenList, index: usize, square: bool) -> (result: bool)
    ensures
        result == closes(tokens@, index as int, square),
{
    if index < tokens.len() {
        match &tokens[index].1 {
            Token::RightSquareBracket => square,
            Token::RightParenthesis => !square,
            _ => false,
        }
    } else {
        false
    }
}

fn is_token(tokens: &TokenList, index: usize, wanted: &Token) -> (result: bool)
    requires
        *wanted is Comma || *wanted is Or || *wanted is And || *wanted is Not
            || *wanted is LeftParenthesis || *wanted is RightParenthesis
            || *wanted is LeftSquareBracket,
    ensures
        result == (index < tokens.len() && tokens[index as int].1 == *wanted),
{
    if index < tokens.len() {
        match (&tokens[index].1, wanted) {
            (Token::Comma, Token::Comma) => true,
            (Token::Or, Token::Or) => true,
            (Token::And, Token::And) => true,
            (Token::Not, Token::Not) => true,
            (Token::LeftParenthesis, Token::LeftParenthesis) => true,
            (Token::RightParenthesis, Token::RightParenthesis) => true,
            (Token::LeftSquareBracket, Token::LeftSquareBracket) => true,
            _ => false,
        }
    } else {
        false
    }
}

/// Reads the rest of a list behind one of its items.
fn read_items(
    tokens: &TokenList,
    index: usize,
    square: bool,
    first: &Literal,
    literals: &mut Vec<Literal>,
) -> (outcome: Result<usize, usize>)
    requires
        index <= tokens.len(),
    ensures
        match outcome {
            Ok(end) => items(tokens@, index as int, square, first@) matches Ok((rest, place))
                && place == end && end <= tokens.len() && literal_views(final(literals)@)
                == literal_views(old(literals)@) + rest,
            Err(place) => items(tokens@, index as int, square, first@) == Err::<
                (Seq<LiteralView>, int),
                int,
            >(place as int) && place <= tokens.len(),
        },
    decreases tokens.len() - index,
{
    if is_closing(tokens, index, square) {
        assert(literal_views(literals@) + Seq::<LiteralView>::empty() =~= literal_views(
            literals@,
        ));
        Ok(index + 1)
    } else if is_token(tokens, index, &Token::Comma) {
        match read_literal(tokens, index + 1) {
            Some(literal) => if same_type(first, &literal) {
                let ghost view = literal@;
                let ghost before = literals@;
                literals.push(literal);
                let outcome = read_items(tokens, index + 2, square, first, literals);
                proof {
                    if let Ok(end) = outcome {
                        let rest = items(
                            tokens@,
                            index + 2,
                            square,
                            first@,
                        )->Ok_0.0;
                        assert(literal_views(before.push(literal)) =~= literal_views(before)
                            + seq![view]);
                        assert(literal_views(before) + seq![view] + rest =~= literal_views(before)
                            + (seq![view] + rest));
                    }
                }
                outcome
            } else {
                Err(index + 1)
            },
            None => Err(index + 1),
        }
    } else {
        Err(index)
    }
}

/// Reads a list of literals.
fn read_list(tokens: &TokenList, index: usize) -> (outcome: Result<(Vec<Literal>, usize), usize>)
    requires
        index <= tokens.len(),
    ensures
        match outcome {
            Ok((literals, end)) => list(tokens@, index as int) == Ok::<
                (Seq<LiteralView>, int),
                int,
            >((literal_views(literals@), end as int)) && end <= tokens.len(),
            Err(place) => list(tokens@, index as int) == Err::<(Seq<LiteralView>, int), int>(
                place as int,
            ) && place <= tokens.len(),
        },
{
    let square = is_token(tokens, index, &Token::LeftSquareBracket);
    if square || is_token(tokens, index, &Token::LeftParenthesis) {
        match read_literal(tokens, index + 1) {
            Some(first) => if same_type(&first, &first) {
                let mut literals: Vec<Literal> = Vec::new();
                let outcome = match &first {
                    Literal::Integer(value) => {
                        literals.push(Literal::Integer(*value));
                        read_items(tokens, index + 2, square, &first, &mut literals)
                    },
                    Literal::Text(value) => {
                        literals.push(Literal::Text(value.clone()));
                        read_items(tokens, index + 2, square, &first, &mut literals)
                    },
                    Literal::Float(_) => Err(index + 1),
                };
                match outcome {
                    Ok(end) => {
                        proof {
                            let rest = items(tokens@, index + 2, square, first@)->Ok_0.0;
                            assert(literal_views(literals@) =~= seq![first@] + rest);
                        }
                        Ok((literals, end))
                    },
                    Err(place) => Err(place),
                }
            } else {
                Err(index + 1)
            },
            None => Err(index + 1),
        }
    } else {
        Err(index)
    }
}

fn to_number(literal: &Literal) -> (value: ComparisonValue)
    ensures
        value == number_of(literal@),
{
    match literal {
        Literal::Float(value) => ComparisonValue::Float(*value),
        Literal::Integer(value) => ComparisonValue::Integer(*value),
        Literal::Text(_) => ComparisonValue::Integer(0),
    }
}

fn to_items(literals: Vec<Literal>) -> (items: Items)
    ensures
        items@ == as_items(literal_views(literals@)),
{
    let texts = literals.len() > 0 && matches!(literals[0], Literal::Text(_));
    if texts {
        let mut values: Vec<String> = Vec::with_capacity(literals.len());
        let mut i: usize = 0;
        while i < literals.len()
            invariant
                i <= literals.len(),
                values.len() == i,
                forall|k: int| 0 <= k < i ==> (#[trigger] values[k])@ == text_of(literals[k]@),
            decreases literals.len() - i,
        {
            let value = match &literals[i] {
                Literal::Text(value) => value.clone(),
                _ => String::new(),
            };
            values.push(value);
            i += 1;
        }
        let items = Items::Texts(values);
        assert(items@->Texts_0 =~= as_items(literal_views(literals@))->Texts_0);
        items
    } else {
        let mut values: Vec<i64> = Vec::with_capacity(literals.len());
        let mut i: usize = 0;
        while i < literals.len()
            invariant
                i <= literals.len(),
                values.len() == i,
                forall|k: int| 0 <= k < i ==> #[trigger] values[k] == integer_of(literals[k]@),
            decreases literals.len() - i,
        {
            let value = match &literals[i] {
                Literal::Integer(value) => *value,
                _ => 0,
            };
            values.push(value);
            i += 1;
        }
        let items = Items::Integers(values);
        assert(items@->Integers_0 =~= as_items(literal_views(literals@))->Integers_0);
        items
    }
}

fn read_name(tokens: &TokenList, index: usize) -> (name: Option<String>)
    ensures
        match name {
            Some(name) => index < tokens.len() && tokens[index as int].1 is Identifier
                && tokens[index as int].1->Identifier_0@ == name@,
            None => !(index < tokens.len() && tokens[index as int].1 is Identifier),
        },
{
    if index < tokens.len() {
        match &tokens[index].1 {
            Token::Identifier(name) => Some(name.clone()),
            _ => None,
        }
    } else {
        None
    }
}

/// Reads a predicate.
fn read_predicate(tokens: &TokenList, index: usize) -> (outcome: Result<(Clause, usize), usize>)
    requires
        index <= tokens.len(),
    ensures
        agrees(outcome, predicate(tokens@, index as int), tokens@.len()),
{
    if index >= tokens.len() {
        return Err(index);
    }
    if let Some(name) = read_name(tokens, index) {
        if let Some(operator) = read_comparison(tokens, index + 1) {
            match read_literal(tokens, index + 2) {
                Some(Literal::Text(_)) => Err(index + 2),
                Some(literal) => Ok(
                    (Clause::Comparison(name, operator, to_number(&literal)), index + 3),
                ),
                None => Err(index + 2),
            }
        } else if let Some(operator) = read_equality(tokens, index + 1) {
            match read_literal(tokens, index + 2) {
                Some(literal) => Ok((Clause::Equality(name, operator, literal), index + 3)),
                None => Err(index + 2),
            }
        } else if let Some(operator) = read_null(tokens, index + 1) {
            Ok((Clause::Null(name, operator), index + 2))
        } else if let Some(operator) = read_set(tokens, index + 1) {
            match read_list(tokens, index + 2) {
                Ok((literals, end)) => Ok(
                    (Clause::Membership(name, operator, to_items(literals)), end),
                ),
                Err(place) => Err(place),
            }
        } else if let Some(operator) = read_list_operator(tokens, index + 1) {
            match read_list(tokens, index + 2) {
                Ok((literals, end)) => Ok((Clause::List(name, operator, to_items(literals)), end)),
                Err(place) => Err(place),
            }
        } else {
            Ok((Clause::Variable(name), index + 1))
        }
    } else {
        match read_literal(tokens, index) {
            Some(literal) => {
                let is_text = matches!(literal, Literal::Text(_));
                let comparison = read_comparison(tokens, index + 1);
                let equality = read_equality(tokens, index + 1);
                if comparison.is_some() && !is_text {
                    match (read_name(tokens, index + 2), comparison) {
                        (Some(name), Some(operator)) => Ok(
                            (
                                Clause::Comparison(name, flip(operator), to_number(&literal)),
                                index + 3,
                            ),
                        ),
                        _ => Err(index + 2),
                    }
                } else if equality.is_some() {
                    match (read_name(tokens, index + 2), equality) {
                        (Some(name), Some(operator)) => Ok(
                            (Clause::Equality(name, operator, literal), index + 3),
                        ),
                        _ => Err(index + 2),
                    }
                } else {
                    Err(index + 1)
                }
            },
            None => Err(index),
        }
    }
}

/// Reads an expression: operands joined by `or`.
fn read_disjunction(tokens: &TokenList, index: usize) -> (outcome: Result<(Clause, usize), usize>)
    requires
        index <= tokens.len(),
    ensures
        agrees(outcome, disjunction(tokens@, index as int), tokens@.len()),
    decreases tokens.len() - index, 5nat,
{
    match read_conjunction(tokens, index) {
        Ok((left, end)) => if index < end {
            read_more_disjuncts(tokens, left, end)
        } else {
            Err(index)
        },
        Err(place) => Err(place),
    }
}

fn read_more_disjuncts(tokens: &TokenList, left: Clause, index: usize) -> (outcome: Result<
    (Clause, usize),
    usize,
>)
    requires
        index <= tokens.len(),
    ensures
        agrees(outcome, more_disjuncts(tokens@, left.shape(), index as int), tokens@.len()),
    decreases tokens.len() - index, 4nat,
{
    if is_token(tokens, index, &Token::Or) {
        match read_conjunction(tokens, index + 1) {
            Ok((right, end)) => if index < end {
                read_more_disjuncts(tokens, Clause::Or(Box::new(left), Box::new(right)), end)
            } else {
                Err(index)
            },
            Err(place) => Err(place),
        }
    } else {
        Ok((left, index))
    }
}

/// Reads operands joined by `and`.
fn read_conjunction(tokens: &TokenList, index: usize) -> (outcome: Result<(Clause, usize), usize>)
    requires
        index <= tokens.len(),
    ensures
        agrees(outcome, conjunction(tokens@, index as int), tokens@.len()),
    decreases tokens.len() - index, 3nat,
{
    match read_negation(tokens, index) {
        Ok((left, end)) => if index < end {
            read_more_conjuncts(tokens, left, end)
        } else {
            Err(index)
        },
        Err(place) => Err(place),
    }
}

fn read_more_conjuncts(tokens: &TokenList, left: Clause, index: usize) -> (outcome: Result<
    (Clause, usize),
    usize,
>)
    requires
        index <= tokens.len(),
    ensures
        agrees(outcome, more_conjuncts(tokens@, left.shape(), index as int), tokens@.len()),
    decreases tokens.len() - index, 2nat,
{
    if is_token(tokens, index, &Token::And) {
        match read_negation(tokens, index + 1) {
            Ok((right, end)) => if index < end {
                read_more_conjuncts(tokens, Clause::And(Box::new(left), Box::new(right)), end)
            } else {
                Err(index)
            },
            Err(place) => Err(place),
        }
    } else {
        Ok((left, index))
    }
}

/// Reads an operand with the `not`s before it.
fn read_negation(tokens: &TokenList, index: usize) -> (outcome: Result<(Clause, usize), usize>)
    requires
        index <= tokens.len(),
    ensures
        agrees(outcome, negation(tokens@, index as int), tokens@.len()),
    decreases tokens.len() - index, 1nat,
{
    if is_token(tokens, index, &Token::Not) {
        match read_negation(tokens, index + 1) {
            Ok((inner, end)) => Ok((Clause::Not(Box::new(inner)), end)),
            Err(place) => Err(place),
        }
    } else {
        read_operand(tokens, index)
    }
}

/// Reads an expression between parentheses, or a predicate.
fn read_operand(tokens: &TokenList, index: usize) -> (outcome: Result<(Clause, usize), usize>)
    requires
        index <= tokens.len(),
    ensures
        agrees(outcome, operand(tokens@, index as int), tokens@.len()),
    decreases tokens.len() - index, 0nat,
{
    if is_token(tokens, index, &Token::LeftParenthesis) {
        match read_disjunction(tokens, index + 1) {
            Ok((inner, end)) => if is_token(tokens, end, &Token::RightParenthesis) {
                Ok((inner, end + 1))
            } else {
                Err(end)
            },
            Err(place) => Err(place),
        }
    } else {
        read_predicate(tokens, index)
    }
}

/// The expression that the tokens are, or the place of the token at which
/// they stop being one.
pub fn read(tokens: &TokenList) -> (outcome: Result<Clause, usize>)
    ensures
        match outcome {
            Ok(clause) => syntax(tokens@) == Ok::<ClauseView, int>(clause.shape()),
            Err(place) => syntax(tokens@) == Err::<ClauseView, int>(place as int) && place
                <= tokens.len(),
        },
{
    match read_disjunction(tokens, 0) {
        Ok((clause, end)) => if end == tokens.len() {
            Ok(clause)
        } else {
            Err(end)
        },
        Err(place) => Err(place),
    }
}

/// Whether the later table holds the strings of the earlier one, with the
/// same ids.
pub open spec fn extends(before: Map<Seq<char>, usize>, after: Map<Seq<char>, usize>) -> bool {
    forall|text: Seq<char>| #[trigger]
        before.contains_key(text) ==> after.contains_key(text) && after[text] == before[text]
}

/// The name of the attribute that a written predicate is about.
pub open spec fn name_of(view: ClauseView) -> Seq<char> {
    match view {
        ClauseView::Variable(name) => name,
        ClauseView::Null(name, _) => name,
        ClauseView::Comparison(name, _, _) => name,
        ClauseView::Equality(name, _, _) => name,
        ClauseView::Membership(name, _, _) => name,
        ClauseView::List(name, _, _) => name,
        _ => Seq::empty(),
    }
}

/// Whether a written predicate can be asked of an attribute of that type.
pub open spec fn admits(view: ClauseView, kind: AttributeKind) -> bool {
    match view {
        ClauseView::Variable(_) => kind is Boolean,
        ClauseView::Null(_, operator) => if operator is IsEmpty || operator is IsNotEmpty {
            kind is StringList || kind is IntegerList
        } else {
            !(kind is StringList || kind is IntegerList)
        },
        ClauseView::Comparison(_, _, ComparisonValue::Integer(_)) => kind is Integer,
        ClauseView::Comparison(_, _, ComparisonValue::Float(_)) => kind is Float,
        ClauseView::Equality(_, _, LiteralView::Integer(_)) => kind is Integer,
        ClauseView::Equality(_, _, LiteralView::Float(_)) => kind is Float,
        ClauseView::Equality(_, _, LiteralView::Text(_)) => kind is String,
        ClauseView::Membership(_, _, ItemsView::Integers(_)) => kind is Integer,
        ClauseView::Membership(_, _, ItemsView::Texts(_)) => kind is String,
        ClauseView::List(_, _, ItemsView::Integers(_)) => kind is IntegerList,
        ClauseView::List(_, _, ItemsView::Texts(_)) => kind is StringList,
        _ => false,
    }
}

/// Whether every predicate of a written expression is about an attribute of
/// the table, and can be asked of it.
pub open spec fn typed(view: ClauseView, attributes: &AttributeTable) -> bool
    decreases view,
{
    match view {
        ClauseView::And(left, right) => typed(*left, attributes) && typed(*right, attributes),
        ClauseView::Or(left, right) => typed(*left, attributes) && typed(*right, attributes),
        ClauseView::Not(inner) => typed(*inner, attributes),
        predicate => attributes.names().contains_key(name_of(predicate)) && admits(
            predicate,
            attributes.kinds()[attributes.names()[name_of(predicate)]@ as int],
        ),
    }
}

/// Whether the list is the canonical list of the written items, texts taken
/// by their ids in the table.
pub open spec fn holds_items(list: ListLiteral, items: ItemsView, table: Map<Seq<char>, usize>) -> bool {
    &&& list.is_canonical()
    &&& match items {
        ItemsView::Integers(values) => list is IntegerList && forall|rank: int|
            list.items().contains(rank) == exists|i: int|
                0 <= i < values.len() && #[trigger] values[i] == rank,
        ItemsView::Texts(values) => list is StringList && (forall|i: int|
            0 <= i < values.len() ==> table.contains_key(#[trigger] values[i])) && forall|
            rank: int,
        |
            list.items().contains(rank) == exists|i: int|
                0 <= i < values.len() && table[#[trigger] values[i]] == rank,
    }
}

/// Whether the kind of predicate is what the written predicate says, texts
/// taken by their ids in the table and lists in canonical form.
pub open spec fn kind_means(kind: PredicateKind, view: ClauseView, table: Map<Seq<char>, usize>) -> bool {
    match view {
        ClauseView::Variable(_) => kind == PredicateKind::Variable,
        ClauseView::Null(_, operator) => kind == PredicateKind::Null(operator),
        ClauseView::Comparison(_, operator, value) => kind == PredicateKind::Comparison(
            operator,
            value,
        ),
        ClauseView::Equality(_, operator, LiteralView::Integer(value)) => kind
            == PredicateKind::Equality(operator, PrimitiveLiteral::Integer(value)),
        ClauseView::Equality(_, operator, LiteralView::Float(value)) => kind
            == PredicateKind::Equality(operator, PrimitiveLiteral::Float(value)),
        ClauseView::Equality(_, operator, LiteralView::Text(value)) => table.contains_key(value)
            && kind == PredicateKind::Equality(
            operator,
            PrimitiveLiteral::String(StringId(table[value])),
        ),
        ClauseView::Membership(_, operator, items) => kind matches PredicateKind::Membership(
            found,
            list,
        ) && found == operator && holds_items(list, items, table),
        ClauseView::List(_, operator, items) => kind matches PredicateKind::List(found, list)
            && found == operator && holds_items(list, items, table),
        _ => false,
    }
}

/// Whether the expression is what the written expression says of the
/// attributes of the table.
pub open spec fn means(
    node: Node,
    view: ClauseView,
    attributes: &AttributeTable,
    table: Map<Seq<char>, usize>,
) -> bool
    decreases node,
{
    match node {
        Node::And(left, right) => view matches ClauseView::And(first, second) && means(
            *left,
            *first,
            attributes,
            table,
        ) && means(*right, *second, attributes, table),
        Node::Or(left, right) => view matches ClauseView::Or(first, second) && means(
            *left,
            *first,
            attributes,
            table,
        ) && means(*right, *second, attributes, table),
        Node::Not(inner) => view matches ClauseView::Not(written) && means(
            *inner,
            *written,
            attributes,
            table,
        ),
        Node::Value(predicate) => attributes.names().contains_key(name_of(view))
            && predicate.attribute() == attributes.names()[name_of(view)] && kind_means(
            predicate.kind(),
            view,
            table,
        ),
    }
}

/// An expression keeps its meaning when strings are added to the table.
pub proof fn lemma_means_extends(
    node: Node,
    view: ClauseView,
    attributes: &AttributeTable,
    before: Map<Seq<char>, usize>,
    after: Map<Seq<char>, usize>,
)
    requires
        means(node, view, attributes, before),
        extends(before, after),
    ensures
        means(node, view, attributes, after),
    decreases node,
{
    match node {
        Node::And(left, right) => {
            lemma_means_extends(*left, *view->And_0, attributes, before, after);
            lemma_means_extends(*right, *view->And_1, attributes, before, after);
        },
        Node::Or(left, right) => {
            lemma_means_extends(*left, *view->Or_0, attributes, before, after);
            lemma_means_extends(*right, *view->Or_1, attributes, before, after);
        },
        Node::Not(inner) => {
            lemma_means_extends(*inner, *view->Not_0, attributes, before, after);
        },
        Node::Value(predicate) => {
            match view {
                ClauseView::Membership(_, _, ItemsView::Texts(values)) => {
                    lemma_items_extend(predicate.kind()->Membership_1, values, before, after);
                },
                ClauseView::List(_, _, ItemsView::Texts(values)) => {
                    lemma_items_extend(predicate.kind()->List_1, values, before, after);
                },
                _ => {},
            }
        },
    }
}

proof fn lemma_items_extend(
    list: ListLiteral,
    values: Seq<Seq<char>>,
    before: Map<Seq<char>, usize>,
    after: Map<Seq<char>, usize>,
)
    requires
        holds_items(list, ItemsView::Texts(values), before),
        extends(before, after),
    ensures
        holds_items(list, ItemsView::Texts(values), after),
{
    assert forall|rank: int|
        list.items().contains(rank) == exists|i: int|
            0 <= i < values.len() && after[#[trigger] values[i]] == rank by {
        if list.items().contains(rank) {
            let i = choose|i: int| 0 <= i < values.len() && before[#[trigger] values[i]] == rank;
            assert(after[values[i]] == rank);
        }
        if exists|i: int| 0 <= i < values.len() && after[#[trigger] values[i]] == rank {
            let i = choose|i: int| 0 <= i < values.len() && after[#[trigger] values[i]] == rank;
            assert(before[values[i]] == rank);
        }
    }
}

/// The list of the written items, texts interned and taken by their ids.
fn intern_items(items: Items, strings: &mut StringTable) -> (list: ListLiteral)
    requires
        old(strings).wf(),
    ensures
        final(strings).wf(),
        extends(old(strings)@, final(strings)@),
        match items@ {
            ItemsView::Integers(values) => list matches ListLiteral::IntegerList(found)
                && found@ == values,
            ItemsView::Texts(values) => list matches ListLiteral::StringList(found) && found@.len()
                == values.len() && forall|i: int|
                0 <= i < values.len() ==> final(strings)@.contains_key(#[trigger] values[i])
                    && found@[i]@ == final(strings)@[values[i]],
        },
{
    match items {
        Items::Integers(values) => ListLiteral::IntegerList(values),
        Items::Texts(values) => {
            let mut ids: Vec<StringId> = Vec::with_capacity(values.len());
            let mut i: usize = 0;
            while i < values.len()
                invariant
                    i <= values.len(),
                    ids.len() == i,
                    strings.wf(),
                    extends(old(strings)@, strings@),
                    forall|k: int|
                        0 <= k < i ==> strings@.contains_key(#[trigger] values[k]@) && ids@[k]@
                            == strings@[values[k]@],
                decreases values.len() - i,
            {
                let id = strings.get_or_update(values[i].as_str());
                ids.push(id);
                i += 1;
            }
            ListLiteral::StringList(ids)
        },
    }
}

/// The canonical list holds the written items.
proof fn lemma_holds_items(
    list: ListLiteral,
    built: ListLiteral,
    items: ItemsView,
    table: Map<Seq<char>, usize>,
)
    requires
        list.canonical_of(built),
        match items {
            ItemsView::Integers(values) => built matches ListLiteral::IntegerList(found)
                && found@ == values,
            ItemsView::Texts(values) => built matches ListLiteral::StringList(found) && found@.len()
                == values.len() && forall|i: int|
                0 <= i < values.len() ==> table.contains_key(#[trigger] values[i]) && found@[i]@
                    == table[values[i]],
        },
    ensures
        holds_items(list, items, table),
{
    match items {
        ItemsView::Integers(values) => {
            let found = built->IntegerList_0;
            assert forall|rank: int|
                list.items().contains(rank) == exists|i: int|
                    0 <= i < values.len() && #[trigger] values[i] == rank by {
                if built.items().contains(rank) {
                    let i = choose|i: int| 0 <= i < built.items().len() && built.items()[i] == rank;
                    assert(values[i] == rank);
                }
                if exists|i: int| 0 <= i < values.len() && #[trigger] values[i] == rank {
                    let i = choose|i: int| 0 <= i < values.len() && #[trigger] values[i] == rank;
                    assert(built.items()[i] == rank);
                }
            }
        },
        ItemsView::Texts(values) => {
            let found = built->StringList_0;
            assert forall|rank: int|
                list.items().contains(rank) == exists|i: int|
                    0 <= i < values.len() && table[#[trigger] values[i]] == rank by {
                if built.items().contains(rank) {
                    let i = choose|i: int| 0 <= i < built.items().len() && built.items()[i] == rank;
                    assert(table[values[i]] == rank);
                }
                if exists|i: int| 0 <= i < values.len() && table[#[trigger] values[i]] == rank {
                    let i = choose|i: int|
                        0 <= i < values.len() && table[#[trigger] values[i]] == rank;
                    assert(built.items()[i] == rank);
                }
            }
        },
    }
}

/// The first predicate of a written expression, in the order of writing,
/// that does not fit the attributes: its name, and whether there is no
/// attribute of that name.
pub open spec fn misfit(view: ClauseView, attributes: &AttributeTable) -> Option<(Seq<char>, bool)>
    decreases view,
{
    match view {
        ClauseView::And(left, right) => match misfit(*left, attributes) {
            Some(found) => Some(found),
            None => misfit(*right, attributes),
        },
        ClauseView::Or(left, right) => match misfit(*left, attributes) {
            Some(found) => Some(found),
            None => misfit(*right, attributes),
        },
        ClauseView::Not(inner) => misfit(*inner, attributes),
        predicate => if !attributes.names().contains_key(name_of(predicate)) {
            Some((name_of(predicate), true))
        } else if !admits(
            predicate,
            attributes.kinds()[attributes.names()[name_of(predicate)]@ as int],
        ) {
            Some((name_of(predicate), false))
        } else {
            None
        },
    }
}

/// Whether the outcome of resolving a written expression is the one that its
/// types ask for: the expression that it means if every predicate fits its
/// attribute, and otherwise an error for the first predicate that does not,
/// with the name of its attribute, which is missing or does not admit the
/// predicate.
pub open spec fn resolved(
    outcome: Result<Node, EventError>,
    view: ClauseView,
    attributes: &AttributeTable,
    table: Map<Seq<char>, usize>,
) -> bool {
    match outcome {
        Ok(node) => typed(view, attributes) && misfit(view, attributes) is None && means(
            node,
            view,
            attributes,
            table,
        ) && node.valid_for(attributes.kinds()),
        Err(EventError::NonExistingAttribute(name)) => !typed(view, attributes) && misfit(
            view,
            attributes,
        ) == Some((name@, true)),
        Err(EventError::MismatchingTypes { name, expected, actual }) => !typed(view, attributes)
            && misfit(view, attributes) == Some((name@, false)) && expected
            == attributes.kinds()[attributes.names()[name@]@ as int],
        Err(_) => false,
    }
}

/// The predicate that a written predicate means.
fn resolve_predicate(
    name: String,
    kind: PredicateKind,
    attributes: &AttributeTable,
    Ghost(view): Ghost<ClauseView>,
    Ghost(table): Ghost<Map<Seq<char>, usize>>,
) -> (outcome: Result<Node, EventError>)
    requires
        attributes.wf(),
        name@ == name_of(view),
        !(view is And) && !(view is Or) && !(view is Not),
        forall|attribute: AttributeKind| kind.applies_to(attribute) == admits(view, attribute),
        forall|canonical: PredicateKind|
            canonical.canonical_of(kind) ==> kind_means(canonical, view, table),
    ensures
        resolved(outcome, view, attributes, table),
{
    match Predicate::new(attributes, name.as_str(), kind) {
        Ok(predicate) => Ok(Node::Value(predicate)),
        Err(error) => Err(error),
    }
}

/// The expression that a written expression means for the attributes of the
/// table. The strings that it mentions are interned.
pub fn resolve(clause: Clause, attributes: &AttributeTable, strings: &mut StringTable) -> (outcome:
    Result<Node, EventError>)
    requires
        attributes.wf(),
        old(strings).wf(),
    ensures
        final(strings).wf(),
        extends(old(strings)@, final(strings)@),
        resolved(outcome, clause.shape(), attributes, final(strings)@),
    decreases clause,
{
    let ghost view = clause.shape();
    match clause {
        Clause::And(left, right) => {
            let first = resolve(*left, attributes, strings)?;
            let ghost between = strings@;
            let second = resolve(*right, attributes, strings)?;
            proof {
                lemma_means_extends(first, *view->And_0, attributes, between, strings@);
            }
            Ok(Node::And(Box::new(first), Box::new(second)))
        },
        Clause::Or(left, right) => {
            let first = resolve(*left, attributes, strings)?;
            let ghost between = strings@;
            let second = resolve(*right, attributes, strings)?;
            proof {
                lemma_means_extends(first, *view->Or_0, attributes, between, strings@);
            }
            Ok(Node::Or(Box::new(first), Box::new(second)))
        },
        Clause::Not(inner) => {
            let inner = resolve(*inner, attributes, strings)?;
            Ok(Node::Not(Box::new(inner)))
        },
        Clause::Variable(name) => resolve_predicate(
            name,
            PredicateKind::Variable,
            attributes,
            Ghost(view),
            Ghost(strings@),
        ),
        Clause::Null(name, operator) => resolve_predicate(
            name,
            PredicateKind::Null(operator),
            attributes,
            Ghost(view),
            Ghost(strings@),
        ),
        Clause::Comparison(name, operator, value) => resolve_predicate(
            name,
            PredicateKind::Comparison(operator, value),
            attributes,
            Ghost(view),
            Ghost(strings@),
        ),
        Clause::Equality(name, operator, literal) => {
            let literal = match literal {
                Literal::Integer(value) => PrimitiveLiteral::Integer(value),
                Literal::Float(value) => PrimitiveLiteral::Float(value),
                Literal::Text(value) => PrimitiveLiteral::String(
                    strings.get_or_update(value.as_str()),
                ),
            };
            resolve_predicate(
                name,
                PredicateKind::Equality(operator, literal),
                attributes,
                Ghost(view),
                Ghost(strings@),
            )
        },
        Clause::Membership(name, operator, items) => {
            let ghost written = items@;
            let list = intern_items(items, strings);
            proof {
                assert forall|canonical: PredicateKind|
                    canonical.canonical_of(
                        PredicateKind::Membership(operator, list),
                    ) implies kind_means(canonical, view, strings@) by {
                    lemma_holds_items(canonical->Membership_1, list, written, strings@);
                }
            }
            resolve_predicate(
                name,
                PredicateKind::Membership(operator, list),
                attributes,
                Ghost(view),
                Ghost(strings@),
            )
        },
        Clause::List(name, operator, items) => {
            let ghost written = items@;
            let list = intern_items(items, strings);
            proof {
                assert forall|canonical: PredicateKind|
                    canonical.canonical_of(PredicateKind::List(operator, list)) implies kind_means(
                    canonical,
                    view,
                    strings@,
                ) by {
                    lemma_holds_items(canonical->List_1, list, written, strings@);
                }
            }
            resolve_predicate(
                name,
                PredicateKind::List(operator, list),
                attributes,
                Ghost(view),
                Ghost(strings@),
            )
        },
    }
}

/// Whether the tokens are those of the text, all of it.
pub open spec fn tokens_of(input: Seq<char>, tokens: Tokens) -> bool {
    lexed(input, tokens) && spaces_end(input, end_of(tokens)) == input.len()
}

/// Whether the outcome of parsing is the one that the text asks for. A text
/// that is not made of tokens is refused with the reason. Tokens that are no
/// expression are refused with the place of the first token that cannot
/// stand where it does, or with the length of the text if they end too
/// early. An expression that does not fit the attributes is refused with
/// the attribute that is missing or that does not admit its predicate.
/// Every other text gives the expression that it means.
pub open spec fn parsed(
    outcome: Result<Node, ATreeParseError>,
    input: Seq<char>,
    attributes: &AttributeTable,
    table: Map<Seq<char>, usize>,
) -> bool {
    match outcome {
        Err(ATreeParseError::User { error: ParserError::Lexical(error) }) => exists|tokens: Tokens|
            #![trigger lexed(input, tokens)]
            lexed(input, tokens) && spaces_end(input, end_of(tokens)) < input.len() && fails(
                error,
                input,
                spaces_end(input, end_of(tokens)),
            ),
        Err(ATreeParseError::UnrecognizedEof { location }) => exists|tokens: Tokens|
            #![trigger tokens_of(input, tokens)]
            tokens_of(input, tokens) && syntax(tokens) == Err::<ClauseView, int>(
                tokens.len() as int,
            ) && location == input.len(),
        Err(ATreeParseError::UnrecognizedToken { location }) => exists|tokens: Tokens|
            #![trigger tokens_of(input, tokens)]
            tokens_of(input, tokens) && (syntax(tokens) matches Err(place) && 0 <= place
                < tokens.len() && location == tokens[place].0),
        Err(ATreeParseError::User { error: ParserError::Event(error) }) => exists|tokens: Tokens|
            #![trigger tokens_of(input, tokens)]
            tokens_of(input, tokens) && (syntax(tokens) matches Ok(view) && resolved(
                Err(error),
                view,
                attributes,
                table,
            )),
        Ok(node) => exists|tokens: Tokens|
            #![trigger tokens_of(input, tokens)]
            tokens_of(input, tokens) && (syntax(tokens) matches Ok(view) && resolved(
                Ok(node),
                view,
                attributes,
                table,
            )),
    }
}

/// Reads a text as an expression over the attributes of the table. The
/// strings that the expression mentions are interned; the places in an
/// error count characters.
#[inline]
pub fn parse(input: &str, attributes: &AttributeTable, strings: &mut StringTable) -> (outcome:
    Result<Node, ATreeParseError>)
    requires
        attributes.wf(),
        old(strings).wf(),
    ensures
        final(strings).wf(),
        extends(old(strings)@, final(strings)@),
        parsed(outcome, input@, attributes, final(strings)@),
        outcome matches Ok(node) ==> node.valid_for(attributes.kinds()),
{
    let tokens = match tokenize(input) {
        Ok(tokens) => tokens,
        Err(error) => {
            return Err(ATreeParseError::User { error });
        },
    };
    assert(tokens_of(input@, tokens@));
    let clause = match read(&tokens) {
        Ok(clause) => clause,
        Err(place) => {
            if place < tokens.len() {
                return Err(ATreeParseError::UnrecognizedToken { location: tokens[place].0 });
            } else {
                return Err(ATreeParseError::UnrecognizedEof { location: input.unicode_len() });
            }
        },
    };
    match resolve(clause, attributes, strings) {
        Ok(node) => Ok(node),
        Err(error) => Err(ATreeParseError::User { error: ParserError::Event(error) }),
    }
}

} // verus!
