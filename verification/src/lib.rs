//! A small text-template engine: a delimiter-aware lexer, a nested variable
//! store, and a renderer that substitutes placeholders by stored values.

use vstd::prelude::*;

pub mod pair;
pub mod render_strategy;
pub mod template;
pub mod text;

verus! {

/// A token of literal text.
pub struct TextToken {
    value: String,
}

impl View for TextToken {
    type V = Seq<char>;

    closed spec fn view(&self) -> Seq<char> {
        self.value@
    }
}

impl TextToken {
    /// The token that holds `value`.
    pub fn new(value: String) -> (token: Self)
        ensures
            token@ == value@,
    {
        Self { value }
    }

    /// The text that the token holds.
    pub fn value(&self) -> (value: &str)
        ensures
            value@ == self@,
    {
        self.value.as_str()
    }
}

/// The token of a brace that may begin a marker.
pub struct StatementStartToken {}

impl View for StatementStartToken {
    type V = Seq<char>;

    open spec fn view(&self) -> Seq<char> {
        seq!['{']
    }
}

impl StatementStartToken {
    /// The token.
    pub fn new() -> (token: Self) {
        Self {  }
    }

    /// The brace for which the token stands.
    pub fn value(&self) -> (value: &str)
        ensures
            value@ == self@,
    {
        let value = "{";
        proof {
            reveal_strlit("{");
            assert(value@ =~= seq!['{']);
        }
        value
    }
}

/// One of the two tokens with which a token stream begins.
pub enum LeadingToken {
    /// Literal text.
    Text(TextToken),
    /// A brace that may begin a marker.
    StatementStart(StatementStartToken),
}

impl View for LeadingToken {
    type V = Seq<char>;

    open spec fn view(&self) -> Seq<char> {
        match self {
            LeadingToken::Text(token) => token@,
            LeadingToken::StatementStart(token) => token@,
        }
    }
}

impl LeadingToken {
    /// The text for which the token stands.
    pub fn value(&self) -> (value: &str)
        ensures
            value@ == self@,
    {
        match self {
            LeadingToken::Text(token) => token.value(),
            LeadingToken::StatementStart(token) => token.value(),
        }
    }
}

/// The two tokens with which the token stream of every template begins,
/// whatever the template holds: a text token without text, then the token
/// of a brace.
pub fn tokenize(template: String) -> (tokens: Vec<LeadingToken>)
    ensures
        tokens@.len() == 2,
        tokens@[0] is Text,
        tokens@[0]@ == Seq::<char>::empty(),
        tokens@[1] is StatementStart,
{
    let mut tokens: Vec<LeadingToken> = Vec::new();
    tokens.push(LeadingToken::Text(TextToken::new(String::new())));
    tokens.push(LeadingToken::StatementStart(StatementStartToken::new()));
    tokens
}

} // verus!
