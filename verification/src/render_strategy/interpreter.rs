//! The lexer: a left-to-right scan that cuts a template into literal text,
//! expression placeholders (`{{ .. }}`) and statement placeholders
//! (`{% .. %}`).

use crate::template::Context;
use crate::text::{
    all_whitespace, collect, lemma_trim_idempotent, lemma_trim_padding, trim, trimmed,
};
use vstd::prelude::*;
use vstd::std_specs::iter::IteratorSpec;

verus! {

/// A classified fragment of a scanned template.
#[derive(Debug, PartialEq, Clone)]
pub enum Token {
    /// A substitution placeholder; holds its content without the whitespace
    /// around it.
    Expression(String),
    /// A control placeholder; holds its content without the whitespace around
    /// it.
    Statement(String),
    /// Literal text, exactly as scanned.
    Text(String),
}

/// The mathematical value of a [`Token`].
pub ghost enum TokenView {
    Expression(Seq<char>),
    Statement(Seq<char>),
    Text(Seq<char>),
}

impl View for Token {
    type V = TokenView;

    open spec fn view(&self) -> TokenView {
        match self {
            Token::Expression(name) => TokenView::Expression(name@),
            Token::Statement(name) => TokenView::Statement(name@),
            Token::Text(content) => TokenView::Text(content@),
        }
    }
}

impl DeepView for Token {
    type V = TokenView;

    open spec fn deep_view(&self) -> TokenView {
        self@
    }
}

/// Where the scan stands: in literal text, or inside a placeholder.
#[derive(Debug, PartialEq, Eq, Structural, Copy, Clone)]
pub enum TokenizerContext {
    /// Scanning literal text.
    Start,
    /// Between `{{` and the `}}` that closes it.
    InExpression,
    /// Between `{%` and the `%}` that closes it.
    InStatement,
}

/// The context in which the scan goes on once `first` and `second` are the
/// last two characters read in `context`.
pub open spec fn context_after(context: TokenizerContext, first: char, second: char)
    -> TokenizerContext {
    match context {
        TokenizerContext::Start => if first == '{' && second == '{' {
            TokenizerContext::InExpression
        } else if first == '{' && second == '%' {
            TokenizerContext::InStatement
        } else {
            TokenizerContext::Start
        },
        TokenizerContext::InExpression => if first == '}' && second == '}' {
            TokenizerContext::Start
        } else {
            TokenizerContext::InExpression
        },
        TokenizerContext::InStatement => if first == '%' && second == '}' {
            TokenizerContext::Start
        } else {
            TokenizerContext::InStatement
        },
    }
}

/// Whether `first` and `second` form a marker that ends the span scanned in
/// `context`: an opening marker in literal text, the matching closing marker
/// inside a placeholder.
pub open spec fn is_marker(context: TokenizerContext, first: char, second: char) -> bool {
    context_after(context, first, second) != context
}

/// The index at which the first marker of `context` begins in `s`, looking
/// from index `from` on; `s.len()` where there is none.
pub open spec fn next_marker(context: TokenizerContext, s: Seq<char>, from: int) -> int
    decreases s.len() - from,
{
    if from < 0 || from + 1 >= s.len() {
        s.len() as int
    } else if is_marker(context, s[from], s[from + 1]) {
        from
    } else {
        next_marker(context, s, from + 1)
    }
}

/// A span as a token, its content as it stands in the template: literal
/// text unless it is empty, and a placeholder whatever it holds.
pub open spec fn span_tokens(context: TokenizerContext, content: Seq<char>) -> Seq<TokenView> {
    match context {
        TokenizerContext::Start => if content.len() > 0 {
            seq![TokenView::Text(content)]
        } else {
            seq![]
        },
        TokenizerContext::InExpression => seq![TokenView::Expression(content)],
        TokenizerContext::InStatement => seq![TokenView::Statement(content)],
    }
}

/// The marker that opened the span scanned in `context`.
pub open spec fn opening_marker(context: TokenizerContext) -> Seq<char> {
    match context {
        TokenizerContext::Start => seq![],
        TokenizerContext::InExpression => seq!['{', '{'],
        TokenizerContext::InStatement => seq!['{', '%'],
    }
}

/// What the end of the input leaves: the unemitted characters become literal
/// text, those of an unclosed placeholder together with the marker that
/// opened it.
pub open spec fn rest_tokens(context: TokenizerContext, rest: Seq<char>) -> Seq<TokenView> {
    let text = opening_marker(context) + rest;
    if text.len() > 0 {
        seq![TokenView::Text(text)]
    } else {
        seq![]
    }
}

/// What is left of a span once the two characters of the marker that ended
/// it are taken off its end.
pub open spec fn without_marker(buffer: Seq<char>) -> Seq<char> {
    if buffer.len() >= 2 {
        buffer.take(buffer.len() - 2)
    } else {
        seq![]
    }
}

/// The spans of `s` as tokens, in order, each content as it stands in `s`.
/// `s` begins a span in `context`, of which the first `scanned` characters
/// have been read without meeting a marker.
///
/// A span ends at the first marker of its context, and the next one begins
/// behind that marker.
#[verifier::opaque]
pub open spec fn spans_from(context: TokenizerContext, s: Seq<char>, scanned: nat) -> Seq<
    TokenView,
>
    decreases s.len(),
{
    let at = next_marker(context, s, if scanned > 0 { scanned - 1 } else { 0 });
    if 0 <= at && at + 1 < s.len() {
        span_tokens(context, s.take(at)) + spans_from(
            context_after(context, s[at], s[at + 1]),
            s.skip(at + 2),
            0,
        )
    } else {
        rest_tokens(context, s)
    }
}

/// The spans of the template `s` as tokens, each content as it stands.
pub open spec fn spans_of(s: Seq<char>) -> Seq<TokenView> {
    spans_from(TokenizerContext::Start, s, 0)
}

/// The token as the lexer hands it out: a placeholder loses the whitespace
/// around its content, literal text stays as it is.
pub open spec fn stripped(token: TokenView) -> TokenView {
    match token {
        TokenView::Expression(content) => TokenView::Expression(trim(content)),
        TokenView::Statement(content) => TokenView::Statement(trim(content)),
        TokenView::Text(content) => TokenView::Text(content),
    }
}

/// Each of `tokens` as the lexer hands it out.
pub open spec fn stripped_all(tokens: Seq<TokenView>) -> Seq<TokenView> {
    tokens.map_values(|token: TokenView| stripped(token))
}

/// The tokens of `s`, which begins a span in `context` of which the first
/// `scanned` characters have been read without meeting a marker.
pub open spec fn tokens_from(context: TokenizerContext, s: Seq<char>, scanned: nat) -> Seq<
    TokenView,
> {
    stripped_all(spans_from(context, s, scanned))
}

/// The tokens of the template `s`.
pub open spec fn tokens_of(s: Seq<char>) -> Seq<TokenView> {
    tokens_from(TokenizerContext::Start, s, 0)
}

/// The tokens of a span are the token of its part before the first marker,
/// then the tokens of what follows that marker; without a marker, they are
/// what the end of the input leaves.
pub proof fn lemma_tokens_from_unfold(context: TokenizerContext, s: Seq<char>, scanned: nat)
    ensures
        ({
            let at = next_marker(context, s, if scanned > 0 { scanned - 1 } else { 0 });
            tokens_from(context, s, scanned) == if 0 <= at && at + 1 < s.len() {
                stripped_all(span_tokens(context, s.take(at))) + tokens_from(
                    context_after(context, s[at], s[at + 1]),
                    s.skip(at + 2),
                    0,
                )
            } else {
                rest_tokens(context, s)
            }
        }),
{
    reveal(spans_from);
    let at = next_marker(context, s, if scanned > 0 { scanned - 1 } else { 0 });
    if 0 <= at && at + 1 < s.len() {
        let head = span_tokens(context, s.take(at));
        let tail = spans_from(context_after(context, s[at], s[at + 1]), s.skip(at + 2), 0);
        assert(stripped_all(head + tail) =~= stripped_all(head) + stripped_all(tail));
    } else {
        assert(stripped_all(rest_tokens(context, s)) =~= rest_tokens(context, s));
    }
}

/// What reading one more character of a span does to its tokens. Where the
/// character completes a marker with the one before it, the span ends
/// before the marker and its token is followed by the tokens of what comes
/// after; else the span goes on.
pub proof fn lemma_scan_step(context: TokenizerContext, s: Seq<char>, scanned: nat)
    requires
        scanned < s.len(),
    ensures
        tokens_from(context, s, scanned) == if scanned >= 1 && is_marker(
            context,
            s[scanned - 1],
            s[scanned as int],
        ) {
            stripped_all(span_tokens(context, s.take(scanned - 1))) + tokens_from(
                context_after(context, s[scanned - 1], s[scanned as int]),
                s.skip(scanned as int + 1),
                0,
            )
        } else {
            tokens_from(context, s, scanned + 1)
        },
{
    lemma_tokens_from_unfold(context, s, scanned);
    lemma_tokens_from_unfold(context, s, scanned + 1);
    if scanned >= 1 {
        if is_marker(context, s[scanned - 1], s[scanned as int]) {
            assert(next_marker(context, s, scanned - 1) == scanned - 1);
        } else {
            assert(next_marker(context, s, scanned - 1) == next_marker(
                context,
                s,
                scanned as int,
            ));
        }
    }
}

/// Once a span is read to its end without a marker, its tokens are what the
/// end of the input leaves, and so are its spans.
pub proof fn lemma_scan_end(context: TokenizerContext, s: Seq<char>)
    ensures
        tokens_from(context, s, s.len()) == rest_tokens(context, s),
        spans_from(context, s, s.len()) == rest_tokens(context, s),
{
    reveal(spans_from);
    lemma_tokens_from_unfold(context, s, s.len());
}

/// What reading one more character of a span does to its spans: as for its
/// tokens, with each content as it stands.
pub proof fn lemma_span_step(context: TokenizerContext, s: Seq<char>, scanned: nat)
    requires
        scanned < s.len(),
    ensures
        spans_from(context, s, scanned) == if scanned >= 1 && is_marker(
            context,
            s[scanned - 1],
            s[scanned as int],
        ) {
            span_tokens(context, s.take(scanned - 1)) + spans_from(
                context_after(context, s[scanned - 1], s[scanned as int]),
                s.skip(scanned as int + 1),
                0,
            )
        } else {
            spans_from(context, s, scanned + 1)
        },
{
    reveal(spans_from);
    if scanned >= 1 {
        if is_marker(context, s[scanned - 1], s[scanned as int]) {
            assert(next_marker(context, s, scanned - 1) == scanned - 1);
        } else {
            assert(next_marker(context, s, scanned - 1) == next_marker(
                context,
                s,
                scanned as int,
            ));
        }
    }
}

/// A lexer over the characters that `template` yields.
pub struct Tokenizer<T: Iterator<Item = char>> {
    /// The characters read since the last token was made.
    pub buffer: Vec<char>,
    /// The context in which the buffer was read.
    pub current_context: TokenizerContext,
    /// The spans made so far, in scan order: the tokens with the content of
    /// each placeholder as it is written in the template.
    pub spans: Vec<Token>,
    /// The characters still to read.
    pub template: T,
    /// The tokens made so far, in scan order.
    pub tokens: Vec<Token>,
}

impl<T: Iterator<Item = char>> Tokenizer<T> {
    /// A lexer that has read nothing of `template` yet.
    pub fn new(template: T) -> (tokenizer: Self)
        ensures
            tokenizer.buffer@ == Seq::<char>::empty(),
            tokenizer.current_context == TokenizerContext::Start,
            tokenizer.spans@ == Seq::<Token>::empty(),
            tokenizer.template == template,
            tokenizer.tokens@ == Seq::<Token>::empty(),
    {
        Tokenizer {
            buffer: Vec::new(),
            current_context: TokenizerContext::Start,
            spans: Vec::new(),
            template,
            tokens: Vec::new(),
        }
    }

    /// The last two characters of the buffer, as far as it holds them.
    pub fn last_two_chars(&self) -> (pair: (Option<&char>, Option<&char>))
        ensures
            pair.0 == if self.buffer@.len() >= 2 {
                Some(&self.buffer@[self.buffer@.len() - 2])
            } else {
                None
            },
            pair.1 == if self.buffer@.len() >= 1 {
                Some(&self.buffer@.last())
            } else {
                None
            },
    {
        let len = self.buffer.len();
        if len > 1 {
            (Some(&self.buffer[len - 2]), Some(&self.buffer[len - 1]))
        } else if len == 1 {
            (None, Some(&self.buffer[len - 1]))
        } else {
            (None, None)
        }
    }

    /// The context in which the scan goes on after the character read last.
    pub fn detect_context(&self) -> (context: TokenizerContext)
        ensures
            context == if self.buffer@.len() >= 2 {
                context_after(
                    self.current_context,
                    self.buffer@[self.buffer@.len() - 2],
                    self.buffer@.last(),
                )
            } else {
                self.current_context
            },
    {
        match (self.current_context, self.last_two_chars()) {
            (TokenizerContext::Start, (Some('{'), Some('{'))) => TokenizerContext::InExpression,
            (TokenizerContext::InExpression, (Some('}'), Some('}'))) => TokenizerContext::Start,
            (TokenizerContext::Start, (Some('{'), Some('%'))) => TokenizerContext::InStatement,
            (TokenizerContext::InStatement, (Some('%'), Some('}'))) => TokenizerContext::Start,
            _ => self.current_context,
        }
    }

    /// Ends the span in the buffer at the marker that was read last: takes
    /// the marker's two characters off, makes the span's token, keeps the
    /// span as it is written, and empties the buffer.
    pub fn make_token(&mut self)
        ensures
            final(self).tokens.deep_view() == old(self).tokens.deep_view() + stripped_all(
                span_tokens(old(self).current_context, without_marker(old(self).buffer@)),
            ),
            final(self).spans.deep_view() == old(self).spans.deep_view() + span_tokens(
                old(self).current_context,
                without_marker(old(self).buffer@),
            ),
            final(self).buffer@ == Seq::<char>::empty(),
            final(self).current_context == old(self).current_context,
            final(self).template == old(self).template,
    {
        let ghost before = self.tokens.deep_view();
        let ghost written = self.spans.deep_view();
        self.buffer.pop();
        self.buffer.pop();
        assert(self.buffer@ =~= without_marker(old(self).buffer@));
        match self.current_context {
            TokenizerContext::Start => {
                if self.buffer.len() > 0 {
                    self.tokens.push(Token::Text(collect(&self.buffer)));
                    self.spans.push(Token::Text(collect(&self.buffer)));
                }
            },
            TokenizerContext::InExpression => {
                self.tokens.push(Token::Expression(trimmed(&self.buffer)));
                self.spans.push(Token::Expression(collect(&self.buffer)));
            },
            TokenizerContext::InStatement => {
                self.tokens.push(Token::Statement(trimmed(&self.buffer)));
                self.spans.push(Token::Statement(collect(&self.buffer)));
            },
        }
        assert(self.tokens.deep_view() =~= before + stripped_all(
            span_tokens(self.current_context, self.buffer@),
        ));
        assert(self.spans.deep_view() =~= written + span_tokens(
            self.current_context,
            self.buffer@,
        ));
        self.buffer.clear();
    }

    /// Ends the scan: what the buffer still holds becomes literal text, after
    /// the marker of a placeholder that was never closed, and the lexer
    /// stands in literal text again with an empty buffer.
    pub fn make_last_token(&mut self)
        ensures
            final(self).tokens.deep_view() == old(self).tokens.deep_view() + rest_tokens(
                old(self).current_context,
                old(self).buffer@,
            ),
            final(self).spans.deep_view() == old(self).spans.deep_view() + rest_tokens(
                old(self).current_context,
                old(self).buffer@,
            ),
            final(self).buffer@ == Seq::<char>::empty(),
            final(self).current_context == TokenizerContext::Start,
            final(self).template == old(self).template,
    {
        let ghost before = self.tokens.deep_view();
        let ghost written = self.spans.deep_view();
        let mut buffer_rest = String::new();
        match self.current_context {
            TokenizerContext::Start => {},
            TokenizerContext::InExpression => {
                buffer_rest.push('{');
                buffer_rest.push('{');
            },
            TokenizerContext::InStatement => {
                buffer_rest.push('{');
                buffer_rest.push('%');
            },
        }
        assert(buffer_rest@ =~= opening_marker(self.current_context));
        let mut i: usize = 0;
        while i < self.buffer.len()
            invariant
                i <= self.buffer.len(),
                buffer_rest@ == opening_marker(self.current_context) + self.buffer@.take(
                    i as int,
                ),
            decreases self.buffer.len() - i,
        {
            buffer_rest.push(self.buffer[i]);
            i += 1;
            assert(self.buffer@.take(i as int) =~= self.buffer@.take(i - 1).push(
                self.buffer@[i - 1],
            ));
            assert(buffer_rest@ =~= opening_marker(self.current_context) + self.buffer@.take(
                i as int,
            ));
        }
        assert(self.buffer@.take(self.buffer.len() as int) =~= self.buffer@);
        if self.current_context != TokenizerContext::Start || self.buffer.len() > 0 {
            self.tokens.push(Token::Text(buffer_rest.clone()));
            self.spans.push(Token::Text(buffer_rest));
        }
        assert(self.tokens.deep_view() =~= before + rest_tokens(
            self.current_context,
            self.buffer@,
        ));
        assert(self.spans.deep_view() =~= written + rest_tokens(
            self.current_context,
            self.buffer@,
        ));
        self.buffer.clear();
        self.current_context = TokenizerContext::Start;
    }

    /// Reads the template to its end and makes its tokens, and its spans as
    /// they are written.
    ///
    /// The template has to be an iterator that comes to an end.
    pub fn tokenize(&mut self)
        requires
            old(self).template.obeys_prophetic_iter_laws(),
            old(self).template.decrease() is Some,
        ensures
            final(self).tokens.deep_view() == old(self).tokens.deep_view() + tokens_from(
                old(self).current_context,
                old(self).buffer@ + old(self).template.remaining(),
                old(self).buffer@.len(),
            ),
            final(self).spans.deep_view() == old(self).spans.deep_view() + spans_from(
                old(self).current_context,
                old(self).buffer@ + old(self).template.remaining(),
                old(self).buffer@.len(),
            ),
            final(self).buffer@ == Seq::<char>::empty(),
            final(self).current_context == TokenizerContext::Start,
            final(self).template.remaining() == Seq::<char>::empty(),
    {
        let ghost goal = self.tokens.deep_view() + tokens_from(
            self.current_context,
            self.buffer@ + self.template.remaining(),
            self.buffer@.len(),
        );
        let ghost source_goal = self.spans.deep_view() + spans_from(
            self.current_context,
            self.buffer@ + self.template.remaining(),
            self.buffer@.len(),
        );
        loop
            invariant
                self.template.obeys_prophetic_iter_laws(),
                self.template.decrease() is Some,
                self.tokens.deep_view() + tokens_from(
                    self.current_context,
                    self.buffer@ + self.template.remaining(),
                    self.buffer@.len(),
                ) == goal,
                self.spans.deep_view() + spans_from(
                    self.current_context,
                    self.buffer@ + self.template.remaining(),
                    self.buffer@.len(),
                ) == source_goal,
            ensures
                self.template.remaining() == Seq::<char>::empty(),
                self.tokens.deep_view() + rest_tokens(self.current_context, self.buffer@)
                    == goal,
                self.spans.deep_view() + rest_tokens(self.current_context, self.buffer@)
                    == source_goal,
            decreases self.template.decrease()->0,
        {
            let ghost span = self.buffer@ + self.template.remaining();
            let ghost scanned = self.buffer@.len();
            let ghost made = self.tokens.deep_view();
            let ghost written = self.spans.deep_view();
            let ghost before = self.current_context;
            match self.template.next() {
                Some(char_value) => {
                    self.buffer.push(char_value);
                    proof {
                        assert(self.buffer@ + self.template.remaining() =~= span);
                        assert(self.buffer@ =~= span.take(scanned as int + 1));
                        lemma_scan_step(before, span, scanned);
                        lemma_span_step(before, span, scanned);
                    }
                    let context = self.detect_context();
                    if context != self.current_context {
                        proof {
                            assert(span.take(scanned - 1) =~= without_marker(self.buffer@));
                            assert(span.skip(scanned as int + 1) =~= self.template.remaining());
                        }
                        self.make_token();
                        self.current_context = context;
                        proof {
                            let rest = self.template.remaining();
                            assert(self.buffer@ + rest =~= rest);
                            let raw = span_tokens(before, span.take(scanned - 1));
                            let head = stripped_all(raw);
                            assert((made + head) + tokens_from(context, rest, 0) =~= made + (head
                                + tokens_from(context, rest, 0)));
                            assert((written + raw) + spans_from(context, rest, 0) =~= written + (
                            raw + spans_from(context, rest, 0)));
                        }
                    }
                },
                None => {
                    proof {
                        assert(self.template.remaining() =~= Seq::<char>::empty());
                        assert(span =~= self.buffer@);
                        lemma_scan_end(before, span);
                    }
                    break ;
                },
            }
        }
        self.make_last_token();
    }
}

/// The tokens of `template`, in the order in which they stand in it.
pub fn lex(template: &str) -> (tokens: Vec<Token>)
    ensures
        tokens.deep_view() == tokens_of(template@),
{
    let mut tokenizer = Tokenizer::new(template.chars());
    tokenizer.tokenize();
    assert(tokenizer.tokens.deep_view() =~= tokens_of(template@));
    tokenizer.tokens
}

/// The spans of `template` as tokens, in the order in which they stand in
/// it, the content of each placeholder as it is written.
pub fn scan(template: &str) -> (spans: Vec<Token>)
    ensures
        spans.deep_view() == spans_of(template@),
{
    let mut tokenizer = Tokenizer::new(template.chars());
    tokenizer.tokenize();
    assert(tokenizer.spans.deep_view() =~= spans_of(template@));
    tokenizer.spans
}

/// The interpreter strategy: it runs the lexer over an empty template and
/// gives out no text, whatever the template and the store hold.
#[allow(unused_variables)]
pub fn interpreter(template: String, context: Context) -> (output: String)
    ensures
        output@ == Seq::<char>::empty(),
{
    let mut tokenizer = Tokenizer::new("".chars());
    tokenizer.tokenize();
    String::new()
}

/// Where no marker of `context` begins at or after `from`, the search for
/// one ends at the end of `s`.
pub proof fn lemma_no_marker(context: TokenizerContext, s: Seq<char>, from: int)
    requires
        0 <= from,
        forall|i: int|
            from <= i && i + 1 < s.len() ==> !is_marker(context, #[trigger] s[i], s[i + 1]),
    ensures
        next_marker(context, s, from) == s.len(),
    decreases s.len() - from,
{
    if from + 1 < s.len() {
        assert(!is_marker(context, s[from], s[from + 1]));
        lemma_no_marker(context, s, from + 1);
    }
}

/// The search for a marker of `context` ends at the first index at which
/// one begins.
pub proof fn lemma_first_marker(context: TokenizerContext, s: Seq<char>, from: int, at: int)
    requires
        0 <= from <= at,
        at + 1 < s.len(),
        is_marker(context, s[at], s[at + 1]),
        forall|i: int| from <= i < at ==> !is_marker(context, #[trigger] s[i], s[i + 1]),
    ensures
        next_marker(context, s, from) == at,
    decreases at - from,
{
    if from < at {
        assert(!is_marker(context, s[from], s[from + 1]));
        lemma_first_marker(context, s, from + 1, at);
    }
}

/// Where the search for a marker ends before the end of `s`, a marker of
/// `context` begins there.
pub proof fn lemma_marker_found(context: TokenizerContext, s: Seq<char>, from: int)
    ensures
        ({
            let at = next_marker(context, s, from);
            0 <= at && at + 1 < s.len() ==> from <= at && is_marker(context, s[at], s[at + 1])
        }),
    decreases s.len() - from,
{
    if !(from < 0 || from + 1 >= s.len()) && !is_marker(context, s[from], s[from + 1]) {
        lemma_marker_found(context, s, from + 1);
    }
}

/// Whether `first` and `second` form a marker that opens a placeholder.
pub open spec fn opens_placeholder(first: char, second: char) -> bool {
    first == '{' && (second == '{' || second == '%')
}

/// A span in which no marker of its context occurs is literal text as a
/// whole: so is a placeholder that is never closed, together with the
/// marker that opened it.
pub proof fn lemma_unclosed_span(context: TokenizerContext, s: Seq<char>)
    requires
        forall|i: int|
            0 <= i && i + 1 < s.len() ==> !is_marker(context, #[trigger] s[i], s[i + 1]),
    ensures
        tokens_from(context, s, 0) == rest_tokens(context, s),
{
    lemma_no_marker(context, s, 0);
    lemma_tokens_from_unfold(context, s, 0);
}

/// The lexer hands out a token as it would hand it out again: to strip a
/// stripped token changes nothing.
pub proof fn lemma_stripped_idempotent(token: TokenView)
    ensures
        stripped(stripped(token)) == stripped(token),
{
    match token {
        TokenView::Expression(content) => lemma_trim_idempotent(content),
        TokenView::Statement(content) => lemma_trim_idempotent(content),
        TokenView::Text(_) => {},
    }
}

/// A template that is not empty and in which no opening marker occurs is
/// one token of literal text, the template itself.
pub proof fn lemma_literal_template(s: Seq<char>)
    requires
        s.len() > 0,
        forall|i: int| 0 <= i && i + 1 < s.len() ==> !opens_placeholder(#[trigger] s[i], s[i + 1]),
    ensures
        tokens_of(s) == seq![TokenView::Text(s)],
{
    lemma_unclosed_span(TokenizerContext::Start, s);
    assert(opening_marker(TokenizerContext::Start) + s =~= s);
}

/// An expression placeholder alone in a template is one expression token,
/// and whitespace around its content changes nothing: the token holds the
/// trimmed content whatever padding stands on either side of it.
pub proof fn lemma_padded_expression(before: Seq<char>, name: Seq<char>, after: Seq<char>)
    requires
        all_whitespace(before),
        all_whitespace(after),
        forall|i: int| 0 <= i < name.len() ==> name[i] != '}',
    ensures
        tokens_of(seq!['{', '{'] + before + name + after + seq!['}', '}']) == seq![
            TokenView::Expression(trim(name)),
        ],
{
    let content = before + name + after;
    let inner = content + seq!['}', '}'];
    let s = seq!['{', '{'] + before + name + after + seq!['}', '}'];
    assert(s =~= seq!['{', '{'] + inner);
    // The opening marker stands at the very start.
    lemma_tokens_from_unfold(TokenizerContext::Start, s, 0);
    assert(next_marker(TokenizerContext::Start, s, 0) == 0);
    assert(s.take(0) =~= Seq::<char>::empty());
    assert(s.skip(2) =~= inner);
    assert(stripped_all(span_tokens(TokenizerContext::Start, s.take(0))) =~= Seq::<
        TokenView,
    >::empty());
    // The closing marker is the first one behind the content.
    assert forall|i: int| 0 <= i < content.len() implies #[trigger] content[i] != '}' by {
        if i < before.len() {
            assert(content[i] == before[i]);
        } else if i < before.len() + name.len() {
            assert(content[i] == name[i - before.len()]);
        } else {
            assert(content[i] == after[i - before.len() - name.len()]);
        }
    }
    assert forall|i: int| 0 <= i < content.len() implies !is_marker(
        TokenizerContext::InExpression,
        #[trigger] inner[i],
        inner[i + 1],
    ) by {
        assert(inner[i] == content[i]);
    }
    lemma_first_marker(TokenizerContext::InExpression, inner, 0, content.len() as int);
    lemma_tokens_from_unfold(TokenizerContext::InExpression, inner, 0);
    assert(inner.take(content.len() as int) =~= content);
    assert(inner.skip(content.len() as int + 2) =~= Seq::<char>::empty());
    // Nothing is left behind the closing marker.
    lemma_tokens_from_unfold(TokenizerContext::Start, Seq::<char>::empty(), 0);
    assert(opening_marker(TokenizerContext::Start) + Seq::<char>::empty() =~= Seq::<
        char,
    >::empty());
    lemma_trim_padding(before, name, after);
    assert(stripped_all(span_tokens(TokenizerContext::InExpression, content)) =~= seq![
        TokenView::Expression(trim(name)),
    ]);
    assert(tokens_of(s) =~= seq![TokenView::Expression(trim(name))]);
}

/// The text for which a token stands in a template: literal text itself, a
/// placeholder's content between its markers.
pub open spec fn source(token: TokenView) -> Seq<char> {
    match token {
        TokenView::Expression(content) => seq!['{', '{'] + content + seq!['}', '}'],
        TokenView::Statement(content) => seq!['{', '%'] + content + seq!['%', '}'],
        TokenView::Text(content) => content,
    }
}

/// The text for which `tokens` stand, one after the other.
pub open spec fn source_of(tokens: Seq<TokenView>) -> Seq<char>
    decreases tokens.len(),
{
    if tokens.len() == 0 {
        seq![]
    } else {
        source(tokens.first()) + source_of(tokens.drop_first())
    }
}

/// The text of a single token is the text for which it stands.
pub proof fn lemma_source_of_one(tokens: Seq<TokenView>)
    requires
        tokens.len() == 1,
    ensures
        source_of(tokens) == source(tokens[0]),
{
    assert(tokens.drop_first() =~= Seq::<TokenView>::empty());
    assert(source_of(tokens.drop_first()) =~= Seq::<char>::empty());
    assert(source(tokens[0]) + Seq::<char>::empty() =~= source(tokens[0]));
}

/// The text of two token sequences in a row is the text of the first
/// followed by that of the second.
pub proof fn lemma_source_of_concat(a: Seq<TokenView>, b: Seq<TokenView>)
    ensures
        source_of(a + b) == source_of(a) + source_of(b),
    decreases a.len(),
{
    if a.len() == 0 {
        assert(a + b =~= b);
        assert(source_of(a) + source_of(b) =~= source_of(b));
    } else {
        assert((a + b).first() == a.first());
        assert((a + b).drop_first() =~= a.drop_first() + b);
        lemma_source_of_concat(a.drop_first(), b);
        assert(source(a.first()) + (source_of(a.drop_first()) + source_of(b)) =~= (source(
            a.first(),
        ) + source_of(a.drop_first())) + source_of(b));
    }
}

/// The spans of a template, put back between their markers and joined in
/// order, are the template: nothing of the input is lost or moved, whether
/// its markers are closed or not.
pub proof fn lemma_spans_rebuild(context: TokenizerContext, s: Seq<char>, scanned: nat)
    ensures
        source_of(spans_from(context, s, scanned)) == opening_marker(context) + s,
    decreases s.len(),
{
    reveal(spans_from);
    let at = next_marker(context, s, if scanned > 0 { scanned - 1 } else { 0 });
    if 0 <= at && at + 1 < s.len() {
        lemma_marker_found(context, s, if scanned > 0 { scanned - 1 } else { 0 });
        let next = context_after(context, s[at], s[at + 1]);
        let head = span_tokens(context, s.take(at));
        let tail = spans_from(next, s.skip(at + 2), 0);
        lemma_spans_rebuild(next, s.skip(at + 2), 0);
        lemma_source_of_concat(head, tail);
        if head.len() > 0 {
            lemma_source_of_one(head);
        }
        assert(s =~= s.take(at) + seq![s[at], s[at + 1]] + s.skip(at + 2));
        if context == TokenizerContext::Start {
            assert(source_of(head) =~= s.take(at));
            assert(opening_marker(next) =~= seq![s[at], s[at + 1]]);
            assert(source_of(head) + source_of(tail) =~= opening_marker(context) + s);
        } else {
            assert(next == TokenizerContext::Start);
            assert(source_of(tail) =~= s.skip(at + 2));
            assert(source_of(head) =~= opening_marker(context) + s.take(at) + seq![
                s[at],
                s[at + 1],
            ]);
            assert(source_of(head) + source_of(tail) =~= opening_marker(context) + s);
        }
    } else {
        let rest = rest_tokens(context, s);
        if rest.len() > 0 {
            lemma_source_of_one(rest);
        } else {
            assert(opening_marker(context) + s =~= Seq::<char>::empty());
        }
    }
}

/// Whether no placeholder of the template `s` has whitespace around its
/// content.
pub open spec fn contents_are_trimmed(s: Seq<char>) -> bool {
    forall|i: int| 0 <= i < spans_of(s).len() ==> stripped(#[trigger] spans_of(s)[i]) == spans_of(s)[i]
}

/// The tokens of a template in which no placeholder has whitespace around
/// its content, each put back between its markers and joined in order, are
/// the template.
pub proof fn lemma_tokens_rebuild(s: Seq<char>)
    requires
        contents_are_trimmed(s),
    ensures
        source_of(tokens_of(s)) == s,
{
    assert(tokens_of(s) =~= spans_of(s));
    lemma_spans_rebuild(TokenizerContext::Start, s, 0);
    assert(opening_marker(TokenizerContext::Start) + s =~= s);
}

} // verus!
