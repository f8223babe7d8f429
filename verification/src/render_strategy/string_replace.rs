//! The renderer: literal text is copied, and each expression placeholder
//! gives way to the text of the value that its dotted name leads to.
//!
//! An expression whose name leads to no value stays in the output as it is
//! written in the template.

use crate::render_strategy::interpreter::{
    lemma_spans_rebuild, opening_marker, scan, source, source_of, spans_of, Token, TokenView,
    TokenizerContext,
};
use crate::template::{Context, TemplateVariable};
use crate::text::{decimal, decimal_text, trim, trimmed_text};
use vstd::prelude::*;
use vstd::std_specs::iter::IteratorSpec;

verus! {

/// Why a name could not be resolved.
#[derive(Debug, PartialEq, Eq, Clone)]
pub enum RenderError {
    /// This name leads to no value that has a text: a part of the name is
    /// not stored, a part before the last is no nested store, or the last
    /// part is one.
    UnresolvedKey(String),
}

/// The index of the first `.` of `path` at or after `from`; `path.len()`
/// where there is none.
pub open spec fn next_dot(path: Seq<char>, from: int) -> int
    decreases path.len() - from,
{
    if from < 0 || from >= path.len() {
        path.len() as int
    } else if path[from] == '.' {
        from
    } else {
        next_dot(path, from + 1)
    }
}

/// The parts of a dotted name: what stands before, between and behind its
/// dots. A name without a dot is its own single part.
pub open spec fn segments(path: Seq<char>) -> Seq<Seq<char>>
    decreases path.len(),
{
    let dot = next_dot(path, 0);
    if 0 <= dot < path.len() {
        seq![path.take(dot)] + segments(path.skip(dot + 1))
    } else {
        seq![path]
    }
}

/// Whether `s` holds no `.`.
pub open spec fn dotless(s: Seq<char>) -> bool {
    forall|i: int| 0 <= i < s.len() ==> #[trigger] s[i] != '.'
}

/// Behind a part without a dot, the search for a dot goes on in what
/// follows.
pub proof fn lemma_next_dot(part: Seq<char>, rest: Seq<char>, from: int)
    requires
        dotless(part),
        0 <= from <= part.len(),
    ensures
        next_dot(part + rest, from) == next_dot(part + rest, part.len() as int),
    decreases part.len() - from,
{
    if from < part.len() {
        assert((part + rest)[from] == part[from]);
        lemma_next_dot(part, rest, from + 1);
    }
}

/// The parts of the dotted name `path`, in order.
pub fn split(path: &str) -> (parts: Vec<String>)
    ensures
        parts.deep_view() == segments(path@),
{
    let mut parts: Vec<String> = Vec::new();
    let mut part = String::new();
    let mut chars = path.chars();
    loop
        invariant
            chars.obeys_prophetic_iter_laws(),
            chars.decrease() is Some,
            dotless(part@),
            parts.deep_view() + segments(part@ + chars.remaining()) == segments(path@),
        ensures
            parts.deep_view() + seq![part@] == segments(path@),
        decreases chars.decrease()->0,
    {
        let ghost rest = chars.remaining();
        let ghost made = parts.deep_view();
        let ghost read = part@;
        proof {
            lemma_next_dot(read, rest, 0);
            assert(rest.len() > 0 ==> (read + rest)[read.len() as int] == rest[0]);
        }
        match chars.next() {
            Some(c) => {
                if c == '.' {
                    proof {
                        assert((read + rest).take(read.len() as int) =~= read);
                        assert((read + rest).skip(read.len() as int + 1) =~= chars.remaining());
                    }
                    parts.push(part);
                    part = String::new();
                    proof {
                        assert(parts.deep_view() =~= made + seq![read]);
                        assert(part@ + chars.remaining() =~= chars.remaining());
                        assert((made + seq![read]) + segments(chars.remaining()) =~= made + (
                        seq![read] + segments(chars.remaining())));
                    }
                } else {
                    part.push(c);
                    proof {
                        assert(part@ + chars.remaining() =~= read + rest);
                    }
                }
            },
            None => {
                proof {
                    assert(read + rest =~= read);
                }
                break ;
            },
        }
    }
    proof {
        assert(parts.deep_view().push(part@) =~= parts.deep_view() + seq![part@]);
    }
    let ghost before = parts.deep_view();
    let ghost last = part@;
    parts.push(part);
    proof {
        assert(parts.deep_view() =~= before + seq![last]);
    }
    parts
}

/// The text of a stored value, for the kinds that have one: a nested store
/// has none.
pub open spec fn display_text(variable: TemplateVariable) -> Option<Seq<char>> {
    match variable {
        TemplateVariable::Boolean(value) => Some(
            if value {
                "true"@
            } else {
                "false"@
            },
        ),
        TemplateVariable::Displayable(text) => Some(text@),
        TemplateVariable::Double(text) => Some(text@),
        TemplateVariable::Integer(value) => Some(decimal(value as int)),
        TemplateVariable::String(text) => Some(text@),
        TemplateVariable::SubContext(_) => None,
    }
}

/// The text to which the parts of a name lead from `root`: each part but
/// the last names a nested store in the store before it, and the last
/// names a value that has a text.
pub open spec fn walk(root: Map<Seq<char>, TemplateVariable>, parts: Seq<Seq<char>>) -> Option<
    Seq<char>,
>
    decreases parts.len(),
{
    if parts.len() == 0 || !root.contains_key(parts[0]) {
        None
    } else if parts.len() == 1 {
        display_text(root[parts[0]])
    } else {
        match root[parts[0]] {
            TemplateVariable::SubContext(nested) => walk(nested@, parts.drop_first()),
            _ => None,
        }
    }
}

/// The text to which the dotted name `path` leads from `root`, if it leads
/// to one.
pub open spec fn resolved(path: Seq<char>, root: Map<Seq<char>, TemplateVariable>) -> Option<
    Seq<char>,
> {
    walk(root, segments(path))
}

/// The text of `variable`, if it is of a kind that has one.
pub fn display(variable: &TemplateVariable) -> (text: Option<String>)
    ensures
        match text {
            Some(shown) => display_text(*variable) == Some(shown@),
            None => display_text(*variable) is None,
        },
{
    match variable {
        TemplateVariable::Boolean(value) => Some(
            if *value {
                "true".to_owned()
            } else {
                "false".to_owned()
            },
        ),
        TemplateVariable::Displayable(text) => Some(text.clone()),
        TemplateVariable::Double(text) => Some(text.clone()),
        TemplateVariable::Integer(value) => Some(decimal_text(*value)),
        TemplateVariable::String(text) => Some(text.clone()),
        TemplateVariable::SubContext(_) => None,
    }
}

/// The text to which the dotted name `path` leads from `root`.
///
/// Fails with the name where it leads to none: a part of it is not stored,
/// a part before the last is no nested store, or the last part is one.
pub fn resolve(path: &str, root: &Context) -> (text: Result<String, RenderError>)
    ensures
        match text {
            Ok(shown) => resolved(path@, root@) == Some(shown@),
            Err(RenderError::UnresolvedKey(name)) => resolved(path@, root@) is None && name@
                == path@,
        },
{
    let parts = split(path);
    let mut store = root;
    let mut at: usize = 0;
    proof {
        assert(parts.deep_view().skip(0) =~= segments(path@));
        assert(segments(path@).len() >= 1);
    }
    let last = parts.len() - 1;
    while at < last
        invariant
            at <= last == parts.len() - 1,
            parts.deep_view().len() == parts.len(),
            walk(store@, parts.deep_view().skip(at as int)) == resolved(path@, root@),
        decreases last - at,
    {
        proof {
            assert(parts.deep_view().skip(at as int)[0] == parts[at as int]@);
            assert(parts.deep_view().skip(at as int).drop_first() =~= parts.deep_view().skip(
                at + 1,
            ));
        }
        match store.get(parts[at].as_str()) {
            Some(TemplateVariable::SubContext(nested)) => {
                store = nested;
            },
            _ => {
                return Err(RenderError::UnresolvedKey(path.to_owned()));
            },
        }
        at += 1;
    }
    proof {
        assert(parts.deep_view().skip(at as int)[0] == parts[at as int]@);
    }
    match store.get(parts[last].as_str()) {
        Some(variable) => match display(variable) {
            Some(shown) => Ok(shown),
            None => Err(RenderError::UnresolvedKey(path.to_owned())),
        },
        None => Err(RenderError::UnresolvedKey(path.to_owned())),
    }
}

/// What one span adds to the output: literal text as it is, a statement as
/// it is written between its markers, an expression as the text to which
/// its trimmed name leads. An expression whose name leads to no text stays
/// as it is written, markers and content.
pub open spec fn piece(token: TokenView, root: Map<Seq<char>, TemplateVariable>) -> Seq<char> {
    match token {
        TokenView::Expression(content) => match resolved(trim(content), root) {
            Some(shown) => shown,
            None => source(token),
        },
        TokenView::Statement(_) => source(token),
        TokenView::Text(content) => content,
    }
}

/// The output for `tokens`: the pieces of all of them, in order.
pub open spec fn rendered(tokens: Seq<TokenView>, root: Map<Seq<char>, TemplateVariable>) -> Seq<
    char,
>
    decreases tokens.len(),
{
    if tokens.len() == 0 {
        seq![]
    } else {
        piece(tokens.first(), root) + rendered(tokens.drop_first(), root)
    }
}

/// The output for `tokens` over the store `root`: literal text as it is,
/// each statement between its markers, and each expression as the text to
/// which its dotted name leads, or between its markers where the name leads
/// to none.
pub fn render(tokens: &Vec<Token>, root: &Context) -> (output: String)
    ensures
        output@ == rendered(tokens.deep_view(), root@),
{
    let mut output = String::new();
    let mut at: usize = 0;
    proof {
        assert(tokens.deep_view().skip(0) =~= tokens.deep_view());
        assert(Seq::<char>::empty() + rendered(tokens.deep_view(), root@) =~= rendered(
            tokens.deep_view(),
            root@,
        ));
    }
    while at < tokens.len()
        invariant
            at <= tokens.len(),
            tokens.deep_view().len() == tokens.len(),
            output@ + rendered(tokens.deep_view().skip(at as int), root@) == rendered(
                tokens.deep_view(),
                root@,
            ),
        decreases tokens.len() - at,
    {
        let ghost before = output@;
        let ghost rest = tokens.deep_view().skip(at as int);
        proof {
            assert(rest.first() == tokens[at as int]@);
            assert(rest.drop_first() =~= tokens.deep_view().skip(at + 1));
            assert((before + piece(rest.first(), root@)) + rendered(rest.drop_first(), root@)
                =~= before + (piece(rest.first(), root@) + rendered(rest.drop_first(), root@)));
        }
        match &tokens[at] {
            Token::Expression(content) => {
                let name = trimmed_text(content.as_str());
                match resolve(name.as_str(), root) {
                    Ok(shown) => {
                        output.append(shown.as_str());
                    },
                    Err(_) => {
                        output.push('{');
                        output.push('{');
                        output.append(content.as_str());
                        output.push('}');
                        output.push('}');
                        proof {
                            assert(output@ =~= before + source(tokens[at as int]@));
                        }
                    },
                }
            },
            Token::Statement(content) => {
                output.push('{');
                output.push('%');
                output.append(content.as_str());
                output.push('%');
                output.push('}');
                proof {
                    assert(output@ =~= before + source(tokens[at as int]@));
                }
            },
            Token::Text(content) => {
                output.append(content.as_str());
            },
        }
        at += 1;
    }
    proof {
        assert(tokens.deep_view().skip(at as int) =~= Seq::<TokenView>::empty());
        assert(output@ + Seq::<char>::empty() =~= output@);
    }
    output
}

/// A name whose first part is not stored in the root leads to no text.
pub proof fn lemma_absent_name(path: Seq<char>, root: Map<Seq<char>, TemplateVariable>)
    requires
        !root.contains_key(segments(path)[0]),
    ensures
        resolved(path, root) is None,
{
}

/// A name of several parts leads to no text where its first part names a
/// value that is no nested store.
pub proof fn lemma_not_a_store(root: Map<Seq<char>, TemplateVariable>, parts: Seq<Seq<char>>)
    requires
        parts.len() > 1,
        root.contains_key(parts[0]),
        !(root[parts[0]] is SubContext),
    ensures
        walk(root, parts) is None,
{
}

/// A name of several parts whose first part names a nested store leads
/// where its other parts lead from that store; so what holds of the first
/// part of a name holds of each part before the last.
pub proof fn lemma_walk_descends(
    root: Map<Seq<char>, TemplateVariable>,
    parts: Seq<Seq<char>>,
    nested: Context,
)
    requires
        parts.len() > 1,
        root.contains_key(parts[0]),
        root[parts[0]] == TemplateVariable::SubContext(nested),
    ensures
        walk(root, parts) == walk(nested@, parts.drop_first()),
{
}

/// A name whose last part names a nested store leads to no text.
pub proof fn lemma_store_has_no_text(root: Map<Seq<char>, TemplateVariable>, name: Seq<char>)
    requires
        root.contains_key(name),
        root[name] is SubContext,
    ensures
        walk(root, seq![name]) is None,
{
}

/// An expression whose name leads to no text stays in the output as it is
/// written: between its markers, with the whitespace around its name.
pub proof fn lemma_unresolved_stays(content: Seq<char>, root: Map<Seq<char>, TemplateVariable>)
    requires
        resolved(trim(content), root) is None,
    ensures
        piece(TokenView::Expression(content), root) == seq!['{', '{'] + content + seq!['}', '}'],
{
}

/// Whether no expression among `tokens` has a name that leads to a text.
pub open spec fn nothing_resolves(
    tokens: Seq<TokenView>,
    root: Map<Seq<char>, TemplateVariable>,
) -> bool {
    forall|i: int|
        0 <= i < tokens.len() ==> match #[trigger] tokens[i] {
            TokenView::Expression(content) => resolved(trim(content), root) is None,
            _ => true,
        }
}

/// Where no expression has a name that leads to a text, the output is the
/// text for which the tokens stand.
pub proof fn lemma_nothing_resolved(tokens: Seq<TokenView>, root: Map<Seq<char>, TemplateVariable>)
    requires
        nothing_resolves(tokens, root),
    ensures
        rendered(tokens, root) == source_of(tokens),
    decreases tokens.len(),
{
    if tokens.len() > 0 {
        assert(nothing_resolves(tokens.drop_first(), root)) by {
            assert forall|i: int| 0 <= i < tokens.drop_first().len() implies match #[trigger] tokens.drop_first()[i] {
                TokenView::Expression(content) => resolved(trim(content), root) is None,
                _ => true,
            } by {
                assert(tokens.drop_first()[i] == tokens[i + 1]);
            }
        }
        lemma_nothing_resolved(tokens.drop_first(), root);
        assert(piece(tokens[0], root) == source(tokens[0]));
    }
}

/// A template in which no expression has a name that leads to a text is
/// rendered as itself.
pub proof fn lemma_template_stays(s: Seq<char>, root: Map<Seq<char>, TemplateVariable>)
    requires
        nothing_resolves(spans_of(s), root),
    ensures
        rendered(spans_of(s), root) == s,
{
    lemma_nothing_resolved(spans_of(s), root);
    lemma_spans_rebuild(TokenizerContext::Start, s, 0);
    assert(opening_marker(TokenizerContext::Start) + s =~= s);
}

/// Over a store that holds nothing, every template is rendered as itself.
pub proof fn lemma_empty_store(s: Seq<char>)
    ensures
        rendered(spans_of(s), Map::<Seq<char>, TemplateVariable>::empty()) == s,
{
    let root = Map::<Seq<char>, TemplateVariable>::empty();
    assert forall|i: int| 0 <= i < spans_of(s).len() implies match #[trigger] spans_of(s)[i] {
        TokenView::Expression(content) => resolved(trim(content), root) is None,
        _ => true,
    } by {
        match spans_of(s)[i] {
            TokenView::Expression(content) => {
                assert(segments(trim(content)).len() >= 1);
            },
            _ => {},
        }
    }
    lemma_template_stays(s, root);
}

/// The output for the template over the store `context`: literal text and
/// statements as they are written, and each expression as the text to which
/// its dotted name leads. An expression whose name leads to no text stays
/// as it is written.
pub fn string_replace(template: String, context: Context) -> (output: String)
    ensures
        output@ == rendered(spans_of(template@), context@),
{
    let spans = scan(template.as_str());
    render(&spans, &context)
}

} // verus!
