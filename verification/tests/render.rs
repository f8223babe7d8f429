use template_engine::pair::{Pair, PairGenerator};
use template_engine::render_strategy::interpreter::{interpreter, lex, scan, Token};
use template_engine::render_strategy::string_replace::{
    display, render, resolve, split, string_replace, RenderError,
};
use template_engine::render_strategy::string_replace_strategy::string_replace_strategy;
use template_engine::template::{Context, TemplateVariable};
use template_engine::text::{decimal_text, same_text, trimmed_text};

fn unresolved(name: &str) -> Result<String, RenderError> {
    Err(RenderError::UnresolvedKey(name.into()))
}

fn resolved(text: &str) -> Result<String, RenderError> {
    Ok(text.into())
}

fn nested_store() -> Context {
    Context::with(vec![
        Pair::of(
            "a map",
            Context::with(vec![Pair::of(
                "nested",
                Context::with(vec![Pair::of("nested nested", "foo")]),
            )]),
        ),
        Pair::of("name", "Rust"),
        Pair::of("n", 7i64),
    ])
}

#[test]
fn a_name_is_replaced_by_its_text() {
    let context = Context::with(vec![Pair::of("name", "Rust")]);
    assert_eq!(string_replace("name: {{ name }}".into(), context), "name: Rust");
}

#[test]
fn a_truth_value_is_written_as_a_word() {
    let context = Context::with(vec![Pair::of("is awesome", true)]);
    assert_eq!(
        string_replace("is awesome: {{ is awesome }}".into(), context),
        "is awesome: true"
    );
    let context = Context::with(vec![Pair::of("is awesome", false)]);
    assert_eq!(
        string_replace("is awesome: {{ is awesome }}".into(), context),
        "is awesome: false"
    );
}

#[test]
fn a_double_keeps_its_decimal_form() {
    let context = Context::with(vec![Pair(
        String::from("a double"),
        TemplateVariable::Double(format!("{}", 1.2f64)),
    )]);
    assert_eq!(
        string_replace("a double: {{ a double }}".into(), context),
        "a double: 1.2"
    );
}

#[test]
fn a_displayable_value_shows_its_own_text() {
    let context = Context::with(vec![Pair(
        String::from("shown"),
        TemplateVariable::Displayable(format!("{}", 'x')),
    )]);
    assert_eq!(string_replace("[{{ shown }}]".into(), context), "[x]");
}

#[test]
fn an_integer_is_written_in_base_ten() {
    let context = Context::with(vec![
        Pair::of("an integer", 42i64),
        Pair::of("below", -17i64),
        Pair::of("zero", 0i64),
    ]);
    assert_eq!(
        string_replace("{{ an integer }}, {{ below }}, {{ zero }}".into(), context),
        "42, -17, 0"
    );
}

#[test]
fn the_decimal_text_of_an_integer() {
    assert_eq!(decimal_text(0), "0");
    assert_eq!(decimal_text(7), "7");
    assert_eq!(decimal_text(10), "10");
    assert_eq!(decimal_text(-1), "-1");
    assert_eq!(decimal_text(1234567890), "1234567890");
    assert_eq!(decimal_text(-9000), "-9000");
    assert_eq!(decimal_text(i64::MAX), "9223372036854775807");
    assert_eq!(decimal_text(i64::MIN), "-9223372036854775808");
    for n in -1100i64..1100 {
        assert_eq!(decimal_text(n), format!("{}", n));
    }
}

#[test]
fn a_dotted_name_leads_through_nested_stores() {
    let root = || {
        Context::with(vec![Pair::of(
            "a map",
            Context::with(vec![Pair::of(
                "nested",
                Context::with(vec![Pair::of("nested nested", "foo")]),
            )]),
        )])
    };
    assert_eq!(
        string_replace("a map: {{ a map.nested.nested nested }}".into(), root()),
        "a map: foo"
    );
    assert_eq!(
        string_replace_strategy("a map: {{ a map.nested.nested nested }}".into(), root()),
        "a map: foo"
    );
}

#[test]
fn a_missing_name_stays_as_it_is_written() {
    assert_eq!(
        string_replace("x: {{ missing }}".into(), Context::with(vec![])),
        "x: {{ missing }}"
    );
    assert_eq!(
        string_replace("{{ name }} and {{ absent }}".into(), nested_store()),
        "Rust and {{ absent }}"
    );
    assert_eq!(
        string_replace("{{ absent.nested }}".into(), nested_store()),
        "{{ absent.nested }}"
    );
    assert_eq!(
        string_replace("{{ a map.absent.nested nested }}".into(), nested_store()),
        "{{ a map.absent.nested nested }}"
    );
}

#[test]
fn a_part_that_is_no_store_leaves_the_span_as_it_is_written() {
    let context = Context::with(vec![Pair::of("a", "s")]);
    assert_eq!(string_replace("{{ a.b }}".into(), context), "{{ a.b }}");
    assert_eq!(
        string_replace("{{ name.nested }}".into(), nested_store()),
        "{{ name.nested }}"
    );
    assert_eq!(
        string_replace("{{ a map.nested.nested nested.deeper }}".into(), nested_store()),
        "{{ a map.nested.nested nested.deeper }}"
    );
    assert_eq!(string_replace("{{ n.x }}".into(), nested_store()), "{{ n.x }}");
}

#[test]
fn a_store_has_no_text_of_its_own() {
    let context = Context::with(vec![Pair::of("m", Context::with(vec![]))]);
    assert_eq!(string_replace("{{ m }}".into(), context), "{{ m }}");
    assert_eq!(string_replace("{{ a map }}".into(), nested_store()), "{{ a map }}");
    assert_eq!(
        string_replace("{{ a map.nested }}".into(), nested_store()),
        "{{ a map.nested }}"
    );
}

#[test]
fn what_follows_a_missing_name_is_still_rendered() {
    assert_eq!(
        string_replace("{{ x }}{{ name }}{{ y }}".into(), nested_store()),
        "{{ x }}Rust{{ y }}"
    );
    assert_eq!(
        string_replace("{{ name }}{{y}}{{  x}}{{ n }}".into(), nested_store()),
        "Rust{{y}}{{  x}}7"
    );
}

#[test]
fn a_missing_name_is_not_an_empty_text() {
    let context = Context::with(vec![Pair::of("empty", "")]);
    assert_eq!(string_replace("[{{ empty }}]".into(), context), "[]");
    let context = Context::with(vec![Pair::of("empty", "")]);
    assert_eq!(string_replace("[{{ other }}]".into(), context), "[{{ other }}]");
    assert_eq!(
        string_replace("[{{ }}]".into(), Context::with(vec![])),
        "[{{ }}]"
    );
    assert_eq!(string_replace("[{{}}]".into(), Context::with(vec![])), "[{{}}]");
}

#[test]
fn the_same_input_renders_the_same_way() {
    for _ in 0..3 {
        assert_eq!(
            string_replace("{{ absent }}".into(), nested_store()),
            "{{ absent }}"
        );
        assert_eq!(
            string_replace("{{ name.x }}".into(), nested_store()),
            "{{ name.x }}"
        );
        assert_eq!(
            string_replace("{{ a map.nested.nested nested }}".into(), nested_store()),
            "foo"
        );
    }
}

#[test]
fn an_empty_store_gives_the_template_back() {
    let templates = [
        "",
        "plain",
        "{{ x }}",
        "a {{x}} b {{  y.z  }} c",
        "{% if x %}{{ x }}{% end %}",
        "open {{ x",
        "{{}}{%%}",
        "} }} { {% x",
    ];
    for template in templates {
        assert_eq!(
            string_replace(template.into(), Context::with(vec![])),
            template
        );
        assert_eq!(
            string_replace_strategy(template.into(), Context::with(vec![])),
            template
        );
    }
}

#[test]
fn statements_pass_through_as_they_are_written() {
    assert_eq!(
        string_replace("{%if n%}{{ n }}{%end%}".into(), nested_store()),
        "{%if n%}7{%end%}"
    );
    assert_eq!(string_replace("{% b %}".into(), nested_store()), "{% b %}");
    assert_eq!(
        string_replace("{%  name  %} {{ name }}".into(), nested_store()),
        "{%  name  %} Rust"
    );
}

#[test]
fn literal_text_is_copied() {
    assert_eq!(
        string_replace("no placeholders } here {".into(), Context::with(vec![])),
        "no placeholders } here {"
    );
    assert_eq!(string_replace("".into(), Context::with(vec![])), "");
    assert_eq!(
        string_replace("open {{ name".into(), nested_store()),
        "open {{ name"
    );
}

#[test]
fn padding_does_not_change_the_name() {
    for template in ["{{name}}", "{{ name}}", "{{name }}", "{{   name\t}}"] {
        assert_eq!(string_replace(template.into(), nested_store()), "Rust");
    }
}

#[test]
fn the_two_strategies_render_alike() {
    let store = || {
        Context::with(vec![
            Pair::of("a.b", "dotted"),
            Pair::of("a", Context::with(vec![Pair::of("b", "inner")])),
            Pair::of("name", "Rust"),
            Pair::of("flag", true),
        ])
    };
    let templates = [
        "{{ a.b }} {{ name }}",
        "{{ a }}",
        "{{ name }}{{ absent }}",
        "{%s%} text {{ flag }}",
        "{{ name.x }} and {{a.b}}",
    ];
    for template in templates {
        assert_eq!(
            string_replace_strategy(template.into(), store()),
            string_replace(template.into(), store()),
            "{:?}",
            template
        );
    }
    assert_eq!(
        string_replace_strategy("{{ a.b }} {{ name }}".into(), store()),
        "inner Rust"
    );
    assert_eq!(string_replace_strategy("{{ a }}".into(), store()), "{{ a }}");
}

#[test]
fn the_interpreter_gives_out_no_text() {
    assert_eq!(interpreter("name: {{ name }}".into(), nested_store()), "");
    assert_eq!(interpreter("".into(), Context::with(vec![])), "");
}

#[test]
fn a_later_pair_overwrites_an_earlier_one() {
    let context = Context::with(vec![
        Pair::of("k", "first"),
        Pair::of("other", 1i64),
        Pair::of("k", "second"),
        Pair::of("k", true),
    ]);
    assert!(matches!(
        context.get("k"),
        Some(TemplateVariable::Boolean(true))
    ));
    assert!(matches!(
        context.get("other"),
        Some(TemplateVariable::Integer(1))
    ));
    assert!(context.get("absent").is_none());
    assert_eq!(string_replace("{{ k }}".into(), context), "true");
}

#[test]
fn names_are_compared_character_by_character() {
    let context = Context::with(vec![Pair::of("key", 1i64), Pair::of("ke", 2i64)]);
    assert!(matches!(
        context.get("ke"),
        Some(TemplateVariable::Integer(2))
    ));
    assert!(matches!(
        context.get("key"),
        Some(TemplateVariable::Integer(1))
    ));
    assert!(context.get("k").is_none());
    assert!(context.get("keys").is_none());
    assert!(context.get("").is_none());
    assert!(same_text("", ""));
    assert!(same_text("a\u{00E9}", "a\u{00E9}"));
    assert!(!same_text("ab", "ac"));
    assert!(!same_text("ab", "abc"));
    assert!(!same_text("abc", "ab"));
}

#[test]
fn pairs_hold_the_name_and_the_value() {
    let pair = Pair::of("b", true);
    assert_eq!(pair.0, "b");
    assert!(matches!(pair.1, TemplateVariable::Boolean(true)));
    let pair = Pair::of("i", -3i64);
    assert_eq!(pair.0, "i");
    assert!(matches!(pair.1, TemplateVariable::Integer(-3)));
    let pair = Pair::of("s", String::from("owned"));
    assert!(matches!(pair.1, TemplateVariable::String(ref s) if s == "owned"));
    let pair = Pair::of("s", "borrowed");
    assert!(matches!(pair.1, TemplateVariable::String(ref s) if s == "borrowed"));
    let pair = Pair::of("c", Context::with(vec![Pair::of("in", 1i64)]));
    assert_eq!(pair.0, "c");
    match pair.1 {
        TemplateVariable::SubContext(context) => {
            assert!(matches!(
                context.get("in"),
                Some(TemplateVariable::Integer(1))
            ));
        }
        _ => panic!("a store was stored"),
    }
}

#[test]
fn a_dotted_name_is_split_at_its_dots() {
    assert_eq!(split("a"), vec!["a"]);
    assert_eq!(split("a.b.c"), vec!["a", "b", "c"]);
    assert_eq!(
        split("a map.nested.nested nested"),
        vec!["a map", "nested", "nested nested"]
    );
    assert_eq!(split(""), vec![""]);
    assert_eq!(split("."), vec!["", ""]);
    assert_eq!(split("a..b"), vec!["a", "", "b"]);
    assert_eq!(split(".a."), vec!["", "a", ""]);
}

#[test]
fn resolve_walks_the_parts_of_a_name() {
    let root = nested_store();
    assert_eq!(resolve("name", &root), resolved("Rust"));
    assert_eq!(resolve("n", &root), resolved("7"));
    assert_eq!(resolve("a map.nested.nested nested", &root), resolved("foo"));
    assert_eq!(resolve("", &root), unresolved(""));
    assert_eq!(resolve("absent", &root), unresolved("absent"));
    assert_eq!(resolve("name.", &root), unresolved("name."));
    assert_eq!(resolve(".name", &root), unresolved(".name"));
    assert_eq!(resolve("name.x", &root), unresolved("name.x"));
    assert_eq!(resolve("a map", &root), unresolved("a map"));
    assert_eq!(resolve("a map.nested", &root), unresolved("a map.nested"));
    assert_eq!(resolve(" name", &root), unresolved(" name"));
}

#[test]
fn an_empty_name_can_be_stored() {
    let root = Context::with(vec![
        Pair::of("", "nameless"),
        Pair::of("in", Context::with(vec![Pair::of("", 5i64)])),
    ]);
    assert_eq!(resolve("", &root), resolved("nameless"));
    assert_eq!(resolve("in.", &root), resolved("5"));
    assert_eq!(string_replace("{{}} {{ in. }}".into(), root), "nameless 5");
}

#[test]
fn the_text_of_each_kind_of_value() {
    assert_eq!(display(&TemplateVariable::Boolean(true)), Some("true".into()));
    assert_eq!(display(&TemplateVariable::Boolean(false)), Some("false".into()));
    assert_eq!(display(&TemplateVariable::Integer(-12)), Some("-12".into()));
    assert_eq!(
        display(&TemplateVariable::Double(format!("{}", 0.5f64))),
        Some("0.5".into())
    );
    assert_eq!(
        display(&TemplateVariable::Displayable("shown".into())),
        Some("shown".into())
    );
    assert_eq!(display(&TemplateVariable::String("s".into())), Some("s".into()));
    assert_eq!(
        display(&TemplateVariable::SubContext(Context::with(vec![]))),
        None
    );
}

#[test]
fn render_takes_the_tokens_from_left_to_right() {
    let root = nested_store();
    let tokens = vec![
        Token::Text("<".into()),
        Token::Expression("name".into()),
        Token::Statement("s".into()),
        Token::Expression("a map.nested.nested nested".into()),
        Token::Text(">".into()),
    ];
    assert_eq!(render(&tokens, &root), "<Rust{%s%}foo>");
    assert_eq!(render(&vec![], &root), "");
}

#[test]
fn render_trims_a_name_and_writes_a_missing_one_as_the_token_holds_it() {
    let root = nested_store();
    assert_eq!(render(&vec![Token::Expression("  name ".into())], &root), "Rust");
    assert_eq!(
        render(&vec![Token::Expression("  absent ".into())], &root),
        "{{  absent }}"
    );
    // The tokens of the lexer hold trimmed names, the spans hold them as written.
    assert_eq!(render(&lex("{{ n }}{{ absent }}"), &root), "7{{absent}}");
    assert_eq!(render(&scan("{{ n }}{{ absent }}"), &root), "7{{ absent }}");
}

#[test]
fn a_text_is_trimmed() {
    assert_eq!(trimmed_text(""), "");
    assert_eq!(trimmed_text("   "), "");
    assert_eq!(trimmed_text(" a b\t\n"), "a b");
    assert_eq!(trimmed_text("\u{2003}x\u{00A0}"), "x");
}
