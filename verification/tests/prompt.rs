use prompt_manager::error::Error;
use prompt_manager::prompt::markdown::{
    export, export_for_editor, parse, parse_editor, split_front_matter, Metadata, PromptDocument,
};
use prompt_manager::prompt::template::{
    compositions, placeholders, render, validate, Composition, Values,
};
use prompt_manager::prompt::{
    is_valid_name_segment, normalize_tags, parse_exec_command, validate_group, validate_name,
};

fn values(entries: &[(&str, &str)]) -> Values {
    let mut values = Values::new();
    for (key, value) in entries {
        values.insert((*key).to_owned(), (*value).to_owned());
    }
    values
}

fn metadata(
    name: &str,
    description: Option<&str>,
    tags: &[&str],
    exec: Option<&str>,
) -> Metadata {
    Metadata {
        name: name.to_owned(),
        description: description.map(|d| d.to_owned()),
        tags: tags.iter().map(|t| (*t).to_owned()).collect(),
        exec_command: exec.map(|e| e.to_owned()),
    }
}

fn parse_with(source: &str, metadata: Metadata) -> Result<PromptDocument, Error> {
    let front = split_front_matter(source)?;
    parse(&front, metadata)
}

#[test]
fn validates_prompt_names() {
    for name in [
        "code-review",
        "typescript.review",
        "debug_log",
        "A1",
        "work/week-report",
        "work/reports/weekly",
    ] {
        validate_name(name).unwrap();
    }
    for name in [
        "",
        "has space",
        "/path",
        "path/",
        "work//report",
        "_starts-wrong",
        "shell;code",
    ] {
        assert!(validate_name(name).is_err(), "{name} should be invalid");
    }
}

#[test]
fn validates_prompt_groups() {
    for group in ["work/", "work/reports/"] {
        validate_group(group).unwrap();
    }
    for group in ["", "work", "/", "work//"] {
        assert!(validate_group(group).is_err(), "{group} should be invalid");
    }
}

#[test]
fn normalizes_and_sorts_tags() {
    assert_eq!(
        normalize_tags(vec![" review ".into(), "coding".into(), "review".into()]).unwrap(),
        vec!["coding", "review"]
    );
}

#[test]
fn parses_exec_commands_without_a_shell() {
    assert_eq!(
        parse_exec_command("codex exec --model 'gpt 5' -").unwrap(),
        ["codex", "exec", "--model", "gpt 5", "-"]
    );
    assert!(parse_exec_command("  ").is_err());
    assert!(parse_exec_command("codex '").is_err());
}

#[test]
fn detects_and_renders_variables() {
    let template = "Language: {{ language }}\n\n{{input}}";
    assert_eq!(
        render(
            template,
            &values(&[("language", "rust"), ("input", "fn main() {}")])
        )
        .unwrap(),
        "Language: rust\n\nfn main() {}"
    );
}

#[test]
fn reports_the_first_missing_variable() {
    let error = render("{{first}} {{second}}", &Values::new()).unwrap_err();
    assert!(matches!(error, Error::MissingVariable(name) if name == "first"));
}

#[test]
fn rejects_invalid_template_expressions() {
    for template in [
        "{{ daily report content }}",
        "{{1bad}}",
        "{{prompt:invalid name}}",
        "{{value",
    ] {
        assert!(validate(template).is_err(), "{template} should be invalid");
    }
    assert_eq!(
        validate("line one\n{{ invalid name }}").unwrap_err().text(),
        "invalid template syntax at line 2, column 1: invalid expression `{{ invalid name }}`"
    );
}

#[test]
fn allows_whitespace_around_expression_names() {
    validate("{{ daily_report_content }} {{ prompt:shared.rules }}").unwrap();
    assert_eq!(
        render(
            "Report: {{ daily_report_content }}",
            &values(&[("daily_report_content", "done")])
        )
        .unwrap(),
        "Report: done"
    );
}

#[test]
fn supports_repeated_variables() {
    assert_eq!(
        render("{{x}}/{{x}}", &values(&[("x", "a")])).unwrap(),
        "a/a"
    );
}

#[test]
fn leaves_single_braces_unchanged() {
    let template = "{value} and JSON: {\"outer\": {\"key\": true}}";
    assert_eq!(render(template, &Values::new()).unwrap(), template);
}

#[test]
fn detects_prompt_composition_references_separately() {
    assert_eq!(
        compositions("before {{ prompt:shared.rules }} after"),
        vec![Composition {
            start: 7,
            end: 32,
            name: "shared.rules".into(),
        }]
    );
    assert!(placeholders("{{prompt:shared.rules}}").is_empty());
    assert!(compositions("{{prompt:invalid name}}").is_empty());
}

#[test]
fn uses_default_values_when_no_value_is_given() {
    let template = "SSH to the {{hostname=us-east-1}} host over {{time=15min}}";
    validate(template).unwrap();
    assert_eq!(
        render(template, &values(&[("time", "1h")])).unwrap(),
        "SSH to the us-east-1 host over 1h"
    );
    assert_eq!(
        render(
            "Endpoint: {{ endpoint=https://example.com?a=1&b=2 }}",
            &Values::new()
        )
        .unwrap(),
        "Endpoint: https://example.com?a=1&b=2"
    );
    assert_eq!(render("[{{empty=}}]", &Values::new()).unwrap(), "[]");
    let found = placeholders("{{ language=rust }}");
    assert_eq!(found.len(), 1);
    assert_eq!(found[0].name, "language");
    assert!(validate("{{1bad=value}}").is_err());
}

#[test]
fn placeholders_report_byte_offsets() {
    let found = placeholders("é {{x}}");
    assert_eq!(found.len(), 1);
    assert_eq!((found[0].start, found[0].end), (3, 8));
}

#[test]
fn reports_unclosed_expressions_with_their_position() {
    assert_eq!(
        validate("ok\n  {{value").unwrap_err().text(),
        "invalid template syntax at line 2, column 3: unclosed `{{`"
    );
}

#[test]
fn renders_a_template_without_variables_as_itself() {
    let template = "{{prompt:shared}} and { single }";
    assert_eq!(render(template, &values(&[("x", "1")])).unwrap(), template);
}

#[test]
fn values_read_back_what_was_written() {
    let mut map = Values::new();
    assert_eq!(map.insert("a".into(), "1".into()), None);
    assert_eq!(map.insert("a".into(), "2".into()), Some("1".to_owned()));
    assert_eq!(map.get("a").unwrap(), "2");
    assert!(map.contains_key("a"));
    assert!(!map.contains_key("b"));
}

#[test]
fn normalized_tags_do_not_depend_on_order_or_repeats() {
    let first = normalize_tags(vec!["b".into(), "a".into(), " a".into()]).unwrap();
    let second = normalize_tags(vec!["a".into(), "b".into()]).unwrap();
    assert_eq!(first, second);
    assert_eq!(
        normalize_tags(vec![" ".into()]).unwrap_err().text(),
        "tag must not be empty"
    );
}

#[test]
fn explains_invalid_names_and_groups() {
    assert_eq!(
        validate_name("").unwrap_err().text(),
        "prompt name must not be empty"
    );
    assert_eq!(
        validate_name("has space").unwrap_err().text(),
        "invalid prompt name: has space"
    );
    assert_eq!(
        validate_group("work").unwrap_err().text(),
        "prompt group must end with '/': work"
    );
    assert_eq!(
        validate_group("work//").unwrap_err().text(),
        "invalid prompt group: work//"
    );
}

#[test]
fn parses_front_matter_and_preserves_body() {
    let document = parse_with(
        "---\nname: code-review\ndescription: Review source code\ntags:\n  - review\n  - coding\nexec: codex exec -\n---\n\nReview:\n\n{{input}}\n",
        metadata(
            "code-review",
            Some("Review source code"),
            &["review", "coding"],
            Some("codex exec -"),
        ),
    )
    .unwrap();
    assert_eq!(document.name, "code-review");
    assert_eq!(document.tags, vec!["coding", "review"]);
    assert_eq!(document.exec_command.as_deref(), Some("codex exec -"));
    assert_eq!(document.content, "Review:\n\n{{input}}\n");
}

#[test]
fn export_round_trips_without_adding_a_body_newline() {
    let document = PromptDocument {
        name: "test".into(),
        description: None,
        tags: vec!["z".into(), "a".into()],
        exec_command: Some("codex exec -".into()),
        content: "body without newline".into(),
    };
    let markdown = export(
        &document,
        "name: test\ndescription: null\ntags:\n- a\n- z\nexec: codex exec -\n",
    )
    .unwrap();
    let parsed = parse_with(
        &markdown,
        metadata("test", None, &["a", "z"], Some("codex exec -")),
    )
    .unwrap();
    assert_eq!(
        parsed,
        PromptDocument {
            tags: vec!["a".into(), "z".into()],
            ..document
        }
    );
}

#[test]
fn export_includes_field_help_and_blank_optional_fields() {
    let document = PromptDocument {
        name: "test".into(),
        description: None,
        tags: Vec::new(),
        exec_command: None,
        content: "body".into(),
    };

    assert_eq!(
        export(&document, "name: test\ndescription: null\ntags: []\nexec: null\n").unwrap(),
        "---\nname: test          # required, unique\ndescription:        # optional, short description\ntags:               # optional, YAML list\n  # - coding\n  # - review\nexec:               # optional, e.g. codex exec -\n---\n\nbody"
    );
}

#[test]
fn editor_document_uses_a_non_persistent_content_placeholder() {
    let document = PromptDocument {
        name: "test".into(),
        description: None,
        tags: Vec::new(),
        exec_command: None,
        content: String::new(),
    };
    let yaml = "name: test\ndescription: null\ntags: []\nexec: null\n";

    let markdown = export_for_editor(&document, yaml).unwrap();
    assert!(markdown.ends_with("\n\n<!-- Enter prompt content here. -->"));
    let front = split_front_matter(&markdown).unwrap();
    assert_eq!(
        parse_editor(&front, metadata("test", None, &[], None)).unwrap(),
        document
    );

    let with_content = format!("{markdown}\nReview this code.");
    let front = split_front_matter(&with_content).unwrap();
    assert_eq!(
        parse_editor(&front, metadata("test", None, &[], None))
            .unwrap()
            .content,
        "Review this code."
    );

    let before_placeholder = with_content.replace(
        "<!-- Enter prompt content here. -->",
        "Review this code.\n<!-- Enter prompt content here. -->",
    );
    let front = split_front_matter(&before_placeholder).unwrap();
    assert_eq!(
        parse_editor(&front, metadata("test", None, &[], None))
            .unwrap()
            .content,
        "Review this code.\nReview this code."
    );
}

#[test]
fn preserves_an_intentional_leading_blank_line() {
    let document = parse_with("---\nname: test\n---\n\n\nbody", metadata("test", None, &[], None))
        .unwrap();
    assert_eq!(document.content, "\nbody");
}

#[test]
fn rejects_invalid_exec_commands() {
    assert!(parse_with(
        "---\nname: test\nexec: '  '\n---\n\nbody",
        metadata("test", None, &[], Some("  "))
    )
    .is_err());
    assert!(parse_with(
        "---\nname: test\nexec: \"codex '\"\n---\n\nbody",
        metadata("test", None, &[], Some("codex '"))
    )
    .is_err());
}

#[test]
fn accepts_blank_optional_metadata() {
    let document = parse_with(
        "---\nname: test\ndescription: # Optional description\ntags: # Optional list\nexec: # Optional command\n---\n\nbody",
        metadata("test", None, &[], None),
    )
    .unwrap();
    assert_eq!(document.description, None);
    assert!(document.tags.is_empty());
    assert_eq!(document.exec_command, None);
    assert_eq!(document.content, "body");
}

#[test]
fn accepts_crlf_front_matter() {
    let document =
        parse_with("---\r\nname: test\r\n---\r\n\r\nbody\r\n", metadata("test", None, &[], None))
            .unwrap();
    assert_eq!(document.content, "body\r\n");
}

#[test]
fn reports_template_errors_at_the_markdown_file_line() {
    let error = parse_with(
        "---\nname: test\n---\n\nbody\n{{ invalid name }}",
        metadata("test", None, &[], None),
    )
    .unwrap_err();
    assert_eq!(
        error.text(),
        "invalid template syntax at line 6, column 1: invalid expression `{{ invalid name }}`"
    );
}

#[test]
fn splits_front_matter_from_the_body() {
    let front = split_front_matter("---\nname: a\n---\n\nbody").unwrap();
    assert_eq!(front.metadata, "name: a\n");
    assert_eq!(front.body, "body");
    assert_eq!(front.body_line_offset, 4);
    assert_eq!(
        split_front_matter("name: a\n").unwrap_err().text(),
        "invalid Markdown prompt: missing opening front matter delimiter"
    );
    assert_eq!(
        split_front_matter("---\nname: a\n").unwrap_err().text(),
        "invalid Markdown prompt: missing closing front matter delimiter"
    );
}

#[test]
fn exported_content_reads_back_unchanged() {
    let document = PromptDocument {
        name: "work/review".into(),
        description: Some("Review".into()),
        tags: vec!["b".into(), "a".into()],
        exec_command: None,
        content: "line one\n---\nline three\n".into(),
    };
    let markdown = export(
        &document,
        "name: work/review\ndescription: Review\ntags:\n- a\n- b\nexec: null\n",
    )
    .unwrap();
    let front = split_front_matter(&markdown).unwrap();
    assert_eq!(front.body, document.content);
}

#[test]
fn checks_single_name_segments() {
    assert!(is_valid_name_segment("week-report"));
    assert!(is_valid_name_segment("A1.b_c"));
    assert!(!is_valid_name_segment(""));
    assert!(!is_valid_name_segment("_lead"));
    assert!(!is_valid_name_segment("a b"));
}

#[test]
fn variables_and_compositions_never_share_a_start() {
    let template = "{{prompt:shared.rules}} {{ name }} {{prompt:other}}";
    let variables = placeholders(template);
    let references = compositions(template);
    assert_eq!(variables.len(), 1);
    assert_eq!(references.len(), 2);
    for variable in &variables {
        for reference in &references {
            assert_ne!(variable.start, reference.start);
        }
    }
    for reference in &references {
        assert_eq!(
            template[reference.start + 2..reference.end - 2].trim(),
            format!("prompt:{}", reference.name)
        );
        assert!(validate_name(&reference.name).is_ok());
    }
}

#[test]
fn editor_export_reads_back_the_same_document() {
    let document = PromptDocument {
        name: "review".into(),
        description: Some("Reviews code".into()),
        tags: vec!["code".into(), "review".into()],
        exec_command: Some("glow -p".into()),
        content: "Review {{ file }}.\nBe brief.\n".into(),
    };
    let yaml = "name: review\ndescription: Reviews code\ntags:\n- code\n- review\nexec: glow -p\n";
    let markdown = export_for_editor(&document, yaml).unwrap();
    let front = split_front_matter(&markdown).unwrap();
    assert_eq!(
        parse_editor(
            &front,
            metadata("review", Some("Reviews code"), &["review", "code"], Some("glow -p"))
        )
        .unwrap(),
        document
    );
}
