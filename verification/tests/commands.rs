use prompt_manager::cli::{ListArgs, ListSort, UpdateArgs, VariableAssignment};
use prompt_manager::commands::get::{
    expand_prompt, insert_value, missing_variables, pick_candidates, picked_name, piped_input,
    prompt_for_variables, trim_line_ending, Expansion, PipedInput, PromptContents,
    VariablePrompt,
};
use prompt_manager::commands::history::{colorize_diff, history_table, version_diff, version_label};
use prompt_manager::commands::list::{
    format_compact_timestamp, format_optional_inline, format_relative_timestamp, format_tags,
    list_tag_filter, plan_listing, render_default_table, render_full_table, render_quiet, sort,
    Listing,
};
use prompt_manager::commands::search::render_search_results;
use prompt_manager::commands::update::{
    checksum_asset_name, next_update_step, release_asset_name, release_tag, update_error,
    update_report, UpdateStep,
};
use prompt_manager::commands::{
    cell_styles, clean_inline, format_local_timestamp, format_table, pager_command, CellStyle,
    TextStyle,
};
use prompt_manager::db::{literal_fts_query, PromptListEntry, PromptVersionSummary, SearchResult};
use prompt_manager::error::Error;
use prompt_manager::prompt::template::Values;

const CURRENT_VERSION: &str = "0.1.0";

fn prompt(id: i64, name: &str, updated_at: i64, last_used_at: Option<i64>) -> PromptListEntry {
    PromptListEntry {
        id,
        name: name.into(),
        description: None,
        tags: Vec::new(),
        exec_command: None,
        created_at: updated_at,
        updated_at,
        last_used_at,
        use_count: 0,
        favorite: false,
    }
}

fn names(prompts: &[PromptListEntry]) -> Vec<&str> {
    prompts.iter().map(|prompt| prompt.name.as_str()).collect()
}

#[test]
fn parses_variable_values_containing_equals() {
    let value: VariableAssignment = "query=a=b".parse().unwrap();
    assert_eq!(value.key, "query");
    assert_eq!(value.value, "a=b");
}

#[test]
fn rejects_invalid_assignment() {
    assert!("not-an-assignment".parse::<VariableAssignment>().is_err());
    assert!("1key=value".parse::<VariableAssignment>().is_err());
}

#[test]
fn explains_rejected_assignments() {
    assert_eq!(
        VariableAssignment::parse("no-equals").unwrap_err(),
        "expected KEY=VALUE"
    );
    assert_eq!(
        VariableAssignment::parse("1key=value").unwrap_err(),
        "invalid variable name: 1key"
    );
}

#[test]
fn prompts_for_distinct_missing_variables_in_template_order() {
    let mut values = Values::new();
    values.insert("provided".into(), "existing".into());
    let mut output = String::new();

    prompt_for_variables(
        "{{provided}} {{first}} {{second}} {{first}}",
        &mut values,
        "one\nEOF\ntwo\nlines\nEOF\n",
        &mut output,
    )
    .unwrap();

    assert_eq!(values.get("provided").unwrap(), "existing");
    assert_eq!(values.get("first").unwrap(), "one");
    assert_eq!(values.get("second").unwrap(), "two\nlines");
    assert_eq!(
        output,
        "[1/2] first\nEnter or paste the value. Finish with a line containing only `EOF`.\n[2/2] second\nEnter or paste the value. Finish with a line containing only `EOF`.\n"
    );
}

#[test]
fn trims_surrounding_whitespace_from_interactive_values() {
    let mut values = Values::new();
    let mut output = String::new();

    prompt_for_variables(
        "{{value}}",
        &mut values,
        "\n  first line\nsecond line  \n\nEOF\n",
        &mut output,
    )
    .unwrap();

    assert_eq!(values.get("value").unwrap(), "first line\nsecond line");
}

#[test]
fn reports_incomplete_interactive_input() {
    let mut output = String::new();
    let mut values = Values::new();
    let error = prompt_for_variables("{{value}}", &mut values, "unfinished\n", &mut output)
        .unwrap_err();

    assert_eq!(
        error.text(),
        "interactive input ended before completing variable: value"
    );
    assert!(values.get("value").is_none());
}

#[test]
fn keeps_the_answers_given_before_interactive_input_ends() {
    let mut output = String::new();
    let mut values = Values::new();
    let error = prompt_for_variables(
        "{{first}} {{second}}",
        &mut values,
        "one\nEOF\nunfinished\n",
        &mut output,
    )
    .unwrap_err();

    assert_eq!(
        error.text(),
        "interactive input ended before completing variable: second"
    );
    assert_eq!(values.get("first").unwrap(), "one");
    assert!(values.get("second").is_none());
}

#[test]
fn local_timestamps_cover_years_minus_9999_to_9999() {
    assert_eq!(
        format_local_timestamp(253_402_300_799, 0).unwrap(),
        "9999-12-31 23:59"
    );
    assert_eq!(
        format_local_timestamp(-377_705_116_800, 0).unwrap(),
        "-9999-01-01 00:00"
    );
    assert_eq!(
        format_local_timestamp(253_402_300_800, 0).unwrap_err().text(),
        "timestamp is out of range: 253402300800"
    );
    assert_eq!(
        format_local_timestamp(253_402_300_799, 3600).unwrap_err().text(),
        "timestamp is out of range: 253402300799"
    );
    assert_eq!(
        format_local_timestamp(-377_705_116_801, 0).unwrap_err().text(),
        "timestamp is out of range: -377705116801"
    );
    assert_eq!(
        format_local_timestamp(-377_705_116_800, -1).unwrap_err().text(),
        "timestamp is out of range: -377705116800"
    );
    assert_eq!(
        format_local_timestamp(253_402_300_799 - 3600, 3600).unwrap(),
        "9999-12-31 23:59"
    );
}

#[test]
fn history_table_fails_only_for_versions_without_a_local_date() {
    let versions = vec![
        PromptVersionSummary {
            version: 1,
            name: "a".into(),
            created_at: 0,
        },
        PromptVersionSummary {
            version: 2,
            name: "a".into(),
            created_at: 253_402_300_799,
        },
    ];
    assert!(history_table(&versions, 0, false).unwrap().is_some());
    assert_eq!(
        history_table(&versions, 60, false).unwrap_err().text(),
        "timestamp is out of range: 253402300799"
    );
    assert_eq!(history_table(&[], 60, false).unwrap(), None);
}

#[test]
fn asks_for_variables_one_line_at_a_time() {
    let mut values = Values::new();
    let mut asking = VariablePrompt::new("{{a}} {{b=x}}", &values);
    assert_eq!(
        asking.header().unwrap(),
        "[1/2] a\nEnter or paste the value. Finish with a line containing only `EOF`.\n"
    );
    asking.feed(Some("one\r\n"), &mut values).unwrap();
    asking.feed(Some("EOF\r\n"), &mut values).unwrap();
    assert_eq!(values.get("a").unwrap(), "one");
    assert!(asking.header().unwrap().starts_with("[2/2] b\n"));
    asking.feed(Some("EOF"), &mut values).unwrap();
    assert_eq!(values.get("b").unwrap(), "");
    assert!(asking.header().is_none());
}

#[test]
fn strips_one_line_ending() {
    assert_eq!(trim_line_ending("EOF\r\n"), "EOF");
    assert_eq!(trim_line_ending("EOF\n"), "EOF");
    assert_eq!(trim_line_ending("EOF"), "EOF");
    assert_eq!(trim_line_ending("EOF\n\n"), "EOF\n");
}

#[test]
fn rejects_a_variable_given_twice() {
    let mut values = Values::new();
    insert_value(&mut values, "x".into(), "1".into()).unwrap();
    let error = insert_value(&mut values, "x".into(), "2".into()).unwrap_err();
    assert_eq!(error, Error::DuplicateVariableSource("x".into()));
    assert_eq!(error.text(), "duplicate variable source: x");
    assert_eq!(values.get("x").unwrap(), "2");
}

#[test]
fn lists_missing_variables_once_in_order() {
    let mut values = Values::new();
    values.insert("b".into(), "given".into());
    assert_eq!(
        missing_variables("{{c}} {{b}} {{a}} {{c}}", &values),
        vec!["c", "a"]
    );
}

#[test]
fn decides_whether_piped_input_is_read() {
    let mut values = Values::new();
    assert_eq!(piped_input("plain", &values), PipedInput::Unused);
    assert_eq!(piped_input("{{input}}", &values), PipedInput::Required);
    assert_eq!(piped_input("{{input=none}}", &values), PipedInput::Optional);
    assert_eq!(
        piped_input("{{input=none}} {{input}}", &values),
        PipedInput::Required
    );
    values.insert("input".into(), "given".into());
    assert_eq!(piped_input("{{input}}", &values), PipedInput::Unused);
}

#[test]
fn expands_nested_compositions_and_rejects_cycles() {
    let mut store = PromptContents::new();
    let outcome = expand_prompt(&mut store, "outer".into(), "A {{prompt:inner}} B".into());
    assert!(matches!(outcome, Expansion::Missing(ref name) if name == "inner"));
    store.insert("inner".into(), "[{{prompt:leaf}}]".into());
    let outcome = expand_prompt(&mut store, "outer".into(), "A {{prompt:inner}} B".into());
    assert!(matches!(outcome, Expansion::Missing(ref name) if name == "leaf"));
    store.insert("leaf".into(), "leaf text".into());
    let outcome = expand_prompt(&mut store, "outer".into(), "A {{prompt:inner}} B".into());
    assert!(matches!(outcome, Expansion::Done(ref text) if text == "A [leaf text] B"));

    let mut store = PromptContents::new();
    store.insert("b".into(), "{{prompt:a}}".into());
    let outcome = expand_prompt(&mut store, "a".into(), "x {{prompt:b}}".into());
    match outcome {
        Expansion::Failed(error) => {
            assert_eq!(error.text(), "prompt composition cycle: a -> b -> a")
        }
        other => panic!("expected a cycle, got {other:?}"),
    }
    let outcome = expand_prompt(&mut PromptContents::new(), "self".into(), "{{prompt:self}}".into());
    match outcome {
        Expansion::Failed(error) => {
            assert_eq!(error.text(), "prompt composition cycle: self -> self")
        }
        other => panic!("expected a cycle, got {other:?}"),
    }
}

#[test]
fn picks_only_a_listed_name() {
    let listed = vec!["alpha".to_owned(), "beta".to_owned()];
    assert_eq!(pick_candidates(&listed).unwrap(), "alpha\nbeta\n");
    assert_eq!(
        pick_candidates(&Vec::new()).unwrap_err().text(),
        "no prompts available to pick"
    );
    assert_eq!(picked_name(&listed, true, b"beta\r\n").unwrap(), "beta");
    assert_eq!(
        picked_name(&listed, false, b"beta\n").unwrap_err().text(),
        "fzf exited without a selection"
    );
    assert_eq!(
        picked_name(&listed, true, &[0xff]).unwrap_err().text(),
        "fzf returned a non-UTF-8 selection"
    );
    assert_eq!(
        picked_name(&listed, true, b"gamma\n").unwrap_err().text(),
        "fzf returned an invalid selection"
    );
    assert_eq!(
        picked_name(&listed, true, b"\n").unwrap_err().text(),
        "fzf returned an invalid selection"
    );
}

#[test]
fn sorts_unused_prompts_after_used_prompts() {
    let mut prompts = vec![prompt(1, "unused", 1, None), prompt(2, "used", 1, Some(2))];
    sort(&mut prompts, ListSort::Used, false);
    assert_eq!(prompts[0].name, "used");
}

#[test]
fn reverses_the_primary_sort_order_and_keeps_name_ties_ascending() {
    let prompts = vec![
        prompt(1, "alpha", 1, None),
        prompt(2, "beta", 2, Some(2)),
        prompt(3, "gamma", 2, Some(2)),
    ];

    let mut by_name = prompts.clone();
    sort(&mut by_name, ListSort::Name, true);
    assert_eq!(names(&by_name), ["gamma", "beta", "alpha"]);

    let mut by_updated = prompts.clone();
    sort(&mut by_updated, ListSort::Updated, true);
    assert_eq!(names(&by_updated), ["alpha", "beta", "gamma"]);

    let mut by_used = prompts;
    sort(&mut by_used, ListSort::Used, true);
    assert_eq!(names(&by_used), ["alpha", "beta", "gamma"]);
}

#[test]
fn sorts_by_update_and_use_most_recent_first() {
    let prompts = vec![
        prompt(1, "b", 5, Some(1)),
        prompt(2, "a", 5, Some(9)),
        prompt(3, "c", 7, None),
    ];
    let mut by_updated = prompts.clone();
    sort(&mut by_updated, ListSort::Updated, false);
    assert_eq!(names(&by_updated), ["c", "a", "b"]);
    let mut by_used = prompts.clone();
    sort(&mut by_used, ListSort::Used, false);
    assert_eq!(names(&by_used), ["a", "b", "c"]);
    let mut by_name = prompts;
    sort(&mut by_name, ListSort::Name, false);
    assert_eq!(names(&by_name), ["a", "b", "c"]);
}

#[test]
fn formats_relative_timestamps() {
    assert_eq!(format_relative_timestamp(99, 100), "now");
    assert_eq!(format_relative_timestamp(101, 100), "now");
    assert_eq!(format_relative_timestamp(40, 100), "1 minute ago");
    assert_eq!(format_relative_timestamp(0, 7_200), "2 hours ago");
    assert_eq!(format_relative_timestamp(0, 172_800), "2 days ago");
}

#[test]
fn omits_the_year_only_within_the_current_local_year() {
    let offset = 8 * 3600;
    assert_eq!(
        format_compact_timestamp(31_507_200, 31_507_200, offset).unwrap(),
        "01-01 00:00"
    );
    assert_eq!(
        format_compact_timestamp(31_507_140, 31_507_200, offset).unwrap(),
        "1970-12-31 23:59"
    );
}

#[test]
fn formats_local_timestamps_with_the_year() {
    assert_eq!(format_local_timestamp(0, 0).unwrap(), "1970-01-01 00:00");
    assert_eq!(
        format_local_timestamp(1_546_300_800, -3600).unwrap(),
        "2018-12-31 23:00"
    );
    assert_eq!(
        format_local_timestamp(i64::MAX, 0).unwrap_err().text(),
        format!("timestamp is out of range: {}", i64::MAX)
    );
}

#[test]
fn renders_the_default_table_with_usage_columns() {
    let mut alpha = prompt(2, "alpha", 1, Some(2));
    alpha.use_count = 4;
    let prompts = vec![alpha, prompt(10, "longer-name", 3, None)];

    assert_eq!(
        render_default_table(&prompts, 7_201, false),
        "ID  NAME         USES  LAST USE\n\
         ──  ───────────  ────  ──────────\n\
         2   alpha        4     1 hour ago\n\
         10  longer-name  0     -\n"
    );
}

#[test]
fn colours_table_cells_when_enabled() {
    let prompts = vec![prompt(1, "a", 1, None)];
    let text = render_default_table(&prompts, 1, true);
    assert!(text.contains("\u{1b}[2m1\u{1b}[0m"));
    assert!(text.contains("\u{1b}[36ma\u{1b}[0m"));
    assert!(text.starts_with("ID  NAME  USES  LAST USE\n"));
}

#[test]
fn renders_full_metadata_as_a_single_line_per_prompt() {
    let mut prompt = prompt(7, "code-review", 31_507_200, Some(31_507_140));
    prompt.description = Some("Review\tsource\ncode".into());
    prompt.tags = vec!["coding".into(), "review".into()];
    prompt.exec_command = Some("codex exec -".into());
    prompt.use_count = 4;
    prompt.favorite = true;

    let output = render_full_table(&[prompt], 31_507_200, 8 * 3600, false).unwrap();

    assert!(output.starts_with("ID  NAME"));
    assert!(output.contains("coding, review"));
    assert!(output.contains("yes"));
    assert!(output.contains("codex exec -"));
    assert!(output.contains("Review source code"));
    assert!(!output.contains(['\t', '\r']));
}

#[test]
fn renders_quiet_names_one_per_line() {
    let prompts = vec![
        prompt(1, "alpha", 1, None),
        prompt(2, "work/report", 1, None),
    ];

    assert_eq!(render_quiet(&prompts), "alpha\nwork/report\n");
}

#[test]
fn formats_tags_and_optional_fields_on_one_line() {
    assert_eq!(format_tags(&[]), "-");
    assert_eq!(format_tags(&["a\tb".into(), "c".into()]), "a b, c");
    assert_eq!(format_optional_inline(&None), "-");
    assert_eq!(format_optional_inline(&Some(String::new())), "-");
    assert_eq!(format_optional_inline(&Some("x\ny".into())), "x y");
}

#[test]
fn checks_list_filters() {
    let arguments = |group: Option<&str>, tag: Option<&str>| ListArgs {
        group: group.map(|g| g.to_owned()),
        tag: tag.map(|t| t.to_owned()),
        favorite: false,
        sort: ListSort::Name,
        reverse: false,
        full: false,
        quiet: false,
    };
    assert_eq!(
        list_tag_filter(&arguments(Some("work/"), Some(" coding "))).unwrap(),
        Some("coding".to_owned())
    );
    assert_eq!(
        list_tag_filter(&arguments(None, Some("  "))).unwrap_err().text(),
        "tag must not be empty"
    );
    assert_eq!(
        list_tag_filter(&arguments(Some("work"), None)).unwrap_err().text(),
        "prompt group must end with '/': work"
    );
    assert_eq!(list_tag_filter(&arguments(None, None)).unwrap(), None);
}

#[test]
fn plans_what_list_shows() {
    let mut arguments = ListArgs {
        group: None,
        tag: None,
        favorite: false,
        sort: ListSort::Name,
        reverse: false,
        full: false,
        quiet: true,
    };
    let mut prompts = vec![prompt(1, "b", 1, None), prompt(2, "a", 1, None)];
    assert_eq!(
        plan_listing(&mut prompts, &arguments),
        Listing::Names("a\nb\n".into())
    );
    arguments.quiet = false;
    assert_eq!(plan_listing(&mut prompts, &arguments), Listing::Table);
    assert_eq!(plan_listing(&mut Vec::new(), &arguments), Listing::Empty);
}

#[test]
fn cleans_tsv_control_characters() {
    assert_eq!(clean_inline("one\ttwo\nthree\r"), "one two three ");
}

#[test]
fn writes_search_results_as_tab_separated_lines() {
    let results = vec![
        SearchResult {
            id: 3,
            name: "mongo-review".into(),
            description: "database\tcheck".into(),
        },
        SearchResult {
            id: 12,
            name: "sql".into(),
            description: String::new(),
        },
    ];
    assert_eq!(
        render_search_results(&results).unwrap(),
        "3\tmongo-review\tdatabase check\n12\tsql\t\n"
    );
    assert!(render_search_results(&[]).is_none());
}

#[test]
fn treats_fts_syntax_as_literal_text() {
    assert_eq!(
        literal_fts_query("one OR two").unwrap(),
        "\"one\" AND \"OR\" AND \"two\""
    );
    assert!(literal_fts_query("  ").is_err());
}

#[test]
fn colors_diff_lines_by_meaning() {
    let diff = "--- old\n+++ new\n@@ -1 +1 @@\n-old\n+new\n unchanged\n";
    let colored = colorize_diff(diff, true);

    assert!(colored.contains("\u{1b}[1m\u{1b}[31m--- old\u{1b}[0m"));
    assert!(colored.contains("\u{1b}[1m\u{1b}[32m+++ new\u{1b}[0m"));
    assert!(colored.contains("\u{1b}[36m@@ -1 +1 @@\u{1b}[0m"));
    assert!(colored.contains("\u{1b}[31m-old\u{1b}[0m"));
    assert!(colored.contains("\u{1b}[32m+new\u{1b}[0m"));
    assert!(colored.ends_with(" unchanged\n"));
}

#[test]
fn leaves_diff_plain_when_colors_are_disabled() {
    let diff = "--- old\n+++ new\n-old\n+new\n";

    assert_eq!(colorize_diff(diff, false), diff);
}

#[test]
fn diffs_two_versions_under_their_labels() {
    assert_eq!(version_label("review", 3), "review@3");
    let diff = version_diff("review", "a\nb\n", "a\nc\n", 1, 2, false);
    assert!(diff.starts_with("--- review@1\n+++ review@2\n"));
    assert!(diff.contains("-b\n"));
    assert!(diff.contains("+c\n"));
    assert_eq!(version_diff("review", "same\n", "same\n", 1, 2, false), "");
}

#[test]
fn lays_out_tables_with_padded_columns() {
    let styles = cell_styles(&[TextStyle::Plain, TextStyle::Plain]);
    let table = format_table(
        &["A", "LONG"],
        &[vec!["wide cell".into(), "x".into()]],
        &styles,
        false,
    );
    assert_eq!(table, "A          LONG\n─────────  ────\nwide cell  x\n");
    let plain = CellStyle {
        open: String::new(),
        close: String::new(),
    };
    assert_eq!(plain.open, "");
}

#[test]
fn check_reports_available_version_without_installing() {
    let step = next_update_step(
        &UpdateArgs { check: true },
        Some("9.0.0".into()),
        CURRENT_VERSION,
    );
    assert_eq!(
        step,
        UpdateStep::Report(format!(
            "pm 9.0.0 is available (current: {CURRENT_VERSION})\n"
        ))
    );
    assert!(!matches!(step, UpdateStep::Install(_)));
}

#[test]
fn update_installs_available_version() {
    let step = next_update_step(
        &UpdateArgs { check: false },
        Some("9.0.0".into()),
        CURRENT_VERSION,
    );
    assert_eq!(step, UpdateStep::Install("9.0.0".into()));
    assert_eq!(
        update_report(CURRENT_VERSION, "9.0.0"),
        format!("updated pm from {CURRENT_VERSION} to 9.0.0\n")
    );
}

#[test]
fn reports_when_current_version_is_latest() {
    let step = next_update_step(&UpdateArgs { check: false }, None, CURRENT_VERSION);
    assert_eq!(
        step,
        UpdateStep::Report(format!("pm {CURRENT_VERSION} is up to date\n"))
    );
}

#[test]
fn names_release_files() {
    assert_eq!(
        release_asset_name("1.2.3", "x86_64-unknown-linux-gnu"),
        "pm-v1.2.3-x86_64-unknown-linux-gnu.tar.gz"
    );
    assert_eq!(checksum_asset_name("a.tar.gz"), "a.tar.gz.sha256");
    assert_eq!(release_tag("1.2.3"), "v1.2.3");
    assert_eq!(
        update_error("check for updates", "offline").text(),
        "failed to check for updates: offline"
    );
}

#[test]
fn chooses_the_pager() {
    assert_eq!(pager_command(None).unwrap(), ["less", "-FRX"]);
    assert_eq!(pager_command(Some("  ")).unwrap(), ["less", "-FRX"]);
    assert_eq!(pager_command(Some("more -s")).unwrap(), ["more", "-s"]);
    assert_eq!(
        pager_command(Some("less '")).unwrap_err().text(),
        "invalid pager command: missing closing quote"
    );
}

#[test]
fn sorts_by_name_unless_asked_otherwise() {
    assert_eq!(ListSort::default(), ListSort::Name);
}
