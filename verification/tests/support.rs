use prompt_manager::cli::CompletionShell;
use prompt_manager::commands::exec::exec_invocation;
use prompt_manager::commands::export_file_name;
use prompt_manager::commands::recent::{matching_names, names_output, picked_line};
use prompt_manager::db::{is_unchanged, plan_update, version_not_found, Prompt, PromptInput, UpdatePlan};
use prompt_manager::editor::{
    confirms_removal, editor_command, next_edit_action, reopen_answer, Answer, EditAction, EditEvent,
};
use prompt_manager::error::Error;
use prompt_manager::paths::{database_path_from, join_path};
use prompt_manager::stdin::{decode_or, read_input, read_utf8};

fn stored(name: &str, content: &str, tags: &[&str]) -> Prompt {
    Prompt {
        id: 1,
        name: name.into(),
        description: None,
        exec_command: None,
        content: content.into(),
        tags: tags.iter().map(|t| (*t).to_owned()).collect(),
        created_at: 0,
        updated_at: 0,
        last_used_at: None,
        use_count: 0,
        favorite: false,
    }
}

fn input(name: &str, content: &str, tags: &[&str]) -> PromptInput {
    PromptInput {
        name: name.into(),
        description: None,
        exec_command: None,
        content: content.into(),
        tags: tags.iter().map(|t| (*t).to_owned()).collect(),
    }
}

#[test]
fn accepts_empty_piped_input() {
    assert_eq!(read_utf8(b"").unwrap(), "");
}

#[test]
fn rejects_non_utf8_input() {
    assert!(read_utf8(&[0xff]).is_err());
}

#[test]
fn refuses_to_read_interactive_input() {
    let error = read_input(true, b"ignored").unwrap_err();
    assert!(matches!(error, Error::MissingVariable(name) if name == "input"));
}

#[test]
fn reads_piped_text_and_names_undecodable_sources() {
    assert_eq!(read_input(false, "héllo".as_bytes()).unwrap(), "héllo");
    assert_eq!(
        read_utf8(&[0xff]).unwrap_err().text(),
        "stdin is not valid UTF-8"
    );
    assert_eq!(
        decode_or(&[0xc3], "edited prompt is not valid UTF-8")
            .unwrap_err()
            .text(),
        "edited prompt is not valid UTF-8"
    );
    assert_eq!(decode_or(b"ok", "unused").unwrap(), "ok");
}

#[test]
fn appends_pm_database_to_a_data_home() {
    let path = join_path("/tmp/data", "pm/pm.db");
    assert_eq!(path, "/tmp/data/pm/pm.db");
}

#[test]
fn finds_the_database_under_the_data_directory() {
    assert_eq!(
        database_path_from(Some("/xdg"), Some("/home/u")).unwrap(),
        "/xdg/pm/pm.db"
    );
    assert_eq!(
        database_path_from(Some(""), Some("/home/u")).unwrap(),
        "/home/u/.local/share/pm/pm.db"
    );
    assert_eq!(
        database_path_from(None, None).unwrap_err().text(),
        "cannot determine data directory: XDG_DATA_HOME and HOME are unset"
    );
    assert_eq!(join_path("/data/", "pm/pm.db"), "/data/pm/pm.db");
}

#[test]
fn parses_an_editor_with_arguments() {
    let parsed = editor_command(Some("code --wait"), None).unwrap();
    assert_eq!(parsed, vec!["code", "--wait"]);
}

#[test]
fn chooses_the_editor_from_the_environment() {
    assert_eq!(editor_command(Some(" "), Some("nano")).unwrap(), ["nano"]);
    assert_eq!(editor_command(None, None).unwrap(), ["vi"]);
    assert_eq!(
        editor_command(Some("vim '"), None).unwrap_err().text(),
        "invalid editor command: missing closing quote"
    );
}

#[test]
fn reads_yes_and_no_answers() {
    assert_eq!(reopen_answer(Some("\n")), Answer::Yes);
    assert_eq!(reopen_answer(Some(" YES \n")), Answer::Yes);
    assert_eq!(reopen_answer(Some("No\n")), Answer::No);
    assert_eq!(reopen_answer(None), Answer::No);
    assert_eq!(reopen_answer(Some("maybe\n")), Answer::Unclear);
    assert!(confirms_removal("y\n"));
    assert!(confirms_removal(" Yes "));
    assert!(!confirms_removal(""));
    assert!(!confirms_removal("yep"));
}

#[test]
fn splits_the_exec_command() {
    let (program, arguments) =
        exec_invocation("review", &Some("codex exec --model 'gpt 5' -".into())).unwrap();
    assert_eq!(program, "codex");
    assert_eq!(arguments, ["exec", "--model", "gpt 5", "-"]);
    assert_eq!(
        exec_invocation("review", &None).unwrap_err().text(),
        "prompt has no exec command: review"
    );
    assert_eq!(
        exec_invocation("review", &Some("  ".into()))
            .unwrap_err()
            .text(),
        "exec command must not be empty"
    );
}

#[test]
fn lists_and_completes_names() {
    let names = vec!["foo".to_owned(), "bar".to_owned(), "food".to_owned()];
    assert_eq!(names_output(&names).unwrap(), "foo\nbar\nfood\n");
    assert!(names_output(&Vec::new()).is_none());
    assert_eq!(matching_names(names, "fo"), ["foo", "food"]);
    assert_eq!(picked_line("foo"), "foo\n");
    assert_eq!(export_file_name("work/review"), "work/review.md");
    assert_eq!(CompletionShell::Zsh.as_str(), "zsh");
}

#[test]
fn plans_updates_of_stored_prompts() {
    let current = stored("a", "body", &["x"]);
    assert_eq!(
        plan_update(&current, "a", &input("a", "body", &["x"]), false).unwrap(),
        UpdatePlan::Unchanged
    );
    assert_eq!(
        plan_update(&current, "a", &input("a", "new body", &["x"]), false).unwrap(),
        UpdatePlan::Write
    );
    assert_eq!(
        plan_update(&current, "a", &input("b", "body", &["x"]), true).unwrap_err(),
        Error::PromptAlreadyExists("b".into())
    );
    assert!(is_unchanged(&current, &input("a", "body", &["x"])));
    assert!(!is_unchanged(&current, &input("a", "body", &["y"])));
    assert_eq!(
        version_not_found("a", 4).text(),
        "prompt version not found: a@4"
    );
}

#[test]
fn shows_errors_as_the_user_sees_them() {
    assert_eq!(Error::PromptNotFound("a".into()).text(), "prompt not found: a");
    assert_eq!(
        Error::PromptAlreadyExists("a".into()).text(),
        "prompt already exists: a"
    );
    assert_eq!(Error::MissingVariable("x".into()).text(), "missing variable: x");
    assert_eq!(Error::Message("plain".into()).text(), "plain");
}

#[test]
fn edit_session_steps() {
    assert_eq!(
        next_edit_action(EditEvent::Checked { valid: true }, true),
        EditAction::Finish
    );
    assert_eq!(
        next_edit_action(EditEvent::Checked { valid: true }, false),
        EditAction::Finish
    );
    assert_eq!(
        next_edit_action(EditEvent::Checked { valid: false }, false),
        EditAction::Fail
    );
    assert_eq!(
        next_edit_action(EditEvent::Checked { valid: false }, true),
        EditAction::AskReopen
    );
    assert_eq!(
        next_edit_action(EditEvent::Answered(reopen_answer(Some("\n"))), true),
        EditAction::OpenEditor
    );
    assert_eq!(
        next_edit_action(EditEvent::Answered(reopen_answer(Some("maybe\n"))), true),
        EditAction::AskAgain
    );
    assert_eq!(
        next_edit_action(EditEvent::Answered(reopen_answer(None)), true),
        EditAction::Abort(Error::Message(
            "edit aborted after validation failure".into()
        ))
    );
}
