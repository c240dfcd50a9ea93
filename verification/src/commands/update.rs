//! `update`: what to do once the latest release is known, and the names of
//! the release files to fetch.
use vstd::prelude::*;

use crate::cli::UpdateArgs;
use crate::error::Error;
use crate::text::push_str;

verus! {

/// What `update` does next.
#[derive(Debug, PartialEq, Eq)]
pub enum UpdateStep {
    /// Write this text and stop.
    Report(String),
    /// Install this version.
    Install(String),
}

/// The report when no newer release exists.
pub open spec fn up_to_date_text(current: Seq<char>) -> Seq<char> {
    "pm "@ + current + " is up to date\n"@
}

/// The report of `update --check` when a newer release exists.
pub open spec fn available_text(version: Seq<char>, current: Seq<char>) -> Seq<char> {
    "pm "@ + version + " is available (current: "@ + current + ")\n"@
}

/// The report after an update.
pub open spec fn updated_text(current: Seq<char>, installed: Seq<char>) -> Seq<char> {
    "updated pm from "@ + current + " to "@ + installed + "\n"@
}

/// Decides what `update` does, given the newer release if there is one and
/// the running version: report that it is up to date, report the newer
/// version (with `--check`), or install it.
pub fn next_update_step(arguments: &UpdateArgs, available: Option<String>, current: &str) -> (result: UpdateStep)
    ensures
        match available {
            None => result matches UpdateStep::Report(text) && text@ == up_to_date_text(current@),
            Some(version) => if arguments.check {
                result matches UpdateStep::Report(text) && text@ == available_text(version@, current@)
            } else {
                result matches UpdateStep::Install(v) && v@ == version@
            },
        },
{
    match available {
        None => {
            let mut text = "pm ".to_owned();
            push_str(&mut text, current);
            push_str(&mut text, " is up to date\n");
            UpdateStep::Report(text)
        },
        Some(version) => {
            if arguments.check {
                let mut text = "pm ".to_owned();
                push_str(&mut text, version.as_str());
                push_str(&mut text, " is available (current: ");
                push_str(&mut text, current);
                push_str(&mut text, ")\n");
                UpdateStep::Report(text)
            } else {
                UpdateStep::Install(version)
            }
        },
    }
}

/// The report after installing `installed` over `current`.
pub fn update_report(current: &str, installed: &str) -> (result: String)
    ensures
        result@ == updated_text(current@, installed@),
{
    let mut text = "updated pm from ".to_owned();
    push_str(&mut text, current);
    push_str(&mut text, " to ");
    push_str(&mut text, installed);
    push_str(&mut text, "\n");
    text
}

/// The error of a failed update step.
pub fn update_error(action: &str, detail: &str) -> (result: Error)
    ensures
        result matches Error::Message(text) && text@ == "failed to "@ + action@ + ": "@ + detail@,
{
    let mut text = "failed to ".to_owned();
    push_str(&mut text, action);
    push_str(&mut text, ": ");
    push_str(&mut text, detail);
    Error::Message(text)
}

/// The archive of a release for a target: `pm-v{version}-{target}.tar.gz`.
pub fn release_asset_name(version: &str, target: &str) -> (result: String)
    ensures
        result@ == "pm-v"@ + version@ + "-"@ + target@ + ".tar.gz"@,
{
    let mut text = "pm-v".to_owned();
    push_str(&mut text, version);
    push_str(&mut text, "-");
    push_str(&mut text, target);
    push_str(&mut text, ".tar.gz");
    text
}

/// The checksum file published beside an archive.
pub fn checksum_asset_name(asset: &str) -> (result: String)
    ensures
        result@ == asset@ + ".sha256"@,
{
    let mut text = asset.to_owned();
    push_str(&mut text, ".sha256");
    text
}

/// The tag of a release: `v{version}`.
pub fn release_tag(version: &str) -> (result: String)
    ensures
        result@ == "v"@ + version@,
{
    let mut text = "v".to_owned();
    push_str(&mut text, version);
    text
}

} // verus!
