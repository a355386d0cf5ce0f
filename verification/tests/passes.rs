//! The machines of a session one by one, answered by hand.

use commit_fix::action::{Action, Reply, Request};
use commit_fix::clippy::{fix_request_of, lint_report_of, LintPass};
use commit_fix::command::Tool;
use commit_fix::diagnostic::{diagnostics_of, lint_code, message_of, read_diagnostic, read_diagnostics, read_message};
use commit_fix::digest::{group_fixes, is_broken, unfixables_of};
use commit_fix::hook::{touches_manifest, touches_rust, Hook};
use commit_fix::lock::LockPass;
use commit_fix::scratch::Checkout;
use commit_fix::stage::Staging;

fn owned(list: &[&str]) -> Vec<String> {
    list.iter().map(|s| s.to_string()).collect()
}

fn bytes(s: &str) -> Option<Vec<u8>> {
    Some(s.as_bytes().to_vec())
}

/// How a request reads.
fn shown(request: &Request) -> String {
    let line = |tool: &Tool<String>| format!("{} {}", tool.program(), tool.arguments().join(" "));
    let plain = |b: &Vec<u8>| String::from_utf8_lossy(b).into_owned();
    match request {
        Action::Output(tool) => format!("output {}", line(tool)),
        Action::Feed(tool, input) => format!("feed {} < {}", line(tool), plain(input)),
        Action::Status(tool) => match tool.directory() {
            Some(dir) => format!("status {} in {dir}", line(tool)),
            None => format!("status {}", line(tool)),
        },
        Action::Run(tool) => format!("run {}", line(tool)),
        Action::Canonical(path) => format!("canonical {path}"),
        Action::Enter(path) => format!("enter {path}"),
        Action::Exists(path) => format!("exists {path}"),
        Action::Variable(name) => format!("variable {name}"),
        Action::Read(path) => format!("read {path}"),
        Action::ReadText(path) => format!("text {path}"),
        Action::Write(path, b) => format!("write {path} < {}", plain(b)),
        Action::FormatTree(edition, groups) => format!("format {edition} {groups:?}"),
        Action::Stage(path, b) => format!("stage {path} < {}", plain(b)),
        Action::Lint => "lint".to_string(),
        Action::Freshen => "freshen".to_string(),
        Action::Scratch => "scratch".to_string(),
        Action::Export(repo, tree, dir) => format!("export {repo} {tree} {dir}"),
        Action::Checkout(root) => format!("checkout {root}"),
        Action::Sleep(millis) => format!("sleep {millis}"),
        Action::Warn(message) => format!("warn {message}"),
        Action::Note(message) => format!("note {message}"),
        Action::Done => "done".to_string(),
    }
}

const SPAN_END: &str = "\"line_start\":7,\"line_end\":7,\"column_start\":1,\"column_end\":2,\
    \"is_primary\":true,\"text\":[],\"label\":null,\"expansion\":null";

fn suggestion(file: &str, start: usize, end: usize, text: &str, applicability: &str) -> String {
    format!(
        "{{\"file_name\":\"{file}\",\"byte_start\":{start},\"byte_end\":{end},{SPAN_END},\
         \"suggested_replacement\":\"{text}\",\"suggestion_applicability\":\"{applicability}\"}}"
    )
}

fn message(level: &str, code: &str, file: &str, fixes: &str) -> String {
    let code = if code.is_empty() {
        "null".to_string()
    } else {
        format!("{{\"code\":\"{code}\",\"explanation\":null}}")
    };
    format!(
        "{{\"reason\":\"compiler-message\",\"message\":{{\"message\":\"m\",\"code\":{code},\
         \"level\":\"{level}\",\"spans\":[{{\"file_name\":\"{file}\",\"byte_start\":0,\
         \"byte_end\":1,{SPAN_END},\"suggested_replacement\":null,\
         \"suggestion_applicability\":null}}],\"children\":[{{\"message\":\"h\",\"code\":null,\
         \"level\":\"help\",\"spans\":[{fixes}],\"children\":[],\"rendered\":null}}],\
         \"rendered\":null}}}}"
    )
}

#[test]
fn a_message_is_read_field_by_field() {
    let line = message("warning", "clippy::x", "src/a.rs", "");
    let read = read_message(&line).unwrap();
    assert_eq!(read.reason.as_deref(), Some("compiler-message"));
    assert_eq!(read.level.as_deref(), Some("warning"));
    assert_eq!(read.code.as_deref(), Some("clippy::x"));
    assert_eq!(read.file_name.as_deref(), Some("src/a.rs"));
    assert_eq!(read.line_start, Some(7));
    assert!(read.rendered.starts_with("{\"children\":[{"));
    assert!(read_message("warning: not a document").is_none());
    let bare = read_message("[1]").unwrap();
    assert_eq!(bare.reason, None);
    assert_eq!(bare.line_start, None);
    assert_eq!(bare.rendered, "null");
}

#[test]
fn a_document_is_read_as_it_is() {
    let doc: serde_json::Value =
        serde_json::from_str("{\"reason\":1,\"message\":{\"level\":\"note\",\"spans\":[]}}").unwrap();
    let read = message_of(&doc);
    assert_eq!(read.reason, None);
    assert_eq!(read.level.as_deref(), Some("note"));
    assert_eq!(read.code, None);
    assert_eq!(read.file_name, None);
    assert_eq!(read.rendered, "{\"level\":\"note\",\"spans\":[]}");
}

#[test]
fn diagnostics_come_in_the_order_of_their_lines() {
    let one = message("warning", "clippy::one", "a.rs", "");
    let two = message("warning", "clippy::two", "a.rs", "");
    let list = diagnostics_of(&format!("{one}\r\nnoise\n\n{two}"));
    let codes: Vec<Option<String>> = list.into_iter().map(|d| d.message.code).collect();
    assert_eq!(codes, vec![Some("clippy::one".to_string()), Some("clippy::two".to_string())]);
    // A byte that is no text spoils its own line alone.
    let mut bytes = one.into_bytes();
    bytes.extend(b"\n\xff\n");
    assert_eq!(read_diagnostics(&bytes).len(), 1);
}

#[test]
fn what_a_fix_leads_to() {
    assert_eq!(
        shown(&fix_request_of("2018", "a.rs", &Some("x".to_string()))),
        "feed rustfmt --edition 2018 --emit stdout < x"
    );
    assert_eq!(
        shown(&fix_request_of("2018", "a.rs", &None)),
        "warn clippy fix for a.rs did not apply cleanly; skipped"
    );
}

#[test]
fn a_hard_error_has_no_lint() {
    let code = |c: &str| lint_code(&read_message(&message("error", c, "a.rs", "")).unwrap());
    assert_eq!(code("E0308"), None);
    assert_eq!(code(""), None);
    assert_eq!(code("E030x").as_deref(), Some("E030x"));
    assert_eq!(code("E03081").as_deref(), Some("E03081"));
    assert_eq!(code("clippy::all").as_deref(), Some("clippy::all"));
}

#[test]
fn only_messages_of_the_compiler_are_diagnostics() {
    assert!(read_diagnostic("{\"reason\":\"build-finished\",\"success\":true}").is_none());
    assert!(read_diagnostic("Compiling").is_none());
    let safe = suggestion("src/a.rs", 0, 1, "b", "MachineApplicable");
    let unsure = suggestion("src/a.rs", 0, 1, "b", "MaybeIncorrect");
    let one = read_diagnostic(&message("warning", "clippy::x", "src/a.rs", &safe)).unwrap();
    assert_eq!(one.fixes.len(), 1);
    let none = read_diagnostic(&message("warning", "clippy::x", "src/a.rs", &unsure)).unwrap();
    assert_eq!(none.fixes.len(), 0);
    let odd = read_diagnostic("{\"reason\":\"compiler-message\",\"message\":{}}").unwrap();
    assert_eq!(odd.fixes.len(), 0);
}

#[test]
fn a_tree_is_broken_by_code_not_by_lints() {
    let read = |lines: &[String]| read_diagnostics(&lines.join("\n").into_bytes());
    let lint = message("error", "clippy::x", "a.rs", "");
    let code = message("error", "E0308", "a.rs", "");
    let warning = message("warning", "clippy::x", "a.rs", "");
    assert!(is_broken(&read(&[code.clone()]), false));
    assert!(is_broken(&read(&[lint.clone(), code]), true));
    assert!(is_broken(&read(&[warning.clone()]), false));
    assert!(!is_broken(&read(&[lint]), false));
    assert!(!is_broken(&read(&[warning]), true));
    assert!(is_broken(&read(&[]), false));
}

#[test]
fn unfixable_lints_of_staged_files_are_reported() {
    let fix = suggestion("src/a.rs", 0, 1, "b", "MachineApplicable");
    let lines = [
        message("warning", "clippy::one", "src/a.rs", ""),
        message("error", "clippy::two", "/repo/src/a.rs", ""),
        message("warning", "clippy::fixable", "src/a.rs", &fix),
        message("note", "clippy::note", "src/a.rs", ""),
        message("warning", "unused_variables", "src/a.rs", ""),
        message("warning", "clippy::other", "src/b.rs", ""),
        message("warning", "clippy::outside", "/other/src/a.rs", ""),
    ];
    let list = read_diagnostics(&lines.join("\n").into_bytes());
    assert_eq!(
        unfixables_of(&list, "/repo", "/repo", &owned(&["src/a.rs"])),
        owned(&["clippy::one at src/a.rs:7", "clippy::two at src/a.rs:7"])
    );
}

#[test]
fn a_report_shows_ten_lints_once_and_in_order() {
    let few = owned(&["b", "a", "b"]);
    assert_eq!(lint_report_of(&few), "clippy: a, b");
    let many: Vec<String> = (10..23).map(|i| format!("l{i}")).collect();
    assert_eq!(
        lint_report_of(&many),
        "clippy: l10, l11, l12, l13, l14, l15, l16, l17, l18, l19 (+3 more)"
    );
    assert_eq!(
        lint_report_of(&many[..10].to_vec()),
        "clippy: l10, l11, l12, l13, l14, l15, l16, l17, l18, l19"
    );
}

#[test]
fn fixes_are_gathered_by_file() {
    let a = suggestion("src/a.rs", 0, 1, "x", "MachineApplicable");
    let a2 = suggestion("/repo/src/a.rs", 2, 3, "y", "MachineApplicable");
    let b = suggestion("src/b.rs", 0, 1, "z", "MachineApplicable");
    let out = suggestion("/other/c.rs", 0, 1, "z", "MachineApplicable");
    let both = format!("{a},{b}");
    let lines = [
        message("warning", "clippy::one", "src/a.rs", &a),
        message("warning", "clippy::two", "src/b.rs", &b),
        message("warning", "clippy::one", "src/a.rs", &a2),
        message("warning", "clippy::spans", "src/a.rs", &both),
        message("warning", "clippy::out", "src/a.rs", &out),
    ];
    let list = read_diagnostics(&lines.join("\n").into_bytes());
    let groups = group_fixes(list, "/repo", "/repo");
    let sizes: Vec<(&str, usize)> =
        groups.iter().map(|g| (g.file.as_str(), g.fixes.len())).collect();
    assert_eq!(sizes, vec![("src/a.rs", 2), ("src/b.rs", 1)]);
}

fn lint_pass(partial: bool, wip: &[&str], staged: &[&str]) -> (LintPass, Request) {
    LintPass::start("/repo".to_string(), partial, owned(wip), owned(staged), "2021".to_string())
}

/// A lint pass up to the answer of clippy.
fn linted(partial: bool, wip: &[&str], staged: &[&str], output: &[String]) -> (LintPass, Request) {
    let (mut pass, first) = lint_pass(partial, wip, staged);
    assert_eq!(
        shown(&first),
        "output cargo locate-project --workspace --message-format plain"
    );
    assert_eq!(shown(&pass.step(Reply::Bytes(bytes("/repo/Cargo.toml\n")))), "canonical /repo");
    let run = pass.step(Reply::Text(Some("/repo".to_string())));
    assert_eq!(shown(&run), "run cargo clippy --message-format=json");
    let next = pass.step(Reply::Ran(Some((true, output.join("\n").into_bytes()))));
    (pass, next)
}

#[test]
fn a_fix_is_applied_formatted_written_and_staged() {
    let fix = suggestion("src/a.rs", 4, 5, "bb", "MachineApplicable");
    let line = message("warning", "clippy::x", "src/a.rs", &fix);
    let (mut pass, next) = linted(false, &[], &[], &[line]);
    assert_eq!(shown(&next), "output git show :src/a.rs");
    assert_eq!(shown(&pass.step(Reply::Bytes(bytes("let a;")))), "read src/a.rs");
    assert_eq!(
        shown(&pass.step(Reply::Bytes(bytes("let a;")))),
        "feed rustfmt --edition 2021 --emit stdout < let bb;"
    );
    assert_eq!(shown(&pass.step(Reply::Bytes(bytes("let bb;\n")))), "write src/a.rs < let bb;\n");
    assert_eq!(shown(&pass.step(Reply::Flag(true))), "stage src/a.rs < let bb;\n");
    assert_eq!(shown(&pass.step(Reply::Flag(true))), "note clippy fixed src/a.rs");
    assert_eq!(shown(&pass.step(Reply::Ack)), "done");
    assert_eq!(shown(&pass.step(Reply::Ack)), "done");
}

#[test]
fn a_fix_that_cannot_be_formatted_is_staged_as_it_is() {
    let fix = suggestion("src/a.rs", 0, 1, "b", "MachineApplicable");
    let line = message("warning", "clippy::x", "src/a.rs", &fix);
    let (mut pass, _) = linted(false, &[], &[], &[line]);
    pass.step(Reply::Bytes(bytes("a")));
    pass.step(Reply::Bytes(bytes("a")));
    assert_eq!(shown(&pass.step(Reply::Bytes(None))), "write src/a.rs < b");
    assert_eq!(
        shown(&pass.step(Reply::Flag(false))),
        "warn clippy fix for src/a.rs could not be written; skipped"
    );
    assert_eq!(shown(&pass.step(Reply::Ack)), "done");
}

#[test]
fn contradicting_fixes_get_a_warning() {
    let one = suggestion("src/a.rs", 0, 2, "x", "MachineApplicable");
    let two = suggestion("src/a.rs", 1, 3, "y", "MachineApplicable");
    let lines = [
        message("warning", "clippy::x", "src/a.rs", &one),
        message("warning", "clippy::y", "src/a.rs", &two),
    ];
    let (mut pass, _) = linted(false, &[], &[], &lines);
    pass.step(Reply::Bytes(bytes("abcd")));
    assert_eq!(
        shown(&pass.step(Reply::Bytes(bytes("abcd")))),
        "warn clippy fix for src/a.rs did not apply cleanly; skipped"
    );
    assert_eq!(shown(&pass.step(Reply::Ack)), "done");
}

#[test]
fn a_contended_file_is_warned_about_only_where_the_commit_stages_it() {
    let fix = suggestion("src/a.rs", 0, 1, "b", "MachineApplicable");
    let line = message("warning", "clippy::x", "src/a.rs", &fix);
    let edits = "warn clippy fix for src/a.rs skipped: file has local edits";
    // Edits from before the run.
    let (_, next) = linted(false, &["src/a.rs"], &["src/a.rs"], &[line.clone()]);
    assert_eq!(shown(&next), edits);
    let (_, next) = linted(false, &["src/a.rs"], &[], &[line.clone()]);
    assert_eq!(shown(&next), "done");
    // Edits from during the run.
    let (mut pass, _) = linted(false, &[], &["src/a.rs"], &[line.clone()]);
    pass.step(Reply::Bytes(bytes("a")));
    assert_eq!(shown(&pass.step(Reply::Bytes(bytes("b")))), edits);
    let (mut pass, _) = linted(false, &[], &[], &[line.clone()]);
    pass.step(Reply::Bytes(bytes("a")));
    assert_eq!(shown(&pass.step(Reply::Bytes(None))), "done");
    // A bystander of a partial commit.
    let (_, next) = linted(true, &[], &[], &[line]);
    assert_eq!(shown(&next), "done");
}

#[test]
fn a_blob_that_is_no_text_gets_no_fix() {
    let fix = suggestion("src/a.rs", 0, 1, "b", "MachineApplicable");
    let line = message("warning", "clippy::x", "src/a.rs", &fix);
    let (mut pass, _) = linted(false, &[], &[], &[line]);
    pass.step(Reply::Bytes(Some(vec![0xff])));
    assert_eq!(shown(&pass.step(Reply::Bytes(Some(vec![0xff])))), "done");
}

#[test]
fn a_broken_tree_ends_the_lint_pass() {
    let fix = suggestion("src/a.rs", 0, 1, "b", "MachineApplicable");
    let lines = [
        message("warning", "clippy::x", "src/a.rs", &fix),
        message("error", "E0425", "src/b.rs", ""),
    ];
    let (_, next) = linted(false, &[], &["src/a.rs", "src/b.rs"], &lines);
    assert_eq!(shown(&next), "done");
    let (mut pass, _) = lint_pass(false, &[], &[]);
    assert_eq!(
        shown(&pass.step(Reply::Bytes(None))),
        "run cargo clippy --message-format=json"
    );
    assert_eq!(shown(&pass.step(Reply::Ran(None))), "done");
}

#[test]
fn staging_names_the_object_and_keeps_the_mode() {
    let (staging, first) = Staging::start("bin/x.rs".to_string(), b"new".to_vec());
    assert_eq!(shown(&first), "feed git hash-object -w --stdin < new");
    let (staging, next) = staging.step(Reply::Bytes(bytes("abc\n")));
    assert_eq!(shown(&next), "output git ls-files -s -- bin/x.rs");
    let (staging, next) = staging.step(Reply::Bytes(bytes("100755 0 0\tbin/x.rs\n")));
    assert_eq!(
        shown(&next),
        "status git update-index --add --cacheinfo 100755,abc,bin/x.rs"
    );
    assert!(!staging.staged());
    let (staging, next) = staging.step(Reply::Flag(true));
    assert_eq!(shown(&next), "done");
    assert!(staging.staged());
}

#[test]
fn staging_gives_up_after_five_attempts() {
    let (staging, _) = Staging::start("x.rs".to_string(), b"new".to_vec());
    let (staging, _) = staging.step(Reply::Bytes(bytes("abc")));
    let (mut staging, mut next) = staging.step(Reply::Bytes(None));
    let mut seen = Vec::new();
    for _ in 0..10 {
        seen.push(shown(&next));
        (staging, next) = staging.step(Reply::Flag(false));
    }
    let attempt = "status git update-index --add --cacheinfo 100644,abc,x.rs";
    assert_eq!(
        seen,
        vec![
            attempt, "sleep 50", attempt, "sleep 100", attempt, "sleep 200", attempt, "sleep 400",
            attempt, "warn could not stage fix for x.rs (index busy)",
        ]
    );
    assert_eq!(shown(&next), "done");
    assert!(!staging.staged());
}

#[test]
fn an_object_store_that_refuses_ends_the_staging() {
    let (staging, _) = Staging::start("x.rs".to_string(), b"new".to_vec());
    let (staging, next) = staging.step(Reply::Bytes(None));
    assert_eq!(shown(&next), "warn could not stage fix for x.rs (object not written)");
    let (staging, next) = staging.step(Reply::Ack);
    assert_eq!(shown(&next), "done");
    assert!(!staging.staged());
}

/// A lock file pass up to the answer of its checkout.
fn locking(manifest: &str, at_start: Option<Vec<u8>>, staged: Option<Vec<u8>>) -> LockPass {
    let (mut pass, first) = LockPass::start("/repo".to_string(), at_start);
    assert_eq!(shown(&first), "output git show :Cargo.toml");
    let next = pass.step(Reply::Bytes(bytes(manifest)));
    assert_eq!(shown(&next), "output git show :Cargo.lock");
    assert_eq!(shown(&pass.step(Reply::Bytes(staged))), "checkout /repo");
    pass
}

#[test]
fn a_lock_file_is_resolved_in_scratch() {
    for manifest in ["[package]\n", "[workspace]\n"] {
        let mut pass = locking(manifest, bytes("old"), bytes("old"));
        assert_eq!(
            shown(&pass.step(Reply::Text(Some("/tmp/s".to_string())))),
            "status cargo metadata --format-version 1 in /tmp/s/self"
        );
        assert_eq!(shown(&pass.step(Reply::Flag(true))), "read /tmp/s/self/Cargo.lock");
        assert_eq!(
            shown(&pass.step(Reply::Bytes(bytes("new")))),
            "write /repo/Cargo.lock < new"
        );
        // A tree copy that cannot be written does not stop the staged fix.
        assert_eq!(shown(&pass.step(Reply::Flag(false))), "stage Cargo.lock < new");
        assert_eq!(shown(&pass.step(Reply::Flag(true))), "note refreshed Cargo.lock");
        assert_eq!(shown(&pass.step(Reply::Ack)), "done");
    }
}

#[test]
fn a_fresh_lock_file_is_not_staged_again() {
    let mut pass = locking("[workspace]\n", bytes("edited"), bytes("old"));
    pass.step(Reply::Text(Some("/tmp/s".to_string())));
    pass.step(Reply::Flag(true));
    assert_eq!(shown(&pass.step(Reply::Bytes(bytes("old")))), "done");
}

#[test]
fn a_contended_lock_file_stays_in_the_tree_and_is_staged() {
    for manifest in ["[package]\n", "[workspace]\n"] {
        let mut pass = locking(manifest, bytes("edited"), bytes("old"));
        pass.step(Reply::Text(Some("/tmp/s".to_string())));
        pass.step(Reply::Flag(true));
        assert_eq!(shown(&pass.step(Reply::Bytes(bytes("new")))), "stage Cargo.lock < new");
    }
}

#[test]
fn a_lock_file_that_cannot_be_freshened_gets_a_warning() {
    for (manifest, warning) in [
        ("[package]\n", "warn Cargo.lock could not be resolved standalone (CI will fail)"),
        ("[workspace]\n", "warn workspace Cargo.lock could not be resolved (CI will fail)"),
    ] {
        let mut pass = locking(manifest, None, None);
        pass.step(Reply::Text(Some("/tmp/s".to_string())));
        assert_eq!(shown(&pass.step(Reply::Flag(false))), warning);
        assert_eq!(shown(&pass.step(Reply::Ack)), "done");
    }
    let mut pass = locking("[package]\n", None, None);
    pass.step(Reply::Text(Some("/tmp/s".to_string())));
    pass.step(Reply::Flag(true));
    assert_eq!(
        shown(&pass.step(Reply::Bytes(None))),
        "warn resolved Cargo.lock could not be read (CI will fail)"
    );
    // A checkout that fails has printed its own warning.
    let mut pass = locking("[package]\n", None, None);
    assert_eq!(shown(&pass.step(Reply::Text(None))), "done");
}

#[test]
fn a_manifest_that_is_no_text_is_no_workspace() {
    let (mut pass, _) = LockPass::start("/repo".to_string(), None);
    pass.step(Reply::Bytes(Some(b"[workspace]\n\xff".to_vec())));
    pass.step(Reply::Bytes(None));
    pass.step(Reply::Text(Some("/tmp/s".to_string())));
    assert_eq!(
        shown(&pass.step(Reply::Flag(false))),
        "warn Cargo.lock could not be resolved standalone (CI will fail)"
    );
}

#[test]
fn a_checkout_holds_the_closure_of_siblings() {
    let (mut checkout, first) = Checkout::start("/land/main".to_string());
    assert_eq!(shown(&first), "scratch");
    assert_eq!(
        shown(&checkout.step(Reply::Text(Some("/tmp/s".to_string())))),
        "output git write-tree"
    );
    assert_eq!(
        shown(&checkout.step(Reply::Bytes(bytes("tree\n")))),
        "export /land/main tree /tmp/s/self"
    );
    assert_eq!(shown(&checkout.step(Reply::Flag(true))), "text /tmp/s/self/Cargo.toml");
    let manifest = "a = { path = \"../a\" }\nb = { path = \"../b\" }\n";
    assert_eq!(
        shown(&checkout.step(Reply::Text(Some(manifest.to_string())))),
        "export /land/b HEAD /tmp/s/b"
    );
    assert_eq!(shown(&checkout.step(Reply::Flag(true))), "text /tmp/s/b/Cargo.toml");
    let manifest = "a = { path = \"../a\" }\nb = { path = \"../b\" }\n";
    assert_eq!(
        shown(&checkout.step(Reply::Text(Some(manifest.to_string())))),
        "export /land/a HEAD /tmp/s/a"
    );
    assert_eq!(shown(&checkout.step(Reply::Flag(true))), "text /tmp/s/a/Cargo.toml");
    assert_eq!(checkout.complete(), None);
    assert_eq!(shown(&checkout.step(Reply::Text(None))), "done");
    assert_eq!(checkout.complete(), Some("/tmp/s".to_string()));
}

#[test]
fn a_checkout_that_fails_is_not_complete() {
    let (mut checkout, _) = Checkout::start("/land/main".to_string());
    checkout.step(Reply::Text(Some("/tmp/s".to_string())));
    checkout.step(Reply::Bytes(bytes("tree\n")));
    assert_eq!(
        shown(&checkout.step(Reply::Flag(false))),
        "warn could not export the pending commit"
    );
    assert_eq!(shown(&checkout.step(Reply::Ack)), "done");
    assert_eq!(checkout.complete(), None);
    let (mut checkout, _) = Checkout::start("/land/main".to_string());
    checkout.step(Reply::Text(Some("/tmp/s".to_string())));
    checkout.step(Reply::Bytes(bytes("tree\n")));
    checkout.step(Reply::Flag(true));
    checkout.step(Reply::Text(Some("a = { path = \"../a\" }\n".to_string())));
    assert_eq!(
        shown(&checkout.step(Reply::Flag(false))),
        "warn could not export sibling dependency a"
    );
    let (mut checkout, _) = Checkout::start("/land/main".to_string());
    assert_eq!(
        shown(&checkout.step(Reply::Text(None))),
        "warn could not make a scratch directory (CI may fail)"
    );
    assert_eq!(shown(&checkout.step(Reply::Ack)), "done");
    assert_eq!(checkout.complete(), None);
    let (mut checkout, _) = Checkout::start("/land/main".to_string());
    checkout.step(Reply::Text(Some("/tmp/s".to_string())));
    assert_eq!(
        shown(&checkout.step(Reply::Bytes(None))),
        "warn could not write the pending commit as a tree (CI may fail)"
    );
    let (mut checkout, _) = Checkout::start("/".to_string());
    checkout.step(Reply::Text(Some("/tmp/s".to_string())));
    checkout.step(Reply::Bytes(bytes("tree\n")));
    assert_eq!(
        shown(&checkout.step(Reply::Flag(true))),
        "warn the repository lies in no directory (CI may fail)"
    );
}

/// A checkout up to the answer of the commit's manifest.
fn checked_out(manifest: &str) -> (Checkout, Request) {
    let (mut checkout, _) = Checkout::start("/land/main".to_string());
    checkout.step(Reply::Text(Some("/tmp/s".to_string())));
    checkout.step(Reply::Bytes(bytes("tree\n")));
    checkout.step(Reply::Flag(true));
    let next = checkout.step(Reply::Text(Some(manifest.to_string())));
    (checkout, next)
}

#[test]
fn a_workspace_checkout_follows_every_manifest() {
    let (mut checkout, next) = checked_out("[workspace]\nmembers = [\"m\"]\n");
    assert_eq!(shown(&next), "output git -C /land/main ls-tree -r -z --name-only tree");
    let files = "Cargo.toml\0m/Cargo.toml\0m/src/lib.rs\0deep/er/Cargo.toml\0";
    assert_eq!(
        shown(&checkout.step(Reply::Bytes(bytes(files)))),
        "text /tmp/s/self/deep/er/Cargo.toml"
    );
    assert_eq!(shown(&checkout.step(Reply::Text(None))), "text /tmp/s/self/m/Cargo.toml");
    let member = "x = { path = \"../../x/sub\" }\ny = { path = \"../../y\" }\n";
    assert_eq!(
        shown(&checkout.step(Reply::Text(Some(member.to_string())))),
        "export /land/y HEAD /tmp/s/y"
    );
    // A sibling that cannot be extracted is left to cargo.
    assert_eq!(shown(&checkout.step(Reply::Flag(false))), "export /land/x HEAD /tmp/s/x");
    assert_eq!(shown(&checkout.step(Reply::Flag(true))), "text /tmp/s/x/Cargo.toml");
    assert_eq!(
        shown(&checkout.step(Reply::Text(None))),
        "output git -C /land/x ls-tree -r -z --name-only HEAD"
    );
    assert_eq!(
        shown(&checkout.step(Reply::Bytes(bytes("sub/Cargo.toml\0")))),
        "text /tmp/s/x/sub/Cargo.toml"
    );
    let sub = "z = { path = \"../../z\" }\ny = { path = \"../../y\" }\n";
    assert_eq!(
        shown(&checkout.step(Reply::Text(Some(sub.to_string())))),
        "export /land/z HEAD /tmp/s/z"
    );
    checkout.step(Reply::Flag(true));
    checkout.step(Reply::Text(None));
    assert_eq!(shown(&checkout.step(Reply::Bytes(None))), "done");
    assert_eq!(checkout.complete(), Some("/tmp/s".to_string()));
}

#[test]
fn a_member_of_a_workspace_may_lie_beside_the_repository() {
    let (mut checkout, _) = checked_out("[workspace]\nmembers = [\n    \"../m\",\n]\n");
    assert_eq!(
        shown(&checkout.step(Reply::Bytes(bytes("Cargo.toml\0")))),
        "export /land/m HEAD /tmp/s/m"
    );
    // Of a package, what stands in a list is no dependency.
    let (_, next) = checked_out("[package]\ninclude = [\"../m\"]\n");
    assert_eq!(shown(&next), "done");
}

#[test]
fn no_sibling_takes_the_place_of_the_commit() {
    let (mut checkout, next) = checked_out("me = { path = \"../self\" }\n");
    assert_eq!(shown(&next), "warn could not export sibling dependency self");
    assert_eq!(shown(&checkout.step(Reply::Ack)), "done");
    assert_eq!(checkout.complete(), None);
    let (mut checkout, _) = checked_out("[workspace]\n[workspace.dependencies]\nme.path = \"../self\"\n");
    assert_eq!(shown(&checkout.step(Reply::Bytes(bytes("Cargo.toml\0")))), "done");
    assert_eq!(checkout.complete(), Some("/tmp/s".to_string()));
}

#[test]
fn a_commit_is_classified_by_its_files() {
    assert!(touches_rust(&owned(&["README.md", "src/lib.rs"])));
    assert!(touches_rust(&owned(&["crates/a/Cargo.toml"])));
    assert!(touches_rust(&owned(&["Cargo.lock"])));
    assert!(!touches_rust(&owned(&["README.md", "lib.rs.orig"])));
    assert!(touches_manifest(&owned(&["crates/a/Cargo.toml"])));
    assert!(!touches_manifest(&owned(&["src/lib.rs", "Cargo.lock"])));
}

#[test]
fn a_first_commit_takes_the_whole_index() {
    let (mut hook, first) = Hook::start();
    assert_eq!(shown(&first), "output git rev-parse --show-toplevel");
    assert_eq!(shown(&hook.step(Reply::Bytes(bytes(" /r\n")))), "canonical /r");
    assert_eq!(shown(&hook.step(Reply::Text(None))), "enter /r");
    assert_eq!(shown(&hook.step(Reply::Flag(true))), "exists /r/Cargo.toml");
    assert_eq!(shown(&hook.step(Reply::Flag(true))), "variable GIT_INDEX_FILE");
    assert_eq!(shown(&hook.step(Reply::Text(None))), "status git diff --cached --quiet");
    assert_eq!(shown(&hook.step(Reply::Flag(false))), "output git diff --name-only -z");
    assert_eq!(shown(&hook.step(Reply::Bytes(None))), "read /r/Cargo.lock");
    assert_eq!(shown(&hook.step(Reply::Bytes(None))), "output git show :Cargo.toml");
    assert_eq!(
        shown(&hook.step(Reply::Bytes(bytes("edition = \"2018\"")))),
        "text /r/Cargo.toml"
    );
    assert_eq!(
        shown(&hook.step(Reply::Text(Some("edition = \"2015\"".to_string())))),
        "output git diff --cached --name-only -z"
    );
    assert_eq!(shown(&hook.step(Reply::Bytes(None))), "output git ls-files -z");
    assert_eq!(
        shown(&hook.step(Reply::Bytes(bytes("a.rs\0Cargo.toml\0")))),
        "output git ls-files -z -- *.rs"
    );
    assert_eq!(
        shown(&hook.step(Reply::Bytes(bytes("a.rs\0b.rs\0")))),
        "format 2015 [[\"a.rs\"], [\"b.rs\"]]"
    );
    assert_eq!(shown(&hook.step(Reply::Ack)), "output git show :a.rs");
    assert_eq!(
        shown(&hook.step(Reply::Bytes(bytes("a")))),
        "feed rustfmt --edition 2018 --emit stdout < a"
    );
    assert_eq!(shown(&hook.step(Reply::Bytes(bytes("A")))), "stage a.rs < A");
    assert_eq!(
        shown(&hook.step(Reply::Flag(true))),
        "output git diff --name-only -z -- *.rs"
    );
    assert_eq!(shown(&hook.step(Reply::Bytes(bytes("b.rs\0a.rs\0")))), "output git show :b.rs");
    assert_eq!(
        shown(&hook.step(Reply::Bytes(bytes("b")))),
        "feed rustfmt --edition 2018 --emit stdout < b"
    );
    assert_eq!(shown(&hook.step(Reply::Bytes(bytes("B")))), "read b.rs");
    assert_eq!(shown(&hook.step(Reply::Bytes(bytes("foreign")))), "note rustfmt fixed a.rs");
    assert_eq!(shown(&hook.step(Reply::Ack)), "lint");
    assert_eq!(
        shown(&hook.lint_pass().1),
        "output cargo locate-project --workspace --message-format plain"
    );
    assert_eq!(shown(&hook.step(Reply::Ack)), "freshen");
    assert_eq!(shown(&hook.lock_pass().1), "output git show :Cargo.toml");
    assert_eq!(shown(&hook.step(Reply::Ack)), "done");
}

#[test]
fn the_hook_is_silent_outside_a_repository() {
    let (mut hook, _) = Hook::start();
    assert_eq!(shown(&hook.step(Reply::Bytes(None))), "done");
    let (mut hook, _) = Hook::start();
    hook.step(Reply::Bytes(bytes("/r\n")));
    assert_eq!(shown(&hook.step(Reply::Text(Some("/real".to_string())))), "enter /real");
    assert_eq!(shown(&hook.step(Reply::Flag(false))), "done");
}
