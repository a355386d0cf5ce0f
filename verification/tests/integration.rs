//! Scenario tests: each builds a repository in memory, runs a whole session
//! against it the way a pre-commit hook would, and inspects the index.

use commit_fix::action::{Action, Answer, Reply, Request};
use commit_fix::command::Tool;
use commit_fix::fmt::is_pure_fmt;
use commit_fix::session::Session;
use std::collections::{BTreeMap, BTreeSet};

const UNFORMATTED: &str = "pub fn probe( x:i32 ) ->  i32 {   x+ 1 }\n";
const FORMATTED: &str = "pub fn probe(x: i32) -> i32 {\n    x + 1\n}\n";
// What the full pipeline produces: fmt plus clippy's must_use_candidate fix.
const FIXED: &str = "#[must_use]\npub fn probe(x: i32) -> i32 {\n    x + 1\n}\n";

type Files = BTreeMap<String, Vec<u8>>;

/// A repository with its working tree, its index and its last commit, and the
/// programs that the hook runs on it.
struct World {
    root: String,
    /// Every file on the disk, by absolute path.
    disk: Files,
    index: Files,
    head: Files,
    /// The commits of the repositories beside this one.
    siblings: BTreeMap<String, Files>,
    objects: Vec<Vec<u8>>,
    variable: Option<String>,
    cargo: bool,
    warnings: Vec<String>,
    notes: Vec<String>,
    /// How often the index refuses an entry.
    busy: usize,
    slept: Vec<u64>,
    /// The edition that the tree was formatted for.
    tree_edition: String,
    done: bool,
}

/// What rustfmt makes of the sources in these tests.
fn formatted(source: &[u8]) -> Option<Vec<u8>> {
    let text = String::from_utf8(source.to_vec()).ok()?;
    if text.matches('(').count() != text.matches(')').count() {
        return None;
    }
    Some(text.replace(UNFORMATTED, FORMATTED).replace("( )", "()").into_bytes())
}

fn escaped(text: &str) -> String {
    text.replace('\\', "\\\\").replace('"', "\\\"").replace('\n', "\\n")
}

fn span(file: &str, start: usize, end: usize, replacement: Option<&str>) -> String {
    let suggested = match replacement {
        Some(text) => format!(
            "\"suggested_replacement\":\"{}\",\"suggestion_applicability\":\"MachineApplicable\"",
            escaped(text)
        ),
        None => "\"suggested_replacement\":null,\"suggestion_applicability\":null".to_string(),
    };
    format!(
        "{{\"file_name\":\"{file}\",\"byte_start\":{start},\"byte_end\":{end},\
         \"line_start\":1,\"line_end\":1,\"column_start\":1,\"column_end\":1,\
         \"is_primary\":true,\"text\":[],\"label\":null,{suggested},\"expansion\":null}}"
    )
}

fn diagnostic(level: &str, code: Option<&str>, spans: &str, children: &str) -> String {
    let code = match code {
        Some(code) => format!("{{\"code\":\"{code}\",\"explanation\":null}}"),
        None => "null".to_string(),
    };
    format!(
        "{{\"message\":\"m\",\"code\":{code},\"level\":\"{level}\",\"spans\":[{spans}],\
         \"children\":[{children}],\"rendered\":null}}"
    )
}

fn report(message: &str) -> String {
    format!("{{\"reason\":\"compiler-message\",\"message\":{message}}}\n")
}

fn fixable(file: &str, lint: &str, start: usize, end: usize, replacement: &str) -> String {
    let help = diagnostic("help", None, &span(file, start, end, Some(replacement)), "");
    report(&diagnostic("warning", Some(lint), &span(file, start, end, None), &help))
}

impl World {
    fn new(root: &str, files: &[(&str, &str)]) -> World {
        let mut world = World {
            root: root.to_string(),
            disk: Files::new(),
            index: Files::new(),
            head: Files::new(),
            siblings: BTreeMap::new(),
            objects: Vec::new(),
            variable: None,
            cargo: true,
            warnings: Vec::new(),
            notes: Vec::new(),
            busy: 0,
            slept: Vec::new(),
            tree_edition: String::new(),
            done: false,
        };
        for (path, text) in files {
            world.write(path, text);
            world.add(path);
        }
        world.head = world.index.clone();
        world
    }

    /// A fresh package with one committed source.
    fn package(name: &str) -> World {
        let manifest =
            format!("[package]\nname = \"{name}\"\nversion = \"0.1.0\"\nedition = \"2021\"\n");
        World::new(
            &format!("/tmp/{name}"),
            &[("Cargo.toml", &manifest), ("src/lib.rs", "pub fn base() {}\n")],
        )
    }

    fn at(&self, path: &str) -> String {
        if path.starts_with('/') {
            path.to_string()
        } else {
            format!("{}/{path}", self.root)
        }
    }

    fn write(&mut self, path: &str, text: &str) {
        self.disk.insert(self.at(path), text.as_bytes().to_vec());
    }

    fn add(&mut self, path: &str) {
        let bytes = self.disk[&self.at(path)].clone();
        self.index.insert(path.to_string(), bytes);
    }

    fn commit(&mut self) {
        self.head = self.index.clone();
    }

    fn blob(&self, path: &str) -> String {
        String::from_utf8(self.index[path].clone()).unwrap()
    }

    fn tree(&self, path: &str) -> String {
        String::from_utf8(self.disk[&self.at(path)].clone()).unwrap()
    }

    fn staged(&self) -> Vec<String> {
        let all: BTreeSet<&String> = self.index.keys().chain(self.head.keys()).collect();
        all.into_iter().filter(|p| self.index.get(*p) != self.head.get(*p)).cloned().collect()
    }

    fn modified(&self) -> Vec<String> {
        self.index
            .iter()
            .filter(|(p, blob)| self.disk.get(&self.at(p)) != Some(*blob))
            .map(|(p, _)| p.clone())
            .collect()
    }

    /// How `git status --porcelain` lists a file.
    fn porcelain(&self, path: &str) -> String {
        let mark = |list: Vec<String>| if list.iter().any(|p| p == path) { 'M' } else { ' ' };
        format!("{}{} {path}\n", mark(self.staged()), mark(self.modified()))
    }

    /// What clippy says of the working tree: the exit and the output.
    fn clippy(&self) -> (bool, Vec<u8>) {
        let mut out = String::from("not a document\n{\"reason\":\"build-finished\"}\n");
        let mut compiles = true;
        for (path, bytes) in &self.disk {
            let Some(rel) = path.strip_prefix(&format!("{}/", self.root)) else {
                continue;
            };
            if !rel.ends_with(".rs") {
                continue;
            }
            let text = String::from_utf8(bytes.clone()).unwrap();
            if formatted(bytes).is_none() {
                compiles = false;
                out += &report(&diagnostic("error", None, &span(rel, 0, 1, None), ""));
            }
            for name in ["pub fn probe(", "pub fn gives("] {
                if let Some(i) = text.find(name) {
                    if !text[..i].ends_with("#[must_use]\n") {
                        out += &fixable(rel, "clippy::must_use_candidate", i, i, "#[must_use]\n");
                    }
                }
            }
            let any = "iter().any(|a| *a == x)";
            if let Some(i) = text.find(any) {
                out += &fixable(rel, "clippy::manual_contains", i, i + any.len(), "contains(&x)");
            }
            if text.contains(".unwrap()") {
                let lint = Some("clippy::missing_panics_doc");
                out += &report(&diagnostic("warning", lint, &span(rel, 0, 1, None), ""));
            }
        }
        (compiles, out.into_bytes())
    }

    /// Resolves the package in a directory: its lock file names it and the
    /// siblings that lie beside it.
    fn resolve(&mut self, dir: &str) -> bool {
        if !self.disk.contains_key(&format!("{dir}/Cargo.toml")) {
            return false;
        }
        let manifest: String = self
            .disk
            .iter()
            .filter(|(path, _)| path.starts_with(&format!("{dir}/")))
            .filter(|(path, _)| path.ends_with("/Cargo.toml"))
            .map(|(_, bytes)| String::from_utf8(bytes.clone()).unwrap())
            .collect();
        let beside = dir.rsplit_once('/').unwrap().0.to_string();
        let mut lock = String::from("version = 4\n");
        for name in self.siblings.keys() {
            if manifest.contains(&format!("../{name}")) {
                if !self.disk.contains_key(&format!("{beside}/{name}/Cargo.toml")) {
                    return false;
                }
                lock += &format!("[[package]]\nname = \"{name}\"\n");
            }
        }
        self.disk.insert(format!("{dir}/Cargo.lock"), lock.into_bytes());
        true
    }

    fn output(&self, tool: &Tool<String>) -> Option<Vec<u8>> {
        let listed = |paths: Vec<String>| {
            Some(paths.iter().map(|p| format!("{p}\0")).collect::<String>().into_bytes())
        };
        let rust = |paths: Vec<String>| paths.into_iter().filter(|p| p.ends_with(".rs")).collect();
        match tool {
            Tool::TopLevel => Some(format!("{}\n", self.root).into_bytes()),
            Tool::ModifiedPaths => listed(self.modified()),
            Tool::StagedPaths => listed(self.staged()),
            Tool::TrackedRust => listed(rust(self.index.keys().cloned().collect())),
            Tool::ModifiedRust => listed(rust(self.modified())),
            Tool::Blob(path) => self.index.get(path).cloned(),
            Tool::Entry(path) => Some(format!("100644 0123 0\t{path}\n").into_bytes()),
            Tool::WriteTree => Some(b"pending\n".to_vec()),
            Tool::TreePaths(repo, tree) if *repo == self.root && tree == "pending" => {
                listed(self.index.keys().cloned().collect())
            }
            Tool::TreePaths(repo, tree) => {
                assert_eq!(tree, "HEAD");
                let name = repo.rsplit_once('/').unwrap().1;
                listed(self.siblings.get(name)?.keys().cloned().collect())
            }
            Tool::LocateProject if self.cargo => {
                Some(format!("{}/Cargo.toml\n", self.root).into_bytes())
            }
            _ => None,
        }
    }

    fn status(&mut self, tool: &Tool<String>) -> bool {
        match tool {
            Tool::NothingStaged => self.staged().is_empty(),
            Tool::UpdateIndex(entry) => {
                if self.busy > 0 {
                    self.busy -= 1;
                    return false;
                }
                let parts: Vec<&str> = entry.splitn(3, ',').collect();
                assert_eq!(parts[0], "100644");
                let object: usize = parts[1].parse().unwrap();
                self.index.insert(parts[2].to_string(), self.objects[object].clone());
                true
            }
            Tool::Metadata(dir) => self.cargo && self.resolve(dir),
            _ => false,
        }
    }

    fn perform(&mut self, request: Request) -> Answer {
        match request {
            Action::Output(tool) => Reply::Bytes(self.output(&tool)),
            Action::Feed(Tool::HashObject, bytes) => {
                self.objects.push(bytes);
                Reply::Bytes(Some(format!("{}\n", self.objects.len() - 1).into_bytes()))
            }
            Action::Feed(Tool::Rustfmt(edition), bytes) => {
                assert_eq!(edition, "2021");
                Reply::Bytes(if self.cargo { formatted(&bytes) } else { None })
            }
            Action::Status(tool) => Reply::Flag(self.status(&tool)),
            Action::Run(Tool::Clippy) => {
                Reply::Ran(if self.cargo { Some(self.clippy()) } else { None })
            }
            Action::Canonical(path) => Reply::Text(Some(path)),
            Action::Enter(path) => Reply::Flag(path == self.root),
            Action::Exists(path) => Reply::Flag(self.disk.contains_key(&self.at(&path))),
            Action::Variable(name) => {
                assert_eq!(name, "GIT_INDEX_FILE");
                Reply::Text(self.variable.clone())
            }
            Action::Read(path) => Reply::Bytes(self.disk.get(&self.at(&path)).cloned()),
            Action::ReadText(path) => Reply::Text(
                self.disk.get(&self.at(&path)).map(|b| String::from_utf8(b.clone()).unwrap()),
            ),
            Action::Write(path, bytes) => {
                self.disk.insert(self.at(&path), bytes);
                Reply::Flag(true)
            }
            Action::FormatTree(edition, groups) => {
                self.tree_edition = edition;
                for path in groups.concat() {
                    let at = self.at(&path);
                    let bytes = if self.cargo { formatted(&self.disk[&at]) } else { None };
                    if let Some(bytes) = bytes {
                        self.disk.insert(at, bytes);
                    }
                }
                Reply::Ack
            }
            Action::Scratch => Reply::Text(Some("/scratch".to_string())),
            Action::Export(repo, tree, dir) => {
                let files = if repo == self.root && tree == "pending" {
                    Some(self.index.clone())
                } else {
                    assert_eq!(tree, "HEAD");
                    self.siblings.get(repo.rsplit_once('/').unwrap().1).cloned()
                };
                let found = files.is_some();
                for (path, bytes) in files.unwrap_or_default() {
                    self.disk.insert(format!("{dir}/{path}"), bytes);
                }
                Reply::Flag(found)
            }
            Action::Sleep(millis) => {
                self.slept.push(millis);
                Reply::Ack
            }
            Action::Warn(message) => {
                self.warnings.push(message);
                Reply::Ack
            }
            Action::Note(message) => {
                self.notes.push(message);
                Reply::Ack
            }
            other => panic!("not a single piece of work: {other:?}"),
        }
    }

    fn run_hook(&mut self) {
        let (mut session, mut request) = Session::start();
        for _ in 0..10_000 {
            if let Action::Done = request {
                self.done = true;
                return;
            }
            let answer = self.perform(request);
            request = session.step(answer);
        }
        panic!("the session does not end");
    }
}

#[test]
fn stages_pure_fmt_fix() {
    let mut world = World::package("fmtfix");
    world.write("src/lib.rs", UNFORMATTED);
    world.add("src/lib.rs");
    world.run_hook();
    assert_eq!(world.blob("src/lib.rs"), FIXED);
    assert_eq!(world.notes, vec!["rustfmt fixed src/lib.rs", "clippy fixed src/lib.rs"]);
    assert!(world.warnings.is_empty());
}

#[test]
fn never_stages_preexisting_wip() {
    let mut world = World::package("wip");
    world.write("src/other.rs", "pub fn committed() {}\n");
    world.add("src/other.rs");
    world.commit();
    // Staged work in lib.rs; unstaged WIP in other.rs.
    world.write("src/lib.rs", UNFORMATTED);
    world.add("src/lib.rs");
    world.write("src/other.rs", "pub fn committed( ) {}\n");
    world.run_hook();
    let staged = world.staged();
    assert!(staged.contains(&"src/lib.rs".to_string()));
    assert!(!staged.contains(&"src/other.rs".to_string()), "WIP file must stay unstaged");
    assert_eq!(world.blob("src/other.rs"), "pub fn committed() {}\n");
}

#[test]
fn purity_gate_rejects_foreign_content() {
    let blob = Some(UNFORMATTED.as_bytes().to_vec());
    let want = formatted(UNFORMATTED.as_bytes());
    assert!(is_pure_fmt(&blob, &want, &Some(FORMATTED.as_bytes().to_vec())));
    let foreign = format!("{FORMATTED}pub fn foreign() {{}}\n");
    assert!(
        !is_pure_fmt(&blob, &want, &Some(foreign.into_bytes())),
        "foreign content must never pass"
    );
}

#[test]
fn pathspec_commit_gets_fixed() {
    let mut world = World::package("pathspec");
    world.write("src/lib.rs", UNFORMATTED);
    // Git runs the hook against a throwaway index that holds the pathspec file.
    world.add("src/lib.rs");
    let before = world.index.clone();
    world.variable = Some("/tmp/pathspec/.git/next-index-4242.lock".to_string());
    world.run_hook();
    assert_eq!(world.blob("src/lib.rs"), FIXED, "pathspec commit must ship the fixes");
    assert_eq!(world.staged(), vec!["src/lib.rs"]);
    // Git re-stages the pathspec file's PRE-hook bytes after the commit, so the
    // file is left MM (index = unfixed bytes, tree = fixed). The next hook run
    // re-formats that blob.
    world.commit();
    world.index = before;
    assert_eq!(world.porcelain("src/lib.rs"), "MM src/lib.rs\n");
    world.variable = None;
    world.run_hook();
    assert_eq!(world.blob("src/lib.rs"), FORMATTED);
}

#[test]
fn contended_staged_file_still_gets_fixed() {
    // Another session's edits on top of the staged file must not block the
    // staged fix, and must never leak into it.
    let mut world = World::package("contended");
    world.write("src/lib.rs", UNFORMATTED);
    world.add("src/lib.rs");
    world.write("src/lib.rs", &format!("{UNFORMATTED}pub fn foreign_wip() {{}}\n"));
    world.run_hook();
    let blob = world.blob("src/lib.rs");
    assert_eq!(blob, FORMATTED, "staged content must be fixed despite contention");
    assert!(!blob.contains("foreign_wip"), "foreign bytes must never be staged");
    let tree = world.tree("src/lib.rs");
    assert!(tree.contains("foreign_wip"), "the WIP tree copy must survive");
    assert_eq!(
        world.warnings,
        vec!["clippy fix for src/lib.rs skipped: file has local edits"]
    );
}

#[test]
fn regenerates_standalone_lock_with_sibling_dep() {
    let package = "[package]\nname = \"maincrate\"\nversion = \"0.1.0\"\nedition = \"2021\"\n\n[dependencies]\n";
    let mut main = World::new(
        "/land/maincrate",
        &[
            ("Cargo.toml", package),
            ("Cargo.lock", "version = 4\n"),
            ("src/lib.rs", "pub fn m() {}\n"),
        ],
    );
    let mut dep = Files::new();
    dep.insert(
        "Cargo.toml".to_string(),
        b"[package]\nname = \"depcrate\"\nversion = \"0.1.0\"\nedition = \"2021\"\n".to_vec(),
    );
    dep.insert("src/lib.rs".to_string(), b"pub fn dep() {}\n".to_vec());
    main.siblings.insert("depcrate".to_string(), dep);
    // Cargo.toml gains the path dependency and is staged: the lock is stale.
    main.write("Cargo.toml", &format!("{package}depcrate = {{ path = \"../depcrate\" }}\n"));
    main.add("Cargo.toml");
    main.run_hook();
    let staged = main.staged();
    assert!(staged.contains(&"Cargo.lock".to_string()), "lock must be staged: {staged:?}");
    assert!(main.blob("Cargo.lock").contains("depcrate"));
    assert_eq!(main.tree("Cargo.lock"), main.blob("Cargo.lock"));
    assert_eq!(main.notes, vec!["refreshed Cargo.lock"]);
}

#[test]
fn clippy_fix_is_staged_when_safe() {
    let mut world = World::package("clippy");
    let lint = "pub fn has(v: &[i32], x: i32) -> bool {\n    v.iter().any(|a| *a == x)\n}\n";
    world.write("src/lib.rs", lint);
    world.add("src/lib.rs");
    world.run_hook();
    let blob = world.blob("src/lib.rs");
    assert!(blob.contains("v.contains(&x)"), "clippy fix not staged: {blob}");
    assert_eq!(world.tree("src/lib.rs"), blob);
}

#[test]
fn fixable_lint_in_clean_unstaged_file_rides_along() {
    let mut world = World::package("sweep");
    world.write("src/lib.rs", "pub mod extra;\npub fn base() {}\n");
    world.write("src/extra.rs", "pub fn gives() -> i32 {\n    5\n}\n");
    world.add("src/lib.rs");
    world.add("src/extra.rs");
    world.commit();
    // Stage an unrelated change; extra.rs is committed, clean, and carries a
    // machine-fixable must_use_candidate.
    world.write("src/lib.rs", "pub mod extra;\npub fn base() {}\npub fn more() {}\n");
    world.add("src/lib.rs");
    world.run_hook();
    assert!(
        world.blob("src/extra.rs").contains("#[must_use]"),
        "crate-wide fixable lint must ride along"
    );
}

#[test]
fn unfixable_clippy_warning_is_reported() {
    let mut world = World::package("lintreport");
    // clippy::missing_panics_doc: pedantic, fires on pub items, no auto-fix.
    let code = "pub fn head(v: &[i32]) -> i32 {\n    *v.first().unwrap()\n}\n";
    world.write("src/lib.rs", code);
    world.add("src/lib.rs");
    world.run_hook();
    assert!(world.done);
    assert!(
        world.warnings.concat().contains("missing_panics_doc"),
        "pedantic lint must appear in the report: {:?}",
        world.warnings
    );
    assert_eq!(
        world.warnings,
        vec!["clippy: clippy::missing_panics_doc at src/lib.rs:1"]
    );
}

#[test]
fn broken_tree_skips_clippy_silently() {
    let mut world = World::package("brokentree");
    world.write("src/lib.rs", "pub mod part;\npub fn base() {}\n");
    world.write("src/part.rs", "pub fn whole() {}\n");
    world.add("src/lib.rs");
    world.add("src/part.rs");
    world.commit();
    // Stage an unformatted change; another session breaks part.rs unstaged.
    world.write("src/lib.rs", &format!("pub mod part;\n{UNFORMATTED}"));
    world.add("src/lib.rs");
    world.write("src/part.rs", "pub fn half(");
    world.run_hook();
    assert!(world.done);
    let err = format!("{:?}{:?}", world.warnings, world.notes);
    assert!(
        !err.to_lowercase().contains("clippy"),
        "a tree someone else broke must not produce clippy noise: {err}"
    );
    // The staged fmt fix still applies.
    assert!(world.blob("src/lib.rs").contains("pub fn probe(x: i32) -> i32 {"));
}

#[test]
fn never_blocks_when_cargo_missing() {
    let mut world = World::package("nocargo");
    world.write("src/lib.rs", UNFORMATTED);
    world.add("src/lib.rs");
    world.cargo = false;
    world.run_hook();
    assert!(world.done, "must end without cargo");
    assert!(
        world.warnings.concat().contains("could not format staged"),
        "the staged file's unfixed state must be warned about"
    );
    assert_eq!(world.warnings, vec!["could not format staged src/lib.rs (CI will fail)"]);
    assert_eq!(world.blob("src/lib.rs"), UNFORMATTED);
}

#[test]
fn a_clean_unstaged_file_rides_along_formatted() {
    let mut world = World::package("ride");
    world.write("src/other.rs", "pub fn committed( ) {}\n");
    world.add("src/other.rs");
    world.commit();
    world.write("notes.md", "notes\n");
    world.add("notes.md");
    world.run_hook();
    assert_eq!(world.blob("src/other.rs"), "pub fn committed() {}\n");
    assert_eq!(world.notes, vec!["rustfmt fixed src/other.rs"]);
}

#[test]
fn nothing_rides_along_with_a_partial_commit() {
    let mut world = World::package("partial");
    world.write("src/other.rs", "pub fn committed( ) {}\n");
    world.write("src/extra.rs", "pub fn gives() -> i32 {\n    5\n}\n");
    world.add("src/other.rs");
    world.add("src/extra.rs");
    world.commit();
    world.write("src/lib.rs", UNFORMATTED);
    world.add("src/lib.rs");
    world.variable = Some(".git/next-index-1.lock".to_string());
    world.run_hook();
    assert_eq!(world.staged(), vec!["src/lib.rs"]);
    assert_eq!(world.blob("src/other.rs"), "pub fn committed( ) {}\n");
    assert!(!world.blob("src/extra.rs").contains("#[must_use]"));
}

#[test]
fn a_partial_commit_of_a_manifest_leaves_the_lock_alone() {
    let mut world = World::package("partialmanifest");
    world.write("Cargo.toml", "[package]\nedition = \"2021\"\nname = \"renamed\"\n");
    world.add("Cargo.toml");
    world.variable = Some(".git/next-index-1.lock".to_string());
    world.run_hook();
    assert_eq!(world.staged(), vec!["Cargo.toml"]);
    assert_eq!(
        world.warnings,
        vec!["partial commit changes Cargo.toml without Cargo.lock; lock not freshened (CI may fail)"]
    );
}

#[test]
fn nothing_staged_means_nothing_done() {
    let mut world = World::package("quiet");
    world.write("src/lib.rs", UNFORMATTED);
    world.run_hook();
    assert_eq!(world.tree("src/lib.rs"), UNFORMATTED);
    assert!(world.staged().is_empty());
    assert!(world.notes.is_empty() && world.warnings.is_empty());
}

#[test]
fn a_repository_without_a_manifest_is_left_alone() {
    let mut world = World::new("/tmp/plain", &[("src/lib.rs", "pub fn base() {}\n")]);
    world.write("src/lib.rs", UNFORMATTED);
    world.add("src/lib.rs");
    world.run_hook();
    assert_eq!(world.blob("src/lib.rs"), UNFORMATTED);
}

#[test]
fn a_busy_index_is_tried_again() {
    let mut world = World::package("busy");
    world.write("src/lib.rs", UNFORMATTED);
    world.add("src/lib.rs");
    world.busy = 2;
    world.run_hook();
    assert_eq!(world.slept, vec![50, 100]);
    assert_eq!(world.blob("src/lib.rs"), FIXED);
}

#[test]
fn an_index_that_stays_busy_costs_the_fix() {
    let mut world = World::package("stuck");
    world.write("src/lib.rs", UNFORMATTED);
    world.add("src/lib.rs");
    world.busy = 1_000;
    world.run_hook();
    assert!(world.done);
    assert_eq!(world.slept, vec![50, 100, 200, 400]);
    assert_eq!(world.blob("src/lib.rs"), UNFORMATTED);
    assert_eq!(
        world.warnings,
        vec![
            "could not stage fix for src/lib.rs (index busy)",
            "clippy fix for src/lib.rs skipped: file has local edits",
        ]
    );
}

#[test]
fn a_file_of_an_enclosing_workspace_gets_no_fix() {
    let mut world = World::package("member");
    world.write("/tmp/outside.rs", "pub fn gives() -> i32 {\n    5\n}\n");
    world.write("src/lib.rs", "pub fn base() {}\npub fn more() {}\n");
    world.add("src/lib.rs");
    world.run_hook();
    assert_eq!(world.staged(), vec!["src/lib.rs"]);
    assert!(world.notes.is_empty());
}

/// A workspace root whose lock file is stale in the pending commit.
fn stale_workspace() -> World {
    let manifest = "[workspace]\nmembers = []\n[workspace.package]\nedition = \"2021\"\n";
    let mut world = World::new(
        "/land/umbrella",
        &[("Cargo.toml", manifest), ("Cargo.lock", "version = 4\n")],
    );
    let mut dep = Files::new();
    dep.insert("Cargo.toml".to_string(), b"[package]\nname = \"dep\"\n".to_vec());
    world.siblings.insert("dep".to_string(), dep);
    world.siblings.insert("loose".to_string(), Files::new());
    let changed = format!("{manifest}[workspace.dependencies]\ndep = {{ path = \"../dep\" }}\n");
    world.write("Cargo.toml", &changed);
    world.add("Cargo.toml");
    world
}

#[test]
fn a_contended_workspace_lock_is_still_freshened() {
    let mut world = stale_workspace();
    world.write("Cargo.lock", "version = 4\n# someone's edits\n");
    world.run_hook();
    assert_eq!(world.blob("Cargo.lock"), "version = 4\n[[package]]\nname = \"dep\"\n");
    assert_eq!(world.tree("Cargo.lock"), "version = 4\n# someone's edits\n");
    assert!(world.warnings.is_empty());
}

#[test]
fn an_unstaged_manifest_does_not_decide_the_staged_lock() {
    let mut world = stale_workspace();
    let staged = world.blob("Cargo.toml");
    world.write("Cargo.toml", &format!("{staged}loose = {{ path = \"../loose\" }}\n"));
    world.run_hook();
    assert_eq!(world.blob("Cargo.lock"), "version = 4\n[[package]]\nname = \"dep\"\n");
}

#[test]
fn an_unstaged_edition_does_not_decide_the_staged_format() {
    // The formatter of these tests insists on the staged manifest's edition.
    let mut world = World::package("edition");
    world.write("Cargo.toml", "[package]\nname = \"edition\"\nedition = \"2015\"\n");
    world.write("src/lib.rs", UNFORMATTED);
    world.add("src/lib.rs");
    world.run_hook();
    assert_eq!(world.blob("src/lib.rs"), FIXED);
    assert_eq!(world.tree_edition, "2015");
}

#[test]
fn a_workspace_member_may_depend_on_a_sibling_of_the_repository() {
    let manifest = "[workspace]\nmembers = [\"m\"]\n[workspace.package]\nedition = \"2021\"\n";
    let mut world = World::new(
        "/land/umbrella",
        &[
            ("Cargo.toml", manifest),
            ("Cargo.lock", "version = 4\n"),
            ("m/Cargo.toml", "[package]\nname = \"m\"\n"),
        ],
    );
    let mut dep = Files::new();
    dep.insert("Cargo.toml".to_string(), b"[package]\nname = \"dep\"\n".to_vec());
    world.siblings.insert("dep".to_string(), dep);
    let member = "[package]\nname = \"m\"\n[dependencies]\ndep = { path = \"../../dep\" }\n";
    world.write("m/Cargo.toml", member);
    world.add("m/Cargo.toml");
    world.run_hook();
    assert_eq!(world.blob("Cargo.lock"), "version = 4\n[[package]]\nname = \"dep\"\n");
    assert_eq!(world.tree("Cargo.lock"), world.blob("Cargo.lock"));
    assert!(world.warnings.is_empty());
}

#[test]
fn a_commit_has_every_pass_that_it_calls_for() {
    // A manifest and a fixable lint in a file that is clean: both passes.
    let mut world = World::package("both");
    world.write("src/extra.rs", "pub fn gives() -> i32 {\n    5\n}\n");
    world.write("src/late.rs", "pub fn gives() -> i32 {\n    6\n}\n");
    world.add("src/extra.rs");
    world.add("src/late.rs");
    world.commit();
    let manifest = format!("{}description = \"d\"\n", world.blob("Cargo.toml"));
    world.write("Cargo.toml", &manifest);
    world.add("Cargo.toml");
    world.run_hook();
    assert_eq!(
        world.notes,
        vec!["clippy fixed src/extra.rs src/late.rs", "refreshed Cargo.lock"]
    );
    assert_eq!(world.blob("Cargo.lock"), "version = 4\n");
}
