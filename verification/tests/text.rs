//! Texts, lists, manifests and paths on given values.

use commit_fix::command::Tool;
use commit_fix::fmt::{is_pure_fmt, pure_fmt_bytes, tree_groups_of};
use commit_fix::git::{git_paths, git_paths_or_none, index_mode};
use commit_fix::list::{decimal_of, fields_of, first_word_of, insert_ordered, is_less, join, lines_of, ordered_of};
use commit_fix::manifest::{
    is_workspace, is_workspace_header, manifest_edition, mentioned_deps, reached_deps, sibling_deps,
};
use commit_fix::path::{
    below_of, inside_of, is_pathspec_mode, parent_of, repo_rel, resolve, steps_of,
};
use commit_fix::scratch::{inner_manifests_of, self_dir};
use commit_fix::text::{is_white, same_opt_bytes, trimmed};
use std::path::Path;

fn owned(list: &[&str]) -> Vec<String> {
    list.iter().map(|s| s.to_string()).collect()
}

fn text(s: &str) -> Option<String> {
    Some(s.to_string())
}

#[test]
fn trimming_knows_every_white_space() {
    assert_eq!(trimmed(" \t\u{3000}a b\u{a0}\r\n"), "a b");
    assert_eq!(trimmed(" \n "), "");
    for c in ['\u{9}', '\u{d}', ' ', '\u{85}', '\u{1680}', '\u{200a}', '\u{2028}', '\u{205f}'] {
        assert!(is_white(c));
    }
    for c in ['\u{8}', '\u{e}', '\u{200b}', 'a'] {
        assert!(!is_white(c));
    }
}

#[test]
fn lines_end_at_line_feeds() {
    assert_eq!(lines_of("a\r\n\nb\rc"), owned(&["a", "", "b\rc"]));
    assert_eq!(lines_of("a\n"), owned(&["a"]));
    assert_eq!(lines_of("a\r"), owned(&["a\r"]));
    assert!(lines_of("").is_empty());
}

#[test]
fn fields_and_words() {
    assert_eq!(fields_of("a,,b,", ','), owned(&["a", "b"]));
    assert_eq!(first_word_of("  100755 abc"), "100755");
    assert_eq!(first_word_of(" \n"), "");
    assert_eq!(join(&owned(&["a", "b", "c"]), ", "), "a, b, c");
    assert_eq!(join(&owned(&[]), ", "), "");
}

#[test]
fn numbers_in_decimal() {
    assert_eq!(decimal_of(0), "0");
    assert_eq!(decimal_of(1070), "1070");
    assert_eq!(decimal_of(u64::MAX), "18446744073709551615");
}

#[test]
fn ordered_lists_are_ascending_and_without_repeats() {
    assert_eq!(ordered_of(&owned(&["b", "a", "b", "ab"])), owned(&["a", "ab", "b"]));
    assert!(is_less("a", "ab"));
    assert!(is_less("Z", "a"));
    assert!(!is_less("a", "a"));
    let mut list = owned(&["a", "c"]);
    insert_ordered(&mut list, "b".to_string());
    insert_ordered(&mut list, "c".to_string());
    assert_eq!(list, owned(&["a", "b", "c"]));
}

#[test]
fn the_edition_is_the_first_that_is_stated() {
    let edition = |manifest: &str| manifest_edition(&text(manifest));
    assert_eq!(edition("[package]\nedition = \"2018\"\nedition = \"2021\"\n"), "2018");
    assert_eq!(edition("  edition=2021"), "2021");
    assert_eq!(edition("edition.workspace = true\n"), "2024");
    assert_eq!(edition("edition = \"next\"\nedition = \"\"\n"), "2024");
    assert_eq!(edition("edition = { workspace = true }\n"), "2024");
    assert_eq!(edition("edition = \"2021\" # keep\n"), "2021");
    assert_eq!(edition("# edition = \"2018\"\nedition = \"2021\"\n"), "2021");
    assert_eq!(edition("edition = \"2021#\"\n"), "2024");
    assert_eq!(edition("edition = '2021#' # keep\n"), "2024");
    assert_eq!(manifest_edition(&None), "2024");
}

#[test]
fn workspace_headers() {
    assert!(is_workspace_header("[workspace]"));
    assert!(is_workspace_header("  [ workspace ]  # members below"));
    assert!(!is_workspace_header("[workspace.package]"));
    assert!(!is_workspace_header("# [workspace]"));
    assert!(!is_workspace_header(""));
    assert!(is_workspace(&text("[package]\n\n[workspace]\nmembers = []\n")));
    assert!(!is_workspace(&text("[package]\n")));
    assert!(!is_workspace(&None));
}

#[test]
fn siblings_are_path_dependencies_one_level_up() {
    let manifest = "[dependencies]\n\
        zeta = { path = \"../zeta\" }\n\
        alpha = { version = \"1\", path = \"../alpha\" }\n\
        alpha2 = { path = \"../alpha\" }\n\
        deep = { path = \"../a/b\" }\n\
        local = { path = \"inner\" }\n\
        none = { path = \"../\" }\n\
        # gone = { path = \"../gone\" }\n\
        readme = \"../path.md\"\n\
        told = { note = \"a, path = \", path = \"../told\" }\n\
        pathless = { other-path = \"../other\" }\n\
        dotted.path = \"../dotted\"\n\
        [dependencies.table]\n\
        path = \"../table\"\n\
        [ lib ]\n\
        path = \"../lib.rs\"\n\
        [[bin]] # a target\n\
        path = \"../main.rs\"\n\
        [dev-dependencies.late]\n\
        path=\"../late\"\n";
    assert_eq!(
        sibling_deps(&text(manifest)),
        owned(&["alpha", "dotted", "late", "table", "told", "zeta"])
    );
    let readme = "[package]\nname = \"m\"\nreadme = \"../path.md\"\n";
    assert!(sibling_deps(&text(readme)).is_empty());
    assert!(sibling_deps(&None).is_empty());
}

#[test]
fn a_path_key_may_be_quoted_or_dotted() {
    let one = |line: &str| sibling_deps(&text(line));
    assert_eq!(one("x = { \"path\" = \"../x\" }"), owned(&["x"]));
    assert_eq!(one("x = { version = '1, path = ', 'path' = \"../x\" }"), owned(&["x"]));
    assert_eq!(one("t.'cfg(a = \"b\")'.x = { path = \"../x\" }"), owned(&["x"]));
    assert_eq!(one("target.\"cfg(a = 'b')\".x.path = \"../x\""), owned(&["x"]));
    assert_eq!(one("deps = { a = { path = \"in\" }, b.path = \"../b\" }"), owned(&["b"]));
    assert!(one("x = { \"paths\" = \"../x\" }").is_empty());
    assert!(one("x = { note = \"path = '../x'\" }").is_empty());
}

#[test]
fn a_sibling_has_a_name_of_its_own() {
    for path in ["..", "../..", "../.", "../", "../a/b", "a/../../b"] {
        assert!(sibling_deps(&text(&format!("x.path = \"{path}\""))).is_empty(), "{path}");
    }
    assert_eq!(sibling_deps(&text("x.path = \"../..x\"")), owned(&["..x"]));
}

#[test]
fn siblings_depend_on_the_set_of_lines() {
    let lines = ["a.path = \"../a\"", "[dependencies]", "b = { path = \"../b\" }"];
    let siblings = owned(&["a", "b"]);
    for order in [[0, 1, 2], [2, 1, 0], [1, 0, 2]] {
        let mut manifest = String::new();
        for i in order {
            manifest += &format!("{}\n{}# keep\n", lines[i], lines[i]);
        }
        assert_eq!(sibling_deps(&text(&manifest)), siblings);
    }
    // The table of a target is where the order counts.
    assert!(sibling_deps(&text("[lib]\npath = \"../x\"\n")).is_empty());
    assert_eq!(sibling_deps(&text("path = \"../x\"\n[lib]\n")), owned(&["x"]));
}

#[test]
fn a_manifest_reaches_what_lies_beside_the_repository() {
    let manifest = "a = { path = \"../../a\" }\n\
        b.path = \"../../b/crates/b\"\n\
        near = { path = \"../near\" }\n\
        far = { path = \"../../../far\" }\n\
        round = { path = \"../../x/../c\" }\n\
        up = { path = \"../..\" }\n\
        lib = { path = \"../../a\" }\n";
    let reached = |dir: &[&str]| reached_deps(&text(manifest), &owned(dir));
    assert_eq!(reached(&["m"]), owned(&["a", "b", "c"]));
    assert_eq!(reached(&["crates", "m"]), owned(&["far"]));
    assert_eq!(reached(&[]), owned(&["near"]));
    assert!(reached_deps(&None, &owned(&["m"])).is_empty());
}

#[test]
fn a_workspace_names_what_lies_beside_the_repository() {
    let manifest = "[workspace]\n\
        members = [\"m\", \"../b\", '../a/crates/*'] # and \"../gone\"\n\
        exclude = [\n\
        \"../c\",\n\
        \"../../far\", \"..\", \"it's ../d\",\n\
        ]\n\
        [workspace.dependencies]\n\
        e = { path = \"../e\" }\n";
    assert_eq!(mentioned_deps(&text(manifest)), owned(&["a", "b", "c", "e"]));
    assert!(mentioned_deps(&None).is_empty());
}

#[test]
fn the_manifests_below_the_root_of_a_tree() {
    let paths = owned(&[
        "Cargo.toml", "m/Cargo.toml", "m/src/lib.rs", "a/b/Cargo.toml", "m/NotCargo.toml",
        "/abs/Cargo.toml", "../x/Cargo.toml",
    ]);
    assert_eq!(inner_manifests_of(&paths), owned(&["m/Cargo.toml", "a/b/Cargo.toml"]));
}

#[test]
fn a_file_of_the_repository_is_found_under_its_path() {
    let rel = |file: &str, ws: &str| repo_rel(file, "/home/me/repo", ws);
    assert_eq!(rel("src/lib.rs", "/home/me/repo"), text("src/lib.rs"));
    assert_eq!(rel("/home/me/repo/src/lib.rs", "/home"), text("src/lib.rs"));
    assert_eq!(rel("me/repo/src/lib.rs", "/home"), text("src/lib.rs"));
    assert_eq!(rel("./src//./lib.rs", "/home/me/repo/"), text("src//./lib.rs"));
    assert_eq!(rel("src//lib.rs", "/home/me/repo"), text("src//lib.rs"));
    assert_eq!(rel("src//x/../lib.rs", "/home/me/repo"), text("src/lib.rs"));
    assert_eq!(rel("../repo/src/lib.rs", "/home/me/repo"), text("src/lib.rs"));
    assert_eq!(rel("src/../build.rs", "/home/me/repo"), text("build.rs"));
    assert_eq!(repo_rel("x/y.rs", "/", "/"), text("x/y.rs"));
}

#[test]
fn a_file_outside_the_repository_is_not_found() {
    assert_eq!(repo_rel("/home/me/repository/x.rs", "/home/me/repo", "/"), None);
    assert_eq!(repo_rel("src/lib.rs", "/home/me/repo", "/home/me/other"), None);
    assert_eq!(repo_rel("?", "/home/me/repo", "/home/me"), None);
    assert_eq!(repo_rel("../dep/src/lib.rs", "/w/m", "/w/m"), None);
    assert_eq!(repo_rel("src/../../dep/lib.rs", "/w/m", "/w/m"), None);
}

#[test]
fn paths_by_step() {
    assert_eq!(steps_of("/a//b/./c/"), owned(&["a", "b", "c"]));
    assert_eq!(steps_of("/a/../../b"), owned(&["b"]));
    assert_eq!(steps_of("./a/../../b"), owned(&["..", "b"]));
    assert_eq!(steps_of("a/."), owned(&["a"]));
    assert_eq!(inside_of("/a/b", "/a/b"), text(""));
    assert_eq!(inside_of("a/b/", ""), text("a/b"));
    assert_eq!(inside_of("../a", ""), None);
    assert_eq!(inside_of("a", "/"), None);
    assert_eq!(resolve("/a", "b"), "/a/b");
    assert_eq!(resolve("/a/", "b"), "/a/b");
    assert_eq!(resolve("", "b"), "b");
    assert_eq!(resolve("/a", "/b"), "/b");
    assert_eq!(parent_of("/a/b/Cargo.toml"), text("/a/b"));
    assert_eq!(parent_of("/a"), text("/"));
    assert_eq!(parent_of("a"), text(""));
    assert_eq!(parent_of("/"), None);
    assert_eq!(parent_of(""), None);
    assert_eq!(self_dir("/tmp/x"), "/tmp/x/self");
}

#[test]
fn a_partial_commit_shows_in_the_index_file() {
    assert!(is_pathspec_mode(&text("/repo/.git/next-index-77.lock")));
    assert!(is_pathspec_mode(&text("next-index-")));
    assert!(!is_pathspec_mode(&text("/repo/.git/index")));
    assert!(!is_pathspec_mode(&text("/next-index-1/index")));
    assert!(!is_pathspec_mode(&None));
}

#[test]
fn a_listed_path_is_a_nonempty_name() {
    assert_eq!(git_paths(&Some(b"a.rs\0\0b c\0".to_vec())), Some(owned(&["a.rs", "b c"])));
    assert_eq!(git_paths(&Some(Vec::new())), Some(Vec::new()));
    assert_eq!(git_paths(&None), None);
    assert!(git_paths_or_none(&None).is_empty());
}

#[test]
fn a_path_that_is_no_text_is_read_lossily() {
    assert_eq!(git_paths_or_none(&Some(b"a\xff.rs\0".to_vec())), owned(&["a\u{fffd}.rs"]));
}

#[test]
fn the_mode_of_an_entry_is_kept() {
    assert_eq!(index_mode(&Some(b"100755 0123 0\tx\n".to_vec())), "100755");
    assert_eq!(index_mode(&Some(Vec::new())), "100644");
    assert_eq!(index_mode(&None), "100644");
}

#[test]
fn purity_needs_all_three() {
    let some = |s: &str| Some(s.as_bytes().to_vec());
    assert_eq!(pure_fmt_bytes(&some("a"), &some("b"), &some("b")), some("b"));
    assert_eq!(pure_fmt_bytes(&some("b"), &some("b"), &some("b")), some("b"));
    assert!(!is_pure_fmt(&None, &some("b"), &some("b")));
    assert!(!is_pure_fmt(&some("a"), &None, &some("b")));
    assert!(!is_pure_fmt(&some("a"), &None, &None));
    assert!(!is_pure_fmt(&some("a"), &some("b"), &None));
    assert!(same_opt_bytes(&None, &None));
    assert!(!same_opt_bytes(&None, &some("")));
}

#[test]
fn the_tree_is_formatted_in_at_most_eight_groups() {
    let names = |n: usize| (0..n).map(|i| format!("f{i}.rs")).collect::<Vec<String>>();
    for n in [0, 1, 8, 9, 17, 100] {
        let groups = tree_groups_of(names(n));
        assert!(groups.len() <= 8);
        assert_eq!(groups.concat(), names(n));
    }
    assert_eq!(tree_groups_of(names(9)).len(), 5);
    assert_eq!(tree_groups_of(names(17))[0].len(), 3);
}

#[test]
fn tools_have_their_exact_arguments() {
    let line = |tool: Tool<String>| format!("{} {}", tool.program(), tool.arguments().join(" "));
    let s = |t: &str| t.to_string();
    assert_eq!(line(Tool::TopLevel), "git rev-parse --show-toplevel");
    assert_eq!(line(Tool::NothingStaged), "git diff --cached --quiet");
    assert_eq!(line(Tool::ModifiedPaths), "git diff --name-only -z");
    assert_eq!(line(Tool::StagedPaths), "git diff --cached --name-only -z");
    assert_eq!(line(Tool::IndexPaths), "git ls-files -z");
    assert_eq!(
        line(Tool::TreePaths(s("/r"), s("HEAD"))),
        "git -C /r ls-tree -r -z --name-only HEAD"
    );
    assert_eq!(line(Tool::TrackedRust), "git ls-files -z -- *.rs");
    assert_eq!(line(Tool::ModifiedRust), "git diff --name-only -z -- *.rs");
    assert_eq!(line(Tool::Blob(s("a.rs"))), "git show :a.rs");
    assert_eq!(line(Tool::Entry(s("a.rs"))), "git ls-files -s -- a.rs");
    assert_eq!(line(Tool::HashObject), "git hash-object -w --stdin");
    assert_eq!(line(Tool::UpdateIndex(s("m,o,p"))), "git update-index --add --cacheinfo m,o,p");
    assert_eq!(line(Tool::WriteTree), "git write-tree");
    assert_eq!(line(Tool::Rustfmt(s("2021"))), "rustfmt --edition 2021 --emit stdout");
    assert_eq!(line(Tool::RustfmtFile(s("2021"), s("a.rs"))), "rustfmt --edition 2021 a.rs");
    assert_eq!(
        line(Tool::LocateProject),
        "cargo locate-project --workspace --message-format plain"
    );
    assert_eq!(line(Tool::Clippy), "cargo clippy --message-format=json");
    assert_eq!(line(Tool::Metadata(s("/d"))), "cargo metadata --format-version 1");
    assert_eq!(line(Tool::Archive(s("/r"), s("HEAD"))), "git -C /r archive HEAD");
    assert_eq!(line(Tool::Unpack(s("/d"))), "tar -x -C /d");
    assert_eq!(Tool::Metadata(s("/d")).directory(), text("/d"));
    assert_eq!(Tool::Archive(s("/r"), s("HEAD")).directory(), None);
}

/// Every text over an alphabet up to a length.
fn every(alphabet: &[char], length: usize) -> Vec<String> {
    let mut all = vec![String::new()];
    let mut last = all.clone();
    for _ in 0..length {
        last = last
            .iter()
            .flat_map(|s| alphabet.iter().map(move |c| format!("{s}{c}")))
            .collect();
        all.extend(last.clone());
    }
    all
}

#[test]
fn paths_agree_with_the_standard_library() {
    let lossy = |p: &Path| p.to_string_lossy().into_owned();
    let paths = every(&['/', '.', 'a'], 5);
    for p in &paths {
        assert_eq!(parent_of(p), Path::new(p).parent().map(lossy), "{p}");
        let named = p.replace('a', "next-index-");
        let partial = Path::new(&named)
            .file_name()
            .is_some_and(|n| n.to_string_lossy().starts_with("next-index-"));
        assert_eq!(is_pathspec_mode(&Some(named)), partial, "{p}");
        for dir in &paths {
            let below = Path::new(p).strip_prefix(dir).ok();
            assert_eq!(below_of(p, dir), below.map(lossy), "{p} below {dir}");
            if !p.contains("..") && !dir.contains("..") && p.starts_with('/') && dir.starts_with('/') {
                assert_eq!(repo_rel(p, dir, "/"), below.map(lossy), "{p} of {dir}");
                let inside = inside_of(p, dir);
                assert_eq!(inside.as_deref().map(Path::new), below, "{p} inside {dir}");
            }
            assert_eq!(resolve(dir, p), lossy(&Path::new(dir).join(p)), "{p} in {dir}");
        }
    }
}

#[test]
fn texts_agree_with_the_standard_library() {
    for s in every(&['\n', '\r', ' ', '\u{a0}', 'x'], 5) {
        assert_eq!(trimmed(&s), s.trim());
        assert_eq!(lines_of(&s), s.lines().map(String::from).collect::<Vec<_>>());
        assert_eq!(first_word_of(&s), s.split_whitespace().next().unwrap_or(""));
    }
}
