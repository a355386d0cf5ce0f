//! The programs that the hook runs, with their exact arguments.
use vstd::prelude::*;

use crate::text::{opt_text, texts};

verus! {

/// A program run, over the kind of text that its variable arguments have.
#[derive(Debug)]
pub enum Tool<S> {
    /// The top-level directory of the repository.
    TopLevel,
    /// Succeeds when nothing is staged.
    NothingStaged,
    /// The tracked files whose working copy differs from the index.
    ModifiedPaths,
    /// The files whose indexed blob differs from `HEAD`.
    StagedPaths,
    /// Every file of the index.
    IndexPaths,
    /// Every file of a tree of a repository, given first.
    TreePaths(S, S),
    /// Every Rust file of the index.
    TrackedRust,
    /// The tracked Rust files whose working copy differs from the index.
    ModifiedRust,
    /// The indexed blob of a path.
    Blob(S),
    /// The index entry of a path.
    Entry(S),
    /// Writes its input to the object store and prints the object's name.
    HashObject,
    /// Points an index entry, given as `mode,object,path`, at an object.
    UpdateIndex(S),
    /// Writes the index as a tree and prints the tree's name.
    WriteTree,
    /// Formats its input for an edition.
    Rustfmt(S),
    /// Formats a file in place for an edition, given first.
    RustfmtFile(S, S),
    /// Where the manifest of the enclosing workspace lies.
    LocateProject,
    /// Lints, with diagnostics as one JSON document on each line.
    Clippy,
    /// Resolves the dependencies of the package in a directory.
    Metadata(S),
    /// Writes a tree of a repository, given first, as an archive.
    Archive(S, S),
    /// Unpacks an archive into a directory.
    Unpack(S),
}

impl View for Tool<String> {
    type V = Tool<Seq<char>>;

    open spec fn view(&self) -> Tool<Seq<char>> {
        match *self {
            Tool::TopLevel => Tool::TopLevel,
            Tool::NothingStaged => Tool::NothingStaged,
            Tool::ModifiedPaths => Tool::ModifiedPaths,
            Tool::StagedPaths => Tool::StagedPaths,
            Tool::IndexPaths => Tool::IndexPaths,
            Tool::TreePaths(repo, tree) => Tool::TreePaths(repo@, tree@),
            Tool::TrackedRust => Tool::TrackedRust,
            Tool::ModifiedRust => Tool::ModifiedRust,
            Tool::Blob(path) => Tool::Blob(path@),
            Tool::Entry(path) => Tool::Entry(path@),
            Tool::HashObject => Tool::HashObject,
            Tool::UpdateIndex(entry) => Tool::UpdateIndex(entry@),
            Tool::WriteTree => Tool::WriteTree,
            Tool::Rustfmt(edition) => Tool::Rustfmt(edition@),
            Tool::RustfmtFile(edition, path) => Tool::RustfmtFile(edition@, path@),
            Tool::LocateProject => Tool::LocateProject,
            Tool::Clippy => Tool::Clippy,
            Tool::Metadata(dir) => Tool::Metadata(dir@),
            Tool::Archive(repo, tree) => Tool::Archive(repo@, tree@),
            Tool::Unpack(dir) => Tool::Unpack(dir@),
        }
    }
}

/// The name of the program.
pub open spec fn program(tool: Tool<Seq<char>>) -> Seq<char> {
    match tool {
        Tool::Rustfmt(_) => "rustfmt"@,
        Tool::RustfmtFile(_, _) => "rustfmt"@,
        Tool::LocateProject => "cargo"@,
        Tool::Clippy => "cargo"@,
        Tool::Metadata(_) => "cargo"@,
        Tool::Unpack(_) => "tar"@,
        _ => "git"@,
    }
}

/// The arguments of the program.
pub open spec fn arguments(tool: Tool<Seq<char>>) -> Seq<Seq<char>> {
    match tool {
        Tool::TopLevel => seq!["rev-parse"@, "--show-toplevel"@],
        Tool::NothingStaged => seq!["diff"@, "--cached"@, "--quiet"@],
        Tool::ModifiedPaths => seq!["diff"@, "--name-only"@, "-z"@],
        Tool::StagedPaths => seq!["diff"@, "--cached"@, "--name-only"@, "-z"@],
        Tool::IndexPaths => seq!["ls-files"@, "-z"@],
        Tool::TreePaths(repo, tree) => seq![
            "-C"@,
            repo,
            "ls-tree"@,
            "-r"@,
            "-z"@,
            "--name-only"@,
            tree,
        ],
        Tool::TrackedRust => seq!["ls-files"@, "-z"@, "--"@, "*.rs"@],
        Tool::ModifiedRust => seq!["diff"@, "--name-only"@, "-z"@, "--"@, "*.rs"@],
        Tool::Blob(path) => seq!["show"@, ":"@ + path],
        Tool::Entry(path) => seq!["ls-files"@, "-s"@, "--"@, path],
        Tool::HashObject => seq!["hash-object"@, "-w"@, "--stdin"@],
        Tool::UpdateIndex(entry) => seq!["update-index"@, "--add"@, "--cacheinfo"@, entry],
        Tool::WriteTree => seq!["write-tree"@],
        Tool::Rustfmt(edition) => seq!["--edition"@, edition, "--emit"@, "stdout"@],
        Tool::RustfmtFile(edition, path) => seq!["--edition"@, edition, path],
        Tool::LocateProject => seq![
            "locate-project"@,
            "--workspace"@,
            "--message-format"@,
            "plain"@,
        ],
        Tool::Clippy => seq!["clippy"@, "--message-format=json"@],
        Tool::Metadata(_) => seq!["metadata"@, "--format-version"@, "1"@],
        Tool::Archive(repo, tree) => seq!["-C"@, repo, "archive"@, tree],
        Tool::Unpack(dir) => seq!["-x"@, "-C"@, dir],
    }
}

/// The directory that the program runs in, where it is not the current one.
pub open spec fn directory(tool: Tool<Seq<char>>) -> Option<Seq<char>> {
    match tool {
        Tool::Metadata(dir) => Some(dir),
        _ => None,
    }
}

/// A list of words.
fn words(list: &[&str]) -> (r: Vec<String>)
    ensures
        texts(r@) == list@.map_values(|w: &str| w@),
{
    let mut r: Vec<String> = Vec::new();
    let mut i: usize = 0;
    let ghost all = list@.map_values(|w: &str| w@);
    assert(texts(r@) =~= all.take(0));
    while i < list.len()
        invariant
            i <= list@.len(),
            all == list@.map_values(|w: &str| w@),
            texts(r@) == all.take(i as int),
        decreases list@.len() - i,
    {
        let ghost before = r@;
        r.push(list[i].to_owned());
        i = i + 1;
        assert(texts(r@) =~= texts(before).push(list@[i - 1]@));
        assert(all.take(i as int) =~= all.take(i - 1).push(list@[i - 1]@));
    }
    assert(all.take(i as int) =~= all);
    r
}

impl Tool<String> {
    /// The name of the program to run.
    pub fn program(&self) -> (r: String)
        ensures
            r@ == program(self@),
    {
        match self {
            Tool::Rustfmt(_) => "rustfmt".to_owned(),
            Tool::RustfmtFile(_, _) => "rustfmt".to_owned(),
            Tool::LocateProject => "cargo".to_owned(),
            Tool::Clippy => "cargo".to_owned(),
            Tool::Metadata(_) => "cargo".to_owned(),
            Tool::Unpack(_) => "tar".to_owned(),
            _ => "git".to_owned(),
        }
    }

    /// The arguments to run the program with.
    pub fn arguments(&self) -> (r: Vec<String>)
        ensures
            texts(r@) == arguments(self@),
    {
        let r = match self {
            Tool::TopLevel => words(&["rev-parse", "--show-toplevel"]),
            Tool::NothingStaged => words(&["diff", "--cached", "--quiet"]),
            Tool::ModifiedPaths => words(&["diff", "--name-only", "-z"]),
            Tool::StagedPaths => words(&["diff", "--cached", "--name-only", "-z"]),
            Tool::IndexPaths => words(&["ls-files", "-z"]),
            Tool::TreePaths(repo, tree) => words(
                &["-C", repo.as_str(), "ls-tree", "-r", "-z", "--name-only", tree.as_str()],
            ),
            Tool::TrackedRust => words(&["ls-files", "-z", "--", "*.rs"]),
            Tool::ModifiedRust => words(&["diff", "--name-only", "-z", "--", "*.rs"]),
            Tool::Blob(path) => {
                let object = ":".to_owned().concat(path.as_str());
                words(&["show", object.as_str()])
            },
            Tool::Entry(path) => words(&["ls-files", "-s", "--", path.as_str()]),
            Tool::HashObject => words(&["hash-object", "-w", "--stdin"]),
            Tool::UpdateIndex(entry) => words(
                &["update-index", "--add", "--cacheinfo", entry.as_str()],
            ),
            Tool::WriteTree => words(&["write-tree"]),
            Tool::Rustfmt(edition) => words(&["--edition", edition.as_str(), "--emit", "stdout"]),
            Tool::RustfmtFile(edition, path) => words(
                &["--edition", edition.as_str(), path.as_str()],
            ),
            Tool::LocateProject => words(
                &["locate-project", "--workspace", "--message-format", "plain"],
            ),
            Tool::Clippy => words(&["clippy", "--message-format=json"]),
            Tool::Metadata(_) => words(&["metadata", "--format-version", "1"]),
            Tool::Archive(repo, tree) => words(&["-C", repo.as_str(), "archive", tree.as_str()]),
            Tool::Unpack(dir) => words(&["-x", "-C", dir.as_str()]),
        };
        assert(texts(r@) =~= arguments(self@));
        r
    }

    /// The directory to run the program in, where it is not the current one.
    pub fn directory(&self) -> (r: Option<String>)
        ensures
            opt_text(r) == directory(self@),
    {
        match self {
            Tool::Metadata(dir) => Some(dir.clone()),
            _ => None,
        }
    }
}

/// The paths, names and entries that a command is about are handed to the program
/// whole, each in the place where the program looks for it.
pub proof fn a_program_is_given_its_arguments_whole(a: Seq<char>, b: Seq<char>)
    ensures
        arguments(Tool::TreePaths(a, b)) == seq![
            "-C"@,
            a,
            "ls-tree"@,
            "-r"@,
            "-z"@,
            "--name-only"@,
            b,
        ],
        arguments(Tool::Blob(a)) == seq!["show"@, seq![':'] + a],
        arguments(Tool::Entry(a)) == seq!["ls-files"@, "-s"@, "--"@, a],
        arguments(Tool::UpdateIndex(a)) == seq!["update-index"@, "--add"@, "--cacheinfo"@, a],
        arguments(Tool::Rustfmt(a)) == seq!["--edition"@, a, "--emit"@, "stdout"@],
        arguments(Tool::RustfmtFile(a, b)) == seq!["--edition"@, a, b],
        arguments(Tool::Archive(a, b)) == seq!["-C"@, a, "archive"@, b],
        arguments(Tool::Unpack(a)) == seq!["-x"@, "-C"@, a],
        arguments(Tool::Metadata(a)) == seq!["metadata"@, "--format-version"@, "1"@],
        directory(Tool::Metadata(a)) == Some(a),
        directory(Tool::Blob(a)) is None,
        program(Tool::TreePaths(a, b)) == "git"@,
        program(Tool::Blob(a)) == "git"@,
        program(Tool::Entry(a)) == "git"@,
        program(Tool::UpdateIndex(a)) == "git"@,
        program(Tool::Archive(a, b)) == "git"@,
        program(Tool::Rustfmt(a)) == "rustfmt"@,
        program(Tool::RustfmtFile(a, b)) == "rustfmt"@,
        program(Tool::Metadata(a)) == "cargo"@,
        program(Tool::Unpack(a)) == "tar"@,
{
    reveal_strlit(":");
    assert(":"@ =~= seq![':']);
}

/// A program runs in the current directory, but for the one that resolves the
/// package in a directory.
pub proof fn a_program_runs_where_it_is_told(tool: Tool<Seq<char>>, dir: Seq<char>)
    ensures
        directory(tool) == Some(dir) <==> tool == Tool::Metadata(dir),
{
}

} // verus!
