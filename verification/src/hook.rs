//! The hook run: what is looked up, what is formatted and staged, and which
//! passes follow.
//!
//! Staged Rust files are fixed unconditionally: the staged bytes are rustfmt of
//! each file's own indexed blob, so contention in the working tree is
//! irrelevant to them. Clean unstaged files ride along only where their whole
//! change is provably formatting.
use vstd::prelude::*;

use crate::action::{bytes_told, flag_told, text_told, Action, Answer, Asked, Reply, Request, Told};
use crate::clippy::{closer, lint_start, LintPass, LintPhase, LintState};
use crate::command::Tool;
use crate::fmt::{pure_fmt, pure_fmt_bytes, tree_groups, tree_groups_of};
use crate::git::{git_paths, git_paths_or_none, path_list, paths_or_none};
use crate::list::{join, joined};
use crate::lock::{lock_path, lock_start, LockPass};
use crate::manifest::{edition_stated, manifest_edition, manifest_lines};
use crate::path::a_relative_path_stands_behind_its_directory;
use crate::path::{is_pathspec_mode, next_index, resolve};
use crate::scratch::manifest_path;
use crate::text::{
    chars_of, clone_bytes, clone_list, clone_opt_bytes, contains, decode_lossy, decode_opt, ends,
    ends_with,
};
use crate::text::{a_suffix_follows_the_rest, blank, trimming_takes_white_space_alone, white};
use crate::text::{lossy, opt_bytes, opt_decoded, same_bytes, texts, trim, trimmed};

verus! {

/// How far a hook run has come, over the kind of bytes in it. A flag tells
/// whether the file at hand is one that rides along.
#[derive(Debug)]
pub enum HookPhase<B> {
    /// The repository is being located.
    TopLevel,
    /// Its root is being resolved.
    Canonical,
    /// Its root is being made the current directory.
    Entering,
    /// Its manifest is being looked for.
    Probing,
    /// The index file is being looked up.
    Variable,
    /// It is being checked whether anything is staged.
    Quiet,
    /// The files with local edits are being listed.
    Wip,
    /// The lock file is being read.
    LockFile,
    /// The staged manifest is being read.
    Manifest,
    /// The tree's manifest is being read.
    TreeManifest,
    /// The staged files are being listed.
    Staged,
    /// Every file of the index is being listed instead: there is no `HEAD` yet.
    Index,
    /// The tracked Rust files are being listed.
    Listing,
    /// The tree is being formatted.
    Tree,
    /// The indexed blob of a file is being read.
    Blob(bool),
    /// The blob of a file is being formatted.
    Format(bool, B),
    /// The working copy of a file is being read; its blob and that formatted.
    Compare(B, B),
    /// The formatted blob of a file is being staged.
    Stage(bool),
    /// A warning about a file that cannot be formatted is being printed.
    Warning,
    /// The files that may ride along are being listed.
    Riding,
    /// The report of what was formatted is being printed.
    Summing,
    /// The lint pass is running.
    Linting,
    /// The lock file pass is running, or a warning in its place is printed.
    Locking,
    /// Nothing is left to do.
    Finished,
}

/// A hook run.
#[derive(Debug)]
pub struct Hook {
    root: String,
    partial: bool,
    wip: Vec<String>,
    lock: Option<Vec<u8>>,
    edition: String,
    tree_edition: String,
    staged: Vec<String>,
    queue: Vec<String>,
    next: usize,
    fixed: Vec<String>,
    phase: HookPhase<Vec<u8>>,
}

/// A hook run, as contracts speak of it.
#[verifier::ext_equal]
pub struct HookState {
    /// The root of the repository.
    pub root: Seq<char>,
    /// Whether only a part of the index is committed.
    pub partial: bool,
    /// The files whose working copy differed from the index when the run began.
    pub wip: Seq<Seq<char>>,
    /// The tree's lock file when the run began.
    pub lock: Option<Seq<u8>>,
    /// The edition that the bytes of the index are formatted for.
    pub edition: Seq<char>,
    /// The edition that the working tree is formatted for.
    pub tree_edition: Seq<char>,
    /// The files that the commit stages.
    pub staged: Seq<Seq<char>>,
    /// The files that are being formatted.
    pub queue: Seq<Seq<char>>,
    /// The file at hand.
    pub next: int,
    /// The files whose formatting was staged.
    pub fixed: Seq<Seq<char>>,
    /// How far the run has come.
    pub phase: HookPhase<Seq<u8>>,
}

impl View for Hook {
    type V = HookState;

    closed spec fn view(&self) -> HookState {
        HookState {
            root: self.root@,
            partial: self.partial,
            wip: texts(self.wip@),
            lock: opt_bytes(self.lock),
            edition: self.edition@,
            tree_edition: self.tree_edition@,
            staged: texts(self.staged@),
            queue: texts(self.queue@),
            next: self.next as int,
            fixed: texts(self.fixed@),
            phase: match self.phase {
                HookPhase::TopLevel => HookPhase::TopLevel,
                HookPhase::Canonical => HookPhase::Canonical,
                HookPhase::Entering => HookPhase::Entering,
                HookPhase::Probing => HookPhase::Probing,
                HookPhase::Variable => HookPhase::Variable,
                HookPhase::Quiet => HookPhase::Quiet,
                HookPhase::Wip => HookPhase::Wip,
                HookPhase::LockFile => HookPhase::LockFile,
                HookPhase::Manifest => HookPhase::Manifest,
                HookPhase::TreeManifest => HookPhase::TreeManifest,
                HookPhase::Staged => HookPhase::Staged,
                HookPhase::Index => HookPhase::Index,
                HookPhase::Listing => HookPhase::Listing,
                HookPhase::Tree => HookPhase::Tree,
                HookPhase::Blob(ride) => HookPhase::Blob(ride),
                HookPhase::Format(ride, blob) => HookPhase::Format(ride, blob@),
                HookPhase::Compare(blob, want) => HookPhase::Compare(blob@, want@),
                HookPhase::Stage(ride) => HookPhase::Stage(ride),
                HookPhase::Warning => HookPhase::Warning,
                HookPhase::Riding => HookPhase::Riding,
                HookPhase::Summing => HookPhase::Summing,
                HookPhase::Linting => HookPhase::Linting,
                HookPhase::Locking => HookPhase::Locking,
                HookPhase::Finished => HookPhase::Finished,
            },
        }
    }
}

/// Whether a phase is about one file.
pub open spec fn hook_on_file(phase: HookPhase<Seq<u8>>) -> bool {
    match phase {
        HookPhase::Blob(_) => true,
        HookPhase::Format(_, _) => true,
        HookPhase::Compare(_, _) => true,
        HookPhase::Stage(_) => true,
        HookPhase::Warning => true,
        _ => false,
    }
}

/// A phase about a file has a file.
pub open spec fn hook_valid(st: HookState) -> bool {
    &&& 0 <= st.next <= st.queue.len()
    &&& hook_on_file(st.phase) ==> st.next < st.queue.len()
}

/// The file at hand.
pub open spec fn hook_file(st: HookState) -> Seq<char> {
    st.queue[st.next]
}

/// A Rust source file.
pub open spec fn is_rust(path: Seq<char>) -> bool {
    ends(path, ".rs"@)
}

/// A manifest.
pub open spec fn is_manifest(path: Seq<char>) -> bool {
    ends(path, "Cargo.toml"@)
}

/// A file that a build depends on: a Rust source, a manifest or a lock file.
pub open spec fn is_built(path: Seq<char>) -> bool {
    is_rust(path) || is_manifest(path) || ends(path, "Cargo.lock"@)
}

/// The Rust sources in a list, in order.
pub open spec fn rust_in(list: Seq<Seq<char>>) -> Seq<Seq<char>>
    decreases list.len(),
{
    if list.len() == 0 {
        Seq::empty()
    } else if is_rust(list.last()) {
        rust_in(list.drop_last()).push(list.last())
    } else {
        rust_in(list.drop_last())
    }
}

/// The files in a list that may ride along: those that are neither staged nor
/// had local edits when the run began.
pub open spec fn bystanders_in(
    list: Seq<Seq<char>>,
    staged: Seq<Seq<char>>,
    wip: Seq<Seq<char>>,
) -> Seq<Seq<char>>
    decreases list.len(),
{
    if list.len() == 0 {
        Seq::empty()
    } else if staged.contains(list.last()) || wip.contains(list.last()) {
        bystanders_in(list.drop_last(), staged, wip)
    } else {
        bystanders_in(list.drop_last(), staged, wip).push(list.last())
    }
}

/// Whether a commit of these files pays for a lint run.
pub open spec fn commits_rust(staged: Seq<Seq<char>>) -> bool {
    exists|i: int| 0 <= i < staged.len() && is_built(#[trigger] staged[i])
}

/// Whether a commit of these files changes a manifest.
pub open spec fn commits_manifest(staged: Seq<Seq<char>>) -> bool {
    exists|i: int| 0 <= i < staged.len() && is_manifest(#[trigger] staged[i])
}

/// The warning that a staged file cannot be formatted.
pub open spec fn not_formatted(path: Seq<char>) -> Seq<char> {
    "could not format staged "@ + path + " (CI will fail)"@
}

/// The edition that a staged manifest states: what is staged follows from the
/// commit's own content, so what the working tree's manifest says is no matter
/// to it. The working tree is formatted for the edition of its own manifest.
pub open spec fn edition_staged(manifest: Option<Seq<u8>>) -> Seq<char> {
    edition_stated(manifest_lines(opt_decoded(manifest)))
}

/// A hook run that has not begun.
pub open spec fn hook_fresh() -> HookState {
    HookState {
        root: Seq::empty(),
        partial: false,
        wip: Seq::empty(),
        lock: None,
        edition: Seq::empty(),
        tree_edition: Seq::empty(),
        staged: Seq::empty(),
        queue: Seq::empty(),
        next: 0,
        fixed: Seq::empty(),
        phase: HookPhase::TopLevel,
    }
}

/// The first request of a hook run.
pub open spec fn hook_start() -> (HookState, Asked) {
    (hook_fresh(), Action::Output(Tool::TopLevel))
}

/// The run ends.
pub open spec fn hook_end(st: HookState) -> (HookState, Asked) {
    (HookState { phase: HookPhase::Finished, ..st }, Action::Done)
}

/// The warning that a partial commit leaves the lock file as it is.
pub open spec fn not_freshened() -> Seq<char> {
    "partial commit changes Cargo.toml without Cargo.lock; lock not freshened (CI may fail)"@
}

/// The lock file is freshened where the commit changes a manifest. In a partial
/// commit a lock file outside the commit would only linger in the index.
pub open spec fn hook_lock(st: HookState) -> (HookState, Asked) {
    if !commits_manifest(st.staged) {
        hook_end(st)
    } else if st.partial && !st.staged.contains("Cargo.lock"@) {
        (
            HookState { phase: HookPhase::Locking, ..st },
            Action::Warn(not_freshened()),
        )
    } else {
        (HookState { phase: HookPhase::Locking, ..st }, Action::Freshen)
    }
}

/// The lint pass runs where the commit touches what a build depends on.
pub open spec fn hook_lint(st: HookState) -> (HookState, Asked) {
    if commits_rust(st.staged) {
        (HookState { phase: HookPhase::Linting, ..st }, Action::Lint)
    } else {
        hook_lock(st)
    }
}

/// What was formatted is reported.
pub open spec fn hook_sum(st: HookState) -> (HookState, Asked) {
    if st.fixed.len() > 0 {
        (
            HookState { phase: HookPhase::Summing, ..st },
            Action::Note("rustfmt fixed "@ + joined(st.fixed, " "@)),
        )
    } else {
        hook_lint(st)
    }
}

/// The next file is formatted. Behind the staged files come those that may ride
/// along, but not in a partial commit.
pub open spec fn hook_begin(st: HookState, ride: bool) -> (HookState, Asked) {
    if st.next < st.queue.len() {
        (
            HookState { phase: HookPhase::Blob(ride), ..st },
            Action::Output(Tool::Blob(hook_file(st))),
        )
    } else if ride || st.partial {
        hook_sum(st)
    } else {
        (HookState { phase: HookPhase::Riding, ..st }, Action::Output(Tool::ModifiedRust))
    }
}

/// The run goes on to the file behind the one at hand.
pub open spec fn hook_skip(st: HookState, ride: bool) -> (HookState, Asked) {
    hook_begin(HookState { next: st.next + 1, ..st }, ride)
}

/// The staged files are known; the tree is looked at.
pub open spec fn hook_survey(st: HookState, staged: Seq<Seq<char>>) -> (HookState, Asked) {
    (
        HookState { staged, phase: HookPhase::Listing, ..st },
        Action::Output(Tool::TrackedRust),
    )
}

/// What follows from what the formatter made of a blob.
pub open spec fn hook_formatted(
    st: HookState,
    ride: bool,
    blob: Seq<u8>,
    formatted: Option<Seq<u8>>,
) -> (HookState, Asked) {
    match formatted {
        Some(want) => if ride {
            (
                HookState { phase: HookPhase::Compare(blob, want), ..st },
                Action::Read(hook_file(st)),
            )
        } else if want != blob {
            (
                HookState { phase: HookPhase::Stage(false), ..st },
                Action::Stage(hook_file(st), want),
            )
        } else {
            hook_skip(st, false)
        },
        None => if ride {
            hook_skip(st, true)
        } else {
            (
                HookState { phase: HookPhase::Warning, ..st },
                Action::Warn(not_formatted(hook_file(st))),
            )
        },
    }
}

/// The next request of a hook run, after an answer.
pub open spec fn hook_next(st: HookState, told: Told) -> (HookState, Asked) {
    match st.phase {
        HookPhase::TopLevel => match bytes_told(told) {
            Some(bytes) => {
                let root = trim(lossy(bytes));
                (
                    HookState { root, phase: HookPhase::Canonical, ..st },
                    Action::Canonical(root),
                )
            },
            None => hook_end(st),
        },
        HookPhase::Canonical => {
            let root = match text_told(told) {
                Some(path) => path,
                None => st.root,
            };
            (HookState { root, phase: HookPhase::Entering, ..st }, Action::Enter(root))
        },
        HookPhase::Entering => if flag_told(told) {
            (
                HookState { phase: HookPhase::Probing, ..st },
                Action::Exists(manifest_path(st.root)),
            )
        } else {
            hook_end(st)
        },
        HookPhase::Probing => if flag_told(told) {
            (
                HookState { phase: HookPhase::Variable, ..st },
                Action::Variable("GIT_INDEX_FILE"@),
            )
        } else {
            hook_end(st)
        },
        HookPhase::Variable => (
            HookState { partial: next_index(text_told(told)), phase: HookPhase::Quiet, ..st },
            Action::Status(Tool::NothingStaged),
        ),
        HookPhase::Quiet => if flag_told(told) {
            hook_end(st)
        } else {
            (HookState { phase: HookPhase::Wip, ..st }, Action::Output(Tool::ModifiedPaths))
        },
        HookPhase::Wip => (
            HookState {
                wip: paths_or_none(bytes_told(told)),
                phase: HookPhase::LockFile,
                ..st
            },
            Action::Read(lock_path(st.root)),
        ),
        HookPhase::LockFile => (
            HookState { lock: bytes_told(told), phase: HookPhase::Manifest, ..st },
            Action::Output(Tool::Blob("Cargo.toml"@)),
        ),
        HookPhase::Manifest => (
            HookState {
                edition: edition_staged(bytes_told(told)),
                phase: HookPhase::TreeManifest,
                ..st
            },
            Action::ReadText(manifest_path(st.root)),
        ),
        HookPhase::TreeManifest => (
            HookState {
                tree_edition: edition_stated(manifest_lines(text_told(told))),
                phase: HookPhase::Staged,
                ..st
            },
            Action::Output(Tool::StagedPaths),
        ),
        HookPhase::Staged => match path_list(bytes_told(told)) {
            Some(paths) => hook_survey(st, paths),
            None => (
                HookState { phase: HookPhase::Index, ..st },
                Action::Output(Tool::IndexPaths),
            ),
        },
        HookPhase::Index => hook_survey(st, paths_or_none(bytes_told(told))),
        HookPhase::Listing => (
            HookState { phase: HookPhase::Tree, ..st },
            Action::FormatTree(st.tree_edition, tree_groups(paths_or_none(bytes_told(told)))),
        ),
        HookPhase::Tree => hook_begin(
            HookState { queue: rust_in(st.staged), next: 0, ..st },
            false,
        ),
        HookPhase::Blob(ride) => match bytes_told(told) {
            Some(blob) => (
                HookState { phase: HookPhase::Format(ride, blob), ..st },
                Action::Feed(Tool::Rustfmt(st.edition), blob),
            ),
            None => hook_skip(st, ride),
        },
        HookPhase::Format(ride, blob) => hook_formatted(st, ride, blob, bytes_told(told)),
        HookPhase::Compare(blob, want) => match pure_fmt(
            Some(blob),
            Some(want),
            bytes_told(told),
        ) {
            Some(bytes) => (
                HookState { phase: HookPhase::Stage(true), ..st },
                Action::Stage(hook_file(st), bytes),
            ),
            None => hook_skip(st, true),
        },
        HookPhase::Stage(ride) => if flag_told(told) {
            hook_skip(HookState { fixed: st.fixed.push(hook_file(st)), ..st }, ride)
        } else {
            hook_skip(st, ride)
        },
        HookPhase::Warning => hook_skip(st, false),
        HookPhase::Riding => hook_begin(
            HookState {
                queue: bystanders_in(paths_or_none(bytes_told(told)), st.staged, st.wip),
                next: 0,
                ..st
            },
            true,
        ),
        HookPhase::Summing => hook_lint(st),
        HookPhase::Linting => hook_lock(st),
        HookPhase::Locking => hook_end(st),
        HookPhase::Finished => (st, Action::Done),
    }
}

/// The lint pass of a run, before it begins.
pub open spec fn lint_of(st: HookState) -> LintState {
    LintState {
        root: st.root,
        partial: st.partial,
        wip: st.wip,
        staged: st.staged,
        edition: st.edition,
        workspace: st.root,
        todo: Seq::empty(),
        next: 0,
        fixed: Seq::empty(),
        phase: LintPhase::Locating,
    }
}

fn is_rust_path(path: &str) -> (r: bool)
    ensures
        r == is_rust(path@),
{
    ends_with(chars_of(path).as_slice(), ".rs")
}

fn is_manifest_path(path: &str) -> (r: bool)
    ensures
        r == is_manifest(path@),
{
    ends_with(chars_of(path).as_slice(), "Cargo.toml")
}

fn is_built_path(path: &str) -> (r: bool)
    ensures
        r == is_built(path@),
{
    is_rust_path(path) || is_manifest_path(path) || ends_with(
        chars_of(path).as_slice(),
        "Cargo.lock",
    )
}

/// The Rust sources in a list.
fn rust_of(list: &Vec<String>) -> (r: Vec<String>)
    ensures
        texts(r@) == rust_in(texts(list@)),
{
    let ghost all = texts(list@);
    let mut r: Vec<String> = Vec::new();
    let mut i: usize = 0;
    assert(all.take(0) =~= Seq::empty());
    assert(texts(r@) =~= Seq::empty());
    while i < list.len()
        invariant
            i <= list@.len(),
            all == texts(list@),
            texts(r@) == rust_in(all.take(i as int)),
        decreases list@.len() - i,
    {
        let ghost before = r@;
        assert(all.take(i + 1).drop_last() =~= all.take(i as int));
        assert(all.take(i + 1).last() == list@[i as int]@);
        if is_rust_path(list[i].as_str()) {
            r.push(list[i].clone());
            assert(texts(r@) =~= texts(before).push(list@[i as int]@));
        }
        i = i + 1;
    }
    assert(all.take(i as int) =~= all);
    r
}

/// The files in a list that may ride along.
fn bystanders_of(list: &Vec<String>, staged: &Vec<String>, wip: &Vec<String>) -> (r: Vec<String>)
    ensures
        texts(r@) == bystanders_in(texts(list@), texts(staged@), texts(wip@)),
{
    let ghost all = texts(list@);
    let mut r: Vec<String> = Vec::new();
    let mut i: usize = 0;
    assert(all.take(0) =~= Seq::empty());
    assert(texts(r@) =~= Seq::empty());
    while i < list.len()
        invariant
            i <= list@.len(),
            all == texts(list@),
            texts(r@) == bystanders_in(all.take(i as int), texts(staged@), texts(wip@)),
        decreases list@.len() - i,
    {
        let ghost before = r@;
        assert(all.take(i + 1).drop_last() =~= all.take(i as int));
        assert(all.take(i + 1).last() == list@[i as int]@);
        if !contains(staged, list[i].as_str()) && !contains(wip, list[i].as_str()) {
            r.push(list[i].clone());
            assert(texts(r@) =~= texts(before).push(list@[i as int]@));
        }
        i = i + 1;
    }
    assert(all.take(i as int) =~= all);
    r
}

/// Whether a commit of these files pays for a lint run.
pub fn touches_rust(staged: &Vec<String>) -> (r: bool)
    ensures
        r == commits_rust(texts(staged@)),
{
    let ghost all = texts(staged@);
    let mut i: usize = 0;
    while i < staged.len()
        invariant
            i <= staged@.len(),
            all == texts(staged@),
            forall|j: int| 0 <= j < i ==> !is_built(#[trigger] all[j]),
        decreases staged@.len() - i,
    {
        assert(all[i as int] == staged@[i as int]@);
        if is_built_path(staged[i].as_str()) {
            return true;
        }
        i = i + 1;
    }
    false
}

/// Whether a commit of these files changes a manifest.
pub fn touches_manifest(staged: &Vec<String>) -> (r: bool)
    ensures
        r == commits_manifest(texts(staged@)),
{
    let ghost all = texts(staged@);
    let mut i: usize = 0;
    while i < staged.len()
        invariant
            i <= staged@.len(),
            all == texts(staged@),
            forall|j: int| 0 <= j < i ==> !is_manifest(#[trigger] all[j]),
        decreases staged@.len() - i,
    {
        assert(all[i as int] == staged@[i as int]@);
        if is_manifest_path(staged[i].as_str()) {
            return true;
        }
        i = i + 1;
    }
    false
}

impl Hook {
    /// A phase about a file has a file.
    pub open spec fn valid(self) -> bool {
        hook_valid(self@)
    }

    /// Begins a hook run.
    pub fn start() -> (r: (Hook, Request))
        ensures
            r.0.valid(),
            (r.0@, r.1@) == hook_start(),
    {
        let hook = Hook {
            root: String::new(),
            partial: false,
            wip: Vec::new(),
            lock: None,
            edition: String::new(),
            tree_edition: String::new(),
            staged: Vec::new(),
            queue: Vec::new(),
            next: 0,
            fixed: Vec::new(),
            phase: HookPhase::TopLevel,
        };
        assert(hook@ =~= hook_fresh());
        (hook, Action::Output(Tool::TopLevel))
    }

    fn file(&self) -> (r: String)
        requires
            self@.next < self@.queue.len(),
        ensures
            r@ == hook_file(self@),
    {
        self.queue[self.next].clone()
    }

    fn end(&mut self) -> (r: Request)
        ensures
            (final(self)@, r@) == hook_end(old(self)@),
    {
        self.phase = HookPhase::Finished;
        Action::Done
    }

    fn lock(&mut self) -> (r: Request)
        ensures
            (final(self)@, r@) == hook_lock(old(self)@),
    {
        if !touches_manifest(&self.staged) {
            self.end()
        } else if self.partial && !contains(&self.staged, "Cargo.lock") {
            self.phase = HookPhase::Locking;
            Action::Warn(
                "partial commit changes Cargo.toml without Cargo.lock; lock not freshened (CI may fail)".to_owned(),
            )
        } else {
            self.phase = HookPhase::Locking;
            Action::Freshen
        }
    }

    fn lint(&mut self) -> (r: Request)
        ensures
            (final(self)@, r@) == hook_lint(old(self)@),
    {
        if touches_rust(&self.staged) {
            self.phase = HookPhase::Linting;
            Action::Lint
        } else {
            self.lock()
        }
    }

    fn sum(&mut self) -> (r: Request)
        ensures
            (final(self)@, r@) == hook_sum(old(self)@),
    {
        if self.fixed.len() > 0 {
            let mut message = "rustfmt fixed ".to_owned();
            message.append(join(&self.fixed, " ").as_str());
            self.phase = HookPhase::Summing;
            Action::Note(message)
        } else {
            self.lint()
        }
    }

    fn begin(&mut self, ride: bool) -> (r: Request)
        requires
            old(self)@.next <= old(self)@.queue.len(),
        ensures
            (final(self)@, r@) == hook_begin(old(self)@, ride),
            final(self).valid(),
    {
        if self.next < self.queue.len() {
            let file = self.file();
            self.phase = HookPhase::Blob(ride);
            Action::Output(Tool::Blob(file))
        } else if ride || self.partial {
            self.sum()
        } else {
            self.phase = HookPhase::Riding;
            Action::Output(Tool::ModifiedRust)
        }
    }

    fn skip(&mut self, ride: bool) -> (r: Request)
        requires
            old(self)@.next < old(self)@.queue.len(),
        ensures
            (final(self)@, r@) == hook_skip(old(self)@, ride),
            final(self).valid(),
    {
        if self.next < self.queue.len() {
            self.next = self.next + 1;
        }
        self.begin(ride)
    }

    fn survey(&mut self, staged: Vec<String>) -> (r: Request)
        ensures
            (final(self)@, r@) == hook_survey(old(self)@, texts(staged@)),
    {
        self.staged = staged;
        self.phase = HookPhase::Listing;
        Action::Output(Tool::TrackedRust)
    }

    fn formatted(&mut self, ride: bool, blob: Vec<u8>, formatted: Option<Vec<u8>>) -> (r: Request)
        requires
            old(self)@.next < old(self)@.queue.len(),
        ensures
            (final(self)@, r@) == hook_formatted(old(self)@, ride, blob@, opt_bytes(formatted)),
            final(self).valid(),
    {
        match formatted {
            Some(want) => if ride {
                self.phase = HookPhase::Compare(blob, want);
                Action::Read(self.file())
            } else if !same_bytes(&want, &blob) {
                self.phase = HookPhase::Stage(false);
                Action::Stage(self.file(), want)
            } else {
                self.skip(false)
            },
            None => if ride {
                self.skip(true)
            } else {
                let mut message = "could not format staged ".to_owned();
                message.append(self.file().as_str());
                message.append(" (CI will fail)");
                self.phase = HookPhase::Warning;
                Action::Warn(message)
            },
        }
    }

    /// Takes an answer and makes the next request.
    pub fn step(&mut self, answer: Answer) -> (r: Request)
        requires
            old(self).valid(),
        ensures
            (final(self)@, r@) == hook_next(old(self)@, answer@),
            final(self).valid(),
    {
        let mut phase = HookPhase::Finished;
        std::mem::swap(&mut self.phase, &mut phase);
        match phase {
            HookPhase::TopLevel => match answer.bytes() {
                Some(bytes) => {
                    let text = decode_lossy(&bytes);
                    let root = trimmed(text.as_str());
                    self.root = root.clone();
                    self.phase = HookPhase::Canonical;
                    Action::Canonical(root)
                },
                None => self.end(),
            },
            HookPhase::Canonical => {
                if let Some(path) = answer.text() {
                    self.root = path;
                }
                self.phase = HookPhase::Entering;
                Action::Enter(self.root.clone())
            },
            HookPhase::Entering => if answer.flag() {
                self.phase = HookPhase::Probing;
                Action::Exists(resolve(self.root.as_str(), "Cargo.toml"))
            } else {
                self.end()
            },
            HookPhase::Probing => if answer.flag() {
                self.phase = HookPhase::Variable;
                Action::Variable("GIT_INDEX_FILE".to_owned())
            } else {
                self.end()
            },
            HookPhase::Variable => {
                self.partial = is_pathspec_mode(&answer.text());
                self.phase = HookPhase::Quiet;
                Action::Status(Tool::NothingStaged)
            },
            HookPhase::Quiet => if answer.flag() {
                self.end()
            } else {
                self.phase = HookPhase::Wip;
                Action::Output(Tool::ModifiedPaths)
            },
            HookPhase::Wip => {
                self.wip = git_paths_or_none(&answer.bytes());
                self.phase = HookPhase::LockFile;
                Action::Read(resolve(self.root.as_str(), "Cargo.lock"))
            },
            HookPhase::LockFile => {
                self.lock = answer.bytes();
                self.phase = HookPhase::Manifest;
                Action::Output(Tool::Blob("Cargo.toml".to_owned()))
            },
            HookPhase::Manifest => {
                self.edition = manifest_edition(&decode_opt(answer.bytes()));
                self.phase = HookPhase::TreeManifest;
                Action::ReadText(resolve(self.root.as_str(), "Cargo.toml"))
            },
            HookPhase::TreeManifest => {
                self.tree_edition = manifest_edition(&answer.text());
                self.phase = HookPhase::Staged;
                Action::Output(Tool::StagedPaths)
            },
            HookPhase::Staged => match git_paths(&answer.bytes()) {
                Some(paths) => self.survey(paths),
                None => {
                    self.phase = HookPhase::Index;
                    Action::Output(Tool::IndexPaths)
                },
            },
            HookPhase::Index => {
                let paths = git_paths_or_none(&answer.bytes());
                self.survey(paths)
            },
            HookPhase::Listing => {
                let paths = git_paths_or_none(&answer.bytes());
                self.phase = HookPhase::Tree;
                Action::FormatTree(self.tree_edition.clone(), tree_groups_of(paths))
            },
            HookPhase::Tree => {
                self.queue = rust_of(&self.staged);
                self.next = 0;
                self.begin(false)
            },
            HookPhase::Blob(ride) => match answer.bytes() {
                Some(blob) => {
                    let input = clone_bytes(&blob);
                    self.phase = HookPhase::Format(ride, blob);
                    Action::Feed(Tool::Rustfmt(self.edition.clone()), input)
                },
                None => self.skip(ride),
            },
            HookPhase::Format(ride, blob) => self.formatted(ride, blob, answer.bytes()),
            HookPhase::Compare(blob, want) => match pure_fmt_bytes(
                &Some(blob),
                &Some(want),
                &answer.bytes(),
            ) {
                Some(bytes) => {
                    self.phase = HookPhase::Stage(true);
                    Action::Stage(self.file(), bytes)
                },
                None => self.skip(true),
            },
            HookPhase::Stage(ride) => {
                if answer.flag() {
                    let file = self.file();
                    let ghost before = self.fixed@;
                    self.fixed.push(file);
                    assert(texts(self.fixed@) =~= texts(before).push(file@));
                }
                self.skip(ride)
            },
            HookPhase::Warning => self.skip(false),
            HookPhase::Riding => {
                let paths = git_paths_or_none(&answer.bytes());
                self.queue = bystanders_of(&paths, &self.staged, &self.wip);
                self.next = 0;
                self.begin(true)
            },
            HookPhase::Summing => self.lint(),
            HookPhase::Linting => self.lock(),
            HookPhase::Locking => self.end(),
            HookPhase::Finished => Action::Done,
        }
    }

    /// The lint pass of the run.
    pub fn lint_pass(&self) -> (r: (LintPass, Request))
        ensures
            r.0.valid(),
            (r.0@, r.1@) == lint_start(lint_of(self@)),
    {
        LintPass::start(
            self.root.clone(),
            self.partial,
            clone_list(&self.wip),
            clone_list(&self.staged),
            self.edition.clone(),
        )
    }

    /// The lock file pass of the run.
    pub fn lock_pass(&self) -> (r: (LockPass, Request))
        ensures
            (r.0@, r.1@) == lock_start(self@.root, self@.lock),
    {
        LockPass::start(self.root.clone(), clone_opt_bytes(&self.lock))
    }
}

/// A hook run after a number of answers.
pub open spec fn hook_after(told: Seq<Told>) -> (HookState, Asked)
    decreases told.len(),
{
    if told.len() == 0 {
        hook_start()
    } else {
        hook_next(hook_after(told.drop_last()).0, told.last())
    }
}

/// Whether a phase is about a file that the commit stages.
pub open spec fn on_staged(phase: HookPhase<Seq<u8>>) -> bool {
    match phase {
        HookPhase::Blob(ride) => !ride,
        HookPhase::Format(ride, _) => !ride,
        HookPhase::Stage(ride) => !ride,
        HookPhase::Warning => true,
        _ => false,
    }
}

/// Whether a phase is about a file that rides along.
pub open spec fn on_bystander(phase: HookPhase<Seq<u8>>) -> bool {
    hook_on_file(phase) && !on_staged(phase)
}

/// Whether a run has looked at every file that may ride along.
pub open spec fn past_riding(phase: HookPhase<Seq<u8>>) -> bool {
    ||| phase is Summing
    ||| phase is Linting
    ||| phase is Locking
    ||| phase is Finished
}

/// Whether a run has looked at every file that the commit stages.
pub open spec fn past_staged(phase: HookPhase<Seq<u8>>) -> bool {
    on_bystander(phase) || phase is Riding || past_riding(phase)
}

/// Whether a run does not yet know what the commit stages.
pub open spec fn before_staged(phase: HookPhase<Seq<u8>>) -> bool {
    ||| phase is TopLevel
    ||| phase is Canonical
    ||| phase is Entering
    ||| phase is Probing
    ||| phase is Variable
    ||| phase is Quiet
    ||| phase is Wip
    ||| phase is LockFile
    ||| phase is Manifest
    ||| phase is TreeManifest
    ||| phase is Staged
    ||| phase is Index
}

/// What is known of a hook run after its answers: which files it is about, and
/// where the bytes that it holds came from.
spec fn hook_fits(told: Seq<Told>) -> bool {
    let (now, asked) = hook_after(told);
    let n = told.len() as int;
    let file = hook_file(now);
    let was = |k: int| hook_after(told.take(n - k)).1;
    let heard = |k: int| bytes_told(told[n - k]);
    &&& hook_valid(now)
    &&& (now.phase is Finished <==> asked is Done)
    &&& before_staged(now.phase) ==> now.staged.len() == 0
    &&& on_staged(now.phase) ==> now.queue == rust_in(now.staged)
    &&& on_bystander(now.phase) ==> !now.partial && forall|i: int|
        0 <= i < now.queue.len() ==> !now.staged.contains(#[trigger] now.queue[i])
            && !now.wip.contains(now.queue[i])
    &&& (asked is Lint ==> commits_rust(now.staged))
    &&& (asked is Freshen ==> commits_manifest(now.staged) && (!now.partial
        || now.staged.contains("Cargo.lock"@)))
    &&& match now.phase {
        HookPhase::Blob(_) => asked == Asked::Output(Tool::Blob(file)),
        HookPhase::Format(_, blob) => {
            &&& n >= 1 && asked == Asked::Feed(Tool::Rustfmt(now.edition), blob)
            &&& was(1) == Asked::Output(Tool::Blob(file)) && heard(1) == Some(blob)
        },
        HookPhase::Compare(blob, want) => {
            &&& n >= 2 && asked == Asked::Read(file)
            &&& was(1) == Asked::Feed(Tool::Rustfmt(now.edition), blob) && heard(1) == Some(want)
            &&& was(2) == Asked::Output(Tool::Blob(file)) && heard(2) == Some(blob)
        },
        HookPhase::Stage(false) => {
            &&& n >= 2 && asked is Stage && asked->Stage_0 == file
            &&& heard(2) matches Some(blob) && {
                &&& was(2) == Asked::Output(Tool::Blob(file)) && asked->Stage_1 != blob
                &&& was(1) == Asked::Feed(Tool::Rustfmt(now.edition), blob)
                &&& heard(1) == Some(asked->Stage_1)
            }
        },
        HookPhase::Stage(true) => {
            &&& n >= 3 && asked is Stage && asked->Stage_0 == file
            &&& was(1) == Asked::Read(file) && heard(1) == Some(asked->Stage_1)
            &&& heard(3) matches Some(blob) && {
                &&& was(3) == Asked::Output(Tool::Blob(file))
                &&& was(2) == Asked::Feed(Tool::Rustfmt(now.edition), blob)
                &&& heard(2) == Some(asked->Stage_1)
            }
        },
        _ => asked !is Stage,
    }
}

/// None of the files that may ride along is staged or had local edits.
pub proof fn lemma_bystanders(list: Seq<Seq<char>>, staged: Seq<Seq<char>>, wip: Seq<Seq<char>>)
    ensures
        forall|i: int|
            0 <= i < bystanders_in(list, staged, wip).len() ==> !staged.contains(
                #[trigger] bystanders_in(list, staged, wip)[i],
            ) && !wip.contains(bystanders_in(list, staged, wip)[i]),
    decreases list.len(),
{
    if list.len() > 0 {
        lemma_bystanders(list.drop_last(), staged, wip);
        let rest = bystanders_in(list.drop_last(), staged, wip);
        let all = bystanders_in(list, staged, wip);
        assert forall|i: int| 0 <= i < all.len() implies !staged.contains(#[trigger] all[i])
            && !wip.contains(all[i]) by {
            if i < rest.len() {
                assert(all[i] == rest[i]);
            }
        }
    }
}

/// The Rust sources in a list are its members that are Rust sources.
pub proof fn lemma_rust_in(list: Seq<Seq<char>>)
    ensures
        forall|i: int|
            0 <= i < rust_in(list).len() ==> is_rust(#[trigger] rust_in(list)[i]) && list.contains(
                rust_in(list)[i],
            ),
        forall|path: Seq<char>| #[trigger]
            list.contains(path) && is_rust(path) ==> rust_in(list).contains(path),
    decreases list.len(),
{
    if list.len() > 0 {
        let rest = list.drop_last();
        lemma_rust_in(rest);
        let all = rust_in(list);
        assert(list =~= rest.push(list.last()));
        assert(list[list.len() - 1] == list.last());
        assert forall|i: int| 0 <= i < all.len() implies is_rust(#[trigger] all[i])
            && list.contains(all[i]) by {
            if i < rust_in(rest).len() {
                assert(all[i] == rust_in(rest)[i]);
                let k = choose|k: int| 0 <= k < rest.len() && rest[k] == all[i];
                assert(list[k] == all[i]);
            }
        }
        assert forall|path: Seq<char>| #[trigger]
            list.contains(path) && is_rust(path) implies all.contains(path) by {
            let k = choose|k: int| 0 <= k < list.len() && list[k] == path;
            if k < rest.len() {
                assert(rest[k] == path);
                assert(rest.contains(path));
                let i = choose|i: int| 0 <= i < rust_in(rest).len() && rust_in(rest)[i] == path;
                assert(all[i] == path);
            } else {
                assert(all[all.len() - 1] == path);
            }
        }
    }
}

proof fn lemma_hook_fits(told: Seq<Told>)
    ensures
        hook_fits(told),
    decreases told.len(),
{
    if told.len() > 0 {
        let n = told.len() as int;
        let before = told.drop_last();
        lemma_hook_fits(before);
        assert(before =~= told.take(n - 1));
        assert(hook_fits(before));
        let was = hook_after(before).0;
        if n >= 2 {
            assert(told.take(n - 2) =~= before.take(n - 2));
        }
        if n >= 3 {
            assert(told.take(n - 3) =~= before.take(n - 3));
        }
        if was.phase is Riding {
            lemma_bystanders(paths_or_none(bytes_told(told.last())), was.staged, was.wip);
        }
    }
}

/// The run itself never stages foreign bytes. Whatever the answers, bytes that
/// it stages for a path are what the formatter made of the path's indexed blob.
/// A file that the commit does not stage is staged only where its working copy
/// was read and is exactly those bytes, where nobody was editing it when the
/// run began, and where the whole index is committed.
pub proof fn the_run_stages_only_formatted_blobs(told: Seq<Told>, path: Seq<char>, bytes: Seq<u8>)
    requires
        hook_after(told).1 == Asked::Stage(path, bytes),
    ensures
        ({
            let n = told.len() as int;
            let now = hook_after(told).0;
            let formatted = |k: int|
                {
                    &&& n >= k
                    &&& hook_after(told.take(n - k)).1 == Asked::Output(Tool::Blob(path))
                    &&& bytes_told(told[n - k]) matches Some(blob) && hook_after(
                        told.take(n - k + 1),
                    ).1 == Asked::Feed(Tool::Rustfmt(now.edition), blob)
                    &&& bytes_told(told[n - k + 1]) == Some(bytes)
                };
            if now.staged.contains(path) {
                formatted(2) && bytes_told(told[n - 2]) != Some(bytes) && is_rust(path)
            } else {
                &&& formatted(3)
                &&& hook_after(told.take(n - 1)).1 == Asked::Read(path)
                &&& bytes_told(told[n - 1]) == Some(bytes)
                &&& !now.wip.contains(path)
                &&& !now.partial
            }
        }),
{
    lemma_hook_fits(told);
    let now = hook_after(told).0;
    lemma_rust_in(now.staged);
    if on_staged(now.phase) {
        assert(now.staged.contains(rust_in(now.staged)[now.next]));
    } else {
        assert(!now.staged.contains(now.queue[now.next]));
    }
}

/// A commit pays for a lint run only where it touches what a build depends on.
pub proof fn a_commit_without_rust_is_not_linted(told: Seq<Told>)
    requires
        !commits_rust(hook_after(told).0.staged),
    ensures
        hook_after(told).1 !is Lint,
{
    lemma_hook_fits(told);
}

/// The lock file is freshened only for a commit that changes a manifest, and in
/// a partial commit only where the commit stages the lock file itself.
pub proof fn the_lock_file_is_freshened_for_manifests(told: Seq<Told>)
    requires
        hook_after(told).1 is Freshen,
    ensures
        commits_manifest(hook_after(told).0.staged),
        hook_after(told).0.partial ==> hook_after(told).0.staged.contains("Cargo.lock"@),
{
    lemma_hook_fits(told);
}

/// A source that the commit stages is reformatted unconditionally: its blob goes
/// to the formatter, and what comes back is staged exactly where it differs. A
/// blob that cannot be formatted gets a named warning.
pub proof fn a_staged_source_is_reformatted(st: HookState, blob: Seq<u8>, want: Seq<u8>)
    requires
        hook_valid(st),
        st.phase == HookPhase::<Seq<u8>>::Blob(false),
        want != blob,
    ensures
        ({
            let (mid, feed) = hook_next(st, Told::Bytes(Some(blob)));
            &&& feed == Asked::Feed(Tool::Rustfmt(st.edition), blob)
            &&& hook_next(mid, Told::Bytes(Some(want))).1 == Asked::Stage(hook_file(st), want)
            &&& hook_next(mid, Told::Bytes(None)).1 == Asked::Warn(not_formatted(hook_file(st)))
            &&& hook_next(mid, Told::Bytes(Some(blob))) == hook_skip(mid, false)
        }),
{
}

/// Two runs are alike but for what they found in the working tree.
pub open spec fn alike(a: HookState, b: HookState) -> bool {
    b == (HookState { wip: b.wip, lock: b.lock, tree_edition: b.tree_edition, ..a })
}

/// Contention in the working tree is irrelevant to the files that the commit
/// stages: while a run is about them, what it found in the working tree changes
/// nothing about its requests, and it reads nothing there.
pub proof fn staged_fixes_ignore_the_working_tree(a: HookState, b: HookState, told: Told)
    requires
        hook_valid(a),
        on_staged(a.phase),
        alike(a, b),
    ensures
        alike(hook_next(a, told).0, hook_next(b, told).0),
        hook_next(a, told).1 == hook_next(b, told).1,
        hook_next(a, told).1 !is Read,
{
}

/// Whether the blob of a path was asked for in the course of a run.
pub open spec fn looked_at(told: Seq<Told>, path: Seq<char>) -> bool {
    exists|k: int|
        0 <= k <= told.len() && (#[trigger] hook_after(told.take(k))).1 == Asked::Output(
            Tool::Blob(path),
        )
}

proof fn lemma_looked_at(told: Seq<Told>, path: Seq<char>)
    requires
        told.len() > 0,
        looked_at(told.drop_last(), path),
    ensures
        looked_at(told, path),
{
    let before = told.drop_last();
    let k = choose|k: int|
        0 <= k <= before.len() && (#[trigger] hook_after(before.take(k))).1 == Asked::Output(
            Tool::Blob(path),
        );
    assert(told.take(k) =~= before.take(k));
}

/// How a step moves along the files that the commit stages.
pub proof fn lemma_along_staged(was: HookState, told: Told)
    requires
        hook_valid(was),
        before_staged(was.phase) ==> was.staged.len() == 0,
        on_staged(was.phase) ==> was.queue == rust_in(was.staged),
    ensures
        ({
            let (now, asked) = hook_next(was, told);
            let all = rust_in(now.staged);
            &&& before_staged(now.phase) ==> now.staged.len() == 0
            &&& on_staged(now.phase) ==> {
                &&& now.staged == was.staged
                &&& on_staged(was.phase) || was.phase is Tree
                &&& (on_staged(was.phase) && now.next == was.next) || (now.next == (if on_staged(
                    was.phase,
                ) {
                    was.next + 1
                } else {
                    0
                }) && asked == Asked::Output(Tool::Blob(all[now.next])))
            }
            &&& past_staged(now.phase) ==> {
                &&& now.staged == was.staged
                &&& {
                    ||| past_staged(was.phase)
                    ||| on_staged(was.phase) && was.next + 1 == all.len()
                    ||| all.len() == 0
                }
            }
        }),
{
}

proof fn lemma_staged_in_turn(told: Seq<Told>)
    ensures
        ({
            let now = hook_after(told).0;
            let all = rust_in(now.staged);
            &&& on_staged(now.phase) ==> forall|i: int|
                0 <= i <= now.next ==> looked_at(told, #[trigger] all[i])
            &&& past_staged(now.phase) ==> forall|i: int|
                0 <= i < all.len() ==> looked_at(told, #[trigger] all[i])
        }),
    decreases told.len(),
{
    if told.len() > 0 {
        let n = told.len() as int;
        let before = told.drop_last();
        lemma_staged_in_turn(before);
        let was = hook_after(before).0;
        assert(hook_valid(was) && (before_staged(was.phase) ==> was.staged.len() == 0) && (on_staged(
            was.phase,
        ) ==> was.queue == rust_in(was.staged))) by {
            lemma_hook_fits(before);
            assert(hook_fits(before));
        }
        lemma_along_staged(was, told.last());
        let (now, asked) = hook_after(told);
        assert(hook_after(told) == hook_next(was, told.last()));
        assert(told.take(n) =~= told);
        let all = rust_in(now.staged);
        if on_staged(now.phase) {
            assert forall|i: int| 0 <= i <= now.next implies looked_at(told, #[trigger] all[i]) by {
                if on_staged(was.phase) && i <= was.next {
                    assert(looked_at(before, all[i]));
                    lemma_looked_at(told, all[i]);
                } else {
                    assert(hook_after(told.take(n)).1 == Asked::Output(Tool::Blob(all[i])));
                }
            }
        }
        if past_staged(now.phase) {
            assert forall|i: int| 0 <= i < all.len() implies looked_at(
                told,
                #[trigger] all[i],
            ) by {
                assert(looked_at(before, all[i]));
                lemma_looked_at(told, all[i]);
            }
        }
    }
}

/// No source that the commit stages is left out: by the time that a run goes on
/// to anything else, or ends, it has asked for the blob of each.
pub proof fn every_staged_source_is_looked_at(told: Seq<Told>, path: Seq<char>)
    requires
        past_staged(hook_after(told).0.phase),
        hook_after(told).0.staged.contains(path),
        is_rust(path),
    ensures
        looked_at(told, path),
{
    let now = hook_after(told).0;
    lemma_staged_in_turn(told);
    lemma_rust_in(now.staged);
    let i = choose|i: int| 0 <= i < rust_in(now.staged).len() && rust_in(now.staged)[i] == path;
    assert(looked_at(told, rust_in(now.staged)[i]));
}

/// How a step moves along the files that may ride along.
pub proof fn lemma_along_bystanders(was: HookState, told: Told)
    requires
        hook_valid(was),
    ensures
        ({
            let (now, asked) = hook_next(was, told);
            let all = bystanders_in(paths_or_none(bytes_told(told)), was.staged, was.wip);
            &&& now.phase is Riding <==> asked == Asked::Output(Tool::ModifiedRust)
            &&& on_bystander(now.phase) || past_riding(now.phase) ==> now.staged == was.staged
                && now.wip == was.wip
            &&& on_bystander(now.phase) ==> {
                ||| {
                    &&& on_bystander(was.phase) && now.queue == was.queue
                    &&& now.next == was.next || (now.next == was.next + 1 && asked
                        == Asked::Output(Tool::Blob(now.queue[now.next])))
                }
                ||| {
                    &&& was.phase is Riding && now.queue == all && now.next == 0
                    &&& asked == Asked::Output(Tool::Blob(now.queue[0]))
                }
            }
            &&& past_riding(now.phase) ==> {
                ||| !on_bystander(was.phase) && was.phase !is Riding
                ||| on_bystander(was.phase) && was.next + 1 == was.queue.len()
                ||| was.phase is Riding && all.len() == 0
            }
            &&& on_bystander(was.phase) || past_riding(was.phase) ==> on_bystander(now.phase)
                || past_riding(now.phase)
            &&& was.phase is Riding ==> on_bystander(now.phase) || past_riding(now.phase)
        }),
{
}

/// A bystander rides along exactly where its whole change is formatting: its
/// blob goes to the formatter, its working copy is read, and the formatted blob
/// is staged where the working copy is exactly that. Else it is passed over.
pub proof fn a_bystander_rides_along_exactly_where_pure(
    st: HookState,
    blob: Seq<u8>,
    want: Seq<u8>,
    found: Option<Seq<u8>>,
)
    requires
        hook_valid(st),
        st.phase == HookPhase::<Seq<u8>>::Blob(true),
    ensures
        ({
            let (mid, feed) = hook_next(st, Told::Bytes(Some(blob)));
            let (late, read) = hook_next(mid, Told::Bytes(Some(want)));
            &&& feed == Asked::Feed(Tool::Rustfmt(st.edition), blob)
            &&& read == Asked::Read(hook_file(st))
            &&& found == Some(want) ==> hook_next(late, Told::Bytes(found)).1 == Asked::Stage(
                hook_file(st),
                want,
            )
            &&& found != Some(want) ==> hook_next(late, Told::Bytes(found)) == hook_skip(late, true)
            &&& hook_next(mid, Told::Bytes(None)) == hook_skip(mid, true)
            &&& hook_next(st, Told::Bytes(None)) == hook_skip(st, true)
        }),
{
}

/// How a step moves along the passes.
pub proof fn lemma_along_passes(was: HookState, told: Told)
    requires
        hook_valid(was),
        before_staged(was.phase) ==> was.staged.len() == 0,
    ensures
        ({
            let (now, asked) = hook_next(was, told);
            &&& now.phase is Linting ==> asked is Lint
            &&& asked is Lint ==> now.phase is Linting
            &&& asked is Freshen ==> now.phase is Locking
            &&& now.phase is Locking ==> asked is Freshen || (asked == Asked::Warn(not_freshened())
                && now.partial && !now.staged.contains("Cargo.lock"@))
            &&& past_riding(now.phase) ==> now.staged == was.staged && now.partial == was.partial
            &&& now.phase is Locking || now.phase is Finished ==> {
                ||| !commits_rust(now.staged)
                ||| was.phase is Linting
                ||| was.phase is Locking
                ||| was.phase is Finished
            }
            &&& now.phase is Finished ==> {
                ||| !commits_manifest(now.staged)
                ||| was.phase is Locking
                ||| was.phase is Finished
            }
            &&& was.phase is Finished ==> now.phase is Finished
            &&& was.phase is Locking ==> now.phase is Finished
            &&& was.phase is Linting ==> now.phase is Locking || now.phase is Finished
        }),
{
}

/// Whether the lint pass was asked for in the course of a run.
pub open spec fn lint_asked(told: Seq<Told>) -> bool {
    exists|k: int| 0 <= k <= told.len() && (#[trigger] hook_after(told.take(k))).1 is Lint
}

/// Whether the lock file pass was asked for in the course of a run, or a warning
/// was printed in its place.
pub open spec fn lock_asked(told: Seq<Told>) -> bool {
    exists|k: int|
        0 <= k <= told.len() && ((#[trigger] hook_after(told.take(k))).1 is Freshen || hook_after(
            told.take(k),
        ).1 == Asked::Warn(not_freshened()))
}

/// What is known of the passes of a run.
spec fn passes_known(told: Seq<Told>) -> bool {
    let (now, asked) = hook_after(told);
    &&& now.phase is Linting ==> asked is Lint
    &&& now.phase is Locking ==> asked is Freshen || asked == Asked::Warn(not_freshened())
    &&& (now.phase is Locking || now.phase is Finished) && commits_rust(now.staged) ==> lint_asked(
        told,
    )
    &&& now.phase is Finished && commits_manifest(now.staged) ==> lock_asked(told)
}

proof fn lemma_passes_known(told: Seq<Told>)
    ensures
        passes_known(told),
    decreases told.len(),
{
    if told.len() > 0 {
        let n = told.len() as int;
        let before = told.drop_last();
        lemma_passes_known(before);
        assert(passes_known(before));
        let was = hook_after(before).0;
        assert(hook_valid(was) && (before_staged(was.phase) ==> was.staged.len() == 0)) by {
            lemma_hook_fits(before);
            assert(hook_fits(before));
        }
        lemma_along_passes(was, told.last());
        assert(told.take(n - 1) =~= before);
        if lint_asked(before) {
            let k = choose|k: int|
                0 <= k <= before.len() && (#[trigger] hook_after(before.take(k))).1 is Lint;
            assert(told.take(k) =~= before.take(k));
            assert(hook_after(told.take(k)).1 is Lint);
        }
        if was.phase is Linting {
            assert(hook_after(told.take(n - 1)).1 is Lint);
        }
        if lock_asked(before) {
            let k = choose|k: int|
                0 <= k <= before.len() && ((#[trigger] hook_after(before.take(k))).1 is Freshen
                    || hook_after(before.take(k)).1 == Asked::Warn(not_freshened()));
            assert(told.take(k) =~= before.take(k));
            assert(hook_after(told.take(k)).1 is Freshen || hook_after(told.take(k)).1
                == Asked::Warn(not_freshened()));
        }
        if was.phase is Locking {
            assert(hook_after(told.take(n - 1)).1 is Freshen || hook_after(told.take(n - 1)).1
                == Asked::Warn(not_freshened()));
        }
    }
}

/// Every pass that a commit calls for is run. By the time that a run ends, it has
/// asked for the lint pass where the commit touches what a build depends on; and
/// where the commit changes a manifest, it has asked for the lock file to be
/// freshened, or has warned that a partial commit leaves it as it is.
pub proof fn every_pass_that_a_commit_calls_for_is_run(told: Seq<Told>)
    requires
        hook_after(told).1 is Done,
    ensures
        commits_rust(hook_after(told).0.staged) ==> lint_asked(told),
        commits_manifest(hook_after(told).0.staged) ==> lock_asked(told),
{
    lemma_passes_known(told);
    lemma_hook_fits(told);
    assert(hook_fits(told));
}

/// How far a run is from its end: the stage of the run, the files left in it,
/// and the requests left for the present file.
pub open spec fn hook_rank(st: HookState) -> (nat, nat, nat) {
    let left = (st.queue.len() - st.next) as nat;
    let lane = |ride: bool| if ride { 5nat } else { 7nat };
    match st.phase {
        HookPhase::TopLevel => (21, 0, 0),
        HookPhase::Canonical => (20, 0, 0),
        HookPhase::Entering => (19, 0, 0),
        HookPhase::Probing => (18, 0, 0),
        HookPhase::Variable => (17, 0, 0),
        HookPhase::Quiet => (16, 0, 0),
        HookPhase::Wip => (15, 0, 0),
        HookPhase::LockFile => (14, 0, 0),
        HookPhase::Manifest => (13, 0, 0),
        HookPhase::TreeManifest => (12, 0, 0),
        HookPhase::Staged => (11, 0, 0),
        HookPhase::Index => (10, 0, 0),
        HookPhase::Listing => (9, 0, 0),
        HookPhase::Tree => (8, 0, 0),
        HookPhase::Blob(ride) => (lane(ride), left, 3),
        HookPhase::Format(ride, _) => (lane(ride), left, 2),
        HookPhase::Compare(_, _) => (lane(true), left, 1),
        HookPhase::Stage(ride) => (lane(ride), left, 0),
        HookPhase::Warning => (lane(false), left, 0),
        HookPhase::Riding => (6, 0, 0),
        HookPhase::Summing => (4, 0, 0),
        HookPhase::Linting => (3, 0, 0),
        HookPhase::Locking => (2, 0, 0),
        HookPhase::Finished => (0, 0, 0),
    }
}

/// The run never blocks: whatever is answered, every answer brings it closer to
/// its end, and at its end it asks for nothing more.
pub proof fn the_run_never_blocks(st: HookState, told: Told)
    requires
        hook_valid(st),
    ensures
        st.phase !is Finished ==> closer(hook_rank(hook_next(st, told).0), hook_rank(st)),
        st.phase is Finished ==> hook_next(st, told) == (st, Asked::Done),
        hook_valid(hook_next(st, told).0),
{
}

/// A file is told by how its name ends: a source by `.rs`, a manifest by
/// `Cargo.toml`, and what a build depends on by one of these or `Cargo.lock`.
pub proof fn a_file_is_told_by_how_its_name_ends(path: Seq<char>)
    ensures
        is_rust(path) <==> exists|a: Seq<char>| path == #[trigger] (a + ".rs"@),
        is_manifest(path) <==> exists|a: Seq<char>| path == #[trigger] (a + "Cargo.toml"@),
        is_built(path) <==> (exists|a: Seq<char>| path == #[trigger] (a + ".rs"@)) || (exists|
            a: Seq<char>,
        |
            path == #[trigger] (a + "Cargo.toml"@)) || (exists|a: Seq<char>|
            path == #[trigger] (a + "Cargo.lock"@)),
{
    a_suffix_follows_the_rest(".rs"@, path);
    a_suffix_follows_the_rest("Cargo.toml"@, path);
    a_suffix_follows_the_rest("Cargo.lock"@, path);
}

/// A commit pays for a lint run exactly where it stages a file whose name ends
/// with `.rs`, `Cargo.toml` or `Cargo.lock`, in whatever directory, and changes a
/// manifest exactly where it stages one whose name ends with `Cargo.toml`.
pub proof fn a_commit_is_told_by_its_files(staged: Seq<Seq<char>>, dir: Seq<char>)
    ensures
        staged.contains(dir + ".rs"@) ==> commits_rust(staged),
        staged.contains(dir + "Cargo.toml"@) ==> commits_rust(staged) && commits_manifest(staged),
        staged.contains(dir + "Cargo.lock"@) ==> commits_rust(staged),
        commits_rust(staged) ==> exists|a: Seq<char>|
            staged.contains(#[trigger] (a + ".rs"@)) || staged.contains(a + "Cargo.toml"@)
                || staged.contains(a + "Cargo.lock"@),
        commits_manifest(staged) ==> exists|a: Seq<char>|
            staged.contains(#[trigger] (a + "Cargo.toml"@)),
{
    let at = |path: Seq<char>| choose|i: int| 0 <= i < staged.len() && staged[i] == path;
    a_file_is_told_by_how_its_name_ends(dir + ".rs"@);
    a_file_is_told_by_how_its_name_ends(dir + "Cargo.toml"@);
    a_file_is_told_by_how_its_name_ends(dir + "Cargo.lock"@);
    if staged.contains(dir + ".rs"@) {
        assert(is_built(staged[at(dir + ".rs"@)]));
    }
    if staged.contains(dir + "Cargo.toml"@) {
        assert(is_built(staged[at(dir + "Cargo.toml"@)]));
        assert(is_manifest(staged[at(dir + "Cargo.toml"@)]));
    }
    if staged.contains(dir + "Cargo.lock"@) {
        assert(is_built(staged[at(dir + "Cargo.lock"@)]));
    }
    if commits_rust(staged) {
        let i = choose|i: int| 0 <= i < staged.len() && is_built(#[trigger] staged[i]);
        let path = staged[i];
        a_file_is_told_by_how_its_name_ends(path);
        assert(staged.contains(path));
        if exists|a: Seq<char>| path == #[trigger] (a + ".rs"@) {
            let a = choose|a: Seq<char>| path == #[trigger] (a + ".rs"@);
            assert(staged.contains(a + ".rs"@));
        } else if exists|a: Seq<char>| path == #[trigger] (a + "Cargo.toml"@) {
            let a = choose|a: Seq<char>| path == #[trigger] (a + "Cargo.toml"@);
            assert((a + ".rs"@) == (a + ".rs"@));
        } else {
            let a = choose|a: Seq<char>| path == #[trigger] (a + "Cargo.lock"@);
            assert((a + ".rs"@) == (a + ".rs"@));
        }
    }
    if commits_manifest(staged) {
        let i = choose|i: int| 0 <= i < staged.len() && is_manifest(#[trigger] staged[i]);
        a_file_is_told_by_how_its_name_ends(staged[i]);
        let a = choose|a: Seq<char>| staged[i] == #[trigger] (a + "Cargo.toml"@);
        assert(staged.contains(a + "Cargo.toml"@));
    }
}

/// The sources of a commit are all of its files whose names end with `.rs`, in
/// order; and what may ride along is every listed file that is neither staged
/// nor had local edits, in order.
pub proof fn the_files_at_hand_are_picked_from_the_lists(
    list: Seq<Seq<char>>,
    staged: Seq<Seq<char>>,
    wip: Seq<Seq<char>>,
)
    ensures
        rust_in(list) == list.filter(
            |path: Seq<char>| exists|a: Seq<char>| path == #[trigger] (a + ".rs"@),
        ),
        bystanders_in(list, staged, wip) == list.filter(
            |path: Seq<char>| !staged.contains(path) && !wip.contains(path),
        ),
    decreases list.len(),
{
    reveal(Seq::filter);
    if list.len() > 0 {
        the_files_at_hand_are_picked_from_the_lists(list.drop_last(), staged, wip);
        a_file_is_told_by_how_its_name_ends(list.last());
    }
}

/// The answers of a repository with a manifest and something staged: where its
/// root is, and that the root can be entered.
pub open spec fn surveyed(told: Seq<Told>, root: Seq<char>) -> bool {
    &&& told.len() >= 11
    &&& told[0] matches Reply::Bytes(Some(_))
    &&& told[1] == Told::Text(Some(root))
    &&& told[2] == Told::Flag(true)
    &&& told[3] == Told::Flag(true)
    &&& told[5] != Told::Flag(true)
}

/// A run that finds no repository, cannot enter it, finds no manifest at its root
/// or nothing staged ends there; it asks for each in turn.
pub proof fn a_run_ends_where_there_is_nothing_to_do(
    told: Seq<Told>,
    printed: Seq<u8>,
    a: Seq<char>,
    root: Seq<char>,
    b: Seq<char>,
)
    requires
        told.len() == 6,
        told[0] == Told::Bytes(Some(printed)),
        lossy(printed) == a + root + b,
        blank(a),
        blank(b),
        root.len() > 0,
        !white(root[0]),
        !white(root.last()),
        root.last() != '/',
    ensures
        hook_after(Seq::empty()).1 == Asked::Output(Tool::TopLevel),
        hook_after(seq![Told::Bytes(None)]).1 is Done,
        hook_after(told.take(1)).1 == Asked::Canonical(root),
        told[1] == Told::Text(None) || told[1] == Told::Text(Some(root)) ==> ({
            &&& hook_after(told.take(2)).1 == Asked::Enter(root)
            &&& told[2] != Told::Flag(true) ==> hook_after(told.take(3)).1 is Done
            &&& told[2] == Told::Flag(true) ==> {
                &&& hook_after(told.take(3)).1 == Asked::Exists(root + "/Cargo.toml"@)
                &&& told[3] != Told::Flag(true) ==> hook_after(told.take(4)).1 is Done
                &&& told[3] == Told::Flag(true) ==> {
                    &&& hook_after(told.take(4)).1 == Asked::Variable("GIT_INDEX_FILE"@)
                    &&& hook_after(told.take(5)).1 == Asked::Status(Tool::NothingStaged)
                    &&& told[5] == Told::Flag(true) ==> hook_after(told).1 is Done
                    &&& told[5] != Told::Flag(true) ==> hook_after(told).1 == Asked::Output(
                        Tool::ModifiedPaths,
                    )
                }
            }
        }),
{
    reveal_strlit("Cargo.toml");
    reveal_strlit("/Cargo.toml");
    trimming_takes_white_space_alone(a, root, b);
    a_relative_path_stands_behind_its_directory(root, "Cargo.toml"@);
    assert(root + seq!['/'] + "Cargo.toml"@ =~= root + "/Cargo.toml"@);
    let none = seq![Told::Bytes(None)];
    assert(none.drop_last() =~= Seq::empty());
    assert(hook_after(none) == hook_next(hook_start().0, none.last()));
    lemma_hook_prefix(told, 0);
    lemma_hook_prefix(told, 1);
    lemma_hook_prefix(told, 2);
    lemma_hook_prefix(told, 3);
    lemma_hook_prefix(told, 4);
    lemma_hook_prefix(told, 5);
    assert(told.take(6) =~= told);
}

proof fn lemma_hook_prefix(told: Seq<Told>, k: int)
    requires
        0 <= k < told.len(),
    ensures
        hook_after(told.take(k + 1)) == hook_next(hook_after(told.take(k)).0, told[k]),
        k == 0 ==> hook_after(told.take(k)) == hook_start(),
{
    assert(told.take(k + 1).drop_last() =~= told.take(k));
    assert(told.take(k + 1).last() == told[k]);
}

/// A run looks the commit up: it asks for the files with local edits, for the
/// tree's lock file, for the staged and the tree's manifest and for the staged
/// files, or for the whole index where there is no commit yet, and has the
/// tree's sources formatted for the edition of the tree's manifest.
pub proof fn a_run_looks_the_commit_up(told: Seq<Told>, root: Seq<char>)
    requires
        surveyed(told, root),
        root.len() > 0,
        root.last() != '/',
    ensures
        hook_after(told.take(6)).1 == Asked::Output(Tool::ModifiedPaths),
        hook_after(told.take(7)).1 == Asked::Read(root + "/Cargo.lock"@),
        hook_after(told.take(8)).1 == Asked::Output(Tool::Blob("Cargo.toml"@)),
        hook_after(told.take(9)).1 == Asked::ReadText(root + "/Cargo.toml"@),
        hook_after(told.take(10)).1 == Asked::Output(Tool::StagedPaths),
        ({
            let edition = edition_stated(manifest_lines(text_told(told[9])));
            let there = told[10] matches Reply::Bytes(Some(_));
            &&& there ==> hook_after(told.take(11)).1 == Asked::Output(Tool::TrackedRust)
            &&& there && told.len() >= 12 ==> hook_after(told.take(12)).1 == Asked::FormatTree(
                edition,
                tree_groups(paths_or_none(bytes_told(told[11]))),
            )
            &&& !there ==> hook_after(told.take(11)).1 == Asked::Output(Tool::IndexPaths)
            &&& !there && told.len() >= 12 ==> hook_after(told.take(12)).1 == Asked::Output(
                Tool::TrackedRust,
            )
            &&& !there && told.len() >= 13 ==> hook_after(told.take(13)).1 == Asked::FormatTree(
                edition,
                tree_groups(paths_or_none(bytes_told(told[12]))),
            )
        }),
{
    reveal_strlit("Cargo.toml");
    reveal_strlit("/Cargo.toml");
    reveal_strlit("Cargo.lock");
    reveal_strlit("/Cargo.lock");
    a_relative_path_stands_behind_its_directory(root, "Cargo.toml"@);
    assert(root + seq!['/'] + "Cargo.toml"@ =~= root + "/Cargo.toml"@);
    a_relative_path_stands_behind_its_directory(root, "Cargo.lock"@);
    assert(root + seq!['/'] + "Cargo.lock"@ =~= root + "/Cargo.lock"@);
    lemma_survey(told, root);
    lemma_hook_prefix(told, 6);
    lemma_hook_prefix(told, 7);
    lemma_hook_prefix(told, 8);
    lemma_hook_prefix(told, 9);
    lemma_hook_prefix(told, 10);
    if told.len() >= 12 {
        lemma_hook_prefix(told, 11);
    }
    if told.len() >= 13 {
        lemma_hook_prefix(told, 12);
    }
}

proof fn lemma_survey(told: Seq<Told>, root: Seq<char>)
    requires
        surveyed(told, root),
    ensures
        ({
            let (st, asked) = hook_after(told.take(6));
            &&& asked == Asked::Output(Tool::ModifiedPaths)
            &&& st == (HookState {
                root,
                partial: next_index(text_told(told[4])),
                phase: HookPhase::Wip,
                ..hook_fresh()
            })
        }),
{
    lemma_hook_prefix(told, 0);
    lemma_hook_prefix(told, 1);
    lemma_hook_prefix(told, 2);
    lemma_hook_prefix(told, 3);
    lemma_hook_prefix(told, 4);
    lemma_hook_prefix(told, 5);
}

/// What a run found out stays what it found out: from the time on that the commit
/// is looked up, the root, whether the commit is partial, the files with local
/// edits, the tree's lock file, the edition of the staged manifest and the
/// staged files are those of the answers; and the passes are given just these.
pub proof fn what_a_run_found_out_stays(told: Seq<Told>, root: Seq<char>)
    requires
        surveyed(told, root),
    ensures
        ({
            let now = hook_after(told).0;
            &&& now.root == root
            &&& now.partial == next_index(text_told(told[4]))
            &&& now.wip == paths_or_none(bytes_told(told[6]))
            &&& now.lock == bytes_told(told[7])
            &&& now.edition == edition_stated(manifest_lines(opt_decoded(bytes_told(told[8]))))
            &&& now.phase !is Index ==> now.staged == (if bytes_told(told[10]) is Some {
                paths_or_none(bytes_told(told[10]))
            } else {
                paths_or_none(bytes_told(told[11]))
            })
            &&& lint_of(now).root == root && lint_of(now).workspace == root
            &&& lint_of(now).partial == now.partial && lint_of(now).wip == now.wip
            &&& lint_of(now).staged == now.staged && lint_of(now).edition == now.edition
            &&& lint_of(now).todo.len() == 0 && lint_of(now).fixed.len() == 0
        }),
{
    lemma_found_out(told, root);
}

proof fn lemma_found_out(told: Seq<Told>, root: Seq<char>)
    requires
        surveyed(told, root),
    ensures
        ({
            let now = hook_after(told).0;
            &&& now.root == root
            &&& now.partial == next_index(text_told(told[4]))
            &&& now.wip == paths_or_none(bytes_told(told[6]))
            &&& now.lock == bytes_told(told[7])
            &&& now.edition == edition_staged(bytes_told(told[8]))
            &&& !before_staged(now.phase) || (now.phase is Index && told.len() == 11)
            &&& told.len() == 11 ==> (now.phase is Index <==> bytes_told(told[10]) is None)
            &&& now.phase !is Index ==> now.staged == (if bytes_told(told[10]) is Some {
                paths_or_none(bytes_told(told[10]))
            } else {
                paths_or_none(bytes_told(told[11]))
            })
        }),
    decreases told.len(),
{
    if told.len() == 11 {
        lemma_survey(told, root);
        lemma_hook_prefix(told, 6);
        lemma_hook_prefix(told, 7);
        lemma_hook_prefix(told, 8);
        lemma_hook_prefix(told, 9);
        lemma_hook_prefix(told, 10);
        assert(told.take(11) =~= told);
    } else {
        let before = told.drop_last();
        lemma_found_out(before, root);
        assert(before[4] == told[4] && before[6] == told[6] && before[7] == told[7] && before[8]
            == told[8] && before[10] == told[10]);
        if told.len() > 12 {
            assert(before[11] == told[11]);
        }
    }
}

/// The warnings of a run name what they are about: a source that cannot be
/// formatted, and a lock file that a partial commit leaves as it is.
pub proof fn the_warnings_of_a_run(told: Seq<Told>, message: Seq<char>)
    requires
        hook_after(told).1 == Asked::Warn(message),
    ensures
        ({
            let now = hook_after(told).0;
            ||| 0 <= now.next < now.queue.len() && message == "could not format staged "@
                + now.queue[now.next] + " (CI will fail)"@
            ||| now.partial && message
                == "partial commit changes Cargo.toml without Cargo.lock; lock not freshened (CI may fail)"@
        }),
{
    if told.len() > 0 {
        lemma_hook_fits(told.drop_last());
        assert(hook_fits(told.drop_last()));
    }
}

/// The sources whose staging the run itself asked for and that were staged, in
/// order.
pub open spec fn formatted_in(told: Seq<Told>) -> Seq<Seq<char>>
    decreases told.len(),
{
    if told.len() == 0 {
        Seq::empty()
    } else {
        let before = told.drop_last();
        match hook_after(before).1 {
            Action::Stage(path, _) => if told.last() == Told::Flag(true) {
                formatted_in(before).push(path)
            } else {
                formatted_in(before)
            },
            _ => formatted_in(before),
        }
    }
}

proof fn lemma_formatted_in(told: Seq<Told>)
    ensures
        hook_after(told).0.fixed == formatted_in(told),
    decreases told.len(),
{
    if told.len() > 0 {
        let before = told.drop_last();
        lemma_formatted_in(before);
        lemma_hook_fits(before);
        assert(hook_fits(before));
    }
}

/// The report of a run names what was formatted: exactly the files whose staging
/// succeeded, in order; and with any there is a report before a pass is begun.
pub proof fn a_run_reports_what_it_formatted(told: Seq<Told>, note: Seq<char>)
    ensures
        hook_after(told).1 == Asked::Note(note) ==> note == "rustfmt fixed "@ + joined(
            formatted_in(told),
            " "@,
        ),
        told.len() > 0 && hook_after(told).1 is Lint && formatted_in(told).len() > 0
            ==> hook_after(told.drop_last()).1 is Note,
{
    lemma_formatted_in(told);
    if told.len() > 0 {
        let before = told.drop_last();
        lemma_hook_fits(before);
        assert(hook_fits(before));
        lemma_formatted_in(before);
        if hook_after(before).0.phase is Summing {
            lemma_summing(before);
        }
    }
}

proof fn lemma_summing(told: Seq<Told>)
    ensures
        hook_after(told).0.phase is Summing ==> hook_after(told).1 is Note,
{
}

/// Whether the tree was formatted in the course of a run.
pub open spec fn tree_formatted(told: Seq<Told>) -> bool {
    exists|k: int| 0 <= k <= told.len() && (#[trigger] hook_after(told.take(k))).1 is FormatTree
}

/// Whether it was asked in the course of a run what may ride along.
pub open spec fn riders_asked(told: Seq<Told>) -> bool {
    exists|k: int|
        0 <= k <= told.len() && (#[trigger] hook_after(told.take(k))).1 == Asked::Output(
            Tool::ModifiedRust,
        )
}

proof fn lemma_trace_step(told: Seq<Told>)
    requires
        told.len() > 0,
    ensures
        tree_formatted(told) <==> tree_formatted(told.drop_last()) || hook_after(told).1
            is FormatTree,
        riders_asked(told) <==> riders_asked(told.drop_last()) || hook_after(told).1
            == Asked::Output(Tool::ModifiedRust),
{
    let before = told.drop_last();
    let n = told.len() as int;
    assert(told.take(n) =~= told);
    assert forall|k: int| 0 <= k < n implies #[trigger] told.take(k) == before.take(k) by {
        assert(told.take(k) =~= before.take(k));
    }
    if tree_formatted(told) {
        let k = choose|k: int| 0 <= k <= n && (#[trigger] hook_after(told.take(k))).1 is FormatTree;
        if k < n {
            assert(hook_after(before.take(k)).1 is FormatTree);
        }
    }
    if tree_formatted(before) {
        let k = choose|k: int|
            0 <= k <= before.len() && (#[trigger] hook_after(before.take(k))).1 is FormatTree;
        assert(told.take(k) == before.take(k));
        assert(hook_after(told.take(k)).1 is FormatTree);
    }
    if riders_asked(told) {
        let k = choose|k: int|
            0 <= k <= n && (#[trigger] hook_after(told.take(k))).1 == Asked::Output(
                Tool::ModifiedRust,
            );
        if k < n {
            assert(hook_after(before.take(k)).1 == Asked::Output(Tool::ModifiedRust));
        }
    }
    if riders_asked(before) {
        let k = choose|k: int|
            0 <= k <= before.len() && (#[trigger] hook_after(before.take(k))).1 == Asked::Output(
                Tool::ModifiedRust,
            );
        assert(told.take(k) == before.take(k));
        assert(hook_after(told.take(k)).1 == Asked::Output(Tool::ModifiedRust));
    }
}

proof fn lemma_riding(told: Seq<Told>)
    ensures
        ({
            let now = hook_after(told).0;
            &&& before_staged(now.phase) || now.phase is Listing ==> !tree_formatted(told)
            &&& on_bystander(now.phase) || now.phase is Riding ==> riders_asked(told)
            &&& past_riding(now.phase) && tree_formatted(told) && !now.partial ==> riders_asked(
                told,
            )
            &&& now.partial && (on_staged(now.phase) || now.phase is Tree || past_riding(now.phase))
                ==> !riders_asked(told)
            &&& before_staged(now.phase) || now.phase is Listing || now.phase is Tree || on_staged(
                now.phase,
            ) ==> !riders_asked(told)
        }),
    decreases told.len(),
{
    if told.len() == 0 {
        assert(told.take(0) =~= told);
        assert(hook_after(told) == hook_start());
    } else {
        let before = told.drop_last();
        lemma_riding(before);
        lemma_trace_step(told);
        lemma_hook_fits(before);
        assert(hook_fits(before));
        lemma_along_bystanders(hook_after(before).0, told.last());
    }
}

/// In a whole commit formatting rides along: a run that has had the tree
/// formatted asks what may ride along before it goes on to the passes, or ends.
/// In a partial commit it never asks.
pub proof fn formatting_rides_along_with_a_whole_commit(told: Seq<Told>)
    requires
        past_riding(hook_after(told).0.phase),
    ensures
        tree_formatted(told) && !hook_after(told).0.partial ==> riders_asked(told),
        hook_after(told).0.partial ==> !riders_asked(told),
{
    lemma_riding(told);
}

/// What was formatted is reported before anything else follows: a run that has
/// staged formatted files comes to the passes, or to its end, by way of a report.
pub proof fn a_report_comes_before_the_passes(told: Seq<Told>)
    requires
        told.len() > 0,
        past_riding(hook_after(told).0.phase),
        !past_riding(hook_after(told.drop_last()).0.phase),
        formatted_in(told).len() > 0,
    ensures
        hook_after(told).1 is Note,
{
    let before = told.drop_last();
    lemma_formatted_in(told);
    lemma_formatted_in(before);
    lemma_fixed_late(before);
    lemma_hook_fits(before);
    assert(hook_fits(before));
}

proof fn lemma_fixed_late(told: Seq<Told>)
    ensures
        before_staged(hook_after(told).0.phase) || hook_after(told).0.phase is Listing || hook_after(
            told,
        ).0.phase is Tree ==> hook_after(told).0.fixed.len() == 0,
    decreases told.len(),
{
    if told.len() > 0 {
        lemma_fixed_late(told.drop_last());
    }
}

} // verus!
