//! The lint pass: clippy in diagnostic mode, and its machine-applicable fixes.
//!
//! Fixes sweep the whole crate: auto-fixable means safe to apply everywhere.
//! Suggestions carry byte offsets into the compiled source, so they are applied
//! to an indexed blob only while the working copy still equals it.
use vstd::prelude::*;
use vstd::utf8::encode_utf8;

use crate::action::{
    bytes_told, flag_told, run_told, text_told, Action, Answer, Asked, Reply, Request, Told,
};
use crate::command::Tool;
use crate::diagnostic::{diags_in, read_diagnostics};
use crate::digest::{
    broken, group_fixes, group_views, grouped, is_broken, located, unfixables, unfixables_of,
};
use crate::digest::{FileFixes, Group};
use crate::list::{ascending, ascending_lists_with_the_same_members_are_equal, lemma_ordered};
use crate::list::{decimal, decimal_of, join, joined, lines, ordered, ordered_of, same_members};
use crate::path::{a_path_is_its_directory_and_its_name, dot_last, parent, parent_of};
use crate::suggest::{applied, apply};
use crate::text::{clone_bytes, contains, decode, decode_lossy, decoded, lossy, opt_bytes, opt_text};
use crate::text::{blank, same_bytes, texts, trim, trimmed, trimming_takes_white_space_alone, white};

verus! {

/// How many lints a report shows.
pub const SHOWN: usize = 10;

/// How far the lint pass has come, over the kind of bytes in it.
#[derive(Debug)]
pub enum LintPhase<B> {
    /// The enclosing workspace is being located.
    Locating,
    /// The directory of the workspace is being resolved.
    Resolving,
    /// Clippy is running.
    Linting,
    /// The lints without an automatic fix are being reported.
    Reporting,
    /// A warning about a file that is passed over is being printed.
    Skipping,
    /// The indexed blob of a file is being read.
    Blobbing,
    /// The working copy of a file is being read; its blob.
    Reading(B),
    /// The fixed source is being formatted; the blob and the fixed source.
    Formatting(B, B),
    /// The fixed file is being written; its bytes.
    Writing(B),
    /// The fixed file is being staged.
    Staging,
    /// The report of what was fixed is being printed.
    Summing,
    /// Nothing is left to do.
    Finished,
}

/// The lint pass of a hook run.
#[derive(Debug)]
pub struct LintPass {
    root: String,
    partial: bool,
    wip: Vec<String>,
    staged: Vec<String>,
    edition: String,
    workspace: String,
    todo: Vec<FileFixes>,
    next: usize,
    fixed: Vec<String>,
    phase: LintPhase<Vec<u8>>,
}

/// The lint pass, as contracts speak of it.
#[verifier::ext_equal]
pub struct LintState {
    /// The root of the repository.
    pub root: Seq<char>,
    /// Whether only a part of the index is committed.
    pub partial: bool,
    /// The files whose working copy differed from the index when the run began.
    pub wip: Seq<Seq<char>>,
    /// The files that the commit stages.
    pub staged: Seq<Seq<char>>,
    /// The edition that sources are formatted for.
    pub edition: Seq<char>,
    /// The root of the enclosing workspace.
    pub workspace: Seq<char>,
    /// The files that get a fix, with their suggestions.
    pub todo: Seq<Group>,
    /// The file that is being fixed.
    pub next: int,
    /// The files that were fixed.
    pub fixed: Seq<Seq<char>>,
    /// How far the pass has come.
    pub phase: LintPhase<Seq<u8>>,
}

impl View for LintPass {
    type V = LintState;

    closed spec fn view(&self) -> LintState {
        LintState {
            root: self.root@,
            partial: self.partial,
            wip: texts(self.wip@),
            staged: texts(self.staged@),
            edition: self.edition@,
            workspace: self.workspace@,
            todo: group_views(self.todo@),
            next: self.next as int,
            fixed: texts(self.fixed@),
            phase: match self.phase {
                LintPhase::Locating => LintPhase::Locating,
                LintPhase::Resolving => LintPhase::Resolving,
                LintPhase::Linting => LintPhase::Linting,
                LintPhase::Reporting => LintPhase::Reporting,
                LintPhase::Skipping => LintPhase::Skipping,
                LintPhase::Blobbing => LintPhase::Blobbing,
                LintPhase::Reading(blob) => LintPhase::Reading(blob@),
                LintPhase::Formatting(blob, fixed) => LintPhase::Formatting(blob@, fixed@),
                LintPhase::Writing(bytes) => LintPhase::Writing(bytes@),
                LintPhase::Staging => LintPhase::Staging,
                LintPhase::Summing => LintPhase::Summing,
                LintPhase::Finished => LintPhase::Finished,
            },
        }
    }
}

/// Whether a phase is about one file.
pub open spec fn on_file(phase: LintPhase<Seq<u8>>) -> bool {
    match phase {
        LintPhase::Skipping => true,
        LintPhase::Blobbing => true,
        LintPhase::Reading(_) => true,
        LintPhase::Formatting(_, _) => true,
        LintPhase::Writing(_) => true,
        LintPhase::Staging => true,
        _ => false,
    }
}

/// A phase about a file has a file.
pub open spec fn lint_valid(st: LintState) -> bool {
    &&& 0 <= st.next <= st.todo.len()
    &&& on_file(st.phase) ==> st.next < st.todo.len()
}

/// The file that the pass is about.
pub open spec fn lint_file(st: LintState) -> Seq<char> {
    st.todo[st.next].file
}

/// The file that the fixes of a pass may go to: a file of the commit, and in a
/// whole commit any file that nobody was editing.
pub open spec fn attended(
    partial: bool,
    wip: Seq<Seq<char>>,
    staged: Seq<Seq<char>>,
    file: Seq<char>,
) -> bool {
    staged.contains(file) || (!partial && !wip.contains(file))
}

/// The groups whose file the fixes may go to, in order.
pub open spec fn attended_in(
    list: Seq<Group>,
    partial: bool,
    wip: Seq<Seq<char>>,
    staged: Seq<Seq<char>>,
) -> Seq<Group>
    decreases list.len(),
{
    if list.len() == 0 {
        Seq::empty()
    } else if attended(partial, wip, staged, list.last().file) {
        attended_in(list.drop_last(), partial, wip, staged).push(list.last())
    } else {
        attended_in(list.drop_last(), partial, wip, staged)
    }
}

/// The report of the lints without an automatic fix: each once, in ascending
/// order, the first few of them and how many more there are.
pub open spec fn lint_report(list: Seq<Seq<char>>) -> Seq<char> {
    let all = ordered(list);
    if all.len() > SHOWN {
        "clippy: "@ + joined(all.take(SHOWN as int), ", "@) + (" (+"@ + decimal(
            (all.len() - SHOWN) as nat,
        ) + " more)"@)
    } else {
        "clippy: "@ + joined(all, ", "@)
    }
}

/// The warning that a file with local edits is passed over.
pub open spec fn local_edits(file: Seq<char>) -> Seq<char> {
    "clippy fix for "@ + file + " skipped: file has local edits"@
}

/// The warning that the suggestions for a file contradict each other.
pub open spec fn not_clean(file: Seq<char>) -> Seq<char> {
    "clippy fix for "@ + file + " did not apply cleanly; skipped"@
}

/// The warning that a fixed file cannot be written.
pub open spec fn not_written(file: Seq<char>) -> Seq<char> {
    "clippy fix for "@ + file + " could not be written; skipped"@
}

/// The fixes that the output of clippy asks for: its machine-applicable
/// suggestions, gathered by the file of the repository that they are for, as far
/// as they may go there.
pub open spec fn fixes_in(
    output: Seq<u8>,
    root: Seq<char>,
    workspace: Seq<char>,
    partial: bool,
    wip: Seq<Seq<char>>,
    staged: Seq<Seq<char>>,
) -> Seq<Group> {
    attended_in(
        grouped(located(diags_in(lines(lossy(output))), root, workspace)),
        partial,
        wip,
        staged,
    )
}

/// The first request of a lint pass.
pub open spec fn lint_start(st: LintState) -> (LintState, Asked) {
    (LintState { phase: LintPhase::Locating, ..st }, Action::Output(Tool::LocateProject))
}

/// The end of the pass: a report of what was fixed.
pub open spec fn lint_sum(st: LintState) -> (LintState, Asked) {
    if st.fixed.len() > 0 {
        (
            LintState { phase: LintPhase::Summing, ..st },
            Action::Note("clippy fixed "@ + joined(st.fixed, " "@)),
        )
    } else {
        (LintState { phase: LintPhase::Finished, ..st }, Action::Done)
    }
}

/// The next file of the pass. Only a file of the commit itself is warned about
/// when it has local edits: a busy tree always has someone's work somewhere.
pub open spec fn lint_begin(st: LintState) -> (LintState, Asked) {
    if st.next >= st.todo.len() {
        lint_sum(st)
    } else if st.wip.contains(lint_file(st)) {
        (
            LintState { phase: LintPhase::Skipping, ..st },
            Action::Warn(local_edits(lint_file(st))),
        )
    } else {
        (
            LintState { phase: LintPhase::Blobbing, ..st },
            Action::Output(Tool::Blob(lint_file(st))),
        )
    }
}

/// The pass goes on to the file behind the present one.
pub open spec fn lint_skip(st: LintState) -> (LintState, Asked) {
    lint_begin(LintState { next: st.next + 1, ..st })
}

/// Clippy starts, with the root of the workspace known.
pub open spec fn lint_run(st: LintState, workspace: Seq<char>) -> (LintState, Asked) {
    (
        LintState { workspace, phase: LintPhase::Linting, ..st },
        Action::Run(Tool::Clippy),
    )
}

/// The directory of the workspace manifest that `cargo` printed.
pub open spec fn manifest_dir(output: Option<Seq<u8>>) -> Option<Seq<char>> {
    match output {
        Some(bytes) => parent(trim(lossy(bytes))),
        None => None,
    }
}

/// What follows from the output of clippy. A tree that does not compile is the
/// editing session's concern, and ends the pass without a word.
pub open spec fn lint_digest(st: LintState, success: bool, output: Seq<u8>) -> (LintState, Asked) {
    let list = diags_in(lines(lossy(output)));
    let reports = unfixables(list, st.root, st.workspace, st.staged);
    let todo = fixes_in(output, st.root, st.workspace, st.partial, st.wip, st.staged);
    let ready = LintState { todo, next: 0, ..st };
    if broken(list, success) {
        (LintState { phase: LintPhase::Finished, ..st }, Action::Done)
    } else if reports.len() > 0 {
        (
            LintState { phase: LintPhase::Reporting, ..ready },
            Action::Warn(lint_report(reports)),
        )
    } else {
        lint_begin(ready)
    }
}

/// What follows from the working copy of a file whose blob is known.
pub open spec fn lint_compare(st: LintState, blob: Seq<u8>, found: Option<Seq<u8>>) -> (
    LintState,
    Asked,
) {
    if found != Some(blob) {
        if st.staged.contains(lint_file(st)) {
            (
                LintState { phase: LintPhase::Skipping, ..st },
                Action::Warn(local_edits(lint_file(st))),
            )
        } else {
            lint_skip(st)
        }
    } else {
        match decoded(blob) {
            Some(code) => lint_fixed(st, blob, applied(code, st.todo[st.next].fixes)),
            None => lint_skip(st),
        }
    }
}

/// What is asked for next with what the suggestions made of a file: it is
/// formatted, or there is a warning that they do not fit.
pub open spec fn fix_request(
    edition: Seq<char>,
    file: Seq<char>,
    fixed: Option<Seq<char>>,
) -> Asked {
    match fixed {
        Some(text) => Action::Feed(Tool::Rustfmt(edition), encode_utf8(text)),
        None => Action::Warn(not_clean(file)),
    }
}

/// What follows from what the suggestions made of a blob.
pub open spec fn lint_fixed(st: LintState, blob: Seq<u8>, fixed: Option<Seq<char>>) -> (
    LintState,
    Asked,
) {
    let phase = match fixed {
        Some(text) => LintPhase::Formatting(blob, encode_utf8(text)),
        None => LintPhase::Skipping,
    };
    (LintState { phase, ..st }, fix_request(st.edition, lint_file(st), fixed))
}

/// The bytes of a fixed file: formatted, where the formatter accepts them.
pub open spec fn lint_result(formatted: Option<Seq<u8>>, fixed: Seq<u8>) -> Seq<u8> {
    match formatted {
        Some(bytes) => bytes,
        None => fixed,
    }
}

/// The next request of a lint pass, after an answer.
pub open spec fn lint_next(st: LintState, told: Told) -> (LintState, Asked) {
    match st.phase {
        LintPhase::Locating => match manifest_dir(bytes_told(told)) {
            Some(dir) => (
                LintState { phase: LintPhase::Resolving, ..st },
                Action::Canonical(dir),
            ),
            None => lint_run(st, st.root),
        },
        LintPhase::Resolving => match text_told(told) {
            Some(dir) => lint_run(st, dir),
            None => lint_run(st, st.root),
        },
        LintPhase::Linting => match run_told(told) {
            Some((success, output)) => lint_digest(st, success, output),
            None => (LintState { phase: LintPhase::Finished, ..st }, Action::Done),
        },
        LintPhase::Reporting => lint_begin(st),
        LintPhase::Skipping => lint_skip(st),
        LintPhase::Blobbing => match bytes_told(told) {
            Some(blob) => (
                LintState { phase: LintPhase::Reading(blob), ..st },
                Action::Read(lint_file(st)),
            ),
            None => lint_skip(st),
        },
        LintPhase::Reading(blob) => lint_compare(st, blob, bytes_told(told)),
        LintPhase::Formatting(blob, fixed) => {
            let bytes = lint_result(bytes_told(told), fixed);
            if bytes == blob {
                lint_skip(st)
            } else {
                (
                    LintState { phase: LintPhase::Writing(bytes), ..st },
                    Action::Write(lint_file(st), bytes),
                )
            }
        },
        LintPhase::Writing(bytes) => if flag_told(told) {
            (
                LintState { phase: LintPhase::Staging, ..st },
                Action::Stage(lint_file(st), bytes),
            )
        } else {
            (
                LintState { phase: LintPhase::Skipping, ..st },
                Action::Warn(not_written(lint_file(st))),
            )
        },
        LintPhase::Staging => if flag_told(told) {
            lint_skip(LintState { fixed: st.fixed.push(lint_file(st)), ..st })
        } else {
            lint_skip(st)
        },
        LintPhase::Summing => (LintState { phase: LintPhase::Finished, ..st }, Action::Done),
        LintPhase::Finished => (st, Action::Done),
    }
}

/// Keeps the groups whose file the fixes may go to.
fn keep_attended(
    list: Vec<FileFixes>,
    partial: bool,
    wip: &Vec<String>,
    staged: &Vec<String>,
) -> (r: Vec<FileFixes>)
    ensures
        group_views(r@) == attended_in(group_views(list@), partial, texts(wip@), texts(staged@)),
{
    let ghost all = group_views(list@);
    let mut r: Vec<FileFixes> = Vec::new();
    assert(all.take(0) =~= Seq::empty());
    assert(group_views(r@) =~= Seq::empty());
    for g in it: list
        invariant
            all == group_views(list@),
            it.seq() == list@,
            group_views(r@) == attended_in(
                all.take(it.index() as int),
                partial,
                texts(wip@),
                texts(staged@),
            ),
    {
        let ghost i = it.index() as int;
        let ghost before = r@;
        assert(all.take(i + 1).drop_last() =~= all.take(i));
        assert(all.take(i + 1).last() == g@);
        if contains(staged, g.file.as_str()) || (!partial && !contains(wip, g.file.as_str())) {
            r.push(g);
            assert(group_views(r@) =~= group_views(before).push(g@));
        }
    }
    assert(all.take(all.len() as int) =~= all);
    r
}

/// Writes the report of the lints without an automatic fix.
pub fn lint_report_of(list: &Vec<String>) -> (r: String)
    ensures
        r@ == lint_report(texts(list@)),
{
    let all = ordered_of(list);
    let mut r = "clippy: ".to_owned();
    if all.len() > SHOWN {
        let more: usize = all.len() - SHOWN;
        let mut shown: Vec<String> = Vec::new();
        let mut i: usize = 0;
        while i < SHOWN
            invariant
                i <= SHOWN < all@.len(),
                texts(shown@) == texts(all@).take(i as int),
            decreases SHOWN - i,
        {
            let ghost before = shown@;
            shown.push(all[i].clone());
            i = i + 1;
            assert(texts(shown@) =~= texts(before).push(all@[i - 1]@));
            assert(texts(all@).take(i as int) =~= texts(all@).take(i - 1).push(all@[i - 1]@));
        }
        r.append(join(&shown, ", ").as_str());
        let mut suffix = " (+".to_owned();
        suffix.append(decimal_of(more as u64).as_str());
        suffix.append(" more)");
        r.append(suffix.as_str());
    } else {
        r.append(join(&all, ", ").as_str());
    }
    r
}

/// Asks for what comes next with what the suggestions made of a file.
pub fn fix_request_of(edition: &str, file: &str, fixed: &Option<String>) -> (r: Request)
    ensures
        r@ == fix_request(edition@, file@, opt_text(*fixed)),
{
    match fixed {
        Some(text) => Action::Feed(
            Tool::Rustfmt(edition.to_owned()),
            text.as_str().as_bytes_vec(),
        ),
        None => {
            let mut message = "clippy fix for ".to_owned();
            message.append(file);
            message.append(" did not apply cleanly; skipped");
            Action::Warn(message)
        },
    }
}

impl LintPass {
    /// A phase about a file has a file.
    pub open spec fn valid(self) -> bool {
        lint_valid(self@)
    }

    /// Begins a lint pass for the commit of a repository.
    pub fn start(
        root: String,
        partial: bool,
        wip: Vec<String>,
        staged: Vec<String>,
        edition: String,
    ) -> (r: (LintPass, Request))
        ensures
            r.0.valid(),
            (r.0@, r.1@) == lint_start(
                LintState {
                    root: root@,
                    partial,
                    wip: texts(wip@),
                    staged: texts(staged@),
                    edition: edition@,
                    workspace: root@,
                    todo: Seq::empty(),
                    next: 0,
                    fixed: Seq::empty(),
                    phase: LintPhase::Locating,
                },
            ),
    {
        let workspace = root.clone();
        let pass = LintPass {
            root,
            partial,
            wip,
            staged,
            edition,
            workspace,
            todo: Vec::new(),
            next: 0,
            fixed: Vec::new(),
            phase: LintPhase::Locating,
        };
        assert(pass@.todo =~= Seq::empty());
        assert(pass@.fixed =~= Seq::empty());
        (pass, Action::Output(Tool::LocateProject))
    }

    fn file(&self) -> (r: String)
        requires
            self@.next < self@.todo.len(),
        ensures
            r@ == lint_file(self@),
    {
        self.todo[self.next].file.clone()
    }

    fn sum(&mut self) -> (r: Request)
        requires
            old(self)@.next <= old(self)@.todo.len(),
        ensures
            (final(self)@, r@) == lint_sum(old(self)@),
            final(self).valid(),
    {
        if self.fixed.len() > 0 {
            let mut message = "clippy fixed ".to_owned();
            message.append(join(&self.fixed, " ").as_str());
            self.phase = LintPhase::Summing;
            Action::Note(message)
        } else {
            self.phase = LintPhase::Finished;
            Action::Done
        }
    }

    fn warn_edits(&mut self) -> (r: Request)
        requires
            old(self)@.next < old(self)@.todo.len(),
        ensures
            final(self)@ == (LintState { phase: LintPhase::Skipping, ..old(self)@ }),
            r@ == Asked::Warn(local_edits(lint_file(old(self)@))),
    {
        let mut message = "clippy fix for ".to_owned();
        message.append(self.file().as_str());
        message.append(" skipped: file has local edits");
        self.phase = LintPhase::Skipping;
        Action::Warn(message)
    }

    fn begin(&mut self) -> (r: Request)
        requires
            old(self)@.next <= old(self)@.todo.len(),
        ensures
            (final(self)@, r@) == lint_begin(old(self)@),
            final(self).valid(),
    {
        if self.next >= self.todo.len() {
            self.sum()
        } else if contains(&self.wip, self.file().as_str()) {
            self.warn_edits()
        } else {
            let file = self.file();
            self.phase = LintPhase::Blobbing;
            Action::Output(Tool::Blob(file))
        }
    }

    fn skip(&mut self) -> (r: Request)
        requires
            old(self)@.next < old(self)@.todo.len(),
        ensures
            (final(self)@, r@) == lint_skip(old(self)@),
            final(self).valid(),
    {
        if self.next < self.todo.len() {
            self.next = self.next + 1;
        }
        self.begin()
    }

    fn run(&mut self, workspace: String) -> (r: Request)
        requires
            old(self)@.next <= old(self)@.todo.len(),
        ensures
            (final(self)@, r@) == lint_run(old(self)@, workspace@),
            final(self).valid(),
    {
        self.workspace = workspace;
        self.phase = LintPhase::Linting;
        Action::Run(Tool::Clippy)
    }

    fn digest(&mut self, success: bool, output: Vec<u8>) -> (r: Request)
        requires
            old(self)@.next <= old(self)@.todo.len(),
        ensures
            (final(self)@, r@) == lint_digest(old(self)@, success, output@),
            final(self).valid(),
    {
        let list = read_diagnostics(&output);
        if is_broken(&list, success) {
            self.phase = LintPhase::Finished;
            return Action::Done;
        }
        let reports = unfixables_of(
            &list,
            self.root.as_str(),
            self.workspace.as_str(),
            &self.staged,
        );
        let files = group_fixes(list, self.root.as_str(), self.workspace.as_str());
        self.todo = keep_attended(files, self.partial, &self.wip, &self.staged);
        self.next = 0;
        if reports.len() > 0 {
            self.phase = LintPhase::Reporting;
            Action::Warn(lint_report_of(&reports))
        } else {
            self.begin()
        }
    }

    fn compare(&mut self, blob: Vec<u8>, found: Option<Vec<u8>>) -> (r: Request)
        requires
            old(self)@.next < old(self)@.todo.len(),
        ensures
            (final(self)@, r@) == lint_compare(old(self)@, blob@, opt_bytes(found)),
            final(self).valid(),
    {
        let unchanged = match &found {
            Some(bytes) => same_bytes(bytes, &blob),
            None => false,
        };
        if !unchanged {
            if contains(&self.staged, self.file().as_str()) {
                return self.warn_edits();
            } else {
                return self.skip();
            }
        }
        match decode(clone_bytes(&blob)) {
            Some(code) => {
                let fixed = apply(code.as_str(), &self.todo[self.next].fixes);
                self.take_fixed(blob, fixed)
            },
            None => self.skip(),
        }
    }

    fn take_fixed(&mut self, blob: Vec<u8>, fixed: Option<String>) -> (r: Request)
        requires
            old(self)@.next < old(self)@.todo.len(),
        ensures
            (final(self)@, r@) == lint_fixed(old(self)@, blob@, opt_text(fixed)),
            final(self).valid(),
    {
        let request = fix_request_of(self.edition.as_str(), self.file().as_str(), &fixed);
        self.phase = match fixed {
            Some(text) => LintPhase::Formatting(blob, text.as_str().as_bytes_vec()),
            None => LintPhase::Skipping,
        };
        request
    }

    /// Takes an answer and makes the next request.
    pub fn step(&mut self, answer: Answer) -> (r: Request)
        requires
            old(self).valid(),
        ensures
            (final(self)@, r@) == lint_next(old(self)@, answer@),
            final(self).valid(),
    {
        let mut phase = LintPhase::Finished;
        std::mem::swap(&mut self.phase, &mut phase);
        match phase {
            LintPhase::Locating => {
                let dir = match answer.bytes() {
                    Some(bytes) => {
                        let text = decode_lossy(&bytes);
                        parent_of(trimmed(text.as_str()).as_str())
                    },
                    None => None,
                };
                match dir {
                    Some(dir) => {
                        self.phase = LintPhase::Resolving;
                        Action::Canonical(dir)
                    },
                    None => {
                        let root = self.root.clone();
                        self.run(root)
                    },
                }
            },
            LintPhase::Resolving => match answer.text() {
                Some(dir) => self.run(dir),
                None => {
                    let root = self.root.clone();
                    self.run(root)
                },
            },
            LintPhase::Linting => match answer.run() {
                Some((success, output)) => self.digest(success, output),
                None => Action::Done,
            },
            LintPhase::Reporting => self.begin(),
            LintPhase::Skipping => self.skip(),
            LintPhase::Blobbing => match answer.bytes() {
                Some(blob) => {
                    self.phase = LintPhase::Reading(blob);
                    Action::Read(self.file())
                },
                None => self.skip(),
            },
            LintPhase::Reading(blob) => self.compare(blob, answer.bytes()),
            LintPhase::Formatting(blob, fixed) => {
                let bytes = match answer.bytes() {
                    Some(bytes) => bytes,
                    None => fixed,
                };
                if same_bytes(&bytes, &blob) {
                    self.skip()
                } else {
                    let out = clone_bytes(&bytes);
                    self.phase = LintPhase::Writing(bytes);
                    Action::Write(self.file(), out)
                }
            },
            LintPhase::Writing(bytes) => if answer.flag() {
                self.phase = LintPhase::Staging;
                Action::Stage(self.file(), bytes)
            } else {
                let mut message = "clippy fix for ".to_owned();
                message.append(self.file().as_str());
                message.append(" could not be written; skipped");
                self.phase = LintPhase::Skipping;
                Action::Warn(message)
            },
            LintPhase::Staging => {
                if answer.flag() {
                    let file = self.file();
                    let ghost before = self.fixed@;
                    self.fixed.push(file);
                    assert(texts(self.fixed@) =~= texts(before).push(file@));
                }
                self.skip()
            },
            LintPhase::Summing => Action::Done,
            LintPhase::Finished => Action::Done,
        }
    }
}

/// A lint pass after a number of answers.
pub open spec fn lint_after(st: LintState, told: Seq<Told>) -> (LintState, Asked)
    decreases told.len(),
{
    if told.len() == 0 {
        lint_start(st)
    } else {
        lint_next(lint_after(st, told.drop_last()).0, told.last())
    }
}

/// The state that a lint pass starts from.
pub open spec fn lint_fresh(st: LintState) -> bool {
    st.todo.len() == 0 && st.next == 0
}

/// Fixes are what clippy suggested in the course of a lint pass, for a tree that
/// compiles.
pub open spec fn suggested_by_clippy(
    st: LintState,
    told: Seq<Told>,
    workspace: Seq<char>,
    todo: Seq<Group>,
) -> bool {
    exists|k: int|
        {
            &&& 0 <= k < told.len()
            &&& (#[trigger] lint_after(st, told.take(k))).1 == Asked::Run(Tool::Clippy)
            &&& run_told(told[k]) matches Some((success, output)) && {
                &&& !broken(diags_in(lines(lossy(output))), success)
                &&& todo == fixes_in(
                    output,
                    st.root,
                    workspace,
                    st.partial,
                    st.wip,
                    st.staged,
                )
            }
        }
}

/// What is known of a lint pass after its answers: what it started from, and
/// which files it is for.
spec fn lint_aimed(st: LintState, told: Seq<Told>) -> bool {
    let (now, asked) = lint_after(st, told);
    &&& lint_valid(now)
    &&& now.root == st.root && now.partial == st.partial && now.wip == st.wip && now.staged
        == st.staged && now.edition == st.edition
    &&& forall|i: int|
        0 <= i < now.todo.len() ==> attended(
            st.partial,
            st.wip,
            st.staged,
            (#[trigger] now.todo[i]).file,
        )
    &&& (now.phase is Finished <==> asked is Done)
    &&& now.phase is Linting ==> asked == Asked::Run(Tool::Clippy)
    &&& now.todo.len() > 0 ==> suggested_by_clippy(st, told, now.workspace, now.todo)
    &&& now.todo.len() > 0 ==> now.phase !is Locating && now.phase !is Resolving && now.phase
        !is Linting
    &&& on_file(now.phase) && now.phase !is Skipping ==> !st.wip.contains(lint_file(now))
}

/// What is known of a lint pass after its answers: where the bytes that it holds
/// came from.
spec fn lint_fits(st: LintState, told: Seq<Told>) -> bool {
    let (now, asked) = lint_after(st, told);
    let n = told.len() as int;
    let file = lint_file(now);
    let was = |k: int| lint_after(st, told.take(n - k)).1;
    let heard = |k: int| bytes_told(told[n - k]);
    let group = now.todo[now.next];
    match now.phase {
        LintPhase::Blobbing => asked == Asked::Output(Tool::Blob(file)),
        LintPhase::Reading(blob) => {
            &&& n >= 1 && asked == Asked::Read(file)
            &&& was(1) == Asked::Output(Tool::Blob(file)) && heard(1) == Some(blob)
        },
        LintPhase::Formatting(blob, fixed) => {
            &&& n >= 2 && asked == Asked::Feed(Tool::Rustfmt(st.edition), fixed)
            &&& was(1) == Asked::Read(file) && heard(1) == Some(blob)
            &&& was(2) == Asked::Output(Tool::Blob(file)) && heard(2) == Some(blob)
            &&& fixed_from(blob, group, fixed)
        },
        LintPhase::Writing(bytes) => {
            &&& n >= 3 && asked == Asked::Write(file, bytes)
            &&& exists|blob: Seq<u8>, fixed: Seq<u8>|
                {
                    &&& was(1) == Asked::Feed(Tool::Rustfmt(st.edition), fixed) && bytes
                        == lint_result(heard(1), fixed)
                    &&& was(2) == Asked::Read(file) && heard(2) == Some(blob)
                    &&& was(3) == Asked::Output(Tool::Blob(file)) && heard(3) == Some(blob)
                    &&& #[trigger] fixed_from(blob, group, fixed)
                }
        },
        LintPhase::Staging => {
            &&& n >= 4 && asked is Stage && asked->Stage_0 == file
            &&& was(1) == Asked::Write(file, asked->Stage_1) && flag_told(told[n - 1])
            &&& exists|blob: Seq<u8>, fixed: Seq<u8>|
                {
                    &&& was(2) == Asked::Feed(Tool::Rustfmt(st.edition), fixed)
                        && asked->Stage_1 == lint_result(heard(2), fixed)
                    &&& was(3) == Asked::Read(file) && heard(3) == Some(blob)
                    &&& was(4) == Asked::Output(Tool::Blob(file)) && heard(4) == Some(blob)
                    &&& #[trigger] fixed_from(blob, group, fixed)
                }
        },
        _ => asked !is Stage,
    }
}

/// A blob with the suggestions for its file applied.
pub open spec fn fixed_from(blob: Seq<u8>, group: Group, fixed: Seq<u8>) -> bool {
    decoded(blob) matches Some(code) && (applied(code, group.fixes) matches Some(text) && fixed
        == encode_utf8(text))
}

/// The fixes may go to the file of each group that is kept.
proof fn lemma_attended(
    list: Seq<Group>,
    partial: bool,
    wip: Seq<Seq<char>>,
    staged: Seq<Seq<char>>,
)
    ensures
        forall|i: int|
            0 <= i < attended_in(list, partial, wip, staged).len() ==> attended(
                partial,
                wip,
                staged,
                (#[trigger] attended_in(list, partial, wip, staged)[i]).file,
            ),
    decreases list.len(),
{
    if list.len() > 0 {
        lemma_attended(list.drop_last(), partial, wip, staged);
        let rest = attended_in(list.drop_last(), partial, wip, staged);
        let all = attended_in(list, partial, wip, staged);
        assert forall|i: int| 0 <= i < all.len() implies attended(
            partial,
            wip,
            staged,
            (#[trigger] all[i]).file,
        ) by {
            if i < rest.len() {
                assert(all[i] == rest[i]);
            }
        }
    }
}

/// Every file that a lint pass is about may get its fixes, and none that it
/// has begun with had local edits.
pub open spec fn lint_careful(st: LintState) -> bool {
    &&& forall|i: int|
        0 <= i < st.todo.len() ==> attended(
            st.partial,
            st.wip,
            st.staged,
            (#[trigger] st.todo[i]).file,
        )
    &&& on_file(st.phase) && st.phase !is Skipping ==> !st.wip.contains(lint_file(st))
}

/// How a step of a lint pass gets at the bytes that it holds.
pub proof fn lemma_lint_step(was: LintState, answer: Told)
    requires
        lint_valid(was),
        lint_careful(was),
        was.todo.len() > 0 ==> was.phase !is Locating && was.phase !is Resolving && was.phase
            !is Linting,
    ensures
        ({
            let (now, asked) = lint_next(was, answer);
            let file = lint_file(now);
            &&& now.root == was.root && now.partial == was.partial && now.wip == was.wip
                && now.staged == was.staged && now.edition == was.edition
            &&& lint_careful(now)
            &&& now.phase is Resolving ==> asked is Canonical
            &&& now.phase is Linting ==> {
                &&& asked == Asked::Run(Tool::Clippy)
                &&& was.phase is Locating || was.phase is Resolving
                &&& now.workspace == if was.phase is Resolving && text_told(answer) is Some {
                    text_told(answer)->0
                } else {
                    now.root
                }
            }
            &&& now.phase !is Locating
            &&& now.phase is Locating || now.phase is Resolving || now.phase is Linting ==> now.todo
                == was.todo
            &&& now.todo.len() > 0 && (was.todo.len() > 0 || was.phase is Linting) ==> {
                ||| was.phase !is Linting && now.todo == was.todo && now.workspace == was.workspace
                ||| {
                    &&& was.phase is Linting && now.workspace == was.workspace
                    &&& run_told(answer) matches Some((success, output)) && !broken(
                        diags_in(lines(lossy(output))),
                        success,
                    ) && now.todo == fixes_in(
                        output,
                        was.root,
                        was.workspace,
                        was.partial,
                        was.wip,
                        was.staged,
                    )
                }
            }
            &&& was.todo.len() == 0 && was.phase !is Linting ==> now.todo.len() == 0
            &&& match now.phase {
                LintPhase::Blobbing => asked == Asked::Output(Tool::Blob(file)),
                LintPhase::Reading(blob) => {
                    &&& was.phase is Blobbing && now == (LintState { phase: now.phase, ..was })
                    &&& bytes_told(answer) == Some(blob)
                    &&& asked == Asked::Read(file)
                },
                LintPhase::Formatting(blob, fixed) => {
                    &&& was.phase == LintPhase::Reading(blob)
                    &&& now == (LintState { phase: now.phase, ..was })
                    &&& bytes_told(answer) == Some(blob)
                    &&& fixed_from(blob, now.todo[now.next], fixed)
                    &&& asked == Asked::Feed(Tool::Rustfmt(now.edition), fixed)
                },
                LintPhase::Writing(bytes) => {
                    &&& now == (LintState { phase: now.phase, ..was })
                    &&& was.phase matches LintPhase::Formatting(blob, fixed) && bytes
                        == lint_result(bytes_told(answer), fixed)
                    &&& asked == Asked::Write(file, bytes)
                },
                LintPhase::Staging => {
                    &&& now == (LintState { phase: now.phase, ..was })
                    &&& flag_told(answer)
                    &&& was.phase matches LintPhase::Writing(bytes) && asked == Asked::Stage(
                        file,
                        bytes,
                    )
                },
                _ => asked !is Stage,
            }
        }),
{
    if let Some((success, output)) = run_told(answer) {
        let list = diags_in(lines(lossy(output)));
        lemma_attended(
            grouped(located(list, was.root, was.workspace)),
            was.partial,
            was.wip,
            was.staged,
        );
    }
}

/// What clippy suggested stays suggested.
proof fn lemma_suggested(st: LintState, told: Seq<Told>, workspace: Seq<char>, todo: Seq<Group>)
    requires
        told.len() > 0,
        suggested_by_clippy(st, told.drop_last(), workspace, todo),
    ensures
        suggested_by_clippy(st, told, workspace, todo),
{
    let before = told.drop_last();
    let k = choose|k: int|
        {
            &&& 0 <= k < before.len()
            &&& (#[trigger] lint_after(st, before.take(k))).1 == Asked::Run(Tool::Clippy)
            &&& run_told(before[k]) matches Some((success, output)) && {
                &&& !broken(diags_in(lines(lossy(output))), success)
                &&& todo == fixes_in(
                    output,
                    st.root,
                    workspace,
                    st.partial,
                    st.wip,
                    st.staged,
                )
            }
        };
    assert(told.take(k) =~= before.take(k));
    assert(told[k] == before[k]);
    assert(lint_after(st, told.take(k)).1 == Asked::Run(Tool::Clippy));
}

proof fn lemma_lint_aimed(st: LintState, told: Seq<Told>)
    requires
        lint_fresh(st),
    ensures
        lint_aimed(st, told),
    decreases told.len(),
{
    if told.len() > 0 {
        let n = told.len() as int;
        let before = told.drop_last();
        lemma_lint_aimed(st, before);
        assert(lint_aimed(st, before));
        let was = lint_after(st, before).0;
        let now = lint_after(st, told).0;
        lemma_lint_step(was, told.last());
        if now.todo.len() > 0 {
            if was.phase is Linting {
                assert(told.take(n - 1) =~= before);
                assert(lint_after(st, told.take(n - 1)).1 == Asked::Run(Tool::Clippy));
                assert(suggested_by_clippy(st, told, now.workspace, now.todo));
            } else {
                lemma_suggested(st, told, now.workspace, now.todo);
            }
        }
    }
}

proof fn lemma_lint_fits(st: LintState, told: Seq<Told>)
    requires
        lint_fresh(st),
    ensures
        lint_aimed(st, told),
        lint_fits(st, told),
    decreases told.len(),
{
    lemma_lint_aimed(st, told);
    if told.len() > 0 {
        let n = told.len() as int;
        let before = told.drop_last();
        lemma_lint_fits(st, before);
        assert(lint_aimed(st, before));
        assert(lint_fits(st, before));
        assert(before =~= told.take(n - 1));
        let was = lint_after(st, before).0;
        let now = lint_after(st, told).0;
        lemma_lint_step(was, told.last());
        if n >= 2 {
            assert(told.take(n - 2) == before.take(n - 2));
        }
        if n >= 3 {
            assert(told.take(n - 3) == before.take(n - 3));
        }
        if n >= 4 {
            assert(told.take(n - 4) == before.take(n - 4));
        }
        if let LintPhase::Formatting(blob, fixed) = was.phase {
            if let LintPhase::Writing(bytes) = now.phase {
                assert(fixed_from(blob, now.todo[now.next], fixed));
            }
        }
        if let LintPhase::Writing(bytes) = was.phase {
            if now.phase is Staging {
                let (blob, fixed) = choose|blob: Seq<u8>, fixed: Seq<u8>|
                    {
                        &&& lint_after(st, before.take(n - 2)).1 == Asked::Feed(
                            Tool::Rustfmt(st.edition),
                            fixed,
                        ) && bytes == lint_result(bytes_told(before[n - 2]), fixed)
                        &&& lint_after(st, before.take(n - 3)).1 == Asked::Read(lint_file(was))
                            && bytes_told(before[n - 3]) == Some(blob)
                        &&& lint_after(st, before.take(n - 4)).1 == Asked::Output(
                            Tool::Blob(lint_file(was)),
                        ) && bytes_told(before[n - 4]) == Some(blob)
                        &&& #[trigger] fixed_from(blob, was.todo[was.next], fixed)
                    };
                assert(fixed_from(blob, now.todo[now.next], fixed));
            }
        }
    }
}

/// The lint pass never stages foreign bytes. Whatever the answers, bytes that
/// it stages for a path are the path's indexed blob with clippy's suggestions for
/// that path applied, formatted where the formatter accepted the result; the
/// working copy was read after the blob and equalled it, and the bytes were
/// written to it before they were staged.
pub proof fn lint_stages_only_what_follows_from_the_index(
    st: LintState,
    told: Seq<Told>,
    path: Seq<char>,
    bytes: Seq<u8>,
)
    requires
        lint_fresh(st),
        lint_after(st, told).1 == Asked::Stage(path, bytes),
    ensures
        told.len() >= 4,
        ({
            let n = told.len() as int;
            let now = lint_after(st, told).0;
            &&& lint_after(st, told.take(n - 4)).1 == Asked::Output(Tool::Blob(path))
            &&& lint_after(st, told.take(n - 3)).1 == Asked::Read(path)
            &&& bytes_told(told[n - 4]) is Some && bytes_told(told[n - 3]) == bytes_told(
                told[n - 4],
            )
            &&& suggested_by_clippy(st, told, now.workspace, now.todo)
            &&& 0 <= now.next < now.todo.len() && now.todo[now.next].file == path
            &&& exists|fixed: Seq<u8>|
                {
                    &&& #[trigger] fixed_from(bytes_told(told[n - 4])->0, now.todo[now.next], fixed)
                    &&& lint_after(st, told.take(n - 2)).1 == Asked::Feed(
                        Tool::Rustfmt(st.edition),
                        fixed,
                    )
                    &&& bytes == lint_result(bytes_told(told[n - 2]), fixed)
                }
            &&& lint_after(st, told.take(n - 1)).1 == Asked::Write(path, bytes)
            &&& flag_told(told[n - 1])
        }),
{
    lemma_lint_fits(st, told);
}

/// The lint pass leaves work in progress alone: it stages no file whose working
/// copy differed from the index when the run began, and in a partial commit
/// only files of the commit.
pub proof fn lint_never_stages_work_in_progress(
    st: LintState,
    told: Seq<Told>,
    path: Seq<char>,
    bytes: Seq<u8>,
)
    requires
        lint_fresh(st),
        lint_after(st, told).1 == Asked::Stage(path, bytes),
    ensures
        !st.wip.contains(path),
        st.partial ==> st.staged.contains(path),
{
    lemma_lint_fits(st, told);
    let now = lint_after(st, told).0;
    assert(attended(st.partial, st.wip, st.staged, now.todo[now.next].file));
}

/// A file whose working copy changed under the lint pass gets a named warning
/// where the commit stages it; a bystander is passed over without a word.
pub proof fn a_contended_bystander_is_passed_over_silently(
    st: LintState,
    blob: Seq<u8>,
    told: Told,
)
    requires
        lint_valid(st),
        st.phase == LintPhase::Reading(blob),
        bytes_told(told) != Some(blob),
    ensures
        st.staged.contains(lint_file(st)) ==> lint_next(st, told).1 == Asked::Warn(
            local_edits(lint_file(st)),
        ),
        !st.staged.contains(lint_file(st)) ==> lint_next(st, told) == lint_skip(st),
{
}

/// A tree that does not compile ends the lint pass without a word.
pub proof fn a_broken_tree_ends_the_lint_pass_silently(
    st: LintState,
    success: bool,
    output: Seq<u8>,
)
    requires
        st.phase is Linting,
        broken(diags_in(lines(lossy(output))), success),
    ensures
        lint_next(st, Told::Ran(Some((success, output)))) == (
            LintState { phase: LintPhase::Finished, ..st },
            Asked::Done,
        ),
{
}

/// A fix is applied where it fits. With the blob of a file answered, its working
/// copy found equal to it and what the formatter made of the fixed source, the
/// fixed bytes are written to the file where they change it, and staged where
/// that succeeds.
pub proof fn a_fix_is_applied_where_it_fits(
    st: LintState,
    blob: Seq<u8>,
    formatted: Option<Seq<u8>>,
)
    requires
        lint_valid(st),
        st.phase is Blobbing,
        decoded(blob) is Some,
        applied(decoded(blob)->0, st.todo[st.next].fixes) is Some,
    ensures
        ({
            let file = lint_file(st);
            let fixed = encode_utf8(applied(decoded(blob)->0, st.todo[st.next].fixes)->0);
            let bytes = lint_result(formatted, fixed);
            let (one, read) = lint_next(st, Told::Bytes(Some(blob)));
            let (two, feed) = lint_next(one, Told::Bytes(Some(blob)));
            let (three, write) = lint_next(two, Told::Bytes(formatted));
            &&& read == Asked::Read(file)
            &&& feed == Asked::Feed(Tool::Rustfmt(st.edition), fixed)
            &&& bytes != blob ==> write == Asked::Write(file, bytes) && lint_next(
                three,
                Told::Flag(true),
            ).1 == Asked::Stage(file, bytes)
            &&& bytes == blob ==> lint_next(two, Told::Bytes(formatted)) == lint_skip(two)
        }),
{
}

/// The output of clippy for a tree that compiles.
pub open spec fn clippy_output(told: Told) -> Option<Seq<u8>> {
    match run_told(told) {
        Some((success, output)) => if broken(diags_in(lines(lossy(output))), success) {
            None
        } else {
            Some(output)
        },
        None => None,
    }
}

/// Whether a lint pass knows what clippy suggested.
pub open spec fn digested(phase: LintPhase<Seq<u8>>) -> bool {
    on_file(phase) || phase is Reporting || phase is Summing || phase is Finished
}

/// How a step moves along the files that get a fix.
pub proof fn lemma_along_fixes(was: LintState, told: Told)
    requires
        lint_valid(was),
    ensures
        ({
            let (now, asked) = lint_next(was, told);
            &&& now.root == was.root && now.partial == was.partial && now.wip == was.wip
                && now.staged == was.staged
            &&& asked is Run ==> now.phase is Linting
            &&& asked is Done <==> now.phase is Finished
            &&& was.phase is Locating || was.phase is Resolving ==> asked !is Done
            &&& digested(was.phase) ==> digested(now.phase) && now.todo == was.todo
            &&& was.phase is Linting ==> digested(now.phase) && (clippy_output(told) is Some
                ==> now.todo == fixes_in(
                clippy_output(told)->0,
                was.root,
                was.workspace,
                was.partial,
                was.wip,
                was.staged,
            ))
            &&& on_file(now.phase) ==> {
                ||| on_file(was.phase) && now.next == was.next
                ||| {
                    &&& now.next == (if on_file(was.phase) {
                        was.next + 1
                    } else if was.phase is Reporting {
                        was.next
                    } else {
                        0
                    })
                    &&& now.wip.contains(lint_file(now)) || (now.phase is Blobbing && asked
                        == Asked::Output(Tool::Blob(lint_file(now))))
                }
            }
            &&& now.phase is Reporting ==> was.phase is Linting && now.next == 0
            &&& now.phase is Summing || now.phase is Finished ==> {
                ||| on_file(was.phase) && was.next + 1 == now.todo.len()
                ||| was.phase is Reporting && was.next == now.todo.len()
                ||| was.phase is Summing
                ||| was.phase is Finished
                ||| was.phase is Linting && now.todo.len() == 0
                ||| was.phase is Linting && clippy_output(told) is None
            }
        }),
{
}

/// Whether the blob of a path was asked for in the course of a lint pass.
pub open spec fn fix_looked_at(st: LintState, told: Seq<Told>, path: Seq<char>) -> bool {
    exists|k: int|
        0 <= k <= told.len() && (#[trigger] lint_after(st, told.take(k))).1 == Asked::Output(
            Tool::Blob(path),
        )
}

proof fn lemma_fix_looked_at(st: LintState, told: Seq<Told>, path: Seq<char>)
    requires
        told.len() > 0,
        fix_looked_at(st, told.drop_last(), path),
    ensures
        fix_looked_at(st, told, path),
{
    let before = told.drop_last();
    let k = choose|k: int|
        0 <= k <= before.len() && (#[trigger] lint_after(st, before.take(k))).1 == Asked::Output(
            Tool::Blob(path),
        );
    assert(told.take(k) =~= before.take(k));
}

/// How far a lint pass has come with the files that get a fix.
spec fn fixes_in_turn(st: LintState, told: Seq<Told>, all: Seq<Group>) -> bool {
    let now = lint_after(st, told).0;
    &&& digested(now.phase) && now.todo == all
    &&& now.phase is Reporting ==> now.next == 0
    &&& on_file(now.phase) ==> forall|i: int|
        0 <= i <= now.next ==> st.wip.contains((#[trigger] all[i]).file) || fix_looked_at(
            st,
            told,
            all[i].file,
        )
    &&& now.phase is Summing || now.phase is Finished ==> forall|i: int|
        0 <= i < all.len() ==> st.wip.contains((#[trigger] all[i]).file) || fix_looked_at(
            st,
            told,
            all[i].file,
        )
}

proof fn lemma_fixes_in_turn(st: LintState, told: Seq<Told>, k: int, output: Seq<u8>)
    requires
        lint_fresh(st),
        0 <= k < told.len(),
        lint_after(st, told.take(k)).1 == Asked::Run(Tool::Clippy),
        clippy_output(told[k]) == Some(output),
    ensures
        fixes_in_turn(
            st,
            told,
            fixes_in(
                output,
                st.root,
                lint_after(st, told.take(k)).0.workspace,
                st.partial,
                st.wip,
                st.staged,
            ),
        ),
    decreases told.len(),
{
    let n = told.len() as int;
    let before = told.drop_last();
    let was = lint_after(st, before).0;
    let (now, asked) = lint_after(st, told);
    let all = fixes_in(
        output,
        st.root,
        lint_after(st, told.take(k)).0.workspace,
        st.partial,
        st.wip,
        st.staged,
    );
    assert(lint_valid(was) && was.root == st.root && was.partial == st.partial && was.wip == st.wip
        && was.staged == st.staged) by {
        lemma_lint_aimed(st, before);
        assert(lint_aimed(st, before));
    }
    lemma_along_fixes(was, told.last());
    assert(told.take(n) =~= told);
    if k == n - 1 {
        assert(told.take(n - 1) =~= before);
        assert(was.phase is Linting) by {
            if before.len() > 0 {
                let prior = lint_after(st, before.drop_last()).0;
                lemma_lint_aimed(st, before.drop_last());
                assert(lint_aimed(st, before.drop_last()));
                lemma_along_fixes(prior, before.last());
            }
        }
    } else {
        assert(before.take(k) =~= told.take(k));
        lemma_fixes_in_turn(st, before, k, output);
        assert(fixes_in_turn(st, before, all));
    }
    if on_file(now.phase) {
        assert forall|i: int| 0 <= i <= now.next implies st.wip.contains((#[trigger] all[i]).file)
            || fix_looked_at(st, told, all[i].file) by {
            if on_file(was.phase) && i <= was.next {
                if !st.wip.contains(all[i].file) {
                    assert(fix_looked_at(st, before, all[i].file));
                    lemma_fix_looked_at(st, told, all[i].file);
                }
            } else if !st.wip.contains(all[i].file) {
                assert(lint_after(st, told.take(n)).1 == Asked::Output(Tool::Blob(all[i].file)));
            }
        }
    }
    if now.phase is Summing || now.phase is Finished {
        assert forall|i: int| 0 <= i < all.len() implies st.wip.contains((#[trigger] all[i]).file)
            || fix_looked_at(st, told, all[i].file) by {
            if !st.wip.contains(all[i].file) {
                assert(fix_looked_at(st, before, all[i].file));
                lemma_fix_looked_at(st, told, all[i].file);
            }
        }
    }
}

/// No file that gets a fix is left out: with the output of clippy for a tree that
/// compiles, a lint pass has asked, by the time that it ends, for the blob of
/// every file that a fix may go to and that nobody was editing.
pub proof fn no_fix_of_a_pass_is_left_out(
    st: LintState,
    told: Seq<Told>,
    k: int,
    output: Seq<u8>,
    group: Group,
)
    requires
        lint_fresh(st),
        0 <= k < told.len(),
        lint_after(st, told.take(k)).1 == Asked::Run(Tool::Clippy),
        clippy_output(told[k]) == Some(output),
        fixes_in(
            output,
            st.root,
            lint_after(st, told.take(k)).0.workspace,
            st.partial,
            st.wip,
            st.staged,
        ).contains(group),
        !st.wip.contains(group.file),
        lint_after(st, told).1 is Done,
    ensures
        fix_looked_at(st, told, group.file),
{
    let all = fixes_in(
        output,
        st.root,
        lint_after(st, told.take(k)).0.workspace,
        st.partial,
        st.wip,
        st.staged,
    );
    lemma_fixes_in_turn(st, told, k, output);
    lemma_lint_aimed(st, told);
    assert(lint_aimed(st, told));
    let i = choose|i: int| 0 <= i < all.len() && all[i] == group;
    assert(all[i].file == group.file);
}

/// How far a lint pass is from its end: the stage of the pass, the files left,
/// and the requests left for the present file.
pub open spec fn lint_rank(st: LintState) -> (nat, nat, nat) {
    let left = (st.todo.len() - st.next) as nat;
    match st.phase {
        LintPhase::Locating => (4, 0, 0),
        LintPhase::Resolving => (3, 0, 0),
        LintPhase::Linting => (2, 0, 0),
        LintPhase::Reporting => (1, left + 1, 0),
        LintPhase::Blobbing => (1, left, 5),
        LintPhase::Reading(_) => (1, left, 4),
        LintPhase::Formatting(_, _) => (1, left, 3),
        LintPhase::Writing(_) => (1, left, 2),
        LintPhase::Staging => (1, left, 1),
        LintPhase::Skipping => (1, left, 0),
        LintPhase::Summing => (0, 1, 0),
        LintPhase::Finished => (0, 0, 0),
    }
}

/// The lexicographic order of ranks.
pub open spec fn closer(a: (nat, nat, nat), b: (nat, nat, nat)) -> bool {
    ||| a.0 < b.0
    ||| a.0 == b.0 && a.1 < b.1
    ||| a.0 == b.0 && a.1 == b.1 && a.2 < b.2
}

/// The lint pass never blocks: whatever is answered, every answer brings it
/// closer to its end, and at its end it asks for nothing more.
pub proof fn the_lint_pass_never_blocks(st: LintState, told: Told)
    requires
        lint_valid(st),
    ensures
        st.phase !is Finished ==> closer(lint_rank(lint_next(st, told).0), lint_rank(st)),
        st.phase is Finished ==> lint_next(st, told) == (st, Asked::Done),
        lint_valid(lint_next(st, told).0),
{
}

/// Fixes go to the files of the commit, and in a whole commit to every file that
/// nobody was editing; of the groups that clippy's suggestions fall into, just
/// these are kept, in order.
pub proof fn fixes_go_where_they_are_wanted(
    list: Seq<Group>,
    partial: bool,
    wip: Seq<Seq<char>>,
    staged: Seq<Seq<char>>,
)
    ensures
        attended_in(list, partial, wip, staged) == list.filter(
            |g: Group| staged.contains(g.file) || (!partial && !wip.contains(g.file)),
        ),
    decreases list.len(),
{
    reveal(Seq::filter);
    if list.len() > 0 {
        fixes_go_where_they_are_wanted(list.drop_last(), partial, wip, staged);
    }
}

/// The fixes of a pass are the suggestions in clippy's output, gathered by file,
/// as far as they are wanted.
pub proof fn the_fixes_of_a_pass_are_what_clippy_suggests(
    output: Seq<u8>,
    root: Seq<char>,
    workspace: Seq<char>,
    partial: bool,
    wip: Seq<Seq<char>>,
    staged: Seq<Seq<char>>,
    group: Group,
)
    ensures
        fixes_in(output, root, workspace, partial, wip, staged).contains(group) <==> grouped(
            located(diags_in(lines(lossy(output))), root, workspace),
        ).contains(group) && (staged.contains(group.file) || (!partial && !wip.contains(
            group.file,
        ))),
{
    let list = grouped(located(diags_in(lines(lossy(output))), root, workspace));
    let wanted = |g: Group| staged.contains(g.file) || (!partial && !wip.contains(g.file));
    fixes_go_where_they_are_wanted(list, partial, wip, staged);
    assert(attended_in(list, partial, wip, staged) == list.filter(wanted));
    if list.filter(wanted).contains(group) {
        list.lemma_filter_contains_rev(wanted, group);
        let k = choose|k: int|
            0 <= k < list.filter(wanted).len() && list.filter(wanted)[k] == group;
        list.lemma_filter_pred(wanted, k);
    }
    if list.contains(group) && wanted(group) {
        let i = choose|i: int| 0 <= i < list.len() && list[i] == group;
        list.lemma_filter_contains(wanted, i);
    }
}

/// A report shows each lint once, in ascending order: all of them where they are
/// at most ten, and else the first ten and how many more there are.
pub proof fn a_report_shows_the_first_ten(list: Seq<Seq<char>>, all: Seq<Seq<char>>)
    requires
        ascending(all),
        same_members(all, list),
    ensures
        all.len() <= 10 ==> lint_report(list) == "clippy: "@ + joined(all, ", "@),
        all.len() > 10 ==> lint_report(list) == "clippy: "@ + joined(all.take(10), ", "@) + (" (+"@
            + decimal((all.len() - 10) as nat) + " more)"@),
{
    lemma_ordered(list);
    ascending_lists_with_the_same_members_are_equal(ordered(list), all);
}

/// A request tells how far a lint pass has come.
spec fn lint_asks(now: LintState, asked: Asked) -> bool {
    match now.phase {
        LintPhase::Locating => asked == Asked::Output(Tool::LocateProject),
        LintPhase::Resolving => asked is Canonical,
        LintPhase::Linting => asked == Asked::Run(Tool::Clippy),
        LintPhase::Reporting => asked is Warn,
        LintPhase::Skipping => asked is Warn,
        LintPhase::Blobbing => asked == Asked::Output(Tool::Blob(lint_file(now))),
        LintPhase::Reading(_) => asked == Asked::Read(lint_file(now)),
        LintPhase::Formatting(_, fixed) => asked == Asked::Feed(Tool::Rustfmt(now.edition), fixed),
        LintPhase::Writing(bytes) => asked == Asked::Write(lint_file(now), bytes),
        LintPhase::Staging => asked is Stage && asked->Stage_0 == lint_file(now),
        LintPhase::Summing => asked is Note,
        LintPhase::Finished => asked is Done,
    }
}

proof fn lemma_lint_asks(st: LintState, told: Seq<Told>)
    requires
        lint_fresh(st),
    ensures
        lint_asks(lint_after(st, told).0, lint_after(st, told).1),
{
}

/// A lint pass begins with the workspace, and goes on to clippy whether or not
/// one is found; the workspace is the directory as it was resolved, and the
/// repository where none was. Where clippy cannot be run the pass ends.
pub proof fn a_lint_pass_runs_clippy(st: LintState, told: Seq<Told>, answer: Told)
    requires
        lint_fresh(st),
    ensures
        lint_after(st, Seq::empty()).1 == Asked::Output(Tool::LocateProject),
        ({
            let asked = lint_after(st, told).1;
            let (then, next) = lint_after(st, told.push(answer));
            &&& asked == Asked::Output(Tool::LocateProject) && !(answer matches Reply::Bytes(
                Some(_),
            )) ==> next == Asked::Run(Tool::Clippy) && then.workspace == st.root
            &&& asked == Asked::Output(Tool::LocateProject) && answer is Bytes ==> (
            answer->Bytes_0 matches Some(printed) && parent(trim(lossy(printed))) is None
                ==> next == Asked::Run(Tool::Clippy) && then.workspace == st.root)
            &&& asked is Canonical ==> next == Asked::Run(Tool::Clippy)
            &&& asked is Canonical && answer is Text ==> (answer->Text_0 matches Some(dir)
                ==> then.workspace == dir)
            &&& asked is Canonical && !(answer matches Reply::Text(Some(_))) ==> then.workspace
                == st.root
            &&& asked is Run && !(answer matches Reply::Ran(Some(_))) ==> next is Done
        }),
{
    lemma_lint_asks(st, told);
    lemma_lint_aimed(st, told);
    assert(lint_aimed(st, told));
    assert(told.push(answer).drop_last() =~= told);
}

/// The workspace is looked for where its manifest lies: the directory that is
/// resolved is what stands before the manifest's name in what `cargo` printed.
pub proof fn the_workspace_is_the_directory_of_its_manifest(
    st: LintState,
    printed: Seq<u8>,
    a: Seq<char>,
    dir: Seq<char>,
    b: Seq<char>,
)
    requires
        lossy(printed) == a + (dir + "/Cargo.toml"@) + b,
        blank(a),
        blank(b),
        dir.len() > 0,
        !white(dir[0]),
        dir.last() != '/',
        !dot_last(dir),
    ensures
        lint_after(st, seq![Told::Bytes(Some(printed))]).1 == Asked::Canonical(dir),
{
    reveal_strlit("/Cargo.toml");
    reveal_strlit("Cargo.toml");
    let name = "Cargo.toml"@;
    let path = dir + "/Cargo.toml"@;
    assert(path =~= dir + seq!['/'] + name);
    assert(!name.contains('/'));
    assert(path.last() == 'l');
    assert(path[0] == dir[0]);
    crate::text::white_space_is_what_unicode_says('l');
    trimming_takes_white_space_alone(a, path, b);
    a_path_is_its_directory_and_its_name(dir, name);
    let told = seq![Told::Bytes(Some(printed))];
    assert(told.drop_last() =~= Seq::empty());
    assert(lint_after(st, told.drop_last()) == lint_start(st));
}

/// What follows from the output of clippy for a tree that compiles: a warning
/// where lints stay without a fix, and else the first file that gets one.
pub proof fn a_lint_pass_follows_clippy(
    st: LintState,
    told: Seq<Told>,
    success: bool,
    output: Seq<u8>,
)
    requires
        lint_fresh(st),
        st.fixed == Seq::<Seq<char>>::empty(),
        lint_after(st, told).1 is Run,
        !broken(diags_in(lines(lossy(output))), success),
    ensures
        ({
            let now = lint_after(st, told).0;
            let (then, next) = lint_after(st, told.push(Told::Ran(Some((success, output)))));
            let reports = unfixables(
                diags_in(lines(lossy(output))),
                st.root,
                now.workspace,
                st.staged,
            );
            let todo = fixes_in(output, st.root, now.workspace, st.partial, st.wip, st.staged);
            &&& then.todo == todo
            &&& reports.len() > 0 ==> next == Asked::Warn(lint_report(reports))
            &&& reports.len() == 0 && todo.len() == 0 ==> next is Done
            &&& reports.len() == 0 && todo.len() > 0 && !st.wip.contains(todo[0].file) ==> next
                == Asked::Output(Tool::Blob(todo[0].file))
            &&& reports.len() == 0 && todo.len() > 0 && st.wip.contains(todo[0].file) ==> next
                == Asked::Warn(
                "clippy fix for "@ + todo[0].file + " skipped: file has local edits"@,
            )
        }),
{
    let answer = Told::Ran(Some((success, output)));
    lemma_lint_asks(st, told);
    lemma_lint_aimed(st, told);
    assert(lint_aimed(st, told));
    lemma_taken(st, told);
    lemma_taken_late(st, told);
    assert(told.push(answer).drop_last() =~= told);
}

/// A file is looked at in turn: its blob, its working copy, what the formatter
/// makes of its fixed source, and then it is written and staged. A working copy
/// that is not the blob gets a warning where the commit stages the file, and so
/// do suggestions that do not fit and a file that cannot be written.
pub proof fn a_fix_is_made_in_turn(st: LintState, told: Seq<Told>, answer: Told, path: Seq<char>)
    requires
        lint_fresh(st),
    ensures
        ({
            let (now, asked) = lint_after(st, told);
            let next = lint_after(st, told.push(answer)).1;
            let fixes = now.todo[now.next].fixes;
            &&& asked == Asked::Output(Tool::Blob(path)) && (answer matches Reply::Bytes(Some(_)))
                ==> next == Asked::Read(path)
            &&& asked == Asked::Read(path) ==> {
                let blob = bytes_told(told.last())->0;
                &&& told.last() matches Reply::Bytes(Some(_))
                &&& answer != Told::Bytes(Some(blob)) && st.staged.contains(path) ==> next
                    == Asked::Warn("clippy fix for "@ + path + " skipped: file has local edits"@)
                &&& answer == Told::Bytes(Some(blob)) && decoded(blob) is Some ==> {
                    &&& applied(decoded(blob)->0, fixes) matches Some(text) ==> next
                        == Asked::Feed(Tool::Rustfmt(st.edition), encode_utf8(text))
                    &&& applied(decoded(blob)->0, fixes) is None ==> next == Asked::Warn(
                        "clippy fix for "@ + path + " did not apply cleanly; skipped"@,
                    )
                }
            }
            &&& asked is Write && asked->Write_0 == path ==> next == (if answer == Told::Flag(
                true,
            ) {
                Asked::Stage(path, asked->Write_1)
            } else {
                Asked::Warn("clippy fix for "@ + path + " could not be written; skipped"@)
            })
        }),
{
    lemma_lint_asks(st, told);
    lemma_lint_fits(st, told);
    assert(lint_aimed(st, told) && lint_fits(st, told));
    assert(told.push(answer).drop_last() =~= told);
}

/// What is staged of a fixed file is what the formatter made of the fixed
/// source, and the fixed source where the formatter made nothing of it.
pub proof fn a_fixed_file_is_formatted_where_possible(
    st: LintState,
    told: Seq<Told>,
    fixed: Seq<u8>,
    bytes: Seq<u8>,
)
    requires
        lint_fresh(st),
        lint_after(st, told).1 == Asked::Feed(Tool::Rustfmt(st.edition), fixed),
    ensures
        ({
            let now = lint_after(st, told).0;
            let path = now.todo[now.next].file;
            let blob = bytes_told(told.last())->0;
            &&& bytes != blob ==> lint_after(st, told.push(Told::Bytes(Some(bytes)))).1
                == Asked::Write(path, bytes)
            &&& fixed != blob ==> lint_after(st, told.push(Told::Bytes(None))).1 == Asked::Write(
                path,
                fixed,
            )
            &&& lint_after(st, told.push(Told::Bytes(Some(blob)))).1 !is Write
        }),
{
    lemma_lint_asks(st, told);
    lemma_lint_fits(st, told);
    assert(lint_aimed(st, told) && lint_fits(st, told));
    let blob = bytes_told(told.last())->0;
    assert(told.push(Told::Bytes(Some(bytes))).drop_last() =~= told);
    assert(told.push(Told::Bytes(Some(blob))).drop_last() =~= told);
    assert(told.push(Told::Bytes(None)).drop_last() =~= told);
}

/// The files whose staging was asked for in the course of a lint pass and
/// succeeded, in order.
pub open spec fn taken(st: LintState, told: Seq<Told>) -> Seq<Seq<char>>
    decreases told.len(),
{
    if told.len() == 0 {
        Seq::empty()
    } else {
        let before = told.drop_last();
        match lint_after(st, before).1 {
            Action::Stage(path, _) => if told.last() == Told::Flag(true) {
                taken(st, before).push(path)
            } else {
                taken(st, before)
            },
            _ => taken(st, before),
        }
    }
}

proof fn lemma_taken(st: LintState, told: Seq<Told>)
    requires
        lint_fresh(st),
        st.fixed == Seq::<Seq<char>>::empty(),
    ensures
        lint_after(st, told).0.fixed == taken(st, told),
    decreases told.len(),
{
    if told.len() > 0 {
        let before = told.drop_last();
        lemma_taken(st, before);
        lemma_lint_asks(st, before);
        lemma_lint_aimed(st, before);
        assert(lint_aimed(st, before));
    }
}

/// Nothing is staged before clippy has run.
proof fn lemma_taken_late(st: LintState, told: Seq<Told>)
    requires
        lint_fresh(st),
    ensures
        !digested(lint_after(st, told).0.phase) ==> taken(st, told) == Seq::<Seq<char>>::empty(),
    decreases told.len(),
{
    if told.len() > 0 {
        let before = told.drop_last();
        lemma_taken_late(st, before);
        lemma_lint_asks(st, before);
        lemma_lint_aimed(st, before);
        assert(lint_aimed(st, before));
        lemma_along_fixes(lint_after(st, before).0, told.last());
    }
}

/// The report of a lint pass names what it fixed: exactly the files whose staging
/// succeeded, in order. Where there are any the pass reports them before it ends.
pub proof fn a_lint_pass_reports_what_it_fixed(st: LintState, told: Seq<Told>, note: Seq<char>)
    requires
        lint_fresh(st),
        st.fixed == Seq::<Seq<char>>::empty(),
    ensures
        lint_after(st, told).1 == Asked::Note(note) ==> note == "clippy fixed "@ + joined(
            taken(st, told),
            " "@,
        ),
        told.len() > 0 && lint_after(st, told).1 is Done && lint_after(st, told.drop_last()).1
            !is Done && taken(st, told).len() > 0 ==> lint_after(st, told.drop_last()).1 is Note,
{
    lemma_taken(st, told);
    lemma_lint_asks(st, told);
    if told.len() > 0 {
        let before = told.drop_last();
        lemma_lint_asks(st, before);
        lemma_taken(st, before);
        lemma_taken_late(st, before);
        lemma_lint_aimed(st, before);
        assert(lint_aimed(st, before));
    }
}

/// Whether it was said in the course of a lint pass that a file with local edits
/// is passed over.
pub open spec fn edits_warned(st: LintState, told: Seq<Told>, path: Seq<char>) -> bool {
    exists|k: int|
        0 <= k <= told.len() && (#[trigger] lint_after(st, told.take(k))).1 == Asked::Warn(
            "clippy fix for "@ + path + " skipped: file has local edits"@,
        )
}

proof fn lemma_edits_warned(st: LintState, told: Seq<Told>, path: Seq<char>)
    requires
        told.len() > 0,
        edits_warned(st, told.drop_last(), path),
    ensures
        edits_warned(st, told, path),
{
    let before = told.drop_last();
    let k = choose|k: int|
        0 <= k <= before.len() && (#[trigger] lint_after(st, before.take(k))).1 == Asked::Warn(
            "clippy fix for "@ + path + " skipped: file has local edits"@,
        );
    assert(told.take(k) =~= before.take(k));
}

/// How a step comes to a file with local edits.
proof fn lemma_along_edits(was: LintState, told: Told)
    requires
        lint_valid(was),
    ensures
        ({
            let (now, asked) = lint_next(was, told);
            on_file(now.phase) && now.wip.contains(lint_file(now)) ==> {
                ||| on_file(was.phase) && now.next == was.next && now.todo == was.todo
                ||| asked == Asked::Warn(
                    "clippy fix for "@ + lint_file(now) + " skipped: file has local edits"@,
                )
            }
        }),
{
}

proof fn lemma_edits_in_turn(st: LintState, told: Seq<Told>)
    requires
        lint_fresh(st),
    ensures
        ({
            let now = lint_after(st, told).0;
            &&& on_file(now.phase) ==> forall|i: int|
                0 <= i <= now.next && st.wip.contains((#[trigger] now.todo[i]).file)
                    ==> edits_warned(st, told, now.todo[i].file)
            &&& now.phase is Reporting ==> now.next == 0
            &&& now.phase is Summing || now.phase is Finished ==> forall|i: int|
                0 <= i < now.todo.len() && st.wip.contains((#[trigger] now.todo[i]).file)
                    ==> edits_warned(st, told, now.todo[i].file)
        }),
    decreases told.len(),
{
    if told.len() > 0 {
        let n = told.len() as int;
        let before = told.drop_last();
        let was = lint_after(st, before).0;
        let now = lint_after(st, told).0;
        lemma_edits_in_turn(st, before);
        lemma_lint_aimed(st, before);
        assert(lint_aimed(st, before));
        lemma_along_fixes(was, told.last());
        lemma_along_edits(was, told.last());
        lemma_quiet_todo(was, told.last());
        assert(told.take(n) =~= told);
        if on_file(now.phase) {
            assert forall|i: int|
                0 <= i <= now.next && st.wip.contains((#[trigger] now.todo[i]).file) implies edits_warned(
                st,
                told,
                now.todo[i].file,
            ) by {
                if on_file(was.phase) && i <= was.next {
                    assert(was.todo[i] == now.todo[i]);
                    lemma_edits_warned(st, told, now.todo[i].file);
                } else {
                    assert(i == now.next);
                    assert(lint_after(st, told.take(n)).1 == Asked::Warn(
                        "clippy fix for "@ + now.todo[i].file + " skipped: file has local edits"@,
                    ));
                }
            }
        }
        if now.phase is Summing || now.phase is Finished {
            assert forall|i: int|
                0 <= i < now.todo.len() && st.wip.contains(
                    (#[trigger] now.todo[i]).file,
                ) implies edits_warned(st, told, now.todo[i].file) by {
                assert(was.todo[i] == now.todo[i]);
                lemma_edits_warned(st, told, now.todo[i].file);
            }
        }
    }
}

/// What a step does to the list of files.
proof fn lemma_quiet_todo(was: LintState, told: Told)
    requires
        lint_valid(was),
        was.todo.len() > 0 ==> was.phase !is Locating && was.phase !is Resolving && was.phase
            !is Linting,
    ensures
        ({
            let now = lint_next(was, told).0;
            &&& was.phase !is Linting ==> now.todo == was.todo
            &&& was.phase is Linting && now.phase is Finished ==> now.todo.len() == 0
        }),
{
}

/// A file of the commit that gets a fix and has local edits is warned about, by
/// name: by the time that a lint pass ends, it has said so of each.
pub proof fn a_file_with_local_edits_is_warned_about(st: LintState, told: Seq<Told>, group: Group)
    requires
        lint_fresh(st),
        lint_after(st, told).1 is Done,
        lint_after(st, told).0.todo.contains(group),
        st.wip.contains(group.file),
    ensures
        edits_warned(st, told, group.file),
{
    lemma_edits_in_turn(st, told);
    lemma_lint_aimed(st, told);
    assert(lint_aimed(st, told));
    let now = lint_after(st, told).0;
    let i = choose|i: int| 0 <= i < now.todo.len() && now.todo[i] == group;
    assert(now.todo[i].file == group.file);
}

/// A pass goes on to the next file where there is nothing to do for one: where it
/// has no blob, where the blob is no text, where the fixed file is the blob
/// itself, and when it was staged or could not be.
pub proof fn a_pass_goes_on_to_the_next_file(st: LintState, told: Seq<Told>, answer: Told)
    requires
        lint_fresh(st),
    ensures
        ({
            let (now, asked) = lint_after(st, told);
            let then = lint_after(st, told.push(answer)).0;
            let blob = bytes_told(told.last())->0;
            let on = then.next == now.next + 1 && then.todo == now.todo;
            &&& asked is Output && asked->Output_0 is Blob && !(answer matches Reply::Bytes(
                Some(_),
            )) ==> on
            &&& asked is Read && answer == Told::Bytes(Some(blob)) && decoded(blob) is None ==> on
            &&& asked is Feed && answer == Told::Bytes(Some(blob)) ==> on
            &&& asked is Stage ==> on
        }),
{
    lemma_lint_asks(st, told);
    lemma_lint_fits(st, told);
    assert(lint_aimed(st, told) && lint_fits(st, told));
    assert(told.push(answer).drop_last() =~= told);
}

} // verus!
