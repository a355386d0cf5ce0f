//! The lock file pass: a commit that changes a manifest gets its `Cargo.lock`
//! freshened.
//!
//! Every package, a workspace root too, is resolved in a scratch checkout of the
//! pending commit: what is staged follows from the commit's own content, and
//! contention in the tree never blocks it. Whether to stage is decided by
//! comparing bytes with the staged lock file, never by asking cargo about the
//! tree.
use vstd::prelude::*;

use crate::action::{bytes_told, flag_told, text_told, Action, Answer, Asked, Reply, Request, Told};
use crate::command::Tool;
use crate::manifest::{is_workspace, workspace};
use crate::path::{a_relative_path_stands_behind_its_directory, resolve, resolved};
use crate::scratch::{own_dir, self_dir};
use crate::text::{clone_bytes, decode_opt, opt_bytes, opt_decoded, same_bytes, same_opt_bytes};

verus! {

/// How far the lock file pass has come, over the kinds of text and bytes in it.
#[derive(Debug)]
pub enum LockPhase<S, B> {
    /// The staged manifest is being read.
    Manifest,
    /// The staged lock file is being read.
    Blob,
    /// A scratch checkout is being built.
    Building,
    /// A scratch checkout, in a directory, is being resolved.
    Scratch(S),
    /// The lock file of a resolved scratch checkout is being read.
    Fetching,
    /// The tree's lock file is being brought in line with new bytes.
    Syncing(B),
    /// The lock file is being staged.
    Staging,
    /// A last message is being printed.
    Ending,
    /// Nothing is left to do.
    Finished,
}

/// The lock file pass of a hook run.
#[derive(Debug)]
pub struct LockPass {
    root: String,
    at_start: Option<Vec<u8>>,
    whole: bool,
    staged: Option<Vec<u8>>,
    phase: LockPhase<String, Vec<u8>>,
}

/// The lock file pass, as contracts speak of it.
#[verifier::ext_equal]
pub struct LockState {
    /// The root of the repository.
    pub root: Seq<char>,
    /// The tree's lock file when the run began.
    pub at_start: Option<Seq<u8>>,
    /// Whether the staged manifest is a workspace's.
    pub whole: bool,
    /// The staged lock file.
    pub staged: Option<Seq<u8>>,
    /// How far the pass has come.
    pub phase: LockPhase<Seq<char>, Seq<u8>>,
}

impl View for LockPass {
    type V = LockState;

    closed spec fn view(&self) -> LockState {
        LockState {
            root: self.root@,
            at_start: opt_bytes(self.at_start),
            whole: self.whole,
            staged: opt_bytes(self.staged),
            phase: match self.phase {
                LockPhase::Manifest => LockPhase::Manifest,
                LockPhase::Blob => LockPhase::Blob,
                LockPhase::Building => LockPhase::Building,
                LockPhase::Scratch(dir) => LockPhase::Scratch(dir@),
                LockPhase::Fetching => LockPhase::Fetching,
                LockPhase::Syncing(bytes) => LockPhase::Syncing(bytes@),
                LockPhase::Staging => LockPhase::Staging,
                LockPhase::Ending => LockPhase::Ending,
                LockPhase::Finished => LockPhase::Finished,
            },
        }
    }
}

/// The lock file in a directory.
pub open spec fn lock_path(dir: Seq<char>) -> Seq<char> {
    resolved(dir, "Cargo.lock"@)
}

/// A lock file pass that has not begun.
pub open spec fn lock_fresh(root: Seq<char>, at_start: Option<Seq<u8>>) -> LockState {
    LockState { root, at_start, whole: false, staged: None, phase: LockPhase::Manifest }
}

/// The first request of a lock file pass.
pub open spec fn lock_start(root: Seq<char>, at_start: Option<Seq<u8>>) -> (LockState, Asked) {
    (lock_fresh(root, at_start), Action::Output(Tool::Blob("Cargo.toml"@)))
}

/// The pass ends.
pub open spec fn lock_end(st: LockState) -> (LockState, Asked) {
    (LockState { phase: LockPhase::Finished, ..st }, Action::Done)
}

/// The pass ends with a warning.
pub open spec fn lock_warn(st: LockState, message: Seq<char>) -> (LockState, Asked) {
    (LockState { phase: LockPhase::Ending, ..st }, Action::Warn(message))
}

/// The warning that cargo could not resolve the pending commit.
pub open spec fn unresolved(whole: bool) -> Seq<char> {
    if whole {
        "workspace Cargo.lock could not be resolved (CI will fail)"@
    } else {
        "Cargo.lock could not be resolved standalone (CI will fail)"@
    }
}

/// The warning that the resolved lock file is not there to be read.
pub open spec fn unreadable() -> Seq<char> {
    "resolved Cargo.lock could not be read (CI will fail)"@
}

/// New bytes are staged, unless they are staged already.
pub open spec fn lock_stage(st: LockState, bytes: Seq<u8>) -> (LockState, Asked) {
    if st.staged != Some(bytes) {
        (
            LockState { phase: LockPhase::Staging, ..st },
            Action::Stage("Cargo.lock"@, bytes),
        )
    } else {
        lock_end(st)
    }
}

/// The next request of a lock file pass, after an answer. The tree's copy is
/// brought in line only where it was the staged one when the run began. A
/// checkout that fails has printed its own warning.
pub open spec fn lock_next(st: LockState, told: Told) -> (LockState, Asked) {
    match st.phase {
        LockPhase::Manifest => (
            LockState {
                whole: workspace(opt_decoded(bytes_told(told))),
                phase: LockPhase::Blob,
                ..st
            },
            Action::Output(Tool::Blob("Cargo.lock"@)),
        ),
        LockPhase::Blob => (
            LockState { staged: bytes_told(told), phase: LockPhase::Building, ..st },
            Action::Checkout(st.root),
        ),
        LockPhase::Building => match text_told(told) {
            Some(scratch) => (
                LockState { phase: LockPhase::Scratch(own_dir(scratch)), ..st },
                Action::Status(Tool::Metadata(own_dir(scratch))),
            ),
            None => lock_end(st),
        },
        LockPhase::Scratch(dir) => if flag_told(told) {
            (
                LockState { phase: LockPhase::Fetching, ..st },
                Action::Read(lock_path(dir)),
            )
        } else {
            lock_warn(st, unresolved(st.whole))
        },
        LockPhase::Fetching => match bytes_told(told) {
            Some(bytes) => if st.at_start == st.staged {
                (
                    LockState { phase: LockPhase::Syncing(bytes), ..st },
                    Action::Write(lock_path(st.root), bytes),
                )
            } else {
                lock_stage(st, bytes)
            },
            None => lock_warn(st, unreadable()),
        },
        LockPhase::Syncing(bytes) => lock_stage(st, bytes),
        LockPhase::Staging => if flag_told(told) {
            (
                LockState { phase: LockPhase::Ending, ..st },
                Action::Note("refreshed Cargo.lock"@),
            )
        } else {
            lock_end(st)
        },
        LockPhase::Ending => lock_end(st),
        LockPhase::Finished => (st, Action::Done),
    }
}

impl LockPass {
    /// Begins a lock file pass for a repository whose lock file, as the tree
    /// held it when the run began, is given.
    pub fn start(root: String, at_start: Option<Vec<u8>>) -> (r: (LockPass, Request))
        ensures
            (r.0@, r.1@) == lock_start(root@, opt_bytes(at_start)),
    {
        (
            LockPass { root, at_start, whole: false, staged: None, phase: LockPhase::Manifest },
            Action::Output(Tool::Blob("Cargo.toml".to_owned())),
        )
    }

    fn end(&mut self) -> (r: Request)
        ensures
            (final(self)@, r@) == lock_end(old(self)@),
    {
        self.phase = LockPhase::Finished;
        Action::Done
    }

    fn warn(&mut self, message: &str) -> (r: Request)
        ensures
            (final(self)@, r@) == lock_warn(old(self)@, message@),
    {
        self.phase = LockPhase::Ending;
        Action::Warn(message.to_owned())
    }

    fn stage(&mut self, bytes: Vec<u8>) -> (r: Request)
        ensures
            (final(self)@, r@) == lock_stage(old(self)@, bytes@),
    {
        let known = match &self.staged {
            Some(staged) => same_bytes(staged, &bytes),
            None => false,
        };
        if known {
            self.end()
        } else {
            self.phase = LockPhase::Staging;
            Action::Stage("Cargo.lock".to_owned(), bytes)
        }
    }

    /// Takes an answer and makes the next request.
    pub fn step(&mut self, answer: Answer) -> (r: Request)
        ensures
            (final(self)@, r@) == lock_next(old(self)@, answer@),
    {
        let mut phase = LockPhase::Finished;
        std::mem::swap(&mut self.phase, &mut phase);
        match phase {
            LockPhase::Manifest => {
                self.whole = is_workspace(&decode_opt(answer.bytes()));
                self.phase = LockPhase::Blob;
                Action::Output(Tool::Blob("Cargo.lock".to_owned()))
            },
            LockPhase::Blob => {
                self.staged = answer.bytes();
                self.phase = LockPhase::Building;
                Action::Checkout(self.root.clone())
            },
            LockPhase::Building => match answer.text() {
                Some(scratch) => {
                    let dir = self_dir(scratch.as_str());
                    self.phase = LockPhase::Scratch(dir.clone());
                    Action::Status(Tool::Metadata(dir))
                },
                None => self.end(),
            },
            LockPhase::Scratch(dir) => if answer.flag() {
                self.phase = LockPhase::Fetching;
                Action::Read(resolve(dir.as_str(), "Cargo.lock"))
            } else if self.whole {
                self.warn("workspace Cargo.lock could not be resolved (CI will fail)")
            } else {
                self.warn("Cargo.lock could not be resolved standalone (CI will fail)")
            },
            LockPhase::Fetching => match answer.bytes() {
                Some(bytes) => if same_opt_bytes(&self.at_start, &self.staged) {
                    let out = clone_bytes(&bytes);
                    self.phase = LockPhase::Syncing(bytes);
                    Action::Write(resolve(self.root.as_str(), "Cargo.lock"), out)
                } else {
                    self.stage(bytes)
                },
                None => self.warn("resolved Cargo.lock could not be read (CI will fail)"),
            },
            LockPhase::Syncing(bytes) => self.stage(bytes),
            LockPhase::Staging => if answer.flag() {
                self.phase = LockPhase::Ending;
                Action::Note("refreshed Cargo.lock".to_owned())
            } else {
                self.end()
            },
            LockPhase::Ending => self.end(),
            LockPhase::Finished => Action::Done,
        }
    }
}

/// A lock file pass after a number of answers.
pub open spec fn lock_after(root: Seq<char>, at_start: Option<Seq<u8>>, told: Seq<Told>) -> (
    LockState,
    Asked,
)
    decreases told.len(),
{
    if told.len() == 0 {
        lock_start(root, at_start)
    } else {
        lock_next(lock_after(root, at_start, told.drop_last()).0, told.last())
    }
}

/// Bytes are the lock file that cargo resolved for the scratch checkout: the
/// checkout was complete, cargo resolved it, and its lock file was read right
/// after.
pub open spec fn resolved_in_scratch(
    root: Seq<char>,
    at_start: Option<Seq<u8>>,
    told: Seq<Told>,
    bytes: Seq<u8>,
) -> bool {
    &&& told.len() >= 5
    &&& lock_after(root, at_start, told.take(2)).1 == Asked::Checkout(root)
    &&& text_told(told[2]) matches Some(scratch) && {
        &&& lock_after(root, at_start, told.take(3)).1 == Asked::Status(
            Tool::Metadata(own_dir(scratch)),
        )
        &&& flag_told(told[3])
        &&& lock_after(root, at_start, told.take(4)).1 == Asked::Read(lock_path(own_dir(scratch)))
        &&& bytes_told(told[4]) == Some(bytes)
    }
}

/// What is known of a lock file pass after its answers.
spec fn lock_fits(root: Seq<char>, at_start: Option<Seq<u8>>, told: Seq<Told>) -> bool {
    let (st, asked) = lock_after(root, at_start, told);
    let n = told.len() as int;
    let was = lock_after(root, at_start, told.take(n - 1)).1;
    &&& st.root == root && st.at_start == at_start
    &&& st.phase is Finished <==> asked is Done
    &&& n >= 1 ==> st.phase !is Manifest && st.whole == workspace(opt_decoded(bytes_told(told[0])))
    &&& n >= 2 ==> (st.phase !is Manifest && st.phase !is Blob && st.staged == bytes_told(told[1])
        && lock_after(root, at_start, told.take(1)).1 == Asked::Output(
        Tool::Blob("Cargo.lock"@),
    ))
    &&& match st.phase {
        LockPhase::Manifest => n == 0 && asked == Asked::Output(Tool::Blob("Cargo.toml"@)),
        LockPhase::Blob => n == 1 && asked == Asked::Output(Tool::Blob("Cargo.lock"@)),
        LockPhase::Building => n == 2 && asked == Asked::Checkout(root),
        LockPhase::Scratch(dir) => {
            &&& n == 3 && asked == Asked::Status(Tool::Metadata(dir))
            &&& was == Asked::Checkout(root) && (text_told(told[2]) matches Some(scratch) && dir
                == own_dir(scratch))
        },
        LockPhase::Fetching => {
            &&& n == 4 && asked is Read
            &&& lock_after(root, at_start, told.take(2)).1 == Asked::Checkout(root)
            &&& text_told(told[2]) matches Some(scratch) && {
                &&& was == Asked::Status(Tool::Metadata(own_dir(scratch))) && flag_told(told[3])
                &&& asked == Asked::Read(lock_path(own_dir(scratch)))
            }
        },
        LockPhase::Syncing(bytes) => {
            &&& n == 5 && asked == Asked::Write(lock_path(root), bytes) && st.staged == at_start
            &&& resolved_in_scratch(root, at_start, told, bytes)
        },
        LockPhase::Staging => {
            &&& 5 <= n <= 6 && asked is Stage && asked->Stage_0 == "Cargo.lock"@ && st.staged
                != Some(asked->Stage_1)
            &&& resolved_in_scratch(root, at_start, told, asked->Stage_1)
        },
        LockPhase::Ending => 4 <= n <= 7 && (asked is Warn || asked is Note),
        LockPhase::Finished => true,
    }
}

proof fn lemma_lock_fits(root: Seq<char>, at_start: Option<Seq<u8>>, told: Seq<Told>)
    ensures
        lock_fits(root, at_start, told),
    decreases told.len(),
{
    if told.len() > 0 {
        let n = told.len() as int;
        let before = told.drop_last();
        lemma_lock_fits(root, at_start, before);
        assert(before =~= told.take(n - 1));
        assert forall|k: int| 0 <= k < n implies #[trigger] told.take(k) == before.take(k) by {
            assert(told.take(k) =~= before.take(k));
        }
        assert(lock_fits(root, at_start, before));
    }
}

/// The lock file that is staged is the one that cargo resolved for the scratch
/// checkout of the pending commit, whatever the answers and whether or not the
/// manifest is a workspace's. And what is staged is news to the index.
pub proof fn the_staged_lock_file_is_the_resolved_one(
    root: Seq<char>,
    at_start: Option<Seq<u8>>,
    told: Seq<Told>,
    path: Seq<char>,
    bytes: Seq<u8>,
)
    requires
        lock_after(root, at_start, told).1 == Asked::Stage(path, bytes),
    ensures
        path == "Cargo.lock"@,
        lock_after(root, at_start, told.take(1)).1 == Asked::Output(Tool::Blob("Cargo.lock"@)),
        bytes_told(told[1]) != Some(bytes),
        resolved_in_scratch(root, at_start, told, bytes),
{
    lemma_lock_fits(root, at_start, told);
}

/// A lock file in the tree that somebody was editing is left alone: the pass
/// writes to the tree only where the tree's lock file was the staged one when
/// the run began, and then it writes the lock file alone.
pub proof fn a_contended_lock_file_is_left_alone(
    root: Seq<char>,
    at_start: Option<Seq<u8>>,
    told: Seq<Told>,
    path: Seq<char>,
    bytes: Seq<u8>,
)
    requires
        lock_after(root, at_start, told).1 == Asked::Write(path, bytes),
    ensures
        path == lock_path(root),
        told.len() >= 2,
        bytes_told(told[1]) == at_start,
{
    lemma_lock_fits(root, at_start, told);
}

/// Contention in the tree never blocks the staged fix: a lock file that was
/// resolved in the scratch checkout is staged where it is news to the index,
/// whatever the tree held and whether or not it could be brought in line.
pub proof fn contention_never_blocks_the_staged_lock_file(
    st: LockState,
    bytes: Seq<u8>,
    synced: Told,
)
    requires
        st.phase is Fetching,
        st.staged != Some(bytes),
    ensures
        ({
            let (mid, asked) = lock_next(st, Told::Bytes(Some(bytes)));
            ||| asked == Asked::Stage("Cargo.lock"@, bytes)
            ||| asked is Write && lock_next(mid, synced).1 == Asked::Stage("Cargo.lock"@, bytes)
        }),
{
}

/// What is staged does not depend on the tree: two passes that are answered
/// alike up to the resolved lock file, and differ in what the tree's lock file
/// held when their runs began, stage the same bytes or neither stages any.
pub proof fn the_staged_lock_file_ignores_the_tree(
    root: Seq<char>,
    a: Option<Seq<u8>>,
    b: Option<Seq<u8>>,
    told: Seq<Told>,
    synced: Told,
)
    requires
        told.len() == 5,
    ensures
        ({
            let staged = |at_start: Option<Seq<u8>>|
                {
                    let (st, asked) = lock_after(root, at_start, told);
                    if asked is Write {
                        lock_next(st, synced).1
                    } else {
                        asked
                    }
                };
            staged(a) == staged(b)
        }),
{
    assert forall|k: int| 0 <= k <= 4 implies alike_but_start(
        lock_after(root, a, #[trigger] told.take(k)),
        lock_after(root, b, told.take(k)),
    ) by {
        lemma_alike(root, a, b, told.take(k));
    }
    assert(told.drop_last() =~= told.take(4));
    assert(alike_but_start(lock_after(root, a, told.take(4)), lock_after(root, b, told.take(4))));
    lemma_lock_fits(root, a, told.take(4));
    lemma_lock_fits(root, b, told.take(4));
}

/// Two passes are alike but for what the tree's lock file held when their runs
/// began.
spec fn alike_but_start(a: (LockState, Asked), b: (LockState, Asked)) -> bool {
    a.1 == b.1 && b.0 == (LockState { at_start: b.0.at_start, ..a.0 })
}

proof fn lemma_alike(root: Seq<char>, a: Option<Seq<u8>>, b: Option<Seq<u8>>, told: Seq<Told>)
    requires
        told.len() <= 4,
    ensures
        alike_but_start(lock_after(root, a, told), lock_after(root, b, told)),
    decreases told.len(),
{
    if told.len() > 0 {
        lemma_alike(root, a, b, told.drop_last());
        lemma_lock_fits(root, a, told.drop_last());
        lemma_lock_fits(root, b, told.drop_last());
    }
}

/// A lock file that cannot be freshened gets a warning: a checkout that cargo
/// cannot resolve, and one whose resolved lock file cannot be read.
pub proof fn a_lock_file_that_stays_stale_is_warned_about(st: LockState, told: Told)
    requires
        st.phase is Scratch || st.phase is Fetching,
    ensures
        match (st.phase, lock_next(st, told).1) {
            (LockPhase::Scratch(_), asked) => asked is Read || asked == Asked::Warn(
                unresolved(st.whole),
            ),
            (_, asked) => bytes_told(told) is None ==> asked == Asked::Warn(unreadable()),
        },
{
}

/// The lock file pass never blocks: whatever is answered, it ends.
pub proof fn the_lock_pass_never_blocks(
    root: Seq<char>,
    at_start: Option<Seq<u8>>,
    told: Seq<Told>,
)
    ensures
        told.len() >= 8 ==> lock_after(root, at_start, told).1 is Done,
{
    lemma_lock_fits(root, at_start, told);
}

/// How a lock file pass gets at the resolved lock file: it asks what the commit
/// stages of the manifest and of the lock file, has the commit checked out, has
/// cargo resolve the package in `self` below the checkout, and reads the lock
/// file there. It ends where there is no checkout, and with a warning where
/// cargo does not resolve it.
pub proof fn the_lock_file_is_resolved_in_the_checkout(
    root: Seq<char>,
    at_start: Option<Seq<u8>>,
    told: Seq<Told>,
    scratch: Seq<char>,
)
    requires
        told.len() == 4,
        scratch.len() > 0,
        scratch.last() != '/',
    ensures
        lock_after(root, at_start, told.take(0)).1 == Asked::Output(Tool::Blob("Cargo.toml"@)),
        lock_after(root, at_start, told.take(1)).1 == Asked::Output(Tool::Blob("Cargo.lock"@)),
        lock_after(root, at_start, told.take(2)).1 == Asked::Checkout(root),
        !(told[2] matches Reply::Text(Some(_))) ==> lock_after(root, at_start, told.take(3)).1
            is Done,
        told[2] == Told::Text(Some(scratch)) ==> ({
            let whole = workspace(opt_decoded(bytes_told(told[0])));
            let last = lock_after(root, at_start, told).1;
            &&& lock_after(root, at_start, told.take(3)).1 == Asked::Status(
                Tool::Metadata(scratch + "/self"@),
            )
            &&& told[3] == Told::Flag(true) ==> last == Asked::Read(
                scratch + "/self/Cargo.lock"@,
            )
            &&& told[3] != Told::Flag(true) && whole ==> last == Asked::Warn(
                "workspace Cargo.lock could not be resolved (CI will fail)"@,
            )
            &&& told[3] != Told::Flag(true) && !whole ==> last == Asked::Warn(
                "Cargo.lock could not be resolved standalone (CI will fail)"@,
            )
        }),
{
    reveal_strlit("self");
    reveal_strlit("/self");
    reveal_strlit("Cargo.lock");
    reveal_strlit("/self/Cargo.lock");
    let own = scratch + "/self"@;
    a_relative_path_stands_behind_its_directory(scratch, "self"@);
    assert(scratch + seq!['/'] + "self"@ =~= own);
    a_relative_path_stands_behind_its_directory(own, "Cargo.lock"@);
    assert(own.last() == 'f');
    assert(own + seq!['/'] + "Cargo.lock"@ =~= scratch + "/self/Cargo.lock"@);
    assert(told.take(1).drop_last() =~= told.take(0));
    assert(told.take(2).drop_last() =~= told.take(1));
    assert(told.take(3).drop_last() =~= told.take(2));
    assert(told.drop_last() =~= told.take(3));
    assert(told.take(1).last() == told[0]);
    assert(told.take(2).last() == told[1]);
    assert(told.take(3).last() == told[2]);
    assert(lock_after(root, at_start, told.take(1)).1 == Asked::Output(Tool::Blob("Cargo.lock"@)));
    assert(lock_after(root, at_start, told.take(2)).1 == Asked::Checkout(root));
}

/// What becomes of the resolved lock file: the tree's copy is overwritten with it
/// exactly where that was the staged one when the run began, and it is staged
/// exactly where it is not staged already. One that cannot be read gets a
/// warning, and one that was staged a report.
pub proof fn the_resolved_lock_file_is_taken_over(
    root: Seq<char>,
    at_start: Option<Seq<u8>>,
    told: Seq<Told>,
    path: Seq<char>,
    bytes: Seq<u8>,
    synced: Told,
    taken: Told,
)
    requires
        told.len() == 4,
        lock_after(root, at_start, told).1 == Asked::Read(path),
        root.len() > 0,
        root.last() != '/',
    ensures
        ({
            let staged = bytes_told(told[1]);
            let read = told.push(Told::Bytes(Some(bytes)));
            let asked = lock_after(root, at_start, read).1;
            let put = if staged == Some(bytes) {
                Asked::Done
            } else {
                Asked::Stage("Cargo.lock"@, bytes)
            };
            &&& lock_after(root, at_start, told.push(Told::Bytes(None))).1 == Asked::Warn(
                "resolved Cargo.lock could not be read (CI will fail)"@,
            )
            &&& staged == at_start ==> asked == Asked::Write(root + "/Cargo.lock"@, bytes)
                && lock_after(root, at_start, read.push(synced)).1 == put
            &&& staged != at_start ==> asked == put
            &&& staged != at_start && put is Stage ==> lock_after(
                root,
                at_start,
                read.push(taken),
            ).1 == (if taken == Told::Flag(true) {
                Asked::Note("refreshed Cargo.lock"@)
            } else {
                Asked::Done
            })
            &&& staged == at_start && put is Stage ==> lock_after(
                root,
                at_start,
                read.push(synced).push(taken),
            ).1 == (if taken == Told::Flag(true) {
                Asked::Note("refreshed Cargo.lock"@)
            } else {
                Asked::Done
            })
        }),
{
    reveal_strlit("Cargo.lock");
    reveal_strlit("/Cargo.lock");
    a_relative_path_stands_behind_its_directory(root, "Cargo.lock"@);
    assert(root + seq!['/'] + "Cargo.lock"@ =~= root + "/Cargo.lock"@);
    lemma_lock_fits(root, at_start, told);
    let read = told.push(Told::Bytes(Some(bytes)));
    assert(read.drop_last() =~= told);
    assert(told.push(Told::Bytes(None)).drop_last() =~= told);
    assert(read.push(synced).drop_last() =~= read);
    assert(read.push(taken).drop_last() =~= read);
    assert(read.push(synced).push(taken).drop_last() =~= read.push(synced));
}

} // verus!
