//! The safety model of a whole session, stated over everything that it asks and
//! is told.
//!
//! Two floors hold whatever the world answers. A session never blocks, and it
//! never stages foreign bytes: what it points an index entry at is an object
//! that it had made of bytes that follow from the index.
use vstd::prelude::*;
use vstd::utf8::encode_utf8;

use crate::action::{answers, bytes_told, flag_told, run_told, text_told, Asked, Reply, Told};
use crate::clippy::{
    attended, clippy_output, closer, digested, fixed_from, fixes_in, lemma_along_fixes,
    lemma_lint_step, lint_careful, lint_file, lint_next, lint_rank, lint_result, lint_valid, on_file,
    the_lint_pass_never_blocks, LintPhase, LintState,
};
use crate::command::Tool;
use crate::diagnostic::diags_in;
use crate::digest::{broken, Group};
use crate::git::{entry_mode, paths_or_none};
use crate::hook::{
    before_staged, bystanders_in, commits_manifest, commits_rust, edition_staged, hook_file,
    hook_next, hook_rank, hook_valid, is_rust, lemma_along_bystanders, lemma_along_passes,
    lemma_along_staged, lemma_bystanders, lemma_rust_in, lint_of, not_freshened, on_bystander,
    on_staged, past_riding, past_staged, rust_in, the_run_never_blocks, HookPhase, HookState,
};
use crate::list::lines;
use crate::lock::{lock_next, lock_path, LockPhase, LockState};
use crate::scratch::{
    checkout_after, checkout_bounded, checkout_next, checkout_rank,
    every_answer_brings_a_checkout_nearer, lemma_checkout_asks, names_within, own_dir,
};
use crate::session::{
    completed, session_begin, session_next, session_start, session_valid, succeeded, SessionState,
};
use crate::stage::{
    cache_info, stage_after, stage_next, stage_start, staging_is_content_addressed, ATTEMPTS,
    Progress, Stage,
};
use crate::suggest::applied;
use crate::text::{decoded, lossy, trim};

verus! {

/// A session after a number of answers.
#[verifier::opaque]
pub open spec fn session_after(told: Seq<Told>) -> (SessionState, Asked)
    decreases told.len(),
{
    if told.len() == 0 {
        session_start()
    } else {
        session_next(session_after(told.drop_last()).0, told.last())
    }
}

/// What a session asks for after the first few of its answers.
pub open spec fn asked_at(told: Seq<Told>, k: int) -> Asked {
    session_after(told.take(k)).1
}

/// Which machines of a session run at the same time, and what the others wait
/// for meanwhile.
pub open spec fn nested(st: SessionState) -> bool {
    &&& session_valid(st)
    &&& st.lint is Some ==> st.hook.phase is Linting && st.lock is None
    &&& st.lock is Some ==> st.hook.phase is Locking
    &&& st.checkout is Some <==> st.lock is Some && st.lock->0.phase is Building
    &&& st.checkout is Some ==> st.staging is None && st.lint is None
    &&& st.staging is Some ==> match (st.lint, st.lock) {
        (Some(pass), _) => pass.phase is Staging,
        (None, Some(pass)) => pass.phase is Staging,
        (None, None) => st.hook.phase is Stage,
    }
}

/// What the machine that asked is answered once staging or a checkout is over;
/// with neither under way, the answer itself.
spec fn pass_turn(st: SessionState, told: Told) -> Option<Told> {
    match st.staging {
        Some(staging) => if stage_next(staging, told).1 is Done {
            Some(Reply::Flag(succeeded(stage_next(staging, told).0)))
        } else {
            None
        },
        None => match st.checkout {
            Some(checkout) => if checkout_next(checkout, told).1 is Done {
                Some(Reply::Text(completed(checkout_next(checkout, told).0)))
            } else {
                None
            },
            None => Some(told),
        },
    }
}

/// What the run itself is answered, where its turn comes.
spec fn hook_turn(st: SessionState, told: Told) -> Option<Told> {
    match pass_turn(st, told) {
        Some(answer) => match (st.lint, st.lock) {
            (Some(pass), _) => if lint_next(pass, answer).1 is Done {
                Some(Reply::Ack)
            } else {
                None
            },
            (None, Some(pass)) => if lock_next(pass, answer).1 is Done {
                Some(Reply::Ack)
            } else {
                None
            },
            (None, None) => Some(answer),
        },
        None => None,
    }
}

/// A step of a session is a step of the run itself, of a pass, of a staging or
/// of a checkout.
proof fn lemma_turns(st: SessionState, told: Told)
    requires
        nested(st),
    ensures
        match hook_turn(st, told) {
            Some(answer) => session_next(st, told) == session_begin(
                SessionState {
                    hook: hook_next(st.hook, answer).0,
                    lint: None,
                    lock: None,
                    checkout: None,
                    staging: None,
                },
                hook_next(st.hook, answer).1,
            ),
            None => session_next(st, told).0.hook == st.hook,
        },
        hook_turn(st, told) is None ==> match pass_turn(st, told) {
            Some(answer) => match (st.lint, st.lock) {
                (Some(pass), _) => session_next(st, told) == session_begin(
                    SessionState {
                        lint: Some(lint_next(pass, answer).0),
                        staging: None,
                        ..st
                    },
                    lint_next(pass, answer).1,
                ),
                (None, Some(pass)) => session_next(st, told) == session_begin(
                    SessionState {
                        lock: Some(lock_next(pass, answer).0),
                        checkout: None,
                        staging: None,
                        ..st
                    },
                    lock_next(pass, answer).1,
                ),
                (None, None) => false,
            },
            None => match st.staging {
                Some(staging) => session_next(st, told) == (
                    SessionState { staging: Some(stage_next(staging, told).0), ..st },
                    stage_next(staging, told).1,
                ),
                None => st.checkout is Some && session_next(st, told) == (
                    SessionState {
                        checkout: Some(checkout_next(st.checkout->0, told).0),
                        ..st
                    },
                    checkout_next(st.checkout->0, told).1,
                ),
            },
        },
{
}

proof fn lemma_nested(st: SessionState, told: Told)
    requires
        nested(st),
    ensures
        nested(session_next(st, told).0),
{
    lemma_turns(st, told);
}

/// A session that waits for an answer for the run itself.
spec fn idle(st: SessionState) -> bool {
    st.lint is None && st.lock is None && st.checkout is None && st.staging is None
}

/// Whether a run knows the edition that sources are formatted for.
pub open spec fn edition_known(phase: HookPhase<Seq<u8>>) -> bool {
    &&& before_staged(phase) ==> phase is TreeManifest || phase is Staged || phase is Index
    &&& phase !is Finished
}

/// An edition is the one that the staged manifest states.
pub open spec fn edition_from_index(told: Seq<Told>, edition: Seq<char>) -> bool {
    exists|k: int|
        {
            &&& 0 <= k < told.len()
            &&& #[trigger] asked_at(told, k) == Asked::Output(Tool::Blob("Cargo.toml"@))
            &&& edition == edition_staged(bytes_told(told[k]))
        }
}

proof fn lemma_edition_prefix(told: Seq<Told>, edition: Seq<char>)
    requires
        told.len() > 0,
        edition_from_index(told.drop_last(), edition),
    ensures
        edition_from_index(told, edition),
{
    let before = told.drop_last();
    lemma_prefix(told);
    let k = choose|k: int|
        {
            &&& 0 <= k < before.len()
            &&& #[trigger] asked_at(before, k) == Asked::Output(Tool::Blob("Cargo.toml"@))
            &&& edition == edition_staged(bytes_told(before[k]))
        };
    assert(asked_at(told, k) == asked_at(before, k));
}

/// What is known of the run itself in a session: which files it is about, and
/// where the bytes that it holds came from.
spec fn hook_known(told: Seq<Told>) -> bool {
    let (st, asked) = session_after(told);
    let now = st.hook;
    let n = told.len() as int;
    let file = hook_file(now);
    &&& before_staged(now.phase) ==> now.staged.len() == 0
    &&& now.phase is Manifest ==> asked == Asked::Output(Tool::Blob("Cargo.toml"@))
    &&& edition_known(now.phase) ==> edition_from_index(told, now.edition)
    &&& on_staged(now.phase) ==> now.queue == rust_in(now.staged)
    &&& now.phase is Riding ==> !now.partial
    &&& on_bystander(now.phase) ==> !now.partial && forall|i: int|
        0 <= i < now.queue.len() ==> !now.staged.contains(#[trigger] now.queue[i])
            && !now.wip.contains(now.queue[i])
    &&& idle(st) ==> match now.phase {
        HookPhase::Blob(_) => asked == Asked::Output(Tool::Blob(file)),
        HookPhase::Format(_, blob) => {
            &&& n >= 1 && asked == Asked::Feed(Tool::Rustfmt(now.edition), blob)
            &&& asked_at(told, n - 1) == Asked::Output(Tool::Blob(file))
            &&& bytes_told(told[n - 1]) == Some(blob)
        },
        HookPhase::Compare(blob, want) => {
            &&& n >= 2 && asked == Asked::Read(file)
            &&& asked_at(told, n - 2) == Asked::Output(Tool::Blob(file))
            &&& bytes_told(told[n - 2]) == Some(blob)
            &&& asked_at(told, n - 1) == Asked::Feed(Tool::Rustfmt(now.edition), blob)
            &&& bytes_told(told[n - 1]) == Some(want)
        },
        _ => true,
    }
}

proof fn lemma_prefix(told: Seq<Told>)
    requires
        told.len() > 0,
    ensures
        forall|k: int|
            0 <= k < told.len() ==> #[trigger] asked_at(told, k) == asked_at(told.drop_last(), k),
        asked_at(told, told.len() - 1) == session_after(told.drop_last()).1,
        session_after(told) == session_next(session_after(told.drop_last()).0, told.last()),
{
    reveal(session_after);
    let before = told.drop_last();
    assert forall|k: int| 0 <= k < told.len() implies #[trigger] asked_at(told, k) == asked_at(
        before,
        k,
    ) by {
        assert(told.take(k) =~= before.take(k));
    }
    assert(told.take(told.len() - 1) =~= before);
}

/// How a step of the run itself gets at the bytes that it holds.
proof fn lemma_hook_step(was: HookState, answer: Told)
    requires
        hook_valid(was),
        before_staged(was.phase) ==> was.staged.len() == 0,
        on_staged(was.phase) ==> was.queue == rust_in(was.staged),
        was.phase is Riding ==> !was.partial,
        on_bystander(was.phase) ==> !was.partial && forall|i: int|
            0 <= i < was.queue.len() ==> !was.staged.contains(#[trigger] was.queue[i])
                && !was.wip.contains(was.queue[i]),
    ensures
        ({
            let (now, asked) = hook_next(was, answer);
            let file = hook_file(now);
            &&& before_staged(now.phase) ==> now.staged.len() == 0
            &&& now.phase is Manifest ==> asked == Asked::Output(Tool::Blob("Cargo.toml"@))
            &&& edition_known(now.phase) ==> if was.phase is Manifest {
                now.edition == edition_staged(bytes_told(answer))
            } else {
                edition_known(was.phase) && now.edition == was.edition
            }
            &&& on_staged(now.phase) ==> now.queue == rust_in(now.staged)
            &&& now.phase is Riding ==> !now.partial
            &&& on_bystander(now.phase) ==> !now.partial && forall|i: int|
                0 <= i < now.queue.len() ==> !now.staged.contains(#[trigger] now.queue[i])
                    && !now.wip.contains(now.queue[i])
            &&& match now.phase {
                HookPhase::Blob(_) => asked == Asked::Output(Tool::Blob(file)),
                HookPhase::Format(ride, blob) => {
                    &&& was.phase == HookPhase::<Seq<u8>>::Blob(ride)
                    &&& now == (HookState { phase: now.phase, ..was })
                    &&& bytes_told(answer) == Some(blob)
                    &&& asked == Asked::Feed(Tool::Rustfmt(now.edition), blob)
                },
                HookPhase::Compare(blob, want) => {
                    &&& was.phase == HookPhase::Format(true, blob)
                    &&& now == (HookState { phase: now.phase, ..was })
                    &&& bytes_told(answer) == Some(want)
                    &&& asked == Asked::Read(file)
                },
                HookPhase::Stage(ride) => {
                    &&& now == (HookState { phase: now.phase, ..was })
                    &&& bytes_told(answer) matches Some(bytes) && {
                        &&& asked == Asked::Stage(file, bytes)
                        &&& if ride {
                            was.phase matches HookPhase::Compare(_, want) && want == bytes
                        } else {
                            was.phase matches HookPhase::Format(false, blob) && bytes != blob
                        }
                    }
                },
                _ => asked !is Stage,
            }
        }),
{
    if was.phase is Riding {
        lemma_bystanders(paths_or_none(bytes_told(answer)), was.staged, was.wip);
    }
}

proof fn lemma_hook_known(told: Seq<Told>)
    requires
        told.len() > 0,
        nested(session_after(told.drop_last()).0),
        hook_known(told.drop_last()),
    ensures
        hook_known(told),
{
    let before = told.drop_last();
    let st = session_after(before).0;
    lemma_prefix(told);
    lemma_turns(st, told.last());
    if let Some(answer) = hook_turn(st, told.last()) {
        lemma_hook_step(st.hook, answer);
        assert(idle(st) ==> answer == told.last());
        assert(!idle(st) ==> bytes_told(answer) is None);
    }
    let now = session_after(told).0.hook;
    if edition_known(now.phase) {
        if edition_known(st.hook.phase) {
            lemma_edition_prefix(told, now.edition);
        } else {
            assert(st.hook.phase is Manifest);
            assert(asked_at(told, told.len() - 1) == session_after(before).1);
        }
    }
}

/// What is known of a lint pass in a session.
spec fn lint_known(told: Seq<Told>) -> bool {
    let (st, asked) = session_after(told);
    let n = told.len() as int;
    st.lint matches Some(now) ==> {
        let file = lint_file(now);
        let group = now.todo[now.next];
        let from = lint_of(st.hook);
        &&& commits_rust(st.hook.staged)
        &&& now.root == from.root && now.partial == from.partial && now.wip == from.wip
            && now.staged == from.staged && now.edition == from.edition
        &&& lint_careful(now)
        &&& now.phase is Resolving ==> asked is Canonical
        &&& now.phase is Locating ==> asked == Asked::Output(Tool::LocateProject)
        &&& now.phase is Linting ==> asked == Asked::Run(Tool::Clippy) && now.workspace
            == workspace_at(told, n, now.root)
        &&& now.todo.len() > 0 ==> now.phase !is Locating && now.phase !is Resolving && now.phase
            !is Linting && clippy_said(told, st.hook, now.workspace, now.todo)
        &&& st.staging is None ==> match now.phase {
            LintPhase::Blobbing => asked == Asked::Output(Tool::Blob(file)),
            LintPhase::Reading(blob) => {
                &&& n >= 1 && asked == Asked::Read(file)
                &&& asked_at(told, n - 1) == Asked::Output(Tool::Blob(file))
                &&& bytes_told(told[n - 1]) == Some(blob)
            },
            LintPhase::Formatting(blob, fixed) => {
                &&& n >= 2 && asked == Asked::Feed(Tool::Rustfmt(now.edition), fixed)
                &&& asked_at(told, n - 2) == Asked::Output(Tool::Blob(file))
                &&& bytes_told(told[n - 2]) == Some(blob)
                &&& asked_at(told, n - 1) == Asked::Read(file)
                &&& bytes_told(told[n - 1]) == Some(blob)
                &&& fixed_from(blob, group, fixed)
            },
            LintPhase::Writing(bytes) => {
                &&& n >= 3 && asked == Asked::Write(file, bytes)
                &&& fixed_blob(told, n - 3, st.hook, file, bytes)
            },
            _ => true,
        }
    }
}

/// The root of the workspace that clippy's paths are relative to, when clippy is
/// asked for: what a directory was resolved to right before, or the repository.
pub open spec fn workspace_at(told: Seq<Told>, k: int, root: Seq<char>) -> Seq<char> {
    if k >= 1 && asked_at(told, k - 1) is Canonical && text_told(told[k - 1]) is Some {
        text_told(told[k - 1])->0
    } else {
        root
    }
}

/// Fixes are those that clippy suggested in the course of a session, for a tree
/// that compiles.
pub open spec fn clippy_said(
    told: Seq<Told>,
    run: HookState,
    workspace: Seq<char>,
    todo: Seq<Group>,
) -> bool {
    exists|k: int|
        {
            &&& 0 <= k < told.len()
            &&& #[trigger] asked_at(told, k) == Asked::Run(Tool::Clippy)
            &&& workspace == workspace_at(told, k, run.root)
            &&& run_told(told[k]) matches Some((success, output)) && {
                &&& !broken(diags_in(lines(lossy(output))), success)
                &&& todo == fixes_in(
                    output,
                    run.root,
                    workspace,
                    run.partial,
                    run.wip,
                    run.staged,
                )
            }
        }
}

/// The suggestions for a file are among those that clippy made.
pub open spec fn clippy_suggested(told: Seq<Told>, run: HookState, group: Group) -> bool {
    exists|workspace: Seq<char>, todo: Seq<Group>|
        #[trigger] clippy_said(told, run, workspace, todo) && todo.contains(group)
}

proof fn lemma_clippy_prefix(
    told: Seq<Told>,
    run: HookState,
    workspace: Seq<char>,
    todo: Seq<Group>,
)
    requires
        told.len() > 0,
        clippy_said(told.drop_last(), run, workspace, todo),
    ensures
        clippy_said(told, run, workspace, todo),
{
    let before = told.drop_last();
    lemma_prefix(told);
    let k = choose|k: int|
        {
            &&& 0 <= k < before.len()
            &&& #[trigger] asked_at(before, k) == Asked::Run(Tool::Clippy)
            &&& workspace == workspace_at(before, k, run.root)
            &&& run_told(before[k]) matches Some((success, output)) && {
                &&& !broken(diags_in(lines(lossy(output))), success)
                &&& todo == fixes_in(
                    output,
                    run.root,
                    workspace,
                    run.partial,
                    run.wip,
                    run.staged,
                )
            }
        };
    assert(asked_at(told, k) == asked_at(before, k));
    if k >= 1 {
        assert(asked_at(told, k - 1) == asked_at(before, k - 1));
    }
    assert(workspace == workspace_at(told, k, run.root));
}

/// Bytes are a fixed blob: the indexed blob of a path with clippy's suggestions
/// for it applied, formatted where the formatter accepted the result. The
/// working copy was read after the blob and equalled it. The requests follow
/// each other from the given one on.
pub open spec fn fixed_blob(
    told: Seq<Told>,
    k: int,
    run: HookState,
    path: Seq<char>,
    bytes: Seq<u8>,
) -> bool {
    &&& 0 <= k && k + 2 < told.len()
    &&& asked_at(told, k) == Asked::Output(Tool::Blob(path))
    &&& asked_at(told, k + 1) == Asked::Read(path)
    &&& bytes_told(told[k]) is Some
    &&& bytes_told(told[k + 1]) == bytes_told(told[k])
    &&& exists|group: Group, fixed: Seq<u8>|
        {
            &&& group.file == path
            &&& clippy_suggested(told, run, group)
            &&& #[trigger] fixed_from(bytes_told(told[k])->0, group, fixed)
            &&& asked_at(told, k + 2) == Asked::Feed(Tool::Rustfmt(run.edition), fixed)
            &&& bytes == lint_result(bytes_told(told[k + 2]), fixed)
        }
}

proof fn lemma_fixed_prefix(
    told: Seq<Told>,
    k: int,
    run: HookState,
    path: Seq<char>,
    bytes: Seq<u8>,
)
    requires
        told.len() > 0,
        fixed_blob(told.drop_last(), k, run, path, bytes),
    ensures
        fixed_blob(told, k, run, path, bytes),
{
    let before = told.drop_last();
    lemma_prefix(told);
    let (group, fixed) = choose|group: Group, fixed: Seq<u8>|
        {
            &&& group.file == path
            &&& clippy_suggested(before, run, group)
            &&& #[trigger] fixed_from(bytes_told(before[k])->0, group, fixed)
            &&& asked_at(before, k + 2) == Asked::Feed(Tool::Rustfmt(run.edition), fixed)
            &&& bytes == lint_result(bytes_told(before[k + 2]), fixed)
        };
    let (workspace, todo) = choose|workspace: Seq<char>, todo: Seq<Group>|
        #[trigger] clippy_said(before, run, workspace, todo) && todo.contains(group);
    lemma_clippy_prefix(told, run, workspace, todo);
    assert(clippy_suggested(told, run, group));
    assert(asked_at(told, k) == asked_at(before, k));
    assert(asked_at(told, k + 1) == asked_at(before, k + 1));
    assert(asked_at(told, k + 2) == asked_at(before, k + 2));
    assert(fixed_from(bytes_told(told[k])->0, group, fixed));
}

proof fn lemma_lint_known(told: Seq<Told>)
    requires
        told.len() > 0,
        nested(session_after(told.drop_last()).0),
        lint_known(told.drop_last()),
    ensures
        lint_known(told),
{
    let n = told.len() as int;
    let before = told.drop_last();
    let st = session_after(before).0;
    lemma_prefix(told);
    lemma_turns(st, told.last());
    if let Some(was) = st.lint {
        if let Some(answer) = pass_turn(st, told.last()) {
            lemma_lint_step(was, answer);
            let now = lint_next(was, answer).0;
            if now.todo.len() > 0 {
                if was.phase is Linting {
                    assert(answer == told.last());
                    assert(asked_at(told, n - 1) == session_after(before).1);
                    if n >= 2 {
                        assert(asked_at(told, n - 2) == asked_at(before, n - 2));
                    }
                    assert(was.workspace == workspace_at(told, n - 1, was.root));
                    assert(clippy_said(told, st.hook, now.workspace, now.todo));
                } else {
                    lemma_clippy_prefix(told, st.hook, now.workspace, now.todo);
                }
            }
            if let LintPhase::Writing(bytes) = now.phase {
                assert(answer == told.last());
                assert(fixed_blob(told, n - 3, st.hook, lint_file(was), bytes)) by {
                    if let LintPhase::Formatting(blob, fixed) = was.phase {
                        assert(now.todo.contains(was.todo[was.next]));
                        assert(clippy_suggested(told, st.hook, was.todo[was.next]));
                        assert(asked_at(told, n - 3) == asked_at(before, n - 3));
                        assert(asked_at(told, n - 2) == asked_at(before, n - 2));
                        assert(asked_at(told, n - 1) == session_after(before).1);
                        assert(fixed_from(
                            bytes_told(told[n - 3])->0,
                            was.todo[was.next],
                            fixed,
                        ));
                    }
                }
            }
        } else if was.todo.len() > 0 {
            lemma_clippy_prefix(told, st.hook, was.workspace, was.todo);
        }
    }
}

/// A directory is a scratch checkout of the pending commit of a repository that
/// was complete at some time: the checkout's own answers led up to it.
pub open spec fn checked_out(told: Seq<Told>, m: int, root: Seq<char>, dir: Seq<char>) -> bool {
    exists|k: int|
        {
            &&& 0 <= k <= m <= told.len()
            &&& asked_at(told, k) is Scratch
            &&& completed((#[trigger] checkout_after(root, told.subrange(k, m))).0) matches Some(
                scratch,
            ) && dir == own_dir(scratch)
        }
}

/// Bytes are the lock file that cargo resolved for a complete scratch checkout
/// of the pending commit, read right after.
pub open spec fn resolved_lock(
    told: Seq<Told>,
    k: int,
    root: Seq<char>,
    bytes: Seq<u8>,
) -> bool {
    &&& 0 <= k && k + 1 < told.len()
    &&& flag_told(told[k])
    &&& bytes_told(told[k + 1]) == Some(bytes)
    &&& exists|dir: Seq<char>|
        {
            &&& asked_at(told, k) == Asked::Status(Tool::Metadata(dir))
            &&& asked_at(told, k + 1) == Asked::Read(#[trigger] lock_path(dir))
            &&& checked_out(told, k, root, dir)
        }
}

/// What the index was said to hold for the lock file, at some time before.
pub open spec fn lock_blob(told: Seq<Told>, m: int, staged: Option<Seq<u8>>) -> bool {
    exists|k: int|
        {
            &&& 0 <= k < m <= told.len()
            &&& #[trigger] asked_at(told, k) == Asked::Output(Tool::Blob("Cargo.lock"@))
            &&& bytes_told(told[k]) == staged
        }
}

proof fn lemma_lock_prefix(told: Seq<Told>, m: int)
    requires
        told.len() > 0,
        m < told.len(),
    ensures
        forall|root: Seq<char>, dir: Seq<char>|
            checked_out(told.drop_last(), m, root, dir) ==> #[trigger] checked_out(
                told,
                m,
                root,
                dir,
            ),
        forall|staged: Option<Seq<u8>>|
            lock_blob(told.drop_last(), m, staged) ==> #[trigger] lock_blob(told, m, staged),
{
    let before = told.drop_last();
    lemma_prefix(told);
    assert forall|root: Seq<char>, dir: Seq<char>|
        checked_out(before, m, root, dir) implies #[trigger] checked_out(told, m, root, dir) by {
        let k = choose|k: int|
            {
                &&& 0 <= k <= m <= before.len()
                &&& asked_at(before, k) is Scratch
                &&& completed((#[trigger] checkout_after(root, before.subrange(k, m))).0) matches Some(
                    scratch,
                ) && dir == own_dir(scratch)
            };
        assert(told.subrange(k, m) =~= before.subrange(k, m));
        assert(completed(checkout_after(root, told.subrange(k, m)).0) is Some);
    }
    assert forall|staged: Option<Seq<u8>>| lock_blob(before, m, staged) implies #[trigger] lock_blob(
        told,
        m,
        staged,
    ) by {
        let k = choose|k: int|
            {
                &&& 0 <= k < m <= before.len()
                &&& #[trigger] asked_at(before, k) == Asked::Output(Tool::Blob("Cargo.lock"@))
                &&& bytes_told(before[k]) == staged
            };
        assert(asked_at(told, k) == asked_at(before, k));
    }
}

/// What is known of a scratch checkout in a session: its own answers led up to
/// it.
spec fn checkout_known(told: Seq<Told>) -> bool {
    let (st, asked) = session_after(told);
    let n = told.len() as int;
    st.checkout matches Some(now) ==> exists|k: int|
        {
            &&& 0 <= k <= n && asked_at(told, k) is Scratch
            &&& (now, asked) == #[trigger] checkout_after(st.lock->0.root, told.subrange(k, n))
        }
}

/// What is known of a lock file pass in a session.
spec fn lock_known(told: Seq<Told>) -> bool {
    let (st, asked) = session_after(told);
    let n = told.len() as int;
    st.lock matches Some(now) ==> {
        &&& now.root == st.hook.root && now.at_start == st.hook.lock
        &&& commits_manifest(st.hook.staged)
        &&& st.hook.partial ==> st.hook.staged.contains("Cargo.lock"@)
        &&& now.phase !is Manifest && now.phase !is Blob ==> lock_blob(told, n, now.staged)
        &&& st.staging is None && st.checkout is None ==> match now.phase {
            LockPhase::Blob => asked == Asked::Output(Tool::Blob("Cargo.lock"@)),
            LockPhase::Scratch(dir) => {
                &&& asked == Asked::Status(Tool::Metadata(dir))
                &&& checked_out(told, n, now.root, dir)
            },
            LockPhase::Fetching => {
                &&& n >= 1 && flag_told(told[n - 1])
                &&& exists|dir: Seq<char>|
                    {
                        &&& asked_at(told, n - 1) == Asked::Status(Tool::Metadata(dir))
                        &&& asked == Asked::Read(#[trigger] lock_path(dir))
                        &&& checked_out(told, n - 1, now.root, dir)
                    }
            },
            LockPhase::Syncing(bytes) => {
                &&& n >= 2 && now.staged == now.at_start
                &&& asked == Asked::Write(lock_path(now.root), bytes)
                &&& resolved_lock(told, n - 2, now.root, bytes)
            },
            _ => true,
        }
    }
}

proof fn lemma_checkout_known(told: Seq<Told>)
    requires
        told.len() > 0,
        nested(session_after(told.drop_last()).0),
        checkout_known(told.drop_last()),
    ensures
        checkout_known(told),
        ({
            let st = session_after(told.drop_last()).0;
            let n = told.len() as int;
            st.checkout matches Some(was) ==> (completed(checkout_next(was, told.last()).0)
                matches Some(scratch) ==> checked_out(told, n, st.lock->0.root, own_dir(scratch)))
        }),
{
    let n = told.len() as int;
    let before = told.drop_last();
    let st = session_after(before).0;
    lemma_prefix(told);
    lemma_turns(st, told.last());
    assert(told.take(n) =~= told);
    match st.checkout {
        Some(was) => {
            let root = st.lock->0.root;
            let k = choose|k: int|
                {
                    &&& 0 <= k <= n - 1 && asked_at(before, k) is Scratch
                    &&& (was, session_after(before).1) == #[trigger] checkout_after(
                        root,
                        before.subrange(k, n - 1),
                    )
                };
            let own = told.subrange(k, n);
            assert(own.drop_last() =~= before.subrange(k, n - 1));
            assert(asked_at(told, k) == asked_at(before, k));
            assert(checkout_after(root, own) == checkout_next(was, told.last()));
        },
        None => {
            if session_after(told).0.checkout is Some {
                assert(told.subrange(n, n) =~= Seq::empty());
                assert(asked_at(told, n) is Scratch);
                assert((session_after(told).0.checkout->0, session_after(told).1)
                    == checkout_after(session_after(told).0.lock->0.root, told.subrange(n, n)));
            }
        },
    }
}

proof fn lemma_lock_known(told: Seq<Told>)
    requires
        told.len() > 0,
        nested(session_after(told.drop_last()).0),
        checkout_known(told.drop_last()),
        lock_known(told.drop_last()),
    ensures
        lock_known(told),
{
    let n = told.len() as int;
    let before = told.drop_last();
    let st = session_after(before).0;
    lemma_prefix(told);
    lemma_turns(st, told.last());
    lemma_checkout_known(told);
    lemma_lock_prefix(told, n - 1);
    if n >= 2 {
        lemma_lock_prefix(told, n - 2);
    }
    if let (Some(was), Some(now)) = (st.lock, session_after(told).0.lock) {
        if now.phase !is Blob && now.phase !is Manifest {
            if was.phase is Blob {
                assert(asked_at(told, n - 1) == session_after(before).1);
            } else {
                assert(lock_blob(told, n - 1, was.staged));
            }
            assert(lock_blob(told, n, now.staged));
        }
    }
}

/// Bytes are a formatted blob: what the formatter made of the indexed blob of a
/// path. The two requests follow each other from the given one on.
pub open spec fn formatted_blob(
    told: Seq<Told>,
    k: int,
    edition: Seq<char>,
    path: Seq<char>,
    bytes: Seq<u8>,
) -> bool {
    &&& 0 <= k && k + 1 < told.len()
    &&& asked_at(told, k) == Asked::Output(Tool::Blob(path))
    &&& bytes_told(told[k]) matches Some(blob) && asked_at(told, k + 1) == Asked::Feed(
        Tool::Rustfmt(edition),
        blob,
    )
    &&& bytes_told(told[k + 1]) == Some(bytes)
}

/// A source of the commit is staged formatted.
pub open spec fn staged_source(told: Seq<Told>, path: Seq<char>, bytes: Seq<u8>) -> bool {
    let n = told.len() as int;
    let run = session_after(told).0.hook;
    &&& run.staged.contains(path) && is_rust(path)
    &&& formatted_blob(told, n - 2, run.edition, path, bytes)
}

/// A file that nobody was editing rides along with a whole commit: its working
/// copy is exactly its formatted blob.
pub open spec fn bystander(told: Seq<Told>, path: Seq<char>, bytes: Seq<u8>) -> bool {
    let n = told.len() as int;
    let run = session_after(told).0.hook;
    &&& !run.staged.contains(path) && !run.wip.contains(path) && !run.partial
    &&& formatted_blob(told, n - 3, run.edition, path, bytes)
    &&& asked_at(told, n - 1) == Asked::Read(path)
    &&& bytes_told(told[n - 1]) == Some(bytes)
}

/// A file that nobody was editing is staged with its lints fixed, in a partial
/// commit only where the commit stages it.
pub open spec fn linted(told: Seq<Told>, path: Seq<char>, bytes: Seq<u8>) -> bool {
    let n = told.len() as int;
    let run = session_after(told).0.hook;
    &&& !run.wip.contains(path) && (run.partial ==> run.staged.contains(path))
    &&& fixed_blob(told, n - 4, run, path, bytes)
    &&& asked_at(told, n - 1) == Asked::Write(path, bytes)
    &&& flag_told(told[n - 1])
}

/// The lock file is staged as cargo resolved it, where that is news to the
/// index, in a partial commit only where the commit stages it.
pub open spec fn freshened(told: Seq<Told>, path: Seq<char>, bytes: Seq<u8>) -> bool {
    let n = told.len() as int;
    let run = session_after(told).0.hook;
    &&& path == "Cargo.lock"@ && (run.partial ==> run.staged.contains(path))
    &&& exists|staged: Option<Seq<u8>>|
        {
            &&& #[trigger] lock_blob(told, n, staged)
            &&& staged != Some(bytes)
            &&& {
                ||| resolved_lock(told, n - 2, run.root, bytes)
                ||| resolved_lock(told, n - 3, run.root, bytes)
            }
        }
}

/// Bytes that a session has just given to the object store for a path follow
/// from the index, and so does the edition that they are formatted for.
pub open spec fn from_index(told: Seq<Told>, path: Seq<char>, bytes: Seq<u8>) -> bool {
    &&& session_after(told).1 == Asked::Feed(Tool::HashObject, bytes)
    &&& edition_from_index(told, session_after(told).0.hook.edition)
    &&& {
        ||| staged_source(told, path, bytes)
        ||| bystander(told, path, bytes)
        ||| linted(told, path, bytes)
        ||| freshened(told, path, bytes)
    }
}

/// What is known of a staging in a session: its own answers led up to it, and
/// its bytes follow from the index.
spec fn staging_known(told: Seq<Told>) -> bool {
    let (st, asked) = session_after(told);
    let n = told.len() as int;
    st.staging matches Some(now) ==> exists|k: int, bytes: Seq<u8>|
        {
            &&& 0 <= k <= n && from_index(told.take(k), now.path, bytes)
            &&& (now, asked) == #[trigger] stage_after(now.path, bytes, told.subrange(k, n))
            &&& staging_asked(told, k, now.path, bytes)
        }
}

/// What a session has asked from a time on is what a staging asks.
spec fn staging_asked(told: Seq<Told>, k: int, path: Seq<char>, bytes: Seq<u8>) -> bool {
    forall|j: int|
        k <= j <= told.len() ==> #[trigger] asked_at(told, j) == stage_after(
            path,
            bytes,
            told.subrange(k, j),
        ).1
}

/// A staging begins with bytes that follow from the index.
proof fn lemma_staging_begins(told: Seq<Told>) -> (bytes: Seq<u8>)
    requires
        told.len() > 0,
        nested(session_after(told.drop_last()).0),
        hook_known(told.drop_last()),
        lint_known(told.drop_last()),
        lock_known(told.drop_last()),
        pass_turn(session_after(told.drop_last()).0, told.last()) is Some,
        session_after(told).0.staging is Some,
    ensures
        ({
            let (st, asked) = session_after(told);
            let path = st.staging->0.path;
            &&& from_index(told, path, bytes)
            &&& (st.staging->0, asked) == stage_start(path, bytes)
        }),
{
    let n = told.len() as int;
    let before = told.drop_last();
    let was = session_after(before).0;
    let (now, asked) = session_after(told);
    let answer = pass_turn(was, told.last())->0;
    lemma_prefix(told);
    lemma_turns(was, told.last());
    assert(told.take(n) =~= told);
    assert(told.take(n - 1) =~= before);
    let path = now.staging->0.path;
    let bytes = asked->Feed_1;
    lemma_edition_prefix(told, was.hook.edition);
    match (was.lint, was.lock) {
        (Some(pass), _) => {
            lemma_lint_step(pass, answer);
            lemma_fixed_prefix(told, n - 4, was.hook, path, bytes);
            assert(linted(told, path, bytes));
        },
        (None, Some(pass)) => {
            lemma_lock_prefix(told, n - 1);
            assert(lock_blob(told, n - 1, pass.staged));
            assert(lock_blob(told, n, pass.staged));
            assert(asked_at(told, n - 1) == session_after(before).1);
            match pass.phase {
                LockPhase::Fetching => {
                    lemma_lock_prefix(told, n - 2);
                    let dir = choose|dir: Seq<char>|
                        {
                            &&& asked_at(before, n - 2) == Asked::Status(Tool::Metadata(dir))
                            &&& session_after(before).1 == Asked::Read(#[trigger] lock_path(dir))
                            &&& checked_out(before, n - 2, pass.root, dir)
                        };
                    assert(asked_at(told, n - 2) == asked_at(before, n - 2));
                    assert(checked_out(told, n - 2, pass.root, dir));
                    assert(asked_at(told, n - 1) == Asked::Read(lock_path(dir)));
                    assert(resolved_lock(told, n - 2, pass.root, bytes));
                },
                _ => {
                    lemma_lock_prefix(told, n - 3);
                    let dir = choose|dir: Seq<char>|
                        {
                            &&& asked_at(before, n - 3) == Asked::Status(Tool::Metadata(dir))
                            &&& asked_at(before, n - 2) == Asked::Read(#[trigger] lock_path(dir))
                            &&& checked_out(before, n - 3, pass.root, dir)
                        };
                    assert(asked_at(told, n - 3) == asked_at(before, n - 3));
                    assert(asked_at(told, n - 2) == asked_at(before, n - 2));
                    assert(asked_at(told, n - 2) == Asked::Read(lock_path(dir)));
                    assert(resolved_lock(told, n - 3, pass.root, bytes));
                },
            }
            assert(freshened(told, path, bytes));
        },
        (None, None) => {
            lemma_hook_step(was.hook, answer);
            lemma_rust_in(now.hook.staged);
            assert(staged_source(told, path, bytes) || bystander(told, path, bytes));
        },
    }
    bytes
}

/// A staging that has just begun is known.
proof fn lemma_staging_begun(told: Seq<Told>, bytes: Seq<u8>)
    requires
        session_after(told).0.staging is Some,
        from_index(told, session_after(told).0.staging->0.path, bytes),
        (session_after(told).0.staging->0, session_after(told).1) == stage_start(
            session_after(told).0.staging->0.path,
            bytes,
        ),
    ensures
        staging_known(told),
{
    let n = told.len() as int;
    let (now, asked) = session_after(told);
    let path = now.staging->0.path;
    assert(told.take(n) =~= told);
    assert(told.subrange(n, n) =~= Seq::empty());
    assert((now.staging->0, asked) == stage_after(path, bytes, told.subrange(n, n)));
    assert(staging_asked(told, n, path, bytes));
}

/// A staging that goes on stays known.
proof fn lemma_staging_goes_on(told: Seq<Told>)
    requires
        told.len() > 0,
        staging_known(told.drop_last()),
        session_after(told.drop_last()).0.staging is Some,
        session_after(told).0.staging is Some,
        (session_after(told).0.staging->0, session_after(told).1) == stage_next(
            session_after(told.drop_last()).0.staging->0,
            told.last(),
        ),
    ensures
        staging_known(told),
{
    let n = told.len() as int;
    let before = told.drop_last();
    let was = session_after(before).0.staging->0;
    let now = session_after(told).0.staging->0;
    let asked = session_after(told).1;
    lemma_prefix(told);
    let (k, bytes) = choose|k: int, bytes: Seq<u8>|
        {
            &&& 0 <= k <= n - 1 && from_index(before.take(k), was.path, bytes)
            &&& (was, session_after(before).1) == #[trigger] stage_after(
                was.path,
                bytes,
                before.subrange(k, n - 1),
            )
            &&& staging_asked(before, k, was.path, bytes)
        };
    assert(before.take(k) =~= told.take(k));
    assert(told.subrange(k, n).drop_last() =~= before.subrange(k, n - 1));
    assert((now, asked) == stage_after(now.path, bytes, told.subrange(k, n)));
    assert forall|j: int| k <= j <= n implies #[trigger] asked_at(told, j) == stage_after(
        now.path,
        bytes,
        told.subrange(k, j),
    ).1 by {
        if j < n {
            assert(told.subrange(k, j) =~= before.subrange(k, j));
            assert(asked_at(told, j) == asked_at(before, j));
        } else {
            assert(told.take(n) =~= told);
        }
    }
}

proof fn lemma_staging_known(told: Seq<Told>)
    requires
        told.len() > 0,
        nested(session_after(told.drop_last()).0),
        hook_known(told.drop_last()),
        lint_known(told.drop_last()),
        lock_known(told.drop_last()),
        staging_known(told.drop_last()),
    ensures
        staging_known(told),
{
    let was = session_after(told.drop_last()).0;
    if session_after(told).0.staging is Some {
        if pass_turn(was, told.last()) is Some {
            let bytes = lemma_staging_begins(told);
            lemma_staging_begun(told, bytes);
        } else {
            lemma_prefix(told);
            lemma_turns(was, told.last());
            lemma_staging_goes_on(told);
        }
    }
}

/// What is known of every session.
proof fn lemma_session(told: Seq<Told>)
    ensures
        nested(session_after(told).0),
        hook_known(told),
        lint_known(told),
        lock_known(told),
        checkout_known(told),
        staging_known(told),
    decreases told.len(),
{
    if told.len() == 0 {
        reveal(session_after);
    } else {
        let before = told.drop_last();
        lemma_session(before);
        lemma_prefix(told);
        lemma_nested(session_after(before).0, told.last());
        lemma_hook_known(told);
        lemma_lint_known(told);
        lemma_checkout_known(told);
        lemma_lock_known(told);
        lemma_staging_known(told);
    }
}

/// Whether a request is a single piece of work in the world.
pub open spec fn plain(asked: Asked) -> bool {
    asked !is Stage && asked !is Lint && asked !is Freshen && asked !is Checkout
}

/// A session asks for single pieces of work alone: staging, passes and checkouts
/// it sees to itself.
pub proof fn a_session_asks_for_plain_work(told: Seq<Told>)
    ensures
        plain(session_after(told).1),
{
    if told.len() == 0 {
        reveal(session_after);
    } else {
        let st = session_after(told.drop_last()).0;
        lemma_session(told.drop_last());
        lemma_prefix(told);
        lemma_turns(st, told.last());
        if let Some(checkout) = st.checkout {
            lemma_checkout_asks(checkout, told.last());
        }
    }
}

/// An index entry is asked for by a staging alone.
proof fn lemma_entry_is_staged(told: Seq<Told>, entry: Seq<char>)
    requires
        session_after(told).1 == Asked::Status(Tool::UpdateIndex(entry)),
    ensures
        session_after(told).0.staging is Some,
{
    if told.len() == 0 {
        reveal(session_after);
    } else {
        let st = session_after(told.drop_last()).0;
        lemma_session(told.drop_last());
        lemma_prefix(told);
        lemma_turns(st, told.last());
        if let Some(checkout) = st.checkout {
            lemma_checkout_asks(checkout, told.last());
        }
    }
}

proof fn lemma_staging_reads_nothing(path: Seq<char>, bytes: Seq<u8>, told: Seq<Told>)
    ensures
        stage_after(path, bytes, told).1 !is Read,
{
}

/// A session never stages foreign bytes. Whatever the world answers, an entry
/// that the index is asked to take names a path, and the object that the object
/// store named when it was given bytes for that path which follow from the
/// index: nothing is read from the working tree between the bytes and the entry.
pub proof fn every_entry_follows_from_the_index(told: Seq<Told>, entry: Seq<char>)
    requires
        session_after(told).1 == Asked::Status(Tool::UpdateIndex(entry)),
    ensures
        exists|k: int, path: Seq<char>, bytes: Seq<u8>|
            {
                &&& 0 <= k && k + 1 < told.len()
                &&& #[trigger] from_index(told.take(k), path, bytes)
                &&& bytes_told(told[k]) matches Some(name) && entry == cache_info(
                    entry_mode(bytes_told(told[k + 1])),
                    trim(lossy(name)),
                    path,
                )
                &&& forall|j: int| k <= j < told.len() ==> (#[trigger] asked_at(told, j)) !is Read
            },
{
    lemma_session(told);
    lemma_entry_is_staged(told, entry);
    let n = told.len() as int;
    let now = session_after(told).0.staging->0;
    let (k, bytes) = choose|k: int, bytes: Seq<u8>|
        {
            &&& 0 <= k <= n && from_index(told.take(k), now.path, bytes)
            &&& (now, session_after(told).1) == #[trigger] stage_after(
                now.path,
                bytes,
                told.subrange(k, n),
            )
            &&& staging_asked(told, k, now.path, bytes)
        };
    let own = told.subrange(k, n);
    staging_is_content_addressed(now.path, bytes, own, entry);
    assert(own[0] == told[k]);
    assert(own[1] == told[k + 1]);
    assert(from_index(told.take(k), now.path, bytes));
    assert forall|j: int| k <= j < n implies (#[trigger] asked_at(told, j)) !is Read by {
        lemma_staging_reads_nothing(now.path, bytes, told.subrange(k, j));
    }
}

/// A session overwrites no contended file. Whatever the world answers, a file
/// that it writes is one that nobody was editing when the session began and
/// whose working copy equalled its indexed blob when it was last read; or it is
/// the lock file, which was the staged one when the session began.
pub proof fn a_contended_file_is_not_overwritten(
    told: Seq<Told>,
    path: Seq<char>,
    bytes: Seq<u8>,
)
    requires
        session_after(told).1 == Asked::Write(path, bytes),
    ensures
        ({
            let run = session_after(told).0.hook;
            let n = told.len() as int;
            ||| {
                &&& fixed_blob(told, n - 3, run, path, bytes)
                &&& !run.wip.contains(path)
                &&& run.partial ==> run.staged.contains(path)
            }
            ||| {
                &&& path == lock_path(run.root)
                &&& resolved_lock(told, n - 2, run.root, bytes)
                &&& lock_blob(told, n, run.lock)
            }
        }),
{
    lemma_session(told);
    if told.len() == 0 {
        reveal(session_after);
    } else {
        let st = session_after(told.drop_last()).0;
        lemma_session(told.drop_last());
        lemma_prefix(told);
        lemma_turns(st, told.last());
        if let Some(checkout) = st.checkout {
            lemma_checkout_asks(checkout, told.last());
        }
        let now = session_after(told).0;
        if let Some(pass) = now.lint {
            assert(attended(pass.partial, pass.wip, pass.staged, pass.todo[pass.next].file));
        }
    }
}

/// How far a lock file pass is from its end.
pub open spec fn lock_rank(st: LockState) -> nat {
    match st.phase {
        LockPhase::Manifest => 8,
        LockPhase::Blob => 7,
        LockPhase::Building => 6,
        LockPhase::Scratch(_) => 5,
        LockPhase::Fetching => 4,
        LockPhase::Syncing(_) => 3,
        LockPhase::Staging => 2,
        LockPhase::Ending => 1,
        LockPhase::Finished => 0,
    }
}

/// How far a staging is from its end.
pub open spec fn stage_rank(st: Stage) -> nat {
    let left = |attempt: u64| if attempt < ATTEMPTS { 2 * (ATTEMPTS - attempt) } else { 0 };
    match st.progress {
        Progress::Hashing => 2 * ATTEMPTS as nat + 4,
        Progress::Listing(_) => 2 * ATTEMPTS as nat + 3,
        Progress::Updating(attempt, _) => (left(attempt) + 2) as nat,
        Progress::Pausing(attempt, _) => (left(attempt) + 3) as nat,
        Progress::GivingUp => 1,
        Progress::Finished(_) => 0,
    }
}

/// How far a session is from its end: the rank of the run, of the pass that is
/// running, and of the staging that is under way.
pub open spec fn session_rank(st: SessionState) -> ((nat, nat, nat), (nat, nat, nat), nat) {
    let pass = match (st.lint, st.lock) {
        (Some(pass), _) => lint_rank(pass),
        (None, Some(pass)) => (lock_rank(pass), 0, 0),
        (None, None) => (0, 0, 0),
    };
    let stage = match st.staging {
        Some(staging) => stage_rank(staging),
        None => 0,
    };
    (hook_rank(st.hook), pass, stage)
}

/// The lexicographic order of the ranks of sessions.
pub open spec fn nearer(
    a: ((nat, nat, nat), (nat, nat, nat), nat),
    b: ((nat, nat, nat), (nat, nat, nat), nat),
) -> bool {
    ||| closer(a.0, b.0)
    ||| a.0 == b.0 && closer(a.1, b.1)
    ||| a.0 == b.0 && a.1 == b.1 && a.2 < b.2
}

/// A session never blocks. Whatever the world answers, every answer brings it
/// nearer to its end, but for those that a scratch checkout is built from: these
/// bring the checkout nearer to its own, see `a_session_ends`. At its end the
/// session asks for nothing more.
pub proof fn a_session_never_blocks(st: SessionState, told: Told)
    requires
        nested(st),
    ensures
        nested(session_next(st, told).0),
        st.hook.phase is Finished ==> session_next(st, told).1 is Done && session_next(
            st,
            told,
        ).0.hook.phase is Finished,
        st.hook.phase !is Finished ==> {
            ||| nearer(session_rank(session_next(st, told).0), session_rank(st))
            ||| {
                &&& st.checkout is Some && checkout_next(st.checkout->0, told).1 !is Done
                &&& session_next(st, told).0 == (SessionState {
                    checkout: Some(checkout_next(st.checkout->0, told).0),
                    ..st
                })
            }
        },
{
    lemma_turns(st, told);
    if let Some(answer) = hook_turn(st, told) {
        the_run_never_blocks(st.hook, answer);
    }
    if let Some(answer) = pass_turn(st, told) {
        if let Some(pass) = st.lint {
            the_lint_pass_never_blocks(pass, answer);
        }
    }
}

/// Every session keeps its machines nested, so that what holds of nested ones
/// holds throughout; and it asks for nothing more exactly when its run is at its
/// end.
pub proof fn a_session_stays_nested(told: Seq<Told>)
    ensures
        nested(session_after(told).0),
        session_after(told).1 is Done <==> session_after(told).0.hook.phase is Finished,
{
    lemma_session(told);
    if told.len() == 0 {
        reveal(session_after);
    } else {
        let st = session_after(told.drop_last()).0;
        lemma_session(told.drop_last());
        lemma_prefix(told);
        lemma_turns(st, told.last());
    }
}

/// A build is paid for only where the commit touches what a build depends on,
/// and dependencies are checked out and resolved only where it changes a
/// manifest.
pub proof fn a_commit_pays_only_for_what_it_touches(told: Seq<Told>)
    ensures
        ({
            let (st, asked) = session_after(told);
            &&& asked is Run || asked == Asked::Output(Tool::LocateProject) ==> commits_rust(
                st.hook.staged,
            )
            &&& asked is Scratch || asked is Export || (asked is Status && asked->Status_0
                is Metadata) ==> commits_manifest(st.hook.staged)
        }),
{
    lemma_session(told);
    if told.len() == 0 {
        reveal(session_after);
    } else {
        let st = session_after(told.drop_last()).0;
        lemma_session(told.drop_last());
        lemma_prefix(told);
        lemma_turns(st, told.last());
        if let Some(checkout) = st.checkout {
            lemma_checkout_asks(checkout, told.last());
        }
    }
}

/// Work in progress is never staged: of the files that somebody was editing when
/// the session began, it stages those of the commit alone, and the lock file.
pub proof fn work_in_progress_stays_out(told: Seq<Told>, path: Seq<char>, bytes: Seq<u8>)
    requires
        from_index(told, path, bytes),
        session_after(told).0.hook.wip.contains(path),
    ensures
        session_after(told).0.hook.staged.contains(path) || path == "Cargo.lock"@,
{
}

/// A partial commit gets fixes for its own files alone.
pub proof fn a_partial_commit_gets_its_own_files(told: Seq<Told>, path: Seq<char>, bytes: Seq<u8>)
    requires
        from_index(told, path, bytes),
        session_after(told).0.hook.partial,
    ensures
        session_after(told).0.hook.staged.contains(path),
{
}

/// Whether the blob of a path was asked for in the course of a session.
pub open spec fn blob_asked(told: Seq<Told>, path: Seq<char>) -> bool {
    exists|k: int|
        0 <= k <= told.len() && #[trigger] asked_at(told, k) == Asked::Output(Tool::Blob(path))
}

proof fn lemma_blob_asked(told: Seq<Told>, path: Seq<char>)
    requires
        told.len() > 0,
        blob_asked(told.drop_last(), path),
    ensures
        blob_asked(told, path),
{
    let before = told.drop_last();
    let k = choose|k: int|
        0 <= k <= before.len() && #[trigger] asked_at(before, k) == Asked::Output(Tool::Blob(path));
    lemma_prefix(told);
    assert(asked_at(told, k) == asked_at(before, k));
}

proof fn lemma_sources_in_turn(told: Seq<Told>)
    ensures
        ({
            let now = session_after(told).0.hook;
            let all = rust_in(now.staged);
            &&& on_staged(now.phase) ==> forall|i: int|
                0 <= i <= now.next ==> blob_asked(told, #[trigger] all[i])
            &&& past_staged(now.phase) ==> forall|i: int|
                0 <= i < all.len() ==> blob_asked(told, #[trigger] all[i])
        }),
    decreases told.len(),
{
    if told.len() == 0 {
        reveal(session_after);
    } else {
        let n = told.len() as int;
        let before = told.drop_last();
        let st = session_after(before).0;
        lemma_sources_in_turn(before);
        lemma_session(before);
        lemma_prefix(told);
        lemma_turns(st, told.last());
        assert(told.take(n) =~= told);
        let now = session_after(told).0.hook;
        let all = rust_in(now.staged);
        if let Some(answer) = hook_turn(st, told.last()) {
            lemma_along_staged(st.hook, answer);
        }
        if on_staged(now.phase) {
            assert forall|i: int| 0 <= i <= now.next implies blob_asked(
                told,
                #[trigger] all[i],
            ) by {
                if on_staged(st.hook.phase) && i <= st.hook.next {
                    assert(blob_asked(before, all[i]));
                    lemma_blob_asked(told, all[i]);
                } else {
                    assert(asked_at(told, n) == Asked::Output(Tool::Blob(all[i])));
                }
            }
        }
        if past_staged(now.phase) {
            assert forall|i: int| 0 <= i < all.len() implies blob_asked(
                told,
                #[trigger] all[i],
            ) by {
                assert(blob_asked(before, all[i]));
                lemma_blob_asked(told, all[i]);
            }
        }
    }
}

/// No source of the commit is left out: by the time that a session goes on to
/// anything else, or ends, it has asked for the blob of each.
pub proof fn no_source_is_left_out(told: Seq<Told>, path: Seq<char>)
    requires
        past_staged(session_after(told).0.hook.phase),
        session_after(told).0.hook.staged.contains(path),
        is_rust(path),
    ensures
        blob_asked(told, path),
{
    let all = rust_in(session_after(told).0.hook.staged);
    lemma_sources_in_turn(told);
    lemma_rust_in(session_after(told).0.hook.staged);
    let i = choose|i: int| 0 <= i < all.len() && all[i] == path;
    assert(blob_asked(told, all[i]));
}

/// The list of the files that may ride along is asked for by the run itself
/// alone, and once.
proof fn lemma_rides(told: Seq<Told>)
    ensures
        session_after(told).1 == Asked::Output(Tool::ModifiedRust) <==> session_after(
            told,
        ).0.hook.phase is Riding,
{
    if told.len() == 0 {
        reveal(session_after);
    } else {
        let st = session_after(told.drop_last()).0;
        lemma_session(told.drop_last());
        lemma_session(told);
        lemma_prefix(told);
        lemma_turns(st, told.last());
        if let Some(answer) = hook_turn(st, told.last()) {
            lemma_along_bystanders(st.hook, answer);
        }
        if let Some(checkout) = st.checkout {
            lemma_checkout_asks(checkout, told.last());
        }
    }
}

/// The files that may ride along, out of the list that git gave at some time.
pub open spec fn riders(told: Seq<Told>, k: int) -> Seq<Seq<char>> {
    let run = session_after(told).0.hook;
    bystanders_in(paths_or_none(bytes_told(told[k])), run.staged, run.wip)
}

/// How far a session has come with the files that may ride along.
spec fn riders_in_turn(told: Seq<Told>, k: int) -> bool {
    let now = session_after(told).0.hook;
    let all = riders(told, k);
    &&& on_bystander(now.phase) || past_riding(now.phase)
    &&& on_bystander(now.phase) ==> now.queue == all && forall|i: int|
        0 <= i <= now.next ==> blob_asked(told, #[trigger] all[i])
    &&& past_riding(now.phase) ==> forall|i: int|
        0 <= i < all.len() ==> blob_asked(told, #[trigger] all[i])
}

proof fn lemma_riders_in_turn(told: Seq<Told>, k: int)
    requires
        0 <= k < told.len(),
        asked_at(told, k) == Asked::Output(Tool::ModifiedRust),
    ensures
        riders_in_turn(told, k),
    decreases told.len(),
{
    let n = told.len() as int;
    let before = told.drop_last();
    let st = session_after(before).0;
    lemma_session(before);
    lemma_prefix(told);
    lemma_turns(st, told.last());
    assert(told.take(n) =~= told);
    let now = session_after(told).0.hook;
    let all = riders(told, k);
    if k == n - 1 {
        lemma_rides(before);
        assert(idle(st));
        let answer = hook_turn(st, told.last())->0;
        assert(answer == told.last());
        lemma_along_bystanders(st.hook, answer);
        if on_bystander(now.phase) {
            assert(asked_at(told, n) == Asked::Output(Tool::Blob(all[0])));
            assert(blob_asked(told, all[0]));
        }
    } else {
        assert(asked_at(before, k) == asked_at(told, k));
        lemma_riders_in_turn(before, k);
        assert(riders_in_turn(before, k));
        if let Some(answer) = hook_turn(st, told.last()) {
            lemma_along_bystanders(st.hook, answer);
        }
        assert(riders(before, k) == all);
        if on_bystander(now.phase) {
            assert forall|i: int| 0 <= i <= now.next implies blob_asked(
                told,
                #[trigger] all[i],
            ) by {
                if i <= st.hook.next {
                    assert(blob_asked(before, all[i]));
                    lemma_blob_asked(told, all[i]);
                } else {
                    assert(asked_at(told, n) == Asked::Output(Tool::Blob(all[i])));
                }
            }
        }
        if past_riding(now.phase) {
            assert forall|i: int| 0 <= i < all.len() implies blob_asked(
                told,
                #[trigger] all[i],
            ) by {
                assert(blob_asked(before, all[i]));
                lemma_blob_asked(told, all[i]);
            }
        }
    }
}

proof fn lemma_bystander_listed(
    list: Seq<Seq<char>>,
    staged: Seq<Seq<char>>,
    wip: Seq<Seq<char>>,
    path: Seq<char>,
)
    requires
        list.contains(path),
        !staged.contains(path),
        !wip.contains(path),
    ensures
        bystanders_in(list, staged, wip).contains(path),
    decreases list.len(),
{
    let rest = list.drop_last();
    let all = bystanders_in(list, staged, wip);
    let k = choose|k: int| 0 <= k < list.len() && list[k] == path;
    if k < rest.len() {
        assert(rest[k] == path);
        lemma_bystander_listed(rest, staged, wip, path);
        let i = choose|i: int|
            0 <= i < bystanders_in(rest, staged, wip).len() && bystanders_in(rest, staged, wip)[i]
                == path;
        assert(all[i] == path);
    } else {
        assert(all[all.len() - 1] == path);
    }
}

/// No bystander is left out: every modified source that git lists, that the
/// commit does not stage and that nobody was editing when the session began, has
/// its blob asked for before the session goes on to anything else, or ends.
pub proof fn no_bystander_is_left_out(told: Seq<Told>, k: int, path: Seq<char>)
    requires
        0 <= k < told.len(),
        asked_at(told, k) == Asked::Output(Tool::ModifiedRust),
        paths_or_none(bytes_told(told[k])).contains(path),
        !session_after(told).0.hook.staged.contains(path),
        !session_after(told).0.hook.wip.contains(path),
        past_riding(session_after(told).0.hook.phase),
    ensures
        blob_asked(told, path),
{
    let run = session_after(told).0.hook;
    lemma_riders_in_turn(told, k);
    lemma_bystander_listed(paths_or_none(bytes_told(told[k])), run.staged, run.wip, path);
    let all = riders(told, k);
    let i = choose|i: int| 0 <= i < all.len() && all[i] == path;
    assert(blob_asked(told, all[i]));
}

/// A bystander is staged exactly where its whole change is formatting. With its
/// blob, what the formatter made of it and its working copy answered in turn,
/// the formatted blob goes to the object store for it if and only if the
/// working copy is exactly that.
pub proof fn a_bystander_is_staged_exactly_where_pure(
    st: SessionState,
    blob: Seq<u8>,
    want: Seq<u8>,
    found: Option<Seq<u8>>,
)
    requires
        nested(st),
        st.hook.phase == HookPhase::<Seq<u8>>::Blob(true),
    ensures
        ({
            let file = hook_file(st.hook);
            let (one, feed) = session_next(st, Told::Bytes(Some(blob)));
            let (two, read) = session_next(one, Told::Bytes(Some(want)));
            let (three, last) = session_next(two, Told::Bytes(found));
            &&& feed == Asked::Feed(Tool::Rustfmt(st.hook.edition), blob)
            &&& read == Asked::Read(file)
            &&& found == Some(want) ==> last == Asked::Feed(Tool::HashObject, want)
                && three.staging is Some && three.staging->0.path == file
            &&& found != Some(want) ==> three.staging is None
        }),
{
}

/// How a step of a lock file pass moves along.
proof fn lemma_lock_along(was: LockState, answer: Told)
    ensures
        ({
            let (now, asked) = lock_next(was, answer);
            &&& now.phase is Manifest || now.phase is Blob ==> was.phase is Manifest || was.phase
                is Blob
            &&& was.phase is Manifest || was.phase is Blob ==> asked !is Done
            &&& now.phase is Building ==> asked is Checkout
            &&& was.phase is Manifest ==> now.phase is Blob
            &&& was.phase is Blob ==> now.phase is Building
        }),
{
}

/// Whether clippy was run in the course of a session.
pub open spec fn clippy_ran(told: Seq<Told>) -> bool {
    exists|k: int|
        0 <= k <= told.len() && #[trigger] asked_at(told, k) == Asked::Run(Tool::Clippy)
}

/// Whether a scratch checkout was begun in the course of a session.
pub open spec fn checkout_began(told: Seq<Told>) -> bool {
    exists|k: int| 0 <= k <= told.len() && #[trigger] asked_at(told, k) is Scratch
}

/// Whether it was said in the course of a session that a partial commit leaves
/// the lock file as it is.
pub open spec fn lock_left(told: Seq<Told>) -> bool {
    exists|k: int|
        0 <= k <= told.len() && #[trigger] asked_at(told, k) == Asked::Warn(not_freshened())
}

/// What was asked for stays asked for.
proof fn lemma_asked_before(told: Seq<Told>)
    requires
        told.len() > 0,
    ensures
        clippy_ran(told.drop_last()) ==> clippy_ran(told),
        checkout_began(told.drop_last()) ==> checkout_began(told),
        lock_left(told.drop_last()) ==> lock_left(told),
        session_after(told).1 == Asked::Run(Tool::Clippy) ==> clippy_ran(told),
        session_after(told).1 is Scratch ==> checkout_began(told),
        session_after(told).1 == Asked::Warn(not_freshened()) ==> lock_left(told),
{
    let n = told.len() as int;
    let before = told.drop_last();
    lemma_prefix(told);
    assert(told.take(n) =~= told);
    assert(asked_at(told, n) == session_after(told).1);
    if clippy_ran(before) {
        let k = choose|k: int|
            0 <= k <= before.len() && #[trigger] asked_at(before, k) == Asked::Run(Tool::Clippy);
        assert(asked_at(told, k) == asked_at(before, k));
    }
    if checkout_began(before) {
        let k = choose|k: int| 0 <= k <= before.len() && #[trigger] asked_at(before, k) is Scratch;
        assert(asked_at(told, k) == asked_at(before, k));
    }
    if lock_left(before) {
        let k = choose|k: int|
            0 <= k <= before.len() && #[trigger] asked_at(before, k) == Asked::Warn(
                not_freshened(),
            );
        assert(asked_at(told, k) == asked_at(before, k));
    }
}

/// What is known of the passes of a session.
spec fn passes_known(told: Seq<Told>) -> bool {
    let (st, asked) = session_after(told);
    let phase = st.hook.phase;
    &&& phase is Linting ==> st.lint is Some
    &&& st.lint is Some && st.lint->0.phase !is Locating && st.lint->0.phase !is Resolving
        ==> clippy_ran(told)
    &&& (phase is Locking || phase is Finished) && commits_rust(st.hook.staged) ==> clippy_ran(told)
    &&& phase is Locking ==> st.lock is Some || lock_left(told)
    &&& st.lock is Some && st.lock->0.phase !is Manifest && st.lock->0.phase !is Blob
        ==> checkout_began(told)
    &&& phase is Finished && commits_manifest(st.hook.staged) ==> checkout_began(told) || lock_left(
        told,
    )
}

proof fn lemma_passes_known(told: Seq<Told>)
    ensures
        passes_known(told),
    decreases told.len(),
{
    if told.len() == 0 {
        reveal(session_after);
    } else {
        let before = told.drop_last();
        let st = session_after(before).0;
        lemma_passes_known(before);
        assert(passes_known(before));
        lemma_session(before);
        assert(hook_known(before));
        lemma_prefix(told);
        lemma_asked_before(told);
        lemma_turns(st, told.last());
        if let Some(answer) = hook_turn(st, told.last()) {
            lemma_along_passes(st.hook, answer);
        }
        if let Some(answer) = pass_turn(st, told.last()) {
            if let Some(pass) = st.lint {
                lemma_along_fixes(pass, answer);
                lemma_lint_turn(pass, answer);
            }
            if let Some(pass) = st.lock {
                lemma_lock_along(pass, answer);
            }
        }
    }
}

/// A lint pass is past the search for the workspace once clippy is asked for.
proof fn lemma_lint_turn(was: LintState, answer: Told)
    requires
        lint_valid(was),
    ensures
        ({
            let (now, asked) = lint_next(was, answer);
            now.phase !is Locating && now.phase !is Resolving ==> asked == Asked::Run(Tool::Clippy)
                || (was.phase !is Locating && was.phase !is Resolving)
        }),
{
}

/// Every pass that a commit calls for is run. By the time that a session ends, it
/// has run clippy where the commit touches what a build depends on; and where the
/// commit changes a manifest, it has begun a scratch checkout to resolve the lock
/// file in, or has warned that a partial commit leaves the lock file as it is.
pub proof fn every_pass_is_run(told: Seq<Told>)
    requires
        session_after(told).1 is Done,
    ensures
        commits_rust(session_after(told).0.hook.staged) ==> clippy_ran(told),
        commits_manifest(session_after(told).0.hook.staged) ==> checkout_began(told) || lock_left(
            told,
        ),
{
    a_session_stays_nested(told);
    lemma_passes_known(told);
}

/// Clippy is asked for by a lint pass alone.
proof fn lemma_lints(told: Seq<Told>)
    requires
        session_after(told).1 is Run,
    ensures
        session_after(told).0.lint is Some,
        session_after(told).0.lint->0.phase is Linting,
        session_after(told).0.staging is None,
{
    lemma_session(told);
    if told.len() == 0 {
        reveal(session_after);
    } else {
        let st = session_after(told.drop_last()).0;
        lemma_session(told.drop_last());
        lemma_prefix(told);
        lemma_turns(st, told.last());
        if let Some(checkout) = st.checkout {
            lemma_checkout_asks(checkout, told.last());
        }
        if let Some(answer) = pass_turn(st, told.last()) {
            if let Some(pass) = st.lint {
                lemma_along_fixes(pass, answer);
            }
        }
    }
}

/// The fixes that the output of clippy asks for, which was given at some time.
pub open spec fn fixes_at(told: Seq<Told>, k: int, output: Seq<u8>) -> Seq<Group> {
    let run = session_after(told).0.hook;
    fixes_in(
        output,
        run.root,
        workspace_at(told, k, run.root),
        run.partial,
        run.wip,
        run.staged,
    )
}

/// A session is about to fix a file after the first few of its answers: the lint
/// pass has come to the file's suggestions, and asks for its blob.
pub open spec fn fix_begun_at(told: Seq<Told>, k: int, group: Group) -> bool {
    &&& 0 <= k <= told.len()
    &&& asked_at(told, k) == Asked::Output(Tool::Blob(group.file))
    &&& session_after(told.take(k)).0.lint matches Some(pass) && {
        &&& pass.phase is Blobbing
        &&& 0 <= pass.next < pass.todo.len()
        &&& pass.todo[pass.next] == group
    }
}

/// A session has come to the suggestions for a file.
pub open spec fn fix_begun(told: Seq<Told>, group: Group) -> bool {
    exists|k: int| #[trigger] fix_begun_at(told, k, group)
}

proof fn lemma_fix_begun(told: Seq<Told>, group: Group)
    requires
        told.len() > 0,
        fix_begun(told.drop_last(), group),
    ensures
        fix_begun(told, group),
{
    let before = told.drop_last();
    let k = choose|k: int| #[trigger] fix_begun_at(before, k, group);
    assert(told.take(k) =~= before.take(k));
    assert(fix_begun_at(told, k, group));
}

/// How far a session has come with the files that get a fix.
spec fn fixes_in_turn(told: Seq<Told>, all: Seq<Group>) -> bool {
    let st = session_after(told).0;
    let wip = st.hook.wip;
    match st.lint {
        Some(now) => {
            &&& digested(now.phase) && now.todo == all
            &&& now.phase is Reporting ==> now.next == 0
            &&& on_file(now.phase) ==> forall|i: int|
                0 <= i <= now.next ==> wip.contains((#[trigger] all[i]).file) || fix_begun(
                    told,
                    all[i],
                )
            &&& now.phase is Summing || now.phase is Finished ==> forall|i: int|
                0 <= i < all.len() ==> wip.contains((#[trigger] all[i]).file) || fix_begun(
                    told,
                    all[i],
                )
        },
        None => {
            &&& st.hook.phase is Locking || st.hook.phase is Finished
            &&& forall|i: int|
                0 <= i < all.len() ==> wip.contains((#[trigger] all[i]).file) || fix_begun(
                    told,
                    all[i],
                )
        },
    }
}

/// The run of a session stays as it is while a pass is running, but for its
/// phase.
proof fn lemma_run_kept(was: HookState, answer: Told)
    requires
        was.phase is Linting || was.phase is Locking || was.phase is Finished,
    ensures
        ({
            let now = hook_next(was, answer).0;
            &&& now == (HookState { phase: now.phase, ..was })
            &&& now.phase is Locking || now.phase is Finished
        }),
{
}

proof fn lemma_fixes_in_turn(told: Seq<Told>, k: int, output: Seq<u8>)
    requires
        0 <= k < told.len(),
        asked_at(told, k) == Asked::Run(Tool::Clippy),
        clippy_output(told[k]) == Some(output),
    ensures
        fixes_in_turn(told, fixes_at(told, k, output)),
    decreases told.len(),
{
    let n = told.len() as int;
    let before = told.drop_last();
    let st = session_after(before).0;
    let all = fixes_at(told, k, output);
    lemma_session(before);
    lemma_prefix(told);
    lemma_turns(st, told.last());
    assert(told.take(n) =~= told);
    let now = session_after(told).0;
    if k == n - 1 {
        lemma_lints(before);
        if k >= 1 {
            assert(asked_at(told, k - 1) == asked_at(before, k - 1));
        }
    } else {
        assert(asked_at(before, k) == asked_at(told, k));
        lemma_fixes_in_turn(before, k, output);
        if k >= 1 {
            assert(asked_at(told, k - 1) == asked_at(before, k - 1));
        }
    }
    assert(st.hook.phase is Linting || st.hook.phase is Locking || st.hook.phase is Finished);
    if let Some(answer) = hook_turn(st, told.last()) {
        lemma_run_kept(st.hook, answer);
    }
    assert(k < n - 1 ==> fixes_in_turn(before, all));
    if let Some(was) = st.lint {
        if let Some(answer) = pass_turn(st, told.last()) {
            lemma_fixes_step(told, was, answer, all);
        } else {
            lemma_fixes_kept(told, all);
        }
    } else {
        lemma_fixes_kept(told, all);
    }
}

/// What was begun of the fixes stays begun.
proof fn lemma_fixes_kept(told: Seq<Told>, all: Seq<Group>)
    requires
        told.len() > 0,
    ensures
        forall|i: int|
            0 <= i < all.len() && fix_begun(told.drop_last(), #[trigger] all[i]) ==> fix_begun(
                told,
                all[i],
            ),
{
    assert forall|i: int|
        0 <= i < all.len() && fix_begun(told.drop_last(), #[trigger] all[i]) implies fix_begun(
        told,
        all[i],
    ) by {
        lemma_fix_begun(told, all[i]);
    }
}

/// A step of the lint pass takes a session on with the files that get a fix.
proof fn lemma_fixes_step(told: Seq<Told>, was: LintState, answer: Told, all: Seq<Group>)
    requires
        told.len() > 0,
        nested(session_after(told.drop_last()).0),
        lint_known(told.drop_last()),
        session_after(told.drop_last()).0.lint == Some(was),
        pass_turn(session_after(told.drop_last()).0, told.last()) == Some(answer),
        ({
            let st = session_after(told.drop_last()).0;
            ||| fixes_in_turn(told.drop_last(), all)
            ||| {
                &&& was.phase is Linting && answer == told.last()
                &&& clippy_output(answer) is Some
                &&& all == fixes_in(
                    clippy_output(answer)->0,
                    was.root,
                    was.workspace,
                    was.partial,
                    was.wip,
                    was.staged,
                )
            }
        }),
    ensures
        fixes_in_turn(told, all),
{
    let n = told.len() as int;
    let before = told.drop_last();
    let st = session_after(before).0;
    let wip = st.hook.wip;
    lemma_prefix(told);
    lemma_turns(st, told.last());
    lemma_along_fixes(was, answer);
    lemma_fixes_kept(told, all);
    assert(told.take(n) =~= told);
    assert(asked_at(told, n) == session_after(told).1);
    let (now, asked) = lint_next(was, answer);
    assert(now.todo == all && digested(now.phase));
    if let Some(told_run) = hook_turn(st, told.last()) {
        lemma_run_kept(st.hook, told_run);
    }
    if on_file(now.phase) {
        assert forall|i: int| 0 <= i <= now.next implies wip.contains((#[trigger] all[i]).file)
            || fix_begun(told, all[i]) by {
            if !(on_file(was.phase) && i <= was.next) && !wip.contains(all[i].file) {
                assert(session_after(told).0.lint == Some(now));
                assert(fix_begun_at(told, n, all[i]));
            }
        }
    }
}

/// No file that gets a fix is left out: where clippy was run for a tree that
/// compiles, the session comes to the suggestions for every file that they may go
/// to and that nobody was editing, before it goes on to anything else, or ends.
pub proof fn no_fix_is_left_out(told: Seq<Told>, k: int, output: Seq<u8>, group: Group)
    requires
        0 <= k < told.len(),
        asked_at(told, k) == Asked::Run(Tool::Clippy),
        clippy_output(told[k]) == Some(output),
        fixes_at(told, k, output).contains(group),
        !session_after(told).0.hook.wip.contains(group.file),
        session_after(told).0.hook.phase is Locking || session_after(told).0.hook.phase is Finished,
    ensures
        fix_begun(told, group),
{
    let all = fixes_at(told, k, output);
    lemma_session(told);
    lemma_fixes_in_turn(told, k, output);
    let i = choose|i: int| 0 <= i < all.len() && all[i] == group;
    assert(all[i].file == group.file);
}

/// The next state of a session in which a lint pass is about a file and nothing
/// is being staged is the next state of the pass.
proof fn lemma_lint_goes_on(told: Seq<Told>, k: int, pass: LintState)
    requires
        0 <= k < told.len(),
        session_after(told.take(k)).0.lint == Some(pass),
        pass.phase is Blobbing || pass.phase is Reading || pass.phase is Formatting || pass.phase
            is Writing,
        lint_next(pass, told[k]).1 !is Done,
    ensures
        session_after(told.take(k + 1)) == session_begin(
            SessionState {
                lint: Some(lint_next(pass, told[k]).0),
                ..session_after(told.take(k)).0
            },
            lint_next(pass, told[k]).1,
        ),
{
    let st = session_after(told.take(k)).0;
    let next = told.take(k + 1);
    lemma_session(told.take(k));
    assert(next.drop_last() =~= told.take(k));
    assert(next.last() == told[k]);
    lemma_prefix(next);
    lemma_turns(st, told[k]);
}

/// A fix is applied and staged where it fits. With a file's suggestions come to,
/// where its blob is answered, its working copy is found equal to it and the
/// suggestions fit, the fixed source goes to the formatter; where the outcome
/// changes the file it is written; and where that succeeds it goes to the object
/// store, to be staged.
pub proof fn a_fix_is_staged_where_it_fits(told: Seq<Told>, k: int, group: Group, blob: Seq<u8>)
    requires
        fix_begun_at(told, k, group),
        k + 3 <= told.len(),
        bytes_told(told[k]) == Some(blob),
        bytes_told(told[k + 1]) == Some(blob),
        decoded(blob) is Some,
        applied(decoded(blob)->0, group.fixes) is Some,
    ensures
        ({
            let run = session_after(told.take(k)).0.lint->0;
            let fixed = encode_utf8(applied(decoded(blob)->0, group.fixes)->0);
            let bytes = lint_result(bytes_told(told[k + 2]), fixed);
            &&& asked_at(told, k + 1) == Asked::Read(group.file)
            &&& asked_at(told, k + 2) == Asked::Feed(Tool::Rustfmt(run.edition), fixed)
            &&& bytes != blob ==> asked_at(told, k + 3) == Asked::Write(group.file, bytes)
            &&& bytes != blob && k + 4 <= told.len() && flag_told(told[k + 3]) ==> {
                &&& asked_at(told, k + 4) == Asked::Feed(Tool::HashObject, bytes)
                &&& session_after(told.take(k + 4)).0.staging is Some
                &&& session_after(told.take(k + 4)).0.staging->0.path == group.file
            }
        }),
{
    let one = session_after(told.take(k)).0.lint->0;
    lemma_lint_goes_on(told, k, one);
    let two = lint_next(one, told[k]).0;
    lemma_lint_goes_on(told, k + 1, two);
    let three = lint_next(two, told[k + 1]).0;
    let fixed = encode_utf8(applied(decoded(blob)->0, group.fixes)->0);
    let bytes = lint_result(bytes_told(told[k + 2]), fixed);
    if bytes != blob {
        lemma_lint_goes_on(told, k + 2, three);
        let four = lint_next(three, told[k + 2]).0;
        if k + 4 <= told.len() && flag_told(told[k + 3]) {
            lemma_lint_goes_on(told, k + 3, four);
        }
    }
}

/// How far the checkout of a session is from its end.
spec fn checkout_left(st: SessionState, n: nat) -> (nat, nat, nat) {
    match st.checkout {
        Some(checkout) => checkout_rank(checkout, n),
        None => (0, 0, 0),
    }
}

/// A session ends from any time on.
proof fn lemma_session_ends(
    world: spec_fn(int) -> Told,
    names: Set<Seq<char>>,
    n: nat,
) -> (m: nat)
    requires
        names.finite(),
        forall|i: int| names_within(#[trigger] world(i), names),
        session_after(answers(world, n)).0.checkout matches Some(checkout) ==> checkout_bounded(
            checkout,
            names,
        ),
    ensures
        session_after(answers(world, m)).1 is Done,
    decreases
            session_rank(session_after(answers(world, n)).0).0.0,
            session_rank(session_after(answers(world, n)).0).0.1,
            session_rank(session_after(answers(world, n)).0).0.2,
            session_rank(session_after(answers(world, n)).0).1.0,
            session_rank(session_after(answers(world, n)).0).1.1,
            session_rank(session_after(answers(world, n)).0).1.2,
            session_rank(session_after(answers(world, n)).0).2,
            checkout_left(session_after(answers(world, n)).0, names.len()).0,
            checkout_left(session_after(answers(world, n)).0, names.len()).1,
            checkout_left(session_after(answers(world, n)).0, names.len()).2,
{
    let now = answers(world, n);
    let next = answers(world, n + 1);
    let st = session_after(now).0;
    a_session_stays_nested(now);
    if session_after(now).1 is Done {
        n
    } else {
        let told = world(n as int);
        assert(next.drop_last() =~= now);
        assert(next.last() == told);
        lemma_prefix(next);
        a_session_never_blocks(st, told);
        lemma_checkout_in_session(st, told);
        if let Some(checkout) = st.checkout {
            every_answer_brings_a_checkout_nearer(checkout, told, names);
        }
        lemma_session_ends(world, names, n + 1)
    }
}

/// Where the checkout of a session comes from.
proof fn lemma_checkout_in_session(st: SessionState, told: Told)
    requires
        nested(st),
    ensures
        session_next(st, told).0.checkout matches Some(now) ==> {
            ||| st.checkout is Some && now == checkout_next(st.checkout->0, told).0
            ||| now.seen.len() == 0 && now.queue.len() == 0 && now.inner.len() == 0
        },
{
    lemma_turns(st, told);
}

/// A session ends. Whatever the world answers, after enough answers the session
/// asks for nothing more, as long as the paths that manifests in the answers name
/// are made of finitely many segments.
pub proof fn a_session_ends(world: spec_fn(int) -> Told, names: Set<Seq<char>>)
    requires
        names.finite(),
        forall|i: int| names_within(#[trigger] world(i), names),
    ensures
        exists|n: nat| (#[trigger] session_after(answers(world, n))).1 is Done,
{
    assert(session_after(answers(world, 0)).0.checkout is None) by {
        reveal(session_after);
    }
    let n = lemma_session_ends(world, names, 0);
    assert(session_after(answers(world, n)).1 is Done);
}

} // verus!
