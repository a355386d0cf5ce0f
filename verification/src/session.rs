//! A whole run of the hook: the run itself with its passes, each request of
//! which is a single piece of work in the world.
//!
//! A run asks for passes, a pass for a checkout, and all of them for bytes to be
//! staged. A session carries these compound requests out by starting the machine
//! that is made for each, and hands the outcome back to the machine that asked.
use vstd::prelude::*;

use crate::action::{Action, Answer, Asked, Reply, Request, Told};
use crate::clippy::{lint_next, lint_start, lint_valid, LintPass, LintState};
use crate::hook::{hook_fresh, hook_next, hook_start, hook_valid, lint_of, Hook, HookState};
use crate::lock::{lock_next, lock_start, LockPass, LockState};
use crate::scratch::{checkout_next, checkout_start, Checkout, CheckoutPhase, CheckoutState};
use crate::stage::{stage_next, stage_start, Progress, Stage, Staging};

verus! {

/// A whole run of the hook.
#[derive(Debug)]
pub struct Session {
    hook: Hook,
    lint: Option<LintPass>,
    lock: Option<LockPass>,
    checkout: Option<Checkout>,
    staging: Option<Staging>,
}

/// A whole run of the hook, as contracts speak of it.
pub struct SessionState {
    /// The run itself.
    pub hook: HookState,
    /// Its lint pass, while that is running.
    pub lint: Option<LintState>,
    /// Its lock file pass, while that is running.
    pub lock: Option<LockState>,
    /// The scratch checkout of the lock file pass, while that is built.
    pub checkout: Option<CheckoutState>,
    /// The staging of bytes, while there is one.
    pub staging: Option<Stage>,
}

impl View for Session {
    type V = SessionState;

    closed spec fn view(&self) -> SessionState {
        SessionState {
            hook: self.hook@,
            lint: match self.lint {
                Some(pass) => Some(pass@),
                None => None,
            },
            lock: match self.lock {
                Some(pass) => Some(pass@),
                None => None,
            },
            checkout: match self.checkout {
                Some(checkout) => Some(checkout@),
                None => None,
            },
            staging: match self.staging {
                Some(staging) => Some(staging@),
                None => None,
            },
        }
    }
}

/// The machines of a session are in order.
pub open spec fn session_valid(st: SessionState) -> bool {
    &&& hook_valid(st.hook)
    &&& st.lint matches Some(pass) ==> lint_valid(pass)
}

/// A session that has not begun.
pub open spec fn session_fresh() -> SessionState {
    SessionState {
        hook: hook_fresh(),
        lint: None,
        lock: None,
        checkout: None,
        staging: None,
    }
}

/// The first request of a session.
pub open spec fn session_start() -> (SessionState, Asked) {
    (session_fresh(), hook_start().1)
}

/// A request is carried out: a compound one starts the machine that is made for
/// it, and any other is passed on.
pub open spec fn session_begin(st: SessionState, asked: Asked) -> (SessionState, Asked) {
    match asked {
        Action::Stage(path, bytes) => {
            let (staging, first) = stage_start(path, bytes);
            (SessionState { staging: Some(staging), ..st }, first)
        },
        Action::Lint => {
            let (pass, first) = lint_start(lint_of(st.hook));
            (SessionState { lint: Some(pass), ..st }, first)
        },
        Action::Freshen => {
            let (pass, first) = lock_start(st.hook.root, st.hook.lock);
            (SessionState { lock: Some(pass), ..st }, first)
        },
        Action::Checkout(root) => {
            let (checkout, first) = checkout_start(root);
            (SessionState { checkout: Some(checkout), ..st }, first)
        },
        _ => (st, asked),
    }
}

/// The run itself takes an answer.
pub open spec fn session_hook(st: SessionState, told: Told) -> (SessionState, Asked) {
    let (hook, asked) = hook_next(st.hook, told);
    session_begin(SessionState { hook, ..st }, asked)
}

/// The lint pass takes an answer; at its end the run goes on.
pub open spec fn session_lint(st: SessionState, pass: LintState, told: Told) -> (
    SessionState,
    Asked,
) {
    let (pass, asked) = lint_next(pass, told);
    if asked is Done {
        session_hook(SessionState { lint: None, ..st }, Reply::Ack)
    } else {
        session_begin(SessionState { lint: Some(pass), ..st }, asked)
    }
}

/// The lock file pass takes an answer; at its end the run goes on.
pub open spec fn session_lock(st: SessionState, pass: LockState, told: Told) -> (
    SessionState,
    Asked,
) {
    let (pass, asked) = lock_next(pass, told);
    if asked is Done {
        session_hook(SessionState { lock: None, ..st }, Reply::Ack)
    } else {
        session_begin(SessionState { lock: Some(pass), ..st }, asked)
    }
}

/// The pass that is running takes an answer, or else the run itself.
pub open spec fn session_pass(st: SessionState, told: Told) -> (SessionState, Asked) {
    match st.lint {
        Some(pass) => session_lint(st, pass, told),
        None => match st.lock {
            Some(pass) => session_lock(st, pass, told),
            None => session_hook(st, told),
        },
    }
}

/// The scratch directory of a checkout that is complete.
pub open spec fn completed(st: CheckoutState) -> Option<Seq<char>> {
    if st.phase == CheckoutPhase::<Seq<char>>::Finished(true) {
        Some(st.scratch)
    } else {
        None
    }
}

/// Whether bytes are staged.
pub open spec fn succeeded(st: Stage) -> bool {
    st.progress == Progress::<Seq<char>>::Finished(true)
}

/// The next request of a session, after an answer: the answer goes to the
/// innermost machine.
pub open spec fn session_next(st: SessionState, told: Told) -> (SessionState, Asked) {
    match st.staging {
        Some(staging) => {
            let (staging, asked) = stage_next(staging, told);
            if asked is Done {
                session_pass(
                    SessionState { staging: None, ..st },
                    Reply::Flag(succeeded(staging)),
                )
            } else {
                (SessionState { staging: Some(staging), ..st }, asked)
            }
        },
        None => match st.checkout {
            Some(checkout) => {
                let (checkout, asked) = checkout_next(checkout, told);
                if asked is Done {
                    session_pass(
                        SessionState { checkout: None, ..st },
                        Reply::Text(completed(checkout)),
                    )
                } else {
                    (SessionState { checkout: Some(checkout), ..st }, asked)
                }
            },
            None => session_pass(st, told),
        },
    }
}

/// Whether nothing is left to do.
fn is_done(request: &Request) -> (r: bool)
    ensures
        r == (request@ is Done),
{
    match request {
        Action::Done => true,
        _ => false,
    }
}

impl Session {
    /// The machines of the session are in order.
    pub open spec fn valid(self) -> bool {
        session_valid(self@)
    }

    /// Begins a session.
    pub fn start() -> (r: (Session, Request))
        ensures
            r.0.valid(),
            (r.0@, r.1@) == session_start(),
    {
        let (hook, request) = Hook::start();
        (Session { hook, lint: None, lock: None, checkout: None, staging: None }, request)
    }

    fn begin(&mut self, request: Request) -> (r: Request)
        requires
            old(self).valid(),
        ensures
            (final(self)@, r@) == session_begin(old(self)@, request@),
            final(self).valid(),
    {
        match request {
            Action::Stage(path, bytes) => {
                let (staging, first) = Staging::start(path, bytes);
                self.staging = Some(staging);
                first
            },
            Action::Lint => {
                let (pass, first) = self.hook.lint_pass();
                self.lint = Some(pass);
                first
            },
            Action::Freshen => {
                let (pass, first) = self.hook.lock_pass();
                self.lock = Some(pass);
                first
            },
            Action::Checkout(root) => {
                let (checkout, first) = Checkout::start(root);
                self.checkout = Some(checkout);
                first
            },
            other => other,
        }
    }

    fn run(&mut self, answer: Answer) -> (r: Request)
        requires
            old(self).valid(),
        ensures
            (final(self)@, r@) == session_hook(old(self)@, answer@),
            final(self).valid(),
    {
        let request = self.hook.step(answer);
        self.begin(request)
    }

    fn pass(&mut self, answer: Answer) -> (r: Request)
        requires
            old(self).valid(),
        ensures
            (final(self)@, r@) == session_pass(old(self)@, answer@),
            final(self).valid(),
    {
        if let Some(mut pass) = self.lint.take() {
            let request = pass.step(answer);
            if is_done(&request) {
                self.run(Reply::Ack)
            } else {
                self.lint = Some(pass);
                self.begin(request)
            }
        } else if let Some(mut pass) = self.lock.take() {
            let request = pass.step(answer);
            if is_done(&request) {
                self.run(Reply::Ack)
            } else {
                self.lock = Some(pass);
                self.begin(request)
            }
        } else {
            self.run(answer)
        }
    }

    /// Takes the answer to the last request and makes the next one. None of the
    /// requests is for staging, a pass or a checkout: the session sees to those
    /// itself.
    pub fn step(&mut self, answer: Answer) -> (r: Request)
        requires
            old(self).valid(),
        ensures
            (final(self)@, r@) == session_next(old(self)@, answer@),
            final(self).valid(),
    {
        if let Some(staging) = self.staging.take() {
            let (staging, request) = staging.step(answer);
            if is_done(&request) {
                self.pass(Reply::Flag(staging.staged()))
            } else {
                self.staging = Some(staging);
                request
            }
        } else if let Some(mut checkout) = self.checkout.take() {
            let request = checkout.step(answer);
            if is_done(&request) {
                self.pass(Reply::Text(checkout.complete()))
            } else {
                self.checkout = Some(checkout);
                request
            }
        } else {
            self.pass(answer)
        }
    }
}

/// A staging is answered for: where the index takes the entry, the machine that
/// asked for the staging hears that it worked; where the staging is given up, it
/// hears that it did not. The machine is the lint pass while one runs, else the
/// lock file pass, else the run itself.
pub proof fn the_outcome_of_a_staging_is_handed_back(
    st: SessionState,
    staging: Stage,
    n: u64,
    entry: Seq<char>,
    told: Told,
)
    requires
        st.staging == Some(staging),
        ({
            ||| staging.progress == Progress::Updating(n, entry) && told == Told::Flag(true)
            ||| staging.progress is GivingUp
        }),
    ensures
        ({
            let worked = staging.progress is Updating;
            let then = session_next(st, told).0;
            let heard = Told::Flag(worked);
            &&& st.lint matches Some(pass) ==> ({
                let (next, asked) = lint_next(pass, heard);
                &&& asked !is Done ==> then.lint == Some(next) && then.hook == st.hook
                &&& asked is Done ==> then.hook == hook_next(st.hook, Told::Ack).0
            })
            &&& st.lint is None ==> (st.lock matches Some(pass) ==> ({
                let (next, asked) = lock_next(pass, heard);
                &&& asked !is Done ==> then.lock == Some(next) && then.hook == st.hook
                &&& asked is Done ==> then.hook == hook_next(st.hook, Told::Ack).0
            }))
            &&& st.lint is None && st.lock is None ==> then.hook == hook_next(st.hook, heard).0
        }),
{
}

/// While a staging is under way the other machines wait: they stay as they are,
/// and the world is asked what the staging asks.
pub proof fn the_others_wait_for_a_staging(st: SessionState, staging: Stage, told: Told)
    requires
        st.staging == Some(staging),
        stage_next(staging, told).1 !is Done,
    ensures
        session_next(st, told) == (
            SessionState { staging: Some(stage_next(staging, told).0), ..st },
            stage_next(staging, told).1,
        ),
{
}

/// A checkout is answered for: where it is complete, the lock file pass hears its
/// directory, and where it is not, that there is none.
pub proof fn the_outcome_of_a_checkout_is_handed_back(
    st: SessionState,
    checkout: CheckoutState,
    pass: LockState,
    told: Told,
)
    requires
        st.staging is None,
        st.lint is None,
        st.lock == Some(pass),
        st.checkout == Some(checkout),
        checkout_next(checkout, told).1 is Done,
    ensures
        ({
            let over = checkout_next(checkout, told).0;
            let complete = lock_next(pass, Told::Text(Some(over.scratch)));
            let failed = lock_next(pass, Told::Text(None));
            let then = session_next(st, told).0;
            &&& over.phase == CheckoutPhase::<Seq<char>>::Finished(true) && complete.1 !is Done
                ==> then.lock == Some(complete.0)
            &&& over.phase != CheckoutPhase::<Seq<char>>::Finished(true) && failed.1 !is Done
                ==> then.lock == Some(failed.0)
            &&& over.phase != CheckoutPhase::<Seq<char>>::Finished(true) && failed.1 is Done
                ==> then.hook == hook_next(st.hook, Told::Ack).0
        }),
{
}

/// A machine is begun with what the request names: a staging with its path and
/// bytes, a checkout with its repository, the lint pass with what the run found
/// out, and the lock file pass with the root and the tree's lock file.
pub proof fn a_machine_is_begun_with_what_was_asked(
    st: SessionState,
    path: Seq<char>,
    bytes: Seq<u8>,
)
    ensures
        ({
            let (then, asked) = session_begin(st, Asked::Stage(path, bytes));
            &&& asked == Asked::Feed(crate::command::Tool::HashObject, bytes)
            &&& then.staging matches Some(staging) && staging.path == path
        }),
        ({
            let (then, asked) = session_begin(st, Asked::Checkout(path));
            &&& asked == Asked::Scratch
            &&& then.checkout matches Some(checkout) && checkout.root == path
        }),
        ({
            let (then, asked) = session_begin(st, Asked::Lint);
            &&& asked == Asked::Output(crate::command::Tool::LocateProject)
            &&& then.lint matches Some(pass) && pass.root == st.hook.root && pass.staged
                == st.hook.staged && pass.wip == st.hook.wip && pass.partial == st.hook.partial
                && pass.edition == st.hook.edition
        }),
        ({
            let (then, asked) = session_begin(st, Asked::Freshen);
            &&& asked == Asked::Output(crate::command::Tool::Blob("Cargo.toml"@))
            &&& then.lock matches Some(pass) && pass.root == st.hook.root && pass.at_start
                == st.hook.lock
        }),
{
}

/// A single piece of work that a machine asks for is asked of the world as it is,
/// and changes no machine.
pub proof fn plain_work_is_passed_on(st: SessionState, asked: Asked)
    requires
        asked !is Stage,
        asked !is Lint,
        asked !is Freshen,
        asked !is Checkout,
    ensures
        session_begin(st, asked) == (st, asked),
{
}

/// An answer goes to the machine that asked: to the lint pass while one runs, to
/// the lock file pass while that runs, and else to the run itself. What the
/// machine asks next is carried out; at the end of a pass the run goes on, and
/// hears that the pass was carried out.
pub proof fn an_answer_goes_to_the_machine_that_asked(st: SessionState, told: Told)
    requires
        st.staging is None,
        st.checkout is None,
    ensures
        st.lint matches Some(pass) ==> ({
            let (next, asked) = lint_next(pass, told);
            &&& asked !is Done ==> session_next(st, told) == session_begin(
                (SessionState { lint: Some(next), ..st }),
                asked,
            )
            &&& asked is Done ==> ({
                let (run, more) = hook_next(st.hook, Told::Ack);
                session_next(st, told) == session_begin(
                    (SessionState { lint: None, hook: run, ..st }),
                    more,
                )
            })
        }),
        st.lint is None ==> (st.lock matches Some(pass) ==> ({
            let (next, asked) = lock_next(pass, told);
            &&& asked !is Done ==> session_next(st, told) == session_begin(
                (SessionState { lock: Some(next), ..st }),
                asked,
            )
            &&& asked is Done ==> ({
                let (run, more) = hook_next(st.hook, Told::Ack);
                session_next(st, told) == session_begin(
                    (SessionState { lock: None, hook: run, ..st }),
                    more,
                )
            })
        })),
        st.lint is None && st.lock is None ==> ({
            let (run, more) = hook_next(st.hook, told);
            session_next(st, told) == session_begin((SessionState { hook: run, ..st }), more)
        }),
{
}

} // verus!
