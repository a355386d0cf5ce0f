//! What the hook asks of the world, and what the world answers.
//!
//! Every decision of the hook is a step from one answer to the next request.
//! The requests are values, so that what the hook does can be stated without
//! running anything.
use vstd::prelude::*;

use crate::command::Tool;
use crate::text::{opt_bytes, opt_text, texts};

verus! {

/// A request, over the kinds of text, bytes and list of file groups in it.
#[derive(Debug)]
pub enum Action<S, B, G> {
    /// Run a program; answered with its output, if it succeeded.
    Output(Tool<S>),
    /// Run a program on an input; answered with its output, if it succeeded.
    Feed(Tool<S>, B),
    /// Run a program; answered with whether it succeeded.
    Status(Tool<S>),
    /// Run a program; answered with its output and whether it succeeded, if it
    /// could be started.
    Run(Tool<S>),
    /// Resolve a path to its canonical form; answered with that path.
    Canonical(S),
    /// Make a directory the current one; answered with whether that worked.
    Enter(S),
    /// Look for a path; answered with whether it exists.
    Exists(S),
    /// Look up a variable of the environment; answered with its value.
    Variable(S),
    /// Read a file; answered with its bytes.
    Read(S),
    /// Read a file as text; answered with that text.
    ReadText(S),
    /// Write a file; answered with whether that worked.
    Write(S, B),
    /// Format groups of files in place for an edition, one run for each file.
    FormatTree(S, G),
    /// Point the index entry of a path at exact bytes; answered with whether
    /// that worked.
    Stage(S, B),
    /// Run the lint pass.
    Lint,
    /// Run the lock file pass.
    Freshen,
    /// Make an empty scratch directory; answered with its path.
    Scratch,
    /// Extract a tree of a repository into a directory: the repository, the
    /// tree, the directory; answered with whether that worked.
    Export(S, S, S),
    /// Build a scratch checkout of the pending commit of a repository; answered
    /// with its path.
    Checkout(S),
    /// Wait for a number of milliseconds.
    Sleep(u64),
    /// Print a warning.
    Warn(S),
    /// Print a report of what was done.
    Note(S),
    /// Nothing is left to do.
    Done,
}

/// A request as the machines make it.
pub type Request = Action<String, Vec<u8>, Vec<Vec<String>>>;

/// A request as contracts speak of it.
pub type Asked = Action<Seq<char>, Seq<u8>, Seq<Seq<Seq<char>>>>;

/// The texts of groups of strings.
pub open spec fn groups(list: Seq<Vec<String>>) -> Seq<Seq<Seq<char>>> {
    list.map_values(|g: Vec<String>| texts(g@))
}

impl View for Action<String, Vec<u8>, Vec<Vec<String>>> {
    type V = Asked;

    open spec fn view(&self) -> Asked {
        match *self {
            Action::Output(tool) => Action::Output(tool@),
            Action::Feed(tool, input) => Action::Feed(tool@, input@),
            Action::Status(tool) => Action::Status(tool@),
            Action::Run(tool) => Action::Run(tool@),
            Action::Canonical(path) => Action::Canonical(path@),
            Action::Enter(path) => Action::Enter(path@),
            Action::Exists(path) => Action::Exists(path@),
            Action::Variable(name) => Action::Variable(name@),
            Action::Read(path) => Action::Read(path@),
            Action::ReadText(path) => Action::ReadText(path@),
            Action::Write(path, bytes) => Action::Write(path@, bytes@),
            Action::FormatTree(edition, list) => Action::FormatTree(edition@, groups(list@)),
            Action::Stage(path, bytes) => Action::Stage(path@, bytes@),
            Action::Lint => Action::Lint,
            Action::Freshen => Action::Freshen,
            Action::Scratch => Action::Scratch,
            Action::Export(repo, tree, dir) => Action::Export(repo@, tree@, dir@),
            Action::Checkout(root) => Action::Checkout(root@),
            Action::Sleep(millis) => Action::Sleep(millis),
            Action::Warn(message) => Action::Warn(message@),
            Action::Note(message) => Action::Note(message@),
            Action::Done => Action::Done,
        }
    }
}

/// An answer, over the kinds of text and bytes in it.
#[derive(Debug)]
pub enum Reply<S, B> {
    /// Bytes, where there are any.
    Bytes(Option<B>),
    /// Text, where there is any.
    Text(Option<S>),
    /// Whether a request succeeded.
    Flag(bool),
    /// Whether a program that could be started succeeded, and its output.
    Ran(Option<(bool, B)>),
    /// The request was carried out.
    Ack,
}

/// An answer as the machines receive it.
pub type Answer = Reply<String, Vec<u8>>;

/// An answer as contracts speak of it.
pub type Told = Reply<Seq<char>, Seq<u8>>;

impl View for Reply<String, Vec<u8>> {
    type V = Told;

    open spec fn view(&self) -> Told {
        match *self {
            Reply::Bytes(b) => Reply::Bytes(opt_bytes(b)),
            Reply::Text(t) => Reply::Text(opt_text(t)),
            Reply::Flag(ok) => Reply::Flag(ok),
            Reply::Ran(Some((ok, out))) => Reply::Ran(Some((ok, out@))),
            Reply::Ran(None) => Reply::Ran(None),
            Reply::Ack => Reply::Ack,
        }
    }
}

/// The bytes of an answer; an answer of another kind has none.
pub open spec fn bytes_told(r: Told) -> Option<Seq<u8>> {
    match r {
        Reply::Bytes(b) => b,
        _ => None,
    }
}

/// The text of an answer; an answer of another kind has none.
pub open spec fn text_told(r: Told) -> Option<Seq<char>> {
    match r {
        Reply::Text(t) => t,
        _ => None,
    }
}

/// Whether an answer reports success; an answer of another kind does not.
pub open spec fn flag_told(r: Told) -> bool {
    match r {
        Reply::Flag(ok) => ok,
        _ => false,
    }
}

/// The outcome of a started program; an answer of another kind has none.
pub open spec fn run_told(r: Told) -> Option<(bool, Seq<u8>)> {
    match r {
        Reply::Ran(run) => run,
        _ => None,
    }
}

impl Reply<String, Vec<u8>> {
    /// The bytes of the answer.
    pub fn bytes(self) -> (r: Option<Vec<u8>>)
        ensures
            opt_bytes(r) == bytes_told(self@),
    {
        match self {
            Reply::Bytes(b) => b,
            _ => None,
        }
    }

    /// The text of the answer.
    pub fn text(self) -> (r: Option<String>)
        ensures
            opt_text(r) == text_told(self@),
    {
        match self {
            Reply::Text(t) => t,
            _ => None,
        }
    }

    /// Whether the answer reports success.
    pub fn flag(self) -> (r: bool)
        ensures
            r == flag_told(self@),
    {
        match self {
            Reply::Flag(ok) => ok,
            _ => false,
        }
    }

    /// The outcome of a started program.
    pub fn run(self) -> (r: Option<(bool, Vec<u8>)>)
        ensures
            match r {
                Some((ok, out)) => run_told(self@) == Some((ok, out@)),
                None => run_told(self@) is None,
            },
    {
        match self {
            Reply::Ran(run) => run,
            _ => None,
        }
    }
}

/// The first few answers of a world.
pub open spec fn answers(world: spec_fn(int) -> Told, n: nat) -> Seq<Told> {
    Seq::new(n, |i: int| world(i))
}

/// An answer is read as what it is: as bytes exactly where it brings bytes, as
/// text exactly where it brings text, as a success exactly where it reports one,
/// and as an outcome exactly where a program was run.
pub proof fn an_answer_is_read_as_what_it_is(
    r: Told,
    bytes: Seq<u8>,
    text: Seq<char>,
    run: (bool, Seq<u8>),
)
    ensures
        bytes_told(r) == Some(bytes) <==> r == Told::Bytes(Some(bytes)),
        text_told(r) == Some(text) <==> r == Told::Text(Some(text)),
        flag_told(r) <==> r == Told::Flag(true),
        run_told(r) == Some(run) <==> r == Told::Ran(Some(run)),
{
}

} // verus!
