//! A scratch checkout of the pending commit: the commit itself under `self`,
//! with the recursive closure of its `../` path dependencies as flat siblings,
//! as a standalone checkout would have them.
//!
//! Of a package, the closure follows the manifest at the root of each tree. Of a
//! workspace it follows every manifest of each tree, wherever that lies, and
//! every path that the workspace's own names beside the repository, where a
//! member may lie too; a sibling that cannot be extracted is left out, and cargo
//! decides whether the workspace can do without it.
use vstd::prelude::*;

use crate::action::{
    answers, bytes_told, flag_told, text_told, Action, Answer, Asked, Request, Told,
};
use crate::command::Tool;
use crate::git::{git_paths_or_none, paths_or_none};
use crate::list::{lemma_ordered, lemma_pushed};
use crate::manifest::{
    a_sibling_is_a_segment_of_a_path, a_sibling_is_one_segment, is_workspace, manifest_lines,
    mentioned, mentioned_deps, paths_named, reached, reached_deps, sibling_deps, sibling_name,
    siblings, siblings_in, what_is_reached_is_one_segment, workspace,
};
use crate::path::{
    a_path_is_its_directory_and_its_name, a_relative_path_stands_behind_its_directory, dot_last,
    the_segments_stand_between_the_slashes,
};
use crate::path::{
    absolute, descending, lemma_segments_plain, parent, parent_of, plain_segment, resolve, resolved,
    segments, segments_of,
};
use crate::text::{blank, trimming_takes_white_space_alone, white};
use crate::text::{
    chars_of, contains, decode_lossy, lossy, opt_text, same, texts, trim, trimmed,
};

verus! {

/// How far a checkout has come, over the kind of text in it. A tree of the
/// checkout is the commit's own, or that of the sibling that is named.
#[derive(Debug)]
pub enum CheckoutPhase<S> {
    /// The scratch directory is being made.
    Making,
    /// The index is being written as a tree.
    Naming,
    /// The pending commit is being extracted.
    Exporting,
    /// A sibling, named here, is being extracted.
    Sibling(S),
    /// The manifest at the root of a tree is being read.
    Reading(Option<S>),
    /// The files of a tree are being listed.
    Listing(Option<S>),
    /// The next of the other manifests of a tree is being read.
    Inner(Option<S>),
    /// A warning is being printed.
    Failing,
    /// Whether the checkout is complete.
    Finished(bool),
}

/// The building of a scratch checkout.
#[derive(Debug)]
pub struct Checkout {
    root: String,
    scratch: String,
    tree: String,
    whole: bool,
    queue: Vec<String>,
    seen: Vec<String>,
    missing: Vec<String>,
    inner: Vec<String>,
    phase: CheckoutPhase<String>,
}

/// The building of a scratch checkout, as contracts speak of it.
#[verifier::ext_equal]
pub struct CheckoutState {
    /// The root of the repository.
    pub root: Seq<char>,
    /// The scratch directory.
    pub scratch: Seq<char>,
    /// The name of the pending commit's tree.
    pub tree: Seq<char>,
    /// Whether the commit is that of a workspace.
    pub whole: bool,
    /// The siblings that are still to be looked at; the last one is next.
    pub queue: Seq<Seq<char>>,
    /// The siblings that were looked at.
    pub seen: Seq<Seq<char>>,
    /// Those of them that could not be extracted.
    pub missing: Seq<Seq<char>>,
    /// The manifests of the tree at hand that are still to be read; the last one
    /// is next.
    pub inner: Seq<Seq<char>>,
    /// How far the checkout has come.
    pub phase: CheckoutPhase<Seq<char>>,
}

impl View for Checkout {
    type V = CheckoutState;

    closed spec fn view(&self) -> CheckoutState {
        CheckoutState {
            root: self.root@,
            scratch: self.scratch@,
            tree: self.tree@,
            whole: self.whole,
            queue: texts(self.queue@),
            seen: texts(self.seen@),
            missing: texts(self.missing@),
            inner: texts(self.inner@),
            phase: match self.phase {
                CheckoutPhase::Making => CheckoutPhase::Making,
                CheckoutPhase::Naming => CheckoutPhase::Naming,
                CheckoutPhase::Exporting => CheckoutPhase::Exporting,
                CheckoutPhase::Sibling(name) => CheckoutPhase::Sibling(name@),
                CheckoutPhase::Reading(place) => CheckoutPhase::Reading(opt_text(place)),
                CheckoutPhase::Listing(place) => CheckoutPhase::Listing(opt_text(place)),
                CheckoutPhase::Inner(place) => CheckoutPhase::Inner(opt_text(place)),
                CheckoutPhase::Failing => CheckoutPhase::Failing,
                CheckoutPhase::Finished(ok) => CheckoutPhase::Finished(ok),
            },
        }
    }
}

/// Where the pending commit lies in a scratch directory.
pub open spec fn own_dir(scratch: Seq<char>) -> Seq<char> {
    resolved(scratch, "self"@)
}

/// Where the pending commit lies in a scratch directory.
pub fn self_dir(scratch: &str) -> (r: String)
    ensures
        r@ == own_dir(scratch@),
{
    resolve(scratch, "self")
}

/// The manifest in a directory.
pub open spec fn manifest_path(dir: Seq<char>) -> Seq<char> {
    resolved(dir, "Cargo.toml"@)
}

/// The directory beside the repository that holds its siblings.
pub open spec fn sibling_home(root: Seq<char>) -> Seq<char> {
    match parent(root) {
        Some(dir) => dir,
        None => Seq::empty(),
    }
}

fn sibling_home_of(root: &str) -> (r: String)
    ensures
        r@ == sibling_home(root@),
{
    match parent_of(root) {
        Some(dir) => dir,
        None => {
            let r = String::new();
            assert(r@ =~= Seq::empty());
            r
        },
    }
}

/// Where a tree lies in a scratch directory.
pub open spec fn place_dir(scratch: Seq<char>, place: Option<Seq<char>>) -> Seq<char> {
    match place {
        Some(name) => resolved(scratch, name),
        None => own_dir(scratch),
    }
}

/// The repository that a tree is extracted from.
pub open spec fn place_repo(root: Seq<char>, place: Option<Seq<char>>) -> Seq<char> {
    match place {
        Some(name) => resolved(sibling_home(root), name),
        None => root,
    }
}

/// The name that a tree has in its repository.
pub open spec fn place_tree(tree: Seq<char>, place: Option<Seq<char>>) -> Seq<char> {
    match place {
        Some(_) => "HEAD"@,
        None => tree,
    }
}

/// The path of a manifest that lies below the root of a tree.
pub open spec fn inner_manifest(path: Seq<char>) -> bool {
    &&& !absolute(path)
    &&& descending(path)
    &&& segments(path).len() >= 2
    &&& segments(path).last() == "Cargo.toml"@
}

fn is_inner_manifest(path: &str) -> (r: bool)
    ensures
        r == inner_manifest(path@),
{
    let chars = chars_of(path);
    let list = segments_of(chars.as_slice());
    let ghost all = texts(list@);
    assert(all.len() == list@.len());
    if chars.len() > 0 && chars[0] == '/' {
        return false;
    }
    if list.len() < 2 || contains(&list, "..") {
        return false;
    }
    assert(all.last() == list@[list@.len() - 1]@);
    same(list[list.len() - 1].as_str(), "Cargo.toml")
}

/// The manifests below the root of a tree, of the files of the tree.
pub open spec fn inner_manifests(paths: Seq<Seq<char>>) -> Seq<Seq<char>>
    decreases paths.len(),
{
    if paths.len() == 0 {
        Seq::empty()
    } else if inner_manifest(paths.last()) {
        inner_manifests(paths.drop_last()).push(paths.last())
    } else {
        inner_manifests(paths.drop_last())
    }
}

/// The manifests below the root of a tree, of the files of the tree.
pub fn inner_manifests_of(paths: &Vec<String>) -> (r: Vec<String>)
    ensures
        texts(r@) == inner_manifests(texts(paths@)),
{
    let ghost all = texts(paths@);
    let mut r: Vec<String> = Vec::new();
    let mut i: usize = 0;
    assert(all.take(0) =~= Seq::empty());
    assert(texts(r@) =~= inner_manifests(all.take(0)));
    while i < paths.len()
        invariant
            i <= paths@.len(),
            all == texts(paths@),
            texts(r@) == inner_manifests(all.take(i as int)),
        decreases paths@.len() - i,
    {
        let ghost before = r@;
        assert(all.take(i + 1).drop_last() =~= all.take(i as int));
        assert(all.take(i + 1).last() == paths@[i as int]@);
        if is_inner_manifest(paths[i].as_str()) {
            r.push(paths[i].clone());
            assert(texts(r@) =~= texts(before).push(paths@[i as int]@));
        }
        i = i + 1;
    }
    assert(all.take(i as int) =~= all);
    r
}

/// The directory that a file of a tree lies in, by its segments.
pub open spec fn inner_dir(path: Seq<char>) -> Seq<Seq<char>> {
    if segments(path).len() > 0 {
        segments(path).drop_last()
    } else {
        Seq::empty()
    }
}

fn inner_dir_of(path: &str) -> (r: Vec<String>)
    ensures
        texts(r@) == inner_dir(path@),
{
    let chars = chars_of(path);
    let mut list = segments_of(chars.as_slice());
    let ghost all = list@;
    assert(texts(all).len() == all.len());
    list.pop();
    assert(texts(list@) =~= inner_dir(path@));
    list
}

/// A checkout of a repository that has not begun.
pub open spec fn checkout_fresh(root: Seq<char>) -> CheckoutState {
    CheckoutState {
        root,
        scratch: Seq::empty(),
        tree: Seq::empty(),
        whole: false,
        queue: Seq::empty(),
        seen: Seq::empty(),
        missing: Seq::empty(),
        inner: Seq::empty(),
        phase: CheckoutPhase::Making,
    }
}

/// The first request of a checkout.
pub open spec fn checkout_start(root: Seq<char>) -> (CheckoutState, Asked) {
    (checkout_fresh(root), Action::Scratch)
}

/// The checkout ends.
pub open spec fn checkout_end(st: CheckoutState, ok: bool) -> (CheckoutState, Asked) {
    (CheckoutState { phase: CheckoutPhase::Finished(ok), ..st }, Action::Done)
}

/// The checkout fails with a warning.
pub open spec fn checkout_fail(st: CheckoutState, message: Seq<char>) -> (CheckoutState, Asked) {
    (CheckoutState { phase: CheckoutPhase::Failing, ..st }, Action::Warn(message))
}

/// The warning about a sibling that could not be extracted.
pub open spec fn lost(name: Seq<char>) -> Seq<char> {
    "could not export sibling dependency "@ + name
}

/// The manifest at the root of a tree is read.
pub open spec fn checkout_read(st: CheckoutState, place: Option<Seq<char>>) -> (
    CheckoutState,
    Asked,
) {
    (
        CheckoutState { phase: CheckoutPhase::Reading(place), ..st },
        Action::ReadText(manifest_path(place_dir(st.scratch, place))),
    )
}

/// The files of a tree are listed.
pub open spec fn checkout_list(st: CheckoutState, place: Option<Seq<char>>) -> (
    CheckoutState,
    Asked,
) {
    (
        CheckoutState { phase: CheckoutPhase::Listing(place), ..st },
        Action::Output(Tool::TreePaths(place_repo(st.root, place), place_tree(st.tree, place))),
    )
}

/// The request that extracts the `HEAD` of a sibling.
pub open spec fn sibling_export(root: Seq<char>, scratch: Seq<char>, name: Seq<char>) -> Asked {
    Action::Export(resolved(sibling_home(root), name), "HEAD"@, resolved(scratch, name))
}

/// The next sibling that was not looked at is extracted from its `HEAD`; with
/// none left the checkout is complete. The place of a sibling named `self` is
/// taken by the commit, so that it cannot be extracted.
pub open spec fn checkout_advance(st: CheckoutState) -> (CheckoutState, Asked)
    decreases st.queue.len(),
{
    if st.queue.len() == 0 {
        checkout_end(st, true)
    } else {
        let name = st.queue.last();
        let rest = CheckoutState { queue: st.queue.drop_last(), ..st };
        if st.seen.contains(name) {
            checkout_advance(rest)
        } else {
            let taken = CheckoutState { seen: st.seen.push(name), ..rest };
            if name != "self"@ {
                (
                    CheckoutState { phase: CheckoutPhase::Sibling(name), ..taken },
                    sibling_export(st.root, st.scratch, name),
                )
            } else if st.whole {
                checkout_advance(CheckoutState { missing: st.missing.push(name), ..taken })
            } else {
                checkout_fail(taken, lost(name))
            }
        }
    }
}

/// The next of the other manifests of a tree is read; with none left the search
/// for siblings goes on.
pub open spec fn checkout_inner(st: CheckoutState, place: Option<Seq<char>>) -> (
    CheckoutState,
    Asked,
) {
    if st.inner.len() == 0 {
        checkout_advance(st)
    } else {
        (
            CheckoutState { phase: CheckoutPhase::Inner(place), ..st },
            Action::ReadText(resolved(place_dir(st.scratch, place), st.inner.last())),
        )
    }
}

/// Whether the commit is that of a workspace, with an answer taken in: the
/// manifest at its root decides.
pub open spec fn whole_told(st: CheckoutState, told: Told) -> bool {
    if st.phase == CheckoutPhase::<Seq<char>>::Reading(None) {
        workspace(text_told(told))
    } else {
        st.whole
    }
}

/// A manifest of the checkout: the file that it was read from, and the siblings
/// that it depends on by path.
pub struct Needs {
    pub file: Seq<char>,
    pub names: Seq<Seq<char>>,
}

/// The manifest that an answer brings, if it brings one.
pub open spec fn needs_told(st: CheckoutState, told: Told) -> Option<Needs> {
    match st.phase {
        CheckoutPhase::Reading(place) => Some(
            Needs {
                file: manifest_path(place_dir(st.scratch, place)),
                names: if !whole_told(st, told) {
                    siblings(text_told(told))
                } else if place is None {
                    mentioned(text_told(told))
                } else {
                    reached(text_told(told), Seq::empty())
                },
            },
        ),
        CheckoutPhase::Inner(place) => if st.inner.len() > 0 {
            Some(
                Needs {
                    file: resolved(place_dir(st.scratch, place), st.inner.last()),
                    names: reached(text_told(told), inner_dir(st.inner.last())),
                },
            )
        } else {
            None
        },
        _ => None,
    }
}

/// The next request of a checkout, after an answer.
pub open spec fn checkout_next(st: CheckoutState, told: Told) -> (CheckoutState, Asked) {
    match st.phase {
        CheckoutPhase::Making => match text_told(told) {
            Some(scratch) => (
                CheckoutState { scratch, phase: CheckoutPhase::Naming, ..st },
                Action::Output(Tool::WriteTree),
            ),
            None => checkout_fail(st, "could not make a scratch directory (CI may fail)"@),
        },
        CheckoutPhase::Naming => match bytes_told(told) {
            Some(name) => (
                CheckoutState {
                    tree: trim(lossy(name)),
                    phase: CheckoutPhase::Exporting,
                    ..st
                },
                Action::Export(st.root, trim(lossy(name)), own_dir(st.scratch)),
            ),
            None => checkout_fail(st, "could not write the pending commit as a tree (CI may fail)"@),
        },
        CheckoutPhase::Exporting => if !flag_told(told) {
            checkout_fail(st, "could not export the pending commit"@)
        } else if parent(st.root) is None {
            checkout_fail(st, "the repository lies in no directory (CI may fail)"@)
        } else {
            checkout_read(st, None)
        },
        CheckoutPhase::Sibling(name) => if flag_told(told) {
            checkout_read(st, Some(name))
        } else if st.whole {
            checkout_advance(CheckoutState { missing: st.missing.push(name), ..st })
        } else {
            checkout_fail(st, lost(name))
        },
        CheckoutPhase::Reading(place) => {
            let more = CheckoutState {
                whole: whole_told(st, told),
                queue: st.queue + needs_told(st, told)->0.names,
                ..st
            };
            if more.whole {
                checkout_list(more, place)
            } else {
                checkout_advance(more)
            }
        },
        CheckoutPhase::Listing(place) => checkout_inner(
            CheckoutState { inner: inner_manifests(paths_or_none(bytes_told(told))), ..st },
            place,
        ),
        CheckoutPhase::Inner(place) => if st.inner.len() == 0 {
            checkout_advance(st)
        } else {
            checkout_inner(
                CheckoutState {
                    queue: st.queue + needs_told(st, told)->0.names,
                    inner: st.inner.drop_last(),
                    ..st
                },
                place,
            )
        },
        CheckoutPhase::Failing => checkout_end(st, false),
        CheckoutPhase::Finished(_) => (st, Action::Done),
    }
}

impl Checkout {
    /// Begins a scratch checkout of the pending commit of a repository.
    pub fn start(root: String) -> (r: (Checkout, Request))
        ensures
            (r.0@, r.1@) == checkout_start(root@),
    {
        let pass = Checkout {
            root,
            scratch: String::new(),
            tree: String::new(),
            whole: false,
            queue: Vec::new(),
            seen: Vec::new(),
            missing: Vec::new(),
            inner: Vec::new(),
            phase: CheckoutPhase::Making,
        };
        assert(pass@ =~= checkout_fresh(root@));
        (pass, Action::Scratch)
    }

    fn end(&mut self, ok: bool) -> (r: Request)
        ensures
            (final(self)@, r@) == checkout_end(old(self)@, ok),
    {
        self.phase = CheckoutPhase::Finished(ok);
        Action::Done
    }

    fn fail(&mut self, message: String) -> (r: Request)
        ensures
            (final(self)@, r@) == checkout_fail(old(self)@, message@),
    {
        self.phase = CheckoutPhase::Failing;
        Action::Warn(message)
    }

    fn fail_without(&mut self, name: &str) -> (r: Request)
        ensures
            (final(self)@, r@) == checkout_fail(old(self)@, lost(name@)),
    {
        let mut message = "could not export sibling dependency ".to_owned();
        message.append(name);
        self.fail(message)
    }

    fn home(&self, place: &Option<String>) -> (r: String)
        ensures
            r@ == place_dir(self@.scratch, opt_text(*place)),
    {
        match place {
            Some(name) => resolve(self.scratch.as_str(), name.as_str()),
            None => self_dir(self.scratch.as_str()),
        }
    }

    fn read(&mut self, place: Option<String>) -> (r: Request)
        ensures
            (final(self)@, r@) == checkout_read(old(self)@, opt_text(place)),
    {
        let home = self.home(&place);
        let path = resolve(home.as_str(), "Cargo.toml");
        self.phase = CheckoutPhase::Reading(place);
        Action::ReadText(path)
    }

    fn list(&mut self, place: Option<String>) -> (r: Request)
        ensures
            (final(self)@, r@) == checkout_list(old(self)@, opt_text(place)),
    {
        let (repo, tree) = match &place {
            Some(name) => {
                let home = sibling_home_of(self.root.as_str());
                (resolve(home.as_str(), name.as_str()), "HEAD".to_owned())
            },
            None => (self.root.clone(), self.tree.clone()),
        };
        self.phase = CheckoutPhase::Listing(place);
        Action::Output(Tool::TreePaths(repo, tree))
    }

    fn advance(&mut self) -> (r: Request)
        ensures
            (final(self)@, r@) == checkout_advance(old(self)@),
    {
        let ghost start = self@;
        loop
            invariant
                start == old(self)@,
                checkout_advance(start) == checkout_advance(self@),
            decreases self.queue@.len(),
        {
            let ghost now = self@;
            match self.queue.pop() {
                None => {
                    assert(self@ =~= now);
                    return self.end(true);
                },
                Some(name) => {
                    assert(now.queue.last() == name@);
                    assert(texts(self.queue@) =~= now.queue.drop_last());
                    if !contains(&self.seen, name.as_str()) {
                        let ghost seen = self.seen@;
                        self.seen.push(name.clone());
                        assert(texts(self.seen@) =~= texts(seen).push(name@));
                        if !same(name.as_str(), "self") {
                            let home = sibling_home_of(self.root.as_str());
                            let from = resolve(home.as_str(), name.as_str());
                            let to = resolve(self.scratch.as_str(), name.as_str());
                            self.phase = CheckoutPhase::Sibling(name);
                            return Action::Export(from, "HEAD".to_owned(), to);
                        }
                        if !self.whole {
                            return self.fail_without(name.as_str());
                        }
                        let ghost missing = self.missing@;
                        self.missing.push(name);
                        assert(texts(self.missing@) =~= texts(missing).push(name@));
                    }
                },
            }
        }
    }

    fn next_inner(&mut self, place: Option<String>) -> (r: Request)
        ensures
            (final(self)@, r@) == checkout_inner(old(self)@, opt_text(place)),
    {
        assert(self@.inner.len() == self.inner@.len());
        if self.inner.len() == 0 {
            self.advance()
        } else {
            let home = self.home(&place);
            let path = resolve(home.as_str(), self.inner[self.inner.len() - 1].as_str());
            self.phase = CheckoutPhase::Inner(place);
            Action::ReadText(path)
        }
    }

    /// Takes an answer and makes the next request.
    pub fn step(&mut self, answer: Answer) -> (r: Request)
        ensures
            (final(self)@, r@) == checkout_next(old(self)@, answer@),
    {
        let mut phase = CheckoutPhase::Failing;
        std::mem::swap(&mut self.phase, &mut phase);
        match phase {
            CheckoutPhase::Making => match answer.text() {
                Some(scratch) => {
                    self.scratch = scratch;
                    self.phase = CheckoutPhase::Naming;
                    Action::Output(Tool::WriteTree)
                },
                None => self.fail("could not make a scratch directory (CI may fail)".to_owned()),
            },
            CheckoutPhase::Naming => match answer.bytes() {
                Some(name) => {
                    let text = decode_lossy(&name);
                    let tree = trimmed(text.as_str());
                    let dir = self_dir(self.scratch.as_str());
                    self.tree = tree.clone();
                    self.phase = CheckoutPhase::Exporting;
                    Action::Export(self.root.clone(), tree, dir)
                },
                None => self.fail(
                    "could not write the pending commit as a tree (CI may fail)".to_owned(),
                ),
            },
            CheckoutPhase::Exporting => if !answer.flag() {
                self.fail("could not export the pending commit".to_owned())
            } else if parent_of(self.root.as_str()).is_none() {
                self.fail("the repository lies in no directory (CI may fail)".to_owned())
            } else {
                self.read(None)
            },
            CheckoutPhase::Sibling(name) => if answer.flag() {
                self.read(Some(name))
            } else if self.whole {
                let ghost missing = self.missing@;
                self.missing.push(name.clone());
                assert(texts(self.missing@) =~= texts(missing).push(name@));
                self.phase = CheckoutPhase::Sibling(name);
                self.advance()
            } else {
                self.fail_without(name.as_str())
            },
            CheckoutPhase::Reading(place) => {
                let text = answer.text();
                if place.is_none() {
                    self.whole = is_workspace(&text);
                }
                let mut deps = if !self.whole {
                    sibling_deps(&text)
                } else if place.is_none() {
                    mentioned_deps(&text)
                } else {
                    let top: Vec<String> = Vec::new();
                    assert(texts(top@) =~= Seq::empty());
                    reached_deps(&text, &top)
                };
                let ghost before = self.queue@;
                let ghost more = deps@;
                self.queue.append(&mut deps);
                assert(texts(self.queue@) =~= texts(before) + texts(more));
                if self.whole {
                    self.list(place)
                } else {
                    self.phase = CheckoutPhase::Reading(place);
                    self.advance()
                }
            },
            CheckoutPhase::Listing(place) => {
                let paths = git_paths_or_none(&answer.bytes());
                self.inner = inner_manifests_of(&paths);
                self.phase = CheckoutPhase::Listing(place.clone());
                self.next_inner(place)
            },
            CheckoutPhase::Inner(place) => {
                let ghost inner = self.inner@;
                assert(texts(inner).len() == inner.len());
                match self.inner.pop() {
                    Some(path) => {
                        assert(texts(inner).last() == path@);
                        assert(texts(self.inner@) =~= texts(inner).drop_last());
                        let mut deps = reached_deps(&answer.text(), &inner_dir_of(path.as_str()));
                        let ghost before = self.queue@;
                        let ghost more = deps@;
                        self.queue.append(&mut deps);
                        assert(texts(self.queue@) =~= texts(before) + texts(more));
                        self.phase = CheckoutPhase::Inner(place.clone());
                        self.next_inner(place)
                    },
                    None => {
                        self.phase = CheckoutPhase::Inner(place);
                        self.advance()
                    },
                }
            },
            CheckoutPhase::Failing => self.end(false),
            CheckoutPhase::Finished(ok) => self.end(ok),
        }
    }

    /// The scratch directory of a complete checkout.
    pub fn complete(&self) -> (r: Option<String>)
        ensures
            opt_text(r) == (if self@.phase == CheckoutPhase::<Seq<char>>::Finished(true) {
                Some(self@.scratch)
            } else {
                None
            }),
    {
        match self.phase {
            CheckoutPhase::Finished(true) => Some(self.scratch.clone()),
            _ => None,
        }
    }
}

/// A checkout after a number of answers.
pub open spec fn checkout_after(root: Seq<char>, told: Seq<Told>) -> (CheckoutState, Asked)
    decreases told.len(),
{
    if told.len() == 0 {
        checkout_start(root)
    } else {
        checkout_next(checkout_after(root, told.drop_last()).0, told.last())
    }
}

/// The manifests that a checkout has read.
pub open spec fn manifests_read(root: Seq<char>, told: Seq<Told>) -> Seq<Needs>
    decreases told.len(),
{
    if told.len() == 0 {
        Seq::empty()
    } else {
        let rest = manifests_read(root, told.drop_last());
        match needs_told(checkout_after(root, told.drop_last()).0, told.last()) {
            Some(needs) => rest.push(needs),
            None => rest,
        }
    }
}

/// Whether some manifest depends on a sibling.
pub open spec fn needed(list: Seq<Needs>, name: Seq<char>) -> bool {
    exists|i: int| 0 <= i < list.len() && (#[trigger] list[i]).names.contains(name)
}

/// Whether a manifest was read.
pub open spec fn was_read(list: Seq<Needs>, file: Seq<char>) -> bool {
    exists|i: int| 0 <= i < list.len() && (#[trigger] list[i]).file == file
}

/// How the search for the next sibling ends.
spec fn advanced(st: CheckoutState, now: CheckoutState, asked: Asked) -> bool {
    &&& now.root == st.root && now.scratch == st.scratch && now.tree == st.tree
    &&& now.whole == st.whole && now.inner == st.inner
    &&& forall|x: Seq<char>|
        (#[trigger] now.seen.contains(x) || now.queue.contains(x)) <==> (st.seen.contains(x)
            || st.queue.contains(x))
    &&& st.seen.len() <= now.seen.len()
    &&& forall|i: int| 0 <= i < st.seen.len() ==> #[trigger] now.seen[i] == st.seen[i]
    &&& st.missing.len() <= now.missing.len()
    &&& forall|i: int| 0 <= i < st.missing.len() ==> #[trigger] now.missing[i] == st.missing[i]
    &&& forall|i: int|
        st.seen.len() <= i < now.seen.len() ==> now.phase == CheckoutPhase::Sibling(
            #[trigger] now.seen[i],
        ) || now.missing.contains(now.seen[i]) || now.phase is Failing
    &&& forall|i: int|
        st.missing.len() <= i < now.missing.len() ==> #[trigger] now.missing[i] == "self"@
    &&& now.missing.len() > st.missing.len() ==> st.whole
    &&& match now.phase {
        CheckoutPhase::Sibling(name) => {
            &&& name != "self"@
            &&& asked == sibling_export(st.root, st.scratch, name)
            &&& st.seen.len() < now.seen.len()
            &&& now.seen.contains(name)
            &&& !now.missing.contains(name) || st.missing.contains(name)
        },
        CheckoutPhase::Finished(ok) => ok && asked is Done && now.queue.len() == 0,
        CheckoutPhase::Failing => asked is Warn && !st.whole,
        _ => false,
    }
    &&& st.seen.no_duplicates() ==> now.seen.no_duplicates()
}

proof fn lemma_advance(st: CheckoutState)
    ensures
        advanced(st, checkout_advance(st).0, checkout_advance(st).1),
    decreases st.queue.len(),
{
    if st.queue.len() > 0 {
        let name = st.queue.last();
        let rest = CheckoutState { queue: st.queue.drop_last(), ..st };
        assert(st.queue =~= rest.queue.push(name));
        assert forall|x: Seq<char>| #[trigger] st.queue.contains(x) <==> (rest.queue.contains(x)
            || x == name) by {
            lemma_pushed(rest.queue, name, x);
        }
        if st.seen.contains(name) {
            lemma_advance(rest);
            let now = checkout_advance(rest).0;
            assert forall|x: Seq<char>|
                (#[trigger] now.seen.contains(x) || now.queue.contains(x)) <==> (st.seen.contains(x)
                    || st.queue.contains(x)) by {
                assert(now.seen.contains(x) || now.queue.contains(x) <==> rest.seen.contains(x)
                    || rest.queue.contains(x));
            }
        } else {
            let seen = st.seen.push(name);
            let taken = CheckoutState { seen, ..rest };
            assert forall|x: Seq<char>| #[trigger] seen.contains(x) <==> (st.seen.contains(x) || x
                == name) by {
                lemma_pushed(st.seen, name, x);
            }
            assert(seen[st.seen.len() as int] == name);
            if name == "self"@ && st.whole {
                let next = CheckoutState { missing: st.missing.push(name), ..taken };
                lemma_advance(next);
                let now = checkout_advance(next).0;
                assert forall|x: Seq<char>|
                    (#[trigger] now.seen.contains(x) || now.queue.contains(x)) <==> (
                    st.seen.contains(x) || st.queue.contains(x)) by {
                    assert(now.seen.contains(x) || now.queue.contains(x) <==> next.seen.contains(x)
                        || next.queue.contains(x));
                    assert(next.seen.contains(x) <==> st.seen.contains(x) || x == name);
                }
                assert(now.missing[st.missing.len() as int] == next.missing[st.missing.len()
                    as int]);
                assert(now.missing.contains(name));
                assert(now.seen[st.seen.len() as int] == next.seen[st.seen.len() as int]);
                assert forall|i: int| 0 <= i < st.seen.len() implies #[trigger] now.seen[i]
                    == st.seen[i] by {
                    assert(now.seen[i] == next.seen[i]);
                }
                assert forall|i: int| 0 <= i < st.missing.len() implies #[trigger] now.missing[i]
                    == st.missing[i] by {
                    assert(now.missing[i] == next.missing[i]);
                }
                if let CheckoutPhase::Sibling(other) = now.phase {
                    lemma_pushed(st.missing, name, other);
                }
            }
        }
    }
}

/// The state from which an answer has the search for siblings go on.
spec fn turning(st: CheckoutState, told: Told) -> Option<CheckoutState> {
    match st.phase {
        CheckoutPhase::Sibling(name) => if !flag_told(told) && st.whole {
            Some(CheckoutState { missing: st.missing.push(name), ..st })
        } else {
            None
        },
        CheckoutPhase::Reading(place) => if whole_told(st, told) {
            None
        } else {
            Some(
                CheckoutState {
                    whole: false,
                    queue: st.queue + needs_told(st, told)->0.names,
                    ..st
                },
            )
        },
        CheckoutPhase::Listing(place) => {
            let inner = inner_manifests(paths_or_none(bytes_told(told)));
            if inner.len() == 0 {
                Some(CheckoutState { inner, ..st })
            } else {
                None
            }
        },
        CheckoutPhase::Inner(place) => if st.inner.len() == 0 {
            Some(st)
        } else if st.inner.len() == 1 {
            Some(
                CheckoutState {
                    queue: st.queue + needs_told(st, told)->0.names,
                    inner: st.inner.drop_last(),
                    ..st
                },
            )
        } else {
            None
        },
        _ => None,
    }
}

/// The names that an answer brings.
spec fn names_told(st: CheckoutState, told: Told) -> Seq<Seq<char>> {
    match needs_told(st, told) {
        Some(needs) => needs.names,
        None => Seq::empty(),
    }
}

/// How an answer takes a checkout on: the names that it brings are queued, and
/// the search goes on, or a step is taken within the tree at hand.
proof fn lemma_turn(st: CheckoutState, told: Told)
    ensures
        turning(st, told) matches Some(mid) ==> {
            &&& checkout_next(st, told) == checkout_advance(mid)
            &&& advanced(mid, checkout_next(st, told).0, checkout_next(st, told).1)
            &&& mid.root == st.root && mid.scratch == st.scratch && mid.tree == st.tree
            &&& mid.seen == st.seen
            &&& mid.queue == st.queue + names_told(st, told)
            &&& mid.whole == whole_told(st, told)
        },
        turning(st, told) is None ==> {
            let now = checkout_next(st, told).0;
            &&& now.root == st.root
            &&& st.phase !is Making ==> now.scratch == st.scratch
            &&& st.phase !is Naming ==> now.tree == st.tree
            &&& now.seen == st.seen && now.missing == st.missing
            &&& now.queue == st.queue + names_told(st, told)
            &&& now.whole == whole_told(st, told)
        },
{
    let now = checkout_next(st, told).0;
    match turning(st, told) {
        Some(mid) => {
            lemma_advance(mid);
            assert(st.queue + Seq::empty() =~= st.queue);
        },
        None => {
            assert(st.queue + Seq::empty() =~= st.queue);
        },
    }
}

/// What a checkout asks for.
pub proof fn lemma_checkout_asks(st: CheckoutState, told: Told)
    ensures
        ({
            let asked = checkout_next(st, told).1;
            ||| asked is Export
            ||| asked is ReadText
            ||| asked is Warn
            ||| asked is Done
            ||| asked == Asked::Output(Tool::WriteTree)
            ||| asked is Output && asked->Output_0 is TreePaths
        }),
{
    lemma_turn(st, told);
}

/// A checkout whose pending commit was extracted and that has not failed.
spec fn going(phase: CheckoutPhase<Seq<char>>) -> bool {
    match phase {
        CheckoutPhase::Sibling(_) => true,
        CheckoutPhase::Reading(_) => true,
        CheckoutPhase::Listing(_) => true,
        CheckoutPhase::Inner(_) => true,
        CheckoutPhase::Finished(ok) => ok,
        _ => false,
    }
}

/// A checkout before the first manifest is read.
spec fn beginning(phase: CheckoutPhase<Seq<char>>) -> bool {
    phase is Making || phase is Naming || phase is Exporting || phase == CheckoutPhase::Reading(
        None::<Seq<char>>,
    )
}

/// What is known of a checkout: everything that a manifest depends on is seen
/// or queued, and nothing else is; and the manifest of everything extracted was
/// read, but for the sibling that is under way.
spec fn checkout_fits(st: CheckoutState, list: Seq<Needs>) -> bool {
    &&& forall|name: Seq<char>|
        needed(list, name) <==> (#[trigger] st.seen.contains(name) || st.queue.contains(name))
    &&& going(st.phase) ==> (forall|i: int|
        0 <= i < st.seen.len() ==> st.missing.contains(#[trigger] st.seen[i]) || was_read(
            list,
            manifest_path(resolved(st.scratch, st.seen[i])),
        ) || st.phase == CheckoutPhase::Sibling(st.seen[i]) || st.phase == CheckoutPhase::Reading(
            Some(st.seen[i]),
        ))
    &&& beginning(st.phase) ==> st.seen.len() == 0 && st.queue.len() == 0 && st.missing.len() == 0
        && list.len() == 0
    &&& going(st.phase) && !beginning(st.phase) ==> list.len() > 0
    &&& list.len() > 0 ==> list[0].file == manifest_path(own_dir(st.scratch))
    &&& st.phase == CheckoutPhase::<Seq<char>>::Finished(true) ==> st.queue.len() == 0
    &&& st.missing.len() > 0 ==> st.whole
}

proof fn lemma_needed_more(prior: Seq<Needs>, more: Needs, name: Seq<char>)
    ensures
        needed(prior.push(more), name) <==> (needed(prior, name) || more.names.contains(name)),
{
    let list = prior.push(more);
    if needed(list, name) {
        let i = choose|i: int| 0 <= i < list.len() && (#[trigger] list[i]).names.contains(name);
        if i < prior.len() {
            assert(prior[i].names.contains(name));
        }
    }
    if needed(prior, name) {
        let i = choose|i: int| 0 <= i < prior.len() && (#[trigger] prior[i]).names.contains(name);
        assert(list[i].names.contains(name));
    }
    if more.names.contains(name) {
        assert(list[prior.len() as int].names.contains(name));
    }
}

proof fn lemma_queue_more(queue: Seq<Seq<char>>, names: Seq<Seq<char>>, name: Seq<char>)
    ensures
        (queue + names).contains(name) <==> (queue.contains(name) || names.contains(name)),
{
    let all = queue + names;
    if queue.contains(name) {
        let i = choose|i: int| 0 <= i < queue.len() && queue[i] == name;
        assert(all[i] == name);
    }
    if names.contains(name) {
        let i = choose|i: int| 0 <= i < names.len() && names[i] == name;
        assert(all[queue.len() + i] == name);
    }
    if all.contains(name) {
        let i = choose|i: int| 0 <= i < all.len() && all[i] == name;
        if i < queue.len() {
            assert(queue[i] == name);
        } else {
            assert(names[i - queue.len()] == name);
        }
    }
}

/// What was read stays read.
proof fn lemma_still_read(root: Seq<char>, told: Seq<Told>, file: Seq<char>)
    requires
        told.len() > 0,
        was_read(manifests_read(root, told.drop_last()), file),
    ensures
        was_read(manifests_read(root, told), file),
{
    let prior = manifests_read(root, told.drop_last());
    let list = manifests_read(root, told);
    let k = choose|k: int| 0 <= k < prior.len() && (#[trigger] prior[k]).file == file;
    assert(list[k].file == file);
}

/// The manifest that an answer brings was read.
proof fn lemma_now_read(root: Seq<char>, told: Seq<Told>)
    requires
        told.len() > 0,
        needs_told(checkout_after(root, told.drop_last()).0, told.last()) is Some,
    ensures
        was_read(
            manifests_read(root, told),
            needs_told(checkout_after(root, told.drop_last()).0, told.last())->0.file,
        ),
{
    let list = manifests_read(root, told);
    assert(list[list.len() - 1].file == needs_told(
        checkout_after(root, told.drop_last()).0,
        told.last(),
    )->0.file);
}

proof fn lemma_checkout_fits(root: Seq<char>, told: Seq<Told>)
    ensures
        checkout_fits(checkout_after(root, told).0, manifests_read(root, told)),
        checkout_after(root, told).0.root == root,
    decreases told.len(),
{
    let list = manifests_read(root, told);
    let now = checkout_after(root, told).0;
    if told.len() > 0 {
        let before = told.drop_last();
        lemma_checkout_fits(root, before);
        let was = checkout_after(root, before).0;
        let prior = manifests_read(root, before);
        let names = names_told(was, told.last());
        assert(checkout_fits(was, prior));
        lemma_turn(was, told.last());
        assert forall|name: Seq<char>| needed(list, name) <==> (#[trigger] now.seen.contains(name)
            || now.queue.contains(name)) by {
            lemma_queue_more(was.queue, names, name);
            if needs_told(was, told.last()) is Some {
                lemma_needed_more(prior, needs_told(was, told.last())->0, name);
            }
            assert(needed(prior, name) <==> (was.seen.contains(name) || was.queue.contains(name)));
        }
        if going(now.phase) {
            assert forall|i: int| 0 <= i < now.seen.len() implies now.missing.contains(
                #[trigger] now.seen[i],
            ) || was_read(list, manifest_path(resolved(now.scratch, now.seen[i]))) || now.phase
                == CheckoutPhase::Sibling(now.seen[i]) || now.phase == CheckoutPhase::Reading(
                Some(now.seen[i]),
            ) by {
                if i < was.seen.len() {
                    let name = was.seen[i];
                    assert(now.seen[i] == name);
                    assert(going(was.phase));
                    lemma_seen_read(root, told, name);
                }
            }
        }
        if prior.len() > 0 {
            assert(list[0] == prior[0]);
        }
    }
}

/// A sibling that was looked at earlier is missing, was read, or is under way.
proof fn lemma_seen_read(root: Seq<char>, told: Seq<Told>, name: Seq<char>)
    requires
        told.len() > 0,
        ({
            let was = checkout_after(root, told.drop_last()).0;
            let prior = manifests_read(root, told.drop_last());
            &&& going(was.phase)
            &&& {
                ||| was.missing.contains(name)
                ||| was_read(prior, manifest_path(resolved(was.scratch, name)))
                ||| was.phase == CheckoutPhase::Sibling(name)
                ||| was.phase == CheckoutPhase::Reading(Some(name))
            }
        }),
    ensures
        ({
            let now = checkout_after(root, told).0;
            let list = manifests_read(root, told);
            going(now.phase) ==> {
                ||| now.missing.contains(name)
                ||| was_read(list, manifest_path(resolved(now.scratch, name)))
                ||| now.phase == CheckoutPhase::Reading(Some(name))
            }
        }),
{
    let before = told.drop_last();
    let was = checkout_after(root, before).0;
    let now = checkout_after(root, told).0;
    lemma_turn(was, told.last());
    if was.missing.contains(name) {
        let k = choose|k: int| 0 <= k < was.missing.len() && was.missing[k] == name;
        if let Some(mid) = turning(was, told.last()) {
            assert(mid.missing[k] == name);
            assert(now.missing[k] == name);
        }
    } else if was_read(manifests_read(root, before), manifest_path(resolved(was.scratch, name))) {
        lemma_still_read(root, told, manifest_path(resolved(was.scratch, name)));
    } else if was.phase == CheckoutPhase::Reading(Some(name)) {
        lemma_now_read(root, told);
    } else if let Some(mid) = turning(was, told.last()) {
        assert(mid.missing[was.missing.len() as int] == name);
        assert(now.missing[was.missing.len() as int] == name);
    }
}

/// The manifests of a tree of the checkout were read: the files of the tree were
/// listed, and each manifest below its root was read. The one at the root is
/// read in any case.
pub open spec fn tree_read(root: Seq<char>, told: Seq<Told>, place: Option<Seq<char>>) -> bool {
    let st = checkout_after(root, told).0;
    exists|k: int|
        {
            &&& 0 <= k < told.len()
            &&& (#[trigger] checkout_after(root, told.take(k))).1 == Asked::Output(
                Tool::TreePaths(place_repo(root, place), place_tree(st.tree, place)),
            )
            &&& rest_read(root, told, place, inner_manifests(paths_or_none(bytes_told(told[k]))), 0)
        }
}

/// The manifests of a list from a position on were read in a tree.
pub open spec fn rest_read(
    root: Seq<char>,
    told: Seq<Told>,
    place: Option<Seq<char>>,
    list: Seq<Seq<char>>,
    from: int,
) -> bool {
    forall|j: int|
        from <= j < list.len() ==> was_read(
            manifests_read(root, told),
            resolved(place_dir(checkout_after(root, told).0.scratch, place), #[trigger] list[j]),
        )
}

/// The tree at hand is being read: its files were listed, and the manifests that
/// are not among those left were read.
spec fn tree_under_way(root: Seq<char>, told: Seq<Told>, place: Option<Seq<char>>) -> bool {
    let st = checkout_after(root, told).0;
    exists|k: int|
        {
            let all = inner_manifests(paths_or_none(bytes_told(told[k])));
            &&& 0 <= k < told.len()
            &&& (#[trigger] checkout_after(root, told.take(k))).1 == Asked::Output(
                Tool::TreePaths(place_repo(root, place), place_tree(st.tree, place)),
            )
            &&& st.inner.len() <= all.len()
            &&& st.inner == all.take(st.inner.len() as int)
            &&& rest_read(root, told, place, all, st.inner.len() as int)
        }
}

proof fn lemma_rest_read(
    root: Seq<char>,
    told: Seq<Told>,
    place: Option<Seq<char>>,
    list: Seq<Seq<char>>,
    from: int,
)
    requires
        told.len() > 0,
        checkout_after(root, told).0.scratch == checkout_after(root, told.drop_last()).0.scratch,
        rest_read(root, told.drop_last(), place, list, from),
    ensures
        rest_read(root, told, place, list, from),
{
    let before = told.drop_last();
    let dir = place_dir(checkout_after(root, told).0.scratch, place);
    assert forall|j: int| from <= j < list.len() implies was_read(
        manifests_read(root, told),
        resolved(dir, #[trigger] list[j]),
    ) by {
        lemma_still_read(root, told, resolved(dir, list[j]));
    }
}

proof fn lemma_tree_read(root: Seq<char>, told: Seq<Told>, place: Option<Seq<char>>)
    requires
        told.len() > 0,
        checkout_after(root, told).0.scratch == checkout_after(root, told.drop_last()).0.scratch,
        checkout_after(root, told).0.tree == checkout_after(root, told.drop_last()).0.tree,
        tree_read(root, told.drop_last(), place),
    ensures
        tree_read(root, told, place),
{
    let before = told.drop_last();
    let st = checkout_after(root, before).0;
    let k = choose|k: int|
        {
            &&& 0 <= k < before.len()
            &&& (#[trigger] checkout_after(root, before.take(k))).1 == Asked::Output(
                Tool::TreePaths(place_repo(root, place), place_tree(st.tree, place)),
            )
            &&& rest_read(
                root,
                before,
                place,
                inner_manifests(paths_or_none(bytes_told(before[k]))),
                0,
            )
        };
    assert(told.take(k) =~= before.take(k));
    assert(told[k] == before[k]);
    lemma_rest_read(
        root,
        told,
        place,
        inner_manifests(paths_or_none(bytes_told(before[k]))),
        0,
    );
    assert(checkout_after(root, told.take(k)).1 == Asked::Output(
        Tool::TreePaths(place_repo(root, place), place_tree(st.tree, place)),
    ));
}

/// The tree at hand.
spec fn at_hand(phase: CheckoutPhase<Seq<char>>, place: Option<Seq<char>>) -> bool {
    ||| phase == CheckoutPhase::Reading(place)
    ||| phase == CheckoutPhase::Listing(place)
    ||| phase == CheckoutPhase::Inner(place)
    ||| place is Some && phase == CheckoutPhase::Sibling(place->0)
}

/// What is known of the trees of a workspace's checkout: each one that is not at
/// hand was read.
spec fn trees_known(root: Seq<char>, told: Seq<Told>) -> bool {
    let (st, asked) = checkout_after(root, told);
    &&& st.root == root
    &&& st.phase matches CheckoutPhase::Listing(place) ==> asked == Asked::Output(
        Tool::TreePaths(place_repo(root, place), place_tree(st.tree, place)),
    )
    &&& st.phase matches CheckoutPhase::Inner(place) ==> tree_under_way(root, told, place)
        && st.inner.len() > 0
    &&& st.phase is Listing || st.phase is Inner ==> st.whole
    &&& going(st.phase) && st.whole ==> {
        &&& at_hand(st.phase, None) || tree_read(root, told, None)
        &&& forall|i: int|
            0 <= i < st.seen.len() ==> st.missing.contains(#[trigger] st.seen[i]) || at_hand(
                st.phase,
                Some(st.seen[i]),
            ) || tree_read(root, told, Some(st.seen[i]))
    }
    &&& beginning(st.phase) ==> st.seen.len() == 0 && !st.whole
}

/// A tree whose last manifest was read, or that has none below its root, was
/// read.
proof fn lemma_tree_finished(root: Seq<char>, told: Seq<Told>, place: Option<Seq<char>>)
    requires
        told.len() > 0,
        trees_known(root, told.drop_last()),
        turning(checkout_after(root, told.drop_last()).0, told.last()) is Some,
        ({
            let was = checkout_after(root, told.drop_last()).0;
            was.phase == CheckoutPhase::Listing(place) || was.phase == CheckoutPhase::Inner(place)
        }),
    ensures
        tree_read(root, told, place),
{
    let n = told.len() as int;
    let before = told.drop_last();
    let was = checkout_after(root, before).0;
    let now = checkout_after(root, told).0;
    let dir = place_dir(now.scratch, place);
    lemma_turn(was, told.last());
    let ask = Asked::Output(Tool::TreePaths(place_repo(root, place), place_tree(now.tree, place)));
    if was.phase == CheckoutPhase::Listing(place) {
        assert(told.take(n - 1) =~= before);
        assert(told[n - 1] == told.last());
        assert(checkout_after(root, told.take(n - 1)).1 == ask);
        assert(rest_read(
            root,
            told,
            place,
            inner_manifests(paths_or_none(bytes_told(told[n - 1]))),
            0,
        ));
    } else {
        let k = lemma_inner_read(root, told, place);
        assert(checkout_after(root, told.take(k)).1 == ask);
    }
}

/// Where the listing of the tree at hand stands, and that the manifest which was
/// just read is counted.
proof fn lemma_inner_read(root: Seq<char>, told: Seq<Told>, place: Option<Seq<char>>) -> (k: int)
    requires
        told.len() > 0,
        trees_known(root, told.drop_last()),
        checkout_after(root, told.drop_last()).0.phase == CheckoutPhase::Inner(place),
    ensures
        ({
            let was = checkout_after(root, told.drop_last()).0;
            let now = checkout_after(root, told).0;
            let all = inner_manifests(paths_or_none(bytes_told(told[k])));
            &&& 0 <= k < told.len()
            &&& checkout_after(root, told.take(k)).1 == Asked::Output(
                Tool::TreePaths(place_repo(root, place), place_tree(now.tree, place)),
            )
            &&& 0 < was.inner.len() <= all.len()
            &&& was.inner.drop_last() == all.take(was.inner.len() - 1)
            &&& rest_read(root, told, place, all, was.inner.len() - 1)
        }),
{
    let before = told.drop_last();
    let was = checkout_after(root, before).0;
    let now = checkout_after(root, told).0;
    lemma_turn(was, told.last());
    assert(tree_under_way(root, before, place));
    let k = choose|k: int|
        {
            let all = inner_manifests(paths_or_none(bytes_told(before[k])));
            &&& 0 <= k < before.len()
            &&& (#[trigger] checkout_after(root, before.take(k))).1 == Asked::Output(
                Tool::TreePaths(place_repo(root, place), place_tree(was.tree, place)),
            )
            &&& was.inner.len() <= all.len()
            &&& was.inner == all.take(was.inner.len() as int)
            &&& rest_read(root, before, place, all, was.inner.len() as int)
        };
    let all = inner_manifests(paths_or_none(bytes_told(before[k])));
    let m = was.inner.len() as int;
    let dir = place_dir(now.scratch, place);
    assert(told.take(k) =~= before.take(k));
    assert(told[k] == before[k]);
    lemma_rest_read(root, told, place, all, m);
    lemma_now_read(root, told);
    assert(was.inner[m - 1] == all[m - 1]);
    assert(was.inner.drop_last() =~= all.take(m - 1));
    assert forall|j: int| m - 1 <= j < all.len() implies was_read(
        manifests_read(root, told),
        resolved(dir, #[trigger] all[j]),
    ) by {
        if j >= m {
            assert(was_read(manifests_read(root, told), resolved(dir, all[j])));
        }
    }
    k
}

/// A tree within which a step was taken is under way.
proof fn lemma_tree_goes_on(root: Seq<char>, told: Seq<Told>, place: Option<Seq<char>>)
    requires
        told.len() > 0,
        trees_known(root, told.drop_last()),
        checkout_after(root, told).0.phase == CheckoutPhase::Inner(place),
    ensures
        tree_under_way(root, told, place),
        checkout_after(root, told).0.inner.len() > 0,
        checkout_after(root, told).0.whole,
{
    let n = told.len() as int;
    let before = told.drop_last();
    let was = checkout_after(root, before).0;
    let now = checkout_after(root, told).0;
    lemma_turn(was, told.last());
    let ask = Asked::Output(Tool::TreePaths(place_repo(root, place), place_tree(now.tree, place)));
    if was.phase is Listing {
        let all = inner_manifests(paths_or_none(bytes_told(told[n - 1])));
        assert(told.take(n - 1) =~= before);
        assert(checkout_after(root, told.take(n - 1)).1 == ask);
        assert(now.inner =~= all.take(now.inner.len() as int));
        assert(rest_read(root, told, place, all, now.inner.len() as int));
    } else {
        assert(was.phase == CheckoutPhase::Inner(place));
        let k = lemma_inner_read(root, told, place);
        assert(checkout_after(root, told.take(k)).1 == ask);
        assert(now.inner == was.inner.drop_last());
    }
}

/// A tree that was read or at hand is read, at hand or missing.
proof fn lemma_tree_stays(root: Seq<char>, told: Seq<Told>, place: Option<Seq<char>>)
    requires
        told.len() > 0,
        trees_known(root, told.drop_last()),
        going(checkout_after(root, told.drop_last()).0.phase),
        going(checkout_after(root, told).0.phase),
        checkout_after(root, told).0.whole,
        at_hand(checkout_after(root, told.drop_last()).0.phase, place) || tree_read(
            root,
            told.drop_last(),
            place,
        ),
    ensures
        at_hand(checkout_after(root, told).0.phase, place) || tree_read(root, told, place) || (
        place is Some && checkout_after(root, told).0.missing.contains(place->0)),
{
    let before = told.drop_last();
    let was = checkout_after(root, before).0;
    let now = checkout_after(root, told).0;
    lemma_turn(was, told.last());
    if tree_read(root, before, place) {
        lemma_tree_read(root, told, place);
    } else if let Some(mid) = turning(was, told.last()) {
        if was.phase is Sibling {
            assert(mid.missing[was.missing.len() as int] == place->0);
            assert(now.missing[was.missing.len() as int] == place->0);
        } else {
            lemma_tree_finished(root, told, place);
        }
    }
}

proof fn lemma_trees_known(root: Seq<char>, told: Seq<Told>)
    ensures
        trees_known(root, told),
    decreases told.len(),
{
    if told.len() > 0 {
        let before = told.drop_last();
        lemma_trees_known(root, before);
        assert(trees_known(root, before));
        let was = checkout_after(root, before).0;
        let now = checkout_after(root, told).0;
        lemma_turn(was, told.last());
        if let CheckoutPhase::Inner(place) = now.phase {
            lemma_tree_goes_on(root, told, place);
        }
        if going(now.phase) && now.whole {
            assert(going(was.phase));
            if was.whole {
                lemma_tree_stays(root, told, None);
            }
            assert forall|i: int| 0 <= i < now.seen.len() implies now.missing.contains(
                #[trigger] now.seen[i],
            ) || at_hand(now.phase, Some(now.seen[i])) || tree_read(
                root,
                told,
                Some(now.seen[i]),
            ) by {
                if i < was.seen.len() {
                    assert(now.seen[i] == was.seen[i]);
                    if was.missing.contains(was.seen[i]) {
                        let k = choose|k: int|
                            0 <= k < was.missing.len() && was.missing[k] == was.seen[i];
                        if let Some(mid) = turning(was, told.last()) {
                            assert(mid.missing[k] == was.seen[i]);
                            assert(now.missing[k] == was.seen[i]);
                        }
                    } else {
                        lemma_tree_stays(root, told, Some(was.seen[i]));
                    }
                }
            }
        }
    }
}

/// A complete checkout holds exactly the recursive closure of the path
/// dependencies. The manifest of the commit was read, and that of every sibling
/// that could be extracted; every sibling that one of the manifests depends on
/// was looked at; and no other was. Where the commit is that of a workspace, this
/// holds of every manifest of the commit and of each of those siblings, wherever
/// it lies; where it is not, none is missing.
pub proof fn a_complete_checkout_is_the_closure(root: Seq<char>, told: Seq<Told>)
    requires
        checkout_after(root, told).0.phase == CheckoutPhase::<Seq<char>>::Finished(true),
    ensures
        ({
            let st = checkout_after(root, told).0;
            let list = manifests_read(root, told);
            &&& was_read(list, manifest_path(own_dir(st.scratch)))
            &&& forall|name: Seq<char>|
                needed(list, name) <==> #[trigger] st.seen.contains(name)
            &&& forall|name: Seq<char>| #[trigger]
                st.seen.contains(name) && !st.missing.contains(name) ==> was_read(
                    list,
                    manifest_path(resolved(st.scratch, name)),
                )
            &&& st.whole ==> tree_read(root, told, None)
            &&& st.whole ==> forall|name: Seq<char>| #[trigger]
                st.seen.contains(name) && !st.missing.contains(name) ==> tree_read(
                    root,
                    told,
                    Some(name),
                )
            &&& !st.whole ==> st.missing.len() == 0
        }),
{
    lemma_checkout_fits(root, told);
    lemma_trees_known(root, told);
    let st = checkout_after(root, told).0;
    let list = manifests_read(root, told);
    assert(list[0].file == manifest_path(own_dir(st.scratch)));
    assert forall|name: Seq<char>| #[trigger]
        st.seen.contains(name) && !st.missing.contains(name) implies was_read(
        list,
        manifest_path(resolved(st.scratch, name)),
    ) && (st.whole ==> tree_read(root, told, Some(name))) by {
        let i = choose|i: int| 0 <= i < st.seen.len() && st.seen[i] == name;
        assert(st.seen[i] == name);
    }
    assert forall|name: Seq<char>| needed(list, name) <==> #[trigger] st.seen.contains(name) by {
        assert(!st.queue.contains(name));
    }
}

/// A checkout that cannot be built gets a warning: whatever the answers, one that
/// ends incomplete has just printed one.
pub proof fn a_failed_checkout_is_warned_about(root: Seq<char>, told: Seq<Told>)
    requires
        told.len() > 0,
        checkout_after(root, told).0.phase == CheckoutPhase::<Seq<char>>::Finished(false),
        checkout_after(root, told.drop_last()).0.phase !is Finished,
    ensures
        checkout_after(root, told.drop_last()).1 is Warn,
{
    let before = told.drop_last();
    let was = checkout_after(root, before).0;
    lemma_turn(was, told.last());
    assert(was.phase is Failing);
    assert(before.len() > 0);
    let prior = checkout_after(root, before.drop_last()).0;
    lemma_turn(prior, before.last());
}

/// The pending commit was extracted under `self` in a scratch directory: the
/// index was written as a tree, and that tree is what was extracted.
pub open spec fn commit_extracted(root: Seq<char>, told: Seq<Told>, scratch: Seq<char>) -> bool {
    &&& told.len() >= 3
    &&& text_told(told[0]) == Some(scratch)
    &&& checkout_after(root, told.take(1)).1 == Asked::Output(Tool::WriteTree)
    &&& bytes_told(told[1]) matches Some(name) && checkout_after(root, told.take(2)).1
        == Asked::Export(root, trim(lossy(name)), own_dir(scratch))
    &&& flag_told(told[2])
}

/// A sibling's `HEAD` was asked for in the course of a checkout, and the answer
/// was whether it could be extracted.
pub open spec fn sibling_asked(
    root: Seq<char>,
    told: Seq<Told>,
    scratch: Seq<char>,
    name: Seq<char>,
    ok: bool,
) -> bool {
    exists|k: int|
        {
            &&& 0 <= k < told.len()
            &&& (#[trigger] checkout_after(root, told.take(k))).1 == sibling_export(
                root,
                scratch,
                name,
            )
            &&& flag_told(told[k]) == ok
        }
}

proof fn lemma_sibling_asked(
    root: Seq<char>,
    told: Seq<Told>,
    scratch: Seq<char>,
    name: Seq<char>,
    ok: bool,
)
    requires
        told.len() > 0,
        sibling_asked(root, told.drop_last(), scratch, name, ok) || (checkout_after(
            root,
            told.drop_last(),
        ).1 == sibling_export(root, scratch, name) && flag_told(told.last()) == ok),
    ensures
        sibling_asked(root, told, scratch, name, ok),
{
    let n = told.len() as int;
    let before = told.drop_last();
    if sibling_asked(root, before, scratch, name, ok) {
        let k = choose|k: int|
            {
                &&& 0 <= k < before.len()
                &&& (#[trigger] checkout_after(root, before.take(k))).1 == sibling_export(
                    root,
                    scratch,
                    name,
                )
                &&& flag_told(before[k]) == ok
            };
        assert(told.take(k) =~= before.take(k));
        assert(told[k] == before[k]);
        assert(checkout_after(root, told.take(k)).1 == sibling_export(root, scratch, name));
    } else {
        assert(told.take(n - 1) =~= before);
        assert(told[n - 1] == told.last());
        assert(checkout_after(root, told.take(n - 1)).1 == sibling_export(root, scratch, name));
    }
}

/// What is known of where the commit in a checkout came from.
spec fn commit_came(root: Seq<char>, told: Seq<Told>) -> bool {
    let (st, asked) = checkout_after(root, told);
    let n = told.len() as int;
    &&& st.root == root
    &&& match st.phase {
        CheckoutPhase::Making => n == 0,
        CheckoutPhase::Naming => n == 1 && text_told(told[0]) == Some(st.scratch) && asked
            == Asked::Output(Tool::WriteTree),
        CheckoutPhase::Exporting => {
            &&& n == 2 && text_told(told[0]) == Some(st.scratch)
            &&& checkout_after(root, told.take(1)).1 == Asked::Output(Tool::WriteTree)
            &&& bytes_told(told[1]) matches Some(name) && asked == Asked::Export(
                root,
                trim(lossy(name)),
                own_dir(st.scratch),
            )
        },
        _ => true,
    }
    &&& going(st.phase) ==> commit_extracted(root, told, st.scratch)
}

proof fn lemma_commit_came(root: Seq<char>, told: Seq<Told>)
    ensures
        commit_came(root, told),
    decreases told.len(),
{
    if told.len() > 0 {
        let n = told.len() as int;
        let before = told.drop_last();
        lemma_commit_came(root, before);
        assert(commit_came(root, before));
        assert(told.take(n - 1) =~= before);
        lemma_turn(checkout_after(root, before).0, told.last());
        if n >= 2 {
            assert(told.take(1) =~= before.take(1));
        }
        if n >= 3 {
            assert(told.take(2) =~= before.take(2));
        }
    }
}

/// What is known of where the siblings in a checkout came from: each was
/// extracted, unless it is missing or under way, and one is missing where it
/// could not be extracted or where its place is the commit's.
spec fn siblings_came(root: Seq<char>, told: Seq<Told>) -> bool {
    let (st, asked) = checkout_after(root, told);
    &&& st.root == root
    &&& st.phase matches CheckoutPhase::Sibling(name) ==> asked == sibling_export(
        root,
        st.scratch,
        name,
    ) && name != "self"@
    &&& beginning(st.phase) ==> st.seen.len() == 0 && st.missing.len() == 0
    &&& going(st.phase) ==> forall|i: int|
        0 <= i < st.seen.len() ==> st.missing.contains(#[trigger] st.seen[i]) || {
            &&& st.seen[i] != "self"@
            &&& st.phase == CheckoutPhase::Sibling(st.seen[i]) || sibling_asked(
                root,
                told,
                st.scratch,
                st.seen[i],
                true,
            )
        }
    &&& going(st.phase) ==> forall|i: int|
        0 <= i < st.missing.len() ==> #[trigger] st.missing[i] == "self"@ || sibling_asked(
            root,
            told,
            st.scratch,
            st.missing[i],
            false,
        )
}

proof fn lemma_siblings_came(root: Seq<char>, told: Seq<Told>)
    ensures
        siblings_came(root, told),
    decreases told.len(),
{
    if told.len() > 0 {
        let before = told.drop_last();
        lemma_siblings_came(root, before);
        assert(siblings_came(root, before));
        let was = checkout_after(root, before).0;
        let now = checkout_after(root, told).0;
        lemma_turn(was, told.last());
        if going(now.phase) {
            assert forall|i: int| 0 <= i < now.seen.len() implies now.missing.contains(
                #[trigger] now.seen[i],
            ) || {
                &&& now.seen[i] != "self"@
                &&& now.phase == CheckoutPhase::Sibling(now.seen[i]) || sibling_asked(
                    root,
                    told,
                    now.scratch,
                    now.seen[i],
                    true,
                )
            } by {
                if i < was.seen.len() {
                    assert(now.seen[i] == was.seen[i]);
                    lemma_sibling_stays(root, told, i);
                }
            }
            assert forall|i: int| 0 <= i < now.missing.len() implies #[trigger] now.missing[i]
                == "self"@ || sibling_asked(root, told, now.scratch, now.missing[i], false) by {
                if i < was.missing.len() {
                    assert(now.missing[i] == was.missing[i]);
                    if was.missing[i] != "self"@ {
                        lemma_sibling_asked(root, told, now.scratch, was.missing[i], false);
                    }
                } else if let CheckoutPhase::Sibling(name) = was.phase {
                    if i == was.missing.len() {
                        assert(turning(was, told.last())->0.missing[i] == name);
                        lemma_sibling_asked(root, told, now.scratch, name, false);
                    }
                }
            }
        }
    }
}

proof fn lemma_sibling_stays(root: Seq<char>, told: Seq<Told>, i: int)
    requires
        told.len() > 0,
        siblings_came(root, told.drop_last()),
        going(checkout_after(root, told).0.phase),
        0 <= i < checkout_after(root, told.drop_last()).0.seen.len(),
    ensures
        ({
            let now = checkout_after(root, told).0;
            let name = checkout_after(root, told.drop_last()).0.seen[i];
            now.missing.contains(name) || (name != "self"@ && sibling_asked(
                root,
                told,
                now.scratch,
                name,
                true,
            ))
        }),
{
    let before = told.drop_last();
    let was = checkout_after(root, before).0;
    let now = checkout_after(root, told).0;
    let name = was.seen[i];
    lemma_turn(was, told.last());
    if was.missing.contains(name) {
        let k = choose|k: int| 0 <= k < was.missing.len() && was.missing[k] == name;
        if let Some(mid) = turning(was, told.last()) {
            assert(mid.missing[k] == name);
            assert(now.missing[k] == name);
        }
    } else if was.phase == CheckoutPhase::Sibling(name) && !flag_told(told.last()) {
        let mid = turning(was, told.last())->0;
        assert(mid.missing[was.missing.len() as int] == name);
        assert(now.missing[was.missing.len() as int] == name);
    } else {
        lemma_sibling_asked(root, told, now.scratch, name, true);
    }
}

/// The names that a checkout has to do with are plain path segments.
spec fn names_plain(st: CheckoutState) -> bool {
    &&& forall|x: Seq<char>|
        #![trigger st.seen.contains(x)]
        #![trigger st.queue.contains(x)]
        st.seen.contains(x) || st.queue.contains(x) ==> sibling_name(x)
    &&& forall|i: int| 0 <= i < st.inner.len() ==> inner_manifest(#[trigger] st.inner[i])
}

/// Each manifest below the root of a tree is one.
proof fn lemma_inner_manifests(paths: Seq<Seq<char>>)
    ensures
        forall|i: int|
            0 <= i < inner_manifests(paths).len() ==> inner_manifest(
                #[trigger] inner_manifests(paths)[i],
            ),
    decreases paths.len(),
{
    if paths.len() > 0 {
        lemma_inner_manifests(paths.drop_last());
        let rest = inner_manifests(paths.drop_last());
        let all = inner_manifests(paths);
        assert forall|i: int| 0 <= i < all.len() implies inner_manifest(#[trigger] all[i]) by {
            if i < rest.len() {
                assert(all[i] == rest[i]);
            }
        }
    }
}

/// The manifests left of the tree at hand, after an answer.
proof fn lemma_inner_told(st: CheckoutState, told: Told)
    requires
        forall|i: int| 0 <= i < st.inner.len() ==> inner_manifest(#[trigger] st.inner[i]),
    ensures
        ({
            let now = checkout_next(st, told).0;
            forall|i: int| 0 <= i < now.inner.len() ==> inner_manifest(#[trigger] now.inner[i])
        }),
{
    let now = checkout_next(st, told).0;
    let listed = inner_manifests(paths_or_none(bytes_told(told)));
    lemma_turn(st, told);
    lemma_inner_manifests(paths_or_none(bytes_told(told)));
    assert(now.inner == st.inner || now.inner == listed || (st.inner.len() > 0 && now.inner
        == st.inner.drop_last()));
    assert forall|i: int| 0 <= i < now.inner.len() implies inner_manifest(
        #[trigger] now.inner[i],
    ) by {
        if now.inner == listed {
            assert(inner_manifest(listed[i]));
        } else {
            assert(inner_manifest(st.inner[i]));
        }
    }
}

/// The names that an answer brings are plain.
proof fn lemma_names_told(st: CheckoutState, told: Told, name: Seq<char>)
    requires
        names_plain(st),
        names_told(st, told).contains(name),
    ensures
        sibling_name(name),
{
    let text = text_told(told);
    if let CheckoutPhase::Inner(place) = st.phase {
        let path = st.inner.last();
        assert(inner_manifest(st.inner[st.inner.len() - 1]));
        lemma_segments_plain(path);
        assert forall|i: int| 0 <= i < inner_dir(path).len() implies plain_segment(
            #[trigger] inner_dir(path)[i],
        ) by {
            assert(inner_dir(path)[i] == segments(path)[i]);
        }
        what_is_reached_is_one_segment(text, inner_dir(path), name);
    } else if whole_told(st, told) {
        what_is_reached_is_one_segment(text, Seq::empty(), name);
    } else {
        lemma_ordered(siblings_in(manifest_lines(text)));
        assert(siblings_in(manifest_lines(text)).contains(name));
        a_sibling_is_one_segment(text, name);
    }
}

/// Where the names that a checkout has to do with come from.
proof fn lemma_names_from(st: CheckoutState, told: Told, x: Seq<char>)
    requires
        checkout_next(st, told).0.seen.contains(x) || checkout_next(st, told).0.queue.contains(x),
    ensures
        st.seen.contains(x) || st.queue.contains(x) || names_told(st, told).contains(x),
{
    let now = checkout_next(st, told).0;
    lemma_turn(st, told);
    lemma_queue_more(st.queue, names_told(st, told), x);
    assert(now.seen.contains(x) || now.queue.contains(x));
}

proof fn lemma_names_plain(root: Seq<char>, told: Seq<Told>)
    ensures
        names_plain(checkout_after(root, told).0),
    decreases told.len(),
{
    if told.len() > 0 {
        let before = told.drop_last();
        lemma_names_plain(root, before);
        let was = checkout_after(root, before).0;
        let now = checkout_after(root, told).0;
        lemma_turn(was, told.last());
        lemma_inner_told(was, told.last());
        assert forall|x: Seq<char>| now.seen.contains(x) || now.queue.contains(
            x,
        ) implies sibling_name(x) by {
            lemma_names_from(was, told.last(), x);
            if names_told(was, told.last()).contains(x) {
                lemma_names_told(was, told.last(), x);
            }
        }
    }
}

/// Two siblings, or a sibling and the commit, have places of their own.
proof fn lemma_apart(scratch: Seq<char>, a: Seq<char>, b: Seq<char>)
    requires
        !absolute(a),
        !absolute(b),
        a != b,
    ensures
        resolved(scratch, a) != resolved(scratch, b),
{
    let dir = if scratch.len() > 0 && scratch.last() != '/' {
        scratch.push('/')
    } else {
        scratch
    };
    if resolved(scratch, a) == resolved(scratch, b) {
        assert((dir + a).skip(dir.len() as int) =~= a);
        assert((dir + b).skip(dir.len() as int) =~= b);
    }
}

/// A complete checkout holds committed content alone: the tree of the index under
/// `self`, and beside it the `HEAD` of each sibling that is not missing, in a
/// place of its own. A sibling is missing only where it could not be extracted,
/// or where the commit has its place.
pub proof fn a_complete_checkout_holds_committed_content(root: Seq<char>, told: Seq<Told>)
    requires
        checkout_after(root, told).0.phase == CheckoutPhase::<Seq<char>>::Finished(true),
    ensures
        ({
            let st = checkout_after(root, told).0;
            &&& commit_extracted(root, told, st.scratch)
            &&& forall|i: int|
                0 <= i < st.seen.len() ==> st.missing.contains(#[trigger] st.seen[i]) || {
                    &&& sibling_asked(root, told, st.scratch, st.seen[i], true)
                    &&& resolved(st.scratch, st.seen[i]) != own_dir(st.scratch)
                }
            &&& forall|i: int, j: int|
                0 <= i < st.seen.len() && 0 <= j < st.seen.len() && st.seen[i] != st.seen[j]
                    ==> resolved(st.scratch, #[trigger] st.seen[i]) != resolved(
                    st.scratch,
                    #[trigger] st.seen[j],
                )
            &&& forall|i: int|
                0 <= i < st.missing.len() ==> #[trigger] st.missing[i] == "self"@ || sibling_asked(
                    root,
                    told,
                    st.scratch,
                    st.missing[i],
                    false,
                )
        }),
{
    lemma_commit_came(root, told);
    lemma_siblings_came(root, told);
    lemma_names_plain(root, told);
    let st = checkout_after(root, told).0;
    reveal_strlit("self");
    assert("self"@[0] == 's');
    assert forall|i: int| 0 <= i < st.seen.len() implies !absolute(#[trigger] st.seen[i]) by {
        assert(st.seen.contains(st.seen[i]));
        if absolute(st.seen[i]) {
            assert(st.seen[i].contains('/'));
        }
    }
    assert forall|i: int| 0 <= i < st.seen.len() && #[trigger] st.seen[i] != "self"@ implies resolved(
        st.scratch,
        st.seen[i],
    ) != own_dir(st.scratch) by {
        lemma_apart(st.scratch, st.seen[i], "self"@);
    }
    assert forall|i: int, j: int|
        0 <= i < st.seen.len() && 0 <= j < st.seen.len() && st.seen[i]
            != st.seen[j] implies resolved(st.scratch, #[trigger] st.seen[i]) != resolved(
        st.scratch,
        #[trigger] st.seen[j],
    ) by {
        lemma_apart(st.scratch, st.seen[i], st.seen[j]);
    }
}

/// The segments of the paths that a manifest in an answer names all come from a
/// set.
pub open spec fn names_within(told: Told, names: Set<Seq<char>>) -> bool {
    forall|path: Seq<char>, i: int|
        paths_named(text_told(told)).contains(path) && 0 <= i < segments(path).len()
            ==> names.contains(#[trigger] segments(path)[i])
}

/// The names of siblings that a checkout has to do with all come from a set, and
/// it has looked at none twice.
pub open spec fn checkout_bounded(st: CheckoutState, names: Set<Seq<char>>) -> bool {
    &&& st.seen.no_duplicates()
    &&& forall|x: Seq<char>|
        #![trigger st.seen.contains(x)]
        #![trigger st.queue.contains(x)]
        st.seen.contains(x) || st.queue.contains(x) ==> names.contains(x)
    &&& forall|i: int| 0 <= i < st.inner.len() ==> inner_manifest(#[trigger] st.inner[i])
    &&& st.phase is Making || st.phase is Naming || st.phase is Exporting ==> st.seen.len() == 0
}

/// How far a checkout is from its end, with a number of siblings in the world:
/// the siblings left, then the steps within the tree at hand, then the manifests
/// left in it.
pub open spec fn checkout_rank(st: CheckoutState, n: nat) -> (nat, nat, nat) {
    let left = if st.seen.len() <= n {
        (n - st.seen.len()) as nat
    } else {
        0
    };
    match st.phase {
        CheckoutPhase::Making => (left + 4, 0, 0),
        CheckoutPhase::Naming => (left + 3, 0, 0),
        CheckoutPhase::Exporting => (left + 2, 0, 0),
        CheckoutPhase::Sibling(_) => (left + 1, 3, 0),
        CheckoutPhase::Reading(_) => (left + 1, 2, 0),
        CheckoutPhase::Listing(_) => (left + 1, 1, 0),
        CheckoutPhase::Inner(_) => (left + 1, 0, st.inner.len()),
        CheckoutPhase::Failing => (0, 1, 0),
        CheckoutPhase::Finished(_) => (0, 0, 0),
    }
}

proof fn lemma_seen_few(st: CheckoutState, names: Set<Seq<char>>)
    requires
        names.finite(),
        checkout_bounded(st, names),
    ensures
        st.seen.len() <= names.len(),
{
    st.seen.unique_seq_to_set();
    assert forall|name: Seq<char>| st.seen.to_set().contains(name) implies names.contains(
        name,
    ) by {
        assert(st.seen.contains(name));
    }
    vstd::set_lib::lemma_len_subset(st.seen.to_set(), names);
}

/// The names that an answer brings come from the set that they all come from.
proof fn lemma_names_within(
    st: CheckoutState,
    told: Told,
    names: Set<Seq<char>>,
    name: Seq<char>,
)
    requires
        checkout_bounded(st, names),
        names_within(told, names),
        names_told(st, told).contains(name),
    ensures
        names.contains(name),
{
    let text = text_told(told);
    let dir = if let CheckoutPhase::Inner(place) = st.phase {
        inner_dir(st.inner.last())
    } else {
        Seq::empty()
    };
    if let CheckoutPhase::Inner(place) = st.phase {
        let path = st.inner.last();
        assert(inner_manifest(st.inner[st.inner.len() - 1]));
        if inner_dir(path).contains(".."@) {
            let i = choose|i: int| 0 <= i < inner_dir(path).len() && inner_dir(path)[i] == ".."@;
            assert(segments(path)[i] == ".."@);
        }
    }
    a_sibling_is_a_segment_of_a_path(text, dir, name);
    let path = choose|path: Seq<char>| #[trigger]
        paths_named(text).contains(path) && segments(path).contains(name);
    let i = choose|i: int| 0 <= i < segments(path).len() && segments(path)[i] == name;
    assert(names.contains(segments(path)[i]));
}

/// A checkout extracts no sibling twice, and every answer brings it nearer to its
/// end, as long as the paths that it reads are made of finitely many segments.
pub proof fn every_answer_brings_a_checkout_nearer(
    st: CheckoutState,
    told: Told,
    names: Set<Seq<char>>,
)
    requires
        names.finite(),
        checkout_bounded(st, names),
        names_within(told, names),
    ensures
        checkout_bounded(checkout_next(st, told).0, names),
        checkout_next(st, told).1 is Done || ({
            let was = checkout_rank(st, names.len());
            let now = checkout_rank(checkout_next(st, told).0, names.len());
            ||| now.0 < was.0
            ||| now.0 == was.0 && now.1 < was.1
            ||| now.0 == was.0 && now.1 == was.1 && now.2 < was.2
        }),
{
    let now = checkout_next(st, told).0;
    lemma_turn(st, told);
    lemma_inner_told(st, told);
    assert forall|x: Seq<char>| now.seen.contains(x) || now.queue.contains(
        x,
    ) implies names.contains(x) by {
        lemma_names_from(st, told, x);
        if names_told(st, told).contains(x) {
            lemma_names_within(st, told, names, x);
        }
    }
    lemma_seen_few(st, names);
    lemma_seen_few(now, names);
}

/// A checkout ends from any time on.
proof fn lemma_checkout_ends(
    root: Seq<char>,
    world: spec_fn(int) -> Told,
    names: Set<Seq<char>>,
    n: nat,
) -> (m: nat)
    requires
        names.finite(),
        forall|i: int| names_within(#[trigger] world(i), names),
        checkout_bounded(checkout_after(root, answers(world, n)).0, names),
    ensures
        checkout_after(root, answers(world, m)).1 is Done,
    decreases
            checkout_rank(checkout_after(root, answers(world, n)).0, names.len()).0,
            checkout_rank(checkout_after(root, answers(world, n)).0, names.len()).1,
            checkout_rank(checkout_after(root, answers(world, n)).0, names.len()).2,
{
    let now = answers(world, n);
    let next = answers(world, n + 1);
    let told = world(n as int);
    assert(next.drop_last() =~= now);
    assert(next.last() == told);
    every_answer_brings_a_checkout_nearer(checkout_after(root, now).0, told, names);
    if checkout_after(root, next).1 is Done {
        n + 1
    } else {
        lemma_checkout_ends(root, world, names, n + 1)
    }
}

/// A checkout ends. Whatever the world answers, after enough answers it asks for
/// nothing more, as long as the paths that manifests in the answers name are
/// made of finitely many segments.
pub proof fn a_checkout_ends(
    root: Seq<char>,
    world: spec_fn(int) -> Told,
    names: Set<Seq<char>>,
)
    requires
        names.finite(),
        forall|i: int| names_within(#[trigger] world(i), names),
    ensures
        exists|n: nat| (#[trigger] checkout_after(root, answers(world, n))).1 is Done,
{
    assert(answers(world, 0) =~= Seq::empty());
    let n = lemma_checkout_ends(root, world, names, 0);
    assert(checkout_after(root, answers(world, n)).1 is Done);
}

/// How a checkout begins: with a scratch directory, the index written as a tree,
/// and that tree of the repository extracted to `self` below the directory. The
/// tree is named as git printed it, whole. Then the manifest there is read, as
/// long as the repository lies in a directory. Each of these that fails ends the
/// checkout with a warning of its own.
pub proof fn a_checkout_begins_with_the_commit(
    root: Seq<char>,
    told: Seq<Told>,
    scratch: Seq<char>,
    printed: Seq<u8>,
    a: Seq<char>,
    tree: Seq<char>,
    b: Seq<char>,
)
    requires
        told.len() == 3,
        told[0] == Told::Text(Some(scratch)),
        scratch.len() > 0,
        scratch.last() != '/',
        told[1] == Told::Bytes(Some(printed)),
        lossy(printed) == a + tree + b,
        blank(a),
        blank(b),
        tree.len() > 0 ==> !white(tree[0]) && !white(tree.last()),
    ensures
        checkout_after(root, Seq::empty()).1 == Asked::Scratch,
        checkout_after(root, seq![Told::Text(None)]).1 == Asked::Warn(
            "could not make a scratch directory (CI may fail)"@,
        ),
        checkout_after(root, told.take(1)).1 == Asked::Output(Tool::WriteTree),
        checkout_after(root, told.take(1).push(Told::Bytes(None))).1 == Asked::Warn(
            "could not write the pending commit as a tree (CI may fail)"@,
        ),
        checkout_after(root, told.take(2)).1 == Asked::Export(root, tree, scratch + "/self"@),
        told[2] != Told::Flag(true) ==> checkout_after(root, told).1 == Asked::Warn(
            "could not export the pending commit"@,
        ),
        told[2] == Told::Flag(true) && parent(root) is None ==> checkout_after(root, told).1
            == Asked::Warn("the repository lies in no directory (CI may fail)"@),
        told[2] == Told::Flag(true) && parent(root) is Some ==> checkout_after(root, told).1
            == Asked::ReadText(scratch + "/self/Cargo.toml"@),
{
    reveal_strlit("self");
    reveal_strlit("/self");
    reveal_strlit("Cargo.toml");
    reveal_strlit("/self/Cargo.toml");
    let own = scratch + "/self"@;
    a_relative_path_stands_behind_its_directory(scratch, "self"@);
    assert(scratch + seq!['/'] + "self"@ =~= own);
    a_relative_path_stands_behind_its_directory(own, "Cargo.toml"@);
    assert(own.last() == 'f');
    assert(own + seq!['/'] + "Cargo.toml"@ =~= scratch + "/self/Cargo.toml"@);
    trimming_takes_white_space_alone(a, tree, b);
    let none = seq![Told::Text(None)];
    assert(none.drop_last() =~= Seq::empty());
    assert(checkout_after(root, none) == checkout_next(checkout_start(root).0, none.last()));
    assert(told.take(1).drop_last() =~= Seq::empty());
    assert(told.take(1).last() == told[0]);
    assert(checkout_after(root, told.take(1)) == checkout_next(checkout_start(root).0, told[0]));
    assert(told.take(1).push(Told::Bytes(None)).drop_last() =~= told.take(1));
    assert(told.take(2).drop_last() =~= told.take(1));
    assert(told.take(2).last() == told[1]);
    assert(told.drop_last() =~= told.take(2));
}

/// A sibling lies beside the repository: its `HEAD` is extracted from the
/// directory of that name beside the repository, to the place of that name
/// beside the commit, and its manifest is read there. One that cannot be
/// extracted ends the checkout of a package with a warning that names it; that
/// of a workspace goes on without it.
pub proof fn a_sibling_lies_beside_the_repository(
    st: CheckoutState,
    home: Seq<char>,
    own: Seq<char>,
    name: Seq<char>,
    told: Told,
)
    requires
        own.len() > 0,
        !own.contains('/'),
        own != seq!['.'],
        home.len() > 0,
        home.last() != '/',
        !dot_last(home),
        name.len() > 0,
        name[0] != '/',
        st.root == home + seq!['/'] + own,
        st.scratch.len() > 0,
        st.scratch.last() != '/',
    ensures
        sibling_export(st.root, st.scratch, name) == Asked::Export(
            home + seq!['/'] + name,
            "HEAD"@,
            st.scratch + seq!['/'] + name,
        ),
        st.phase == CheckoutPhase::Sibling(name) && told == Told::Flag(true) && name.last() != '/'
            ==> checkout_next(st, told).1 == Asked::ReadText(
            st.scratch + seq!['/'] + name + "/Cargo.toml"@,
        ),
        st.phase == CheckoutPhase::Sibling(name) && told != Told::Flag(true) && !st.whole
            ==> checkout_next(st, told).1 == Asked::Warn(
            "could not export sibling dependency "@ + name,
        ),
        st.phase == CheckoutPhase::Sibling(name) && told != Told::Flag(true) && st.whole
            ==> checkout_next(st, told).1 !is Warn,
{
    reveal_strlit("Cargo.toml");
    reveal_strlit("/Cargo.toml");
    a_path_is_its_directory_and_its_name(home, own);
    a_relative_path_stands_behind_its_directory(home, name);
    a_relative_path_stands_behind_its_directory(st.scratch, name);
    let dir = st.scratch + seq!['/'] + name;
    assert(dir.last() == name.last());
    a_relative_path_stands_behind_its_directory(dir, "Cargo.toml"@);
    assert(dir + seq!['/'] + "Cargo.toml"@ =~= dir + "/Cargo.toml"@);
    lemma_turn(st, told);
}

/// The other manifests of a tree are its files named `Cargo.toml` that lie in a
/// directory below its root, however deep, and the directory of one is what
/// stands before its name. The one at the root is not among them, and no file of
/// another name is.
pub proof fn the_other_manifests_lie_below_the_root(dir: Seq<char>, name: Seq<char>)
    requires
        dir.len() > 0,
        dir[0] != '/',
        segments(dir).len() > 0,
        name.len() > 0,
        !name.contains('/'),
        name != seq!['.'],
    ensures
        inner_manifest(dir + seq!['/'] + name) <==> name == "Cargo.toml"@ && !segments(
            dir,
        ).contains(".."@),
        inner_dir(dir + seq!['/'] + name) == segments(dir),
        !inner_manifest(name),
        inner_dir(name) == Seq::<Seq<char>>::empty(),
{
    reveal_strlit("Cargo.toml");
    reveal_strlit("..");
    let path = dir + seq!['/'] + name;
    the_segments_stand_between_the_slashes(dir, name, name);
    assert(path[0] == dir[0]);
    let all = segments(path);
    assert(all =~= segments(dir).push(name));
    assert(all.drop_last() =~= segments(dir));
    assert(seq![name].drop_last() =~= Seq::<Seq<char>>::empty());
    if segments(dir).contains(".."@) {
        let i = choose|i: int| 0 <= i < segments(dir).len() && segments(dir)[i] == ".."@;
        assert(all[i] == ".."@);
    } else if name == "Cargo.toml"@ {
        assert("Cargo.toml"@[0] == 'C');
        assert(".."@[0] == '.');
        if all.contains(".."@) {
            let i = choose|i: int| 0 <= i < all.len() && all[i] == ".."@;
            if i < segments(dir).len() {
                assert(segments(dir)[i] == ".."@);
            }
        }
    }
}

/// All of the other manifests of a tree are found, in order.
pub proof fn the_other_manifests_are_picked_from_the_files(paths: Seq<Seq<char>>)
    ensures
        inner_manifests(paths) == paths.filter(
            |path: Seq<char>|
                (path.len() == 0 || path[0] != '/') && !segments(path).contains(".."@) && segments(
                    path,
                ).len() >= 2 && segments(path).last() == "Cargo.toml"@,
        ),
    decreases paths.len(),
{
    reveal(Seq::filter);
    if paths.len() > 0 {
        the_other_manifests_are_picked_from_the_files(paths.drop_last());
    }
}

/// The manifest at the root of the commit decides whether the checkout is that
/// of a workspace.
pub proof fn the_commits_manifest_tells_a_workspace(root: Seq<char>, told: Seq<Told>)
    requires
        checkout_after(root, told).0.phase == CheckoutPhase::<Seq<char>>::Finished(true),
    ensures
        told.len() >= 4,
        checkout_after(root, told).0.whole == workspace(text_told(told[3])),
{
    lemma_whole(root, told);
}

proof fn lemma_whole(root: Seq<char>, told: Seq<Told>)
    ensures
        ({
            let st = checkout_after(root, told).0;
            &&& st.phase is Making ==> told.len() == 0
            &&& st.phase is Naming ==> told.len() == 1
            &&& st.phase is Exporting ==> told.len() == 2
            &&& st.phase == CheckoutPhase::<Seq<char>>::Reading(None) ==> told.len() == 3
            &&& going(st.phase) && !beginning(st.phase) ==> told.len() >= 4 && st.whole
                == workspace(text_told(told[3]))
        }),
    decreases told.len(),
{
    if told.len() > 0 {
        let before = told.drop_last();
        lemma_whole(root, before);
        lemma_turn(checkout_after(root, before).0, told.last());
        if before.len() >= 4 {
            assert(before[3] == told[3]);
        }
    }
}

/// What a manifest depends on is checked out: by the time that a checkout is
/// complete, it has looked at every sibling that a manifest which it read
/// depends on. Of a package, that is what the manifest at the root of a tree
/// names. Of a workspace, it is what the commit's own manifest mentions, and
/// what any other manifest reaches from where it lies.
pub proof fn what_a_manifest_names_is_checked_out(
    root: Seq<char>,
    told: Seq<Told>,
    k: int,
    text: Seq<char>,
    place: Option<Seq<char>>,
    dir: Seq<char>,
    name: Seq<char>,
)
    requires
        checkout_after(root, told).0.phase == CheckoutPhase::<Seq<char>>::Finished(true),
        0 <= k < told.len(),
        told[k] == Told::Text(Some(text)),
        ({
            let was = checkout_after(root, told.take(k)).0;
            let whole = workspace(text_told(told[3]));
            ||| !whole && was.phase == CheckoutPhase::Reading(place) && siblings(
                Some(text),
            ).contains(name)
            ||| whole && was.phase == CheckoutPhase::<Seq<char>>::Reading(None) && mentioned(
                Some(text),
            ).contains(name)
            ||| whole && place is Some && was.phase == CheckoutPhase::Reading(place) && reached(
                Some(text),
                Seq::empty(),
            ).contains(name)
            ||| was.phase == CheckoutPhase::Inner(place) && was.inner.len() > 0 && dir.len() > 0
                && segments(dir).len() > 0 && was.inner.last() == dir + "/Cargo.toml"@ && reached(
                Some(text),
                segments(dir),
            ).contains(name)
        }),
    ensures
        checkout_after(root, told).0.seen.contains(name),
{
    reveal_strlit("Cargo.toml");
    reveal_strlit("/Cargo.toml");
    let file = "Cargo.toml"@;
    assert(!file.contains('/'));
    assert(dir + "/Cargo.toml"@ =~= dir + seq!['/'] + file);
    the_segments_stand_between_the_slashes(dir, file, file);
    assert((segments(dir) + seq![file]).drop_last() =~= segments(dir));
    let was = checkout_after(root, told.take(k)).0;
    lemma_whole(root, told);
    lemma_whole(root, told.take(k));
    if k > 3 {
        assert(told.take(k)[3] == told[3]);
    }
    let needs = needs_told(was, told[k])->0;
    assert(needs_told(was, told[k]) is Some);
    assert(needs.names.contains(name)) by {
        if was.phase == CheckoutPhase::<Seq<char>>::Reading(None) {
            assert(k == 3);
        }
    }
    lemma_needs_kept(root, told, k);
    let list = manifests_read(root, told);
    let i = choose|i: int| 0 <= i < list.len() && list[i] == needs;
    assert(list[i].names.contains(name));
    assert(needed(list, name));
    a_complete_checkout_is_the_closure(root, told);
}

proof fn lemma_needs_kept(root: Seq<char>, told: Seq<Told>, k: int)
    requires
        0 <= k < told.len(),
        needs_told(checkout_after(root, told.take(k)).0, told[k]) is Some,
    ensures
        manifests_read(root, told).contains(
            needs_told(checkout_after(root, told.take(k)).0, told[k])->0,
        ),
    decreases told.len(),
{
    let before = told.drop_last();
    let list = manifests_read(root, told);
    if k == told.len() - 1 {
        assert(told.take(k) =~= before);
        assert(list[list.len() - 1] == needs_told(checkout_after(root, before).0, told[k])->0);
    } else {
        assert(before.take(k) =~= told.take(k));
        assert(before[k] == told[k]);
        lemma_needs_kept(root, before, k);
        let prior = manifests_read(root, before);
        let needs = needs_told(checkout_after(root, told.take(k)).0, told[k])->0;
        let i = choose|i: int| 0 <= i < prior.len() && prior[i] == needs;
        assert(list[i] == needs);
    }
}

/// The warnings of a checkout: one for each way in which it can fail. That of a
/// sibling names it, and comes in the checkout of a package alone.
pub proof fn the_warnings_of_a_checkout(root: Seq<char>, told: Seq<Told>, message: Seq<char>)
    requires
        checkout_after(root, told).1 == Asked::Warn(message),
    ensures
        ({
            let st = checkout_after(root, told).0;
            ||| message == "could not make a scratch directory (CI may fail)"@
            ||| message == "could not write the pending commit as a tree (CI may fail)"@
            ||| message == "could not export the pending commit"@
            ||| message == "the repository lies in no directory (CI may fail)"@
            ||| !st.whole && st.seen.len() > 0 && exists|name: Seq<char>|
                st.seen.contains(name) && message
                    == #[trigger] ("could not export sibling dependency "@ + name)
        }),
{
    lemma_warned(root, told);
}

proof fn lemma_warned(root: Seq<char>, told: Seq<Told>)
    ensures
        ({
            let (st, asked) = checkout_after(root, told);
            &&& st.phase matches CheckoutPhase::Sibling(name) ==> st.seen.contains(name)
            &&& asked matches Action::Warn(message) ==> {
                ||| message == "could not make a scratch directory (CI may fail)"@
                ||| message == "could not write the pending commit as a tree (CI may fail)"@
                ||| message == "could not export the pending commit"@
                ||| message == "the repository lies in no directory (CI may fail)"@
                ||| !st.whole && st.seen.len() > 0 && exists|name: Seq<char>|
                    st.seen.contains(name) && message
                        == #[trigger] ("could not export sibling dependency "@ + name)
            }
        }),
    decreases told.len(),
{
    if told.len() > 0 {
        let before = told.drop_last();
        lemma_warned(root, before);
        let was = checkout_after(root, before).0;
        let answer = told.last();
        lemma_turn(was, answer);
        match turning(was, answer) {
            Some(mid) => {
                lemma_advance_warns(mid);
            },
            None => {
                if let CheckoutPhase::Sibling(name) = was.phase {
                    assert(was.seen.contains(name));
                    assert(lost(name) == "could not export sibling dependency "@ + name);
                }
            },
        }
    }
}

proof fn lemma_advance_warns(st: CheckoutState)
    ensures
        ({
            let (now, asked) = checkout_advance(st);
            asked matches Action::Warn(message) ==> !now.whole && now.seen.len() > 0 && exists|
                name: Seq<char>,
            |
                now.seen.contains(name) && message
                    == #[trigger] ("could not export sibling dependency "@ + name)
        }),
    decreases st.queue.len(),
{
    if st.queue.len() > 0 {
        let name = st.queue.last();
        let rest = CheckoutState { queue: st.queue.drop_last(), ..st };
        if st.seen.contains(name) {
            lemma_advance_warns(rest);
        } else {
            let taken = CheckoutState { seen: st.seen.push(name), ..rest };
            if name == "self"@ && st.whole {
                lemma_advance_warns(CheckoutState { missing: st.missing.push(name), ..taken });
            } else if name == "self"@ {
                assert(taken.seen[st.seen.len() as int] == name);
                assert(lost(name) == "could not export sibling dependency "@ + name);
            }
        }
    }
}

/// A manifest is what was read where it was asked for: each that a checkout takes
/// in comes as the answer to a request for the very file.
pub proof fn a_manifest_is_read_where_it_was_asked_for(
    root: Seq<char>,
    told: Seq<Told>,
    answer: Told,
)
    ensures
        needs_told(checkout_after(root, told).0, answer) matches Some(needs) ==> checkout_after(
            root,
            told,
        ).1 == Asked::ReadText(needs.file),
        checkout_after(root, told).1 matches Action::ReadText(file) ==> (needs_told(
            checkout_after(root, told).0,
            answer,
        ) matches Some(needs) && needs.file == file),
{
    if told.len() > 0 {
        lemma_turn(checkout_after(root, told.drop_last()).0, told.last());
    }
}

/// The files of a tree are listed where the tree lies: those of the commit in the
/// repository, under the tree's name, and those of a sibling in the directory of
/// its name beside the repository, at its `HEAD`. A manifest below the root of a
/// tree is read at its path below the tree's place.
pub proof fn a_tree_is_listed_where_it_lies(
    st: CheckoutState,
    home: Seq<char>,
    own: Seq<char>,
    name: Seq<char>,
    told: Told,
)
    requires
        own.len() > 0,
        !own.contains('/'),
        own != seq!['.'],
        home.len() > 0,
        home.last() != '/',
        !dot_last(home),
        name.len() > 0,
        name[0] != '/',
        name.last() != '/',
        st.root == home + seq!['/'] + own,
        st.scratch.len() > 0,
        st.scratch.last() != '/',
        st.phase is Reading,
        whole_told(st, told),
    ensures
        st.phase == CheckoutPhase::<Seq<char>>::Reading(None) ==> checkout_next(st, told).1
            == Asked::Output(Tool::TreePaths(st.root, st.tree)),
        st.phase == CheckoutPhase::Reading(Some(name)) ==> checkout_next(st, told).1
            == Asked::Output(Tool::TreePaths(home + seq!['/'] + name, "HEAD"@)),
        place_dir(st.scratch, Some(name)) == st.scratch + seq!['/'] + name,
        place_dir(st.scratch, None) == st.scratch + "/self"@,
{
    reveal_strlit("self");
    reveal_strlit("/self");
    a_path_is_its_directory_and_its_name(home, own);
    a_relative_path_stands_behind_its_directory(home, name);
    a_relative_path_stands_behind_its_directory(st.scratch, name);
    a_relative_path_stands_behind_its_directory(st.scratch, "self"@);
    assert(st.scratch + seq!['/'] + "self"@ =~= st.scratch + "/self"@);
}

/// The manifests below the root of a tree are read one by one, each at its path
/// below the place of the tree.
pub proof fn an_inner_manifest_is_read_at_its_path(
    st: CheckoutState,
    place: Option<Seq<char>>,
    output: Seq<u8>,
)
    requires
        st.phase == CheckoutPhase::Listing(place),
        inner_manifests(paths_or_none(Some(output))).len() > 0,
    ensures
        ({
            let all = inner_manifests(paths_or_none(Some(output)));
            checkout_next(st, Told::Bytes(Some(output))).1 == Asked::ReadText(
                resolved(place_dir(st.scratch, place), all.last()),
            )
        }),
{
}

/// What a manifest of a checkout needs. Of a package, it is the siblings that the
/// manifest at the root of a tree names. Of a workspace, it is what the commit's
/// own manifest mentions, and what any other reaches from where it lies: from the
/// root of its tree, or from a directory below that. Nothing else is needed.
pub proof fn what_a_manifest_needs(
    st: CheckoutState,
    text: Option<Seq<char>>,
    place: Option<Seq<char>>,
    name: Seq<char>,
    dir: Seq<char>,
)
    ensures
        ({
            let needs = needs_told(st, Told::Text(text))->0.names;
            let first = st.phase == CheckoutPhase::<Seq<char>>::Reading(None);
            &&& first && workspace(text) ==> needs == mentioned(text)
            &&& first && !workspace(text) ==> needs == siblings(text)
            &&& st.phase == CheckoutPhase::Reading(Some(name)) && st.whole ==> needs == reached(
                text,
                Seq::empty(),
            )
            &&& st.phase == CheckoutPhase::Reading(Some(name)) && !st.whole ==> needs == siblings(
                text,
            )
            &&& st.phase == CheckoutPhase::Inner(place) && st.inner.len() > 0 && st.inner.last()
                == dir + "/Cargo.toml"@ ==> needs == reached(text, segments(dir))
            &&& needs_told(st, Told::Text(text)) is Some <==> st.phase is Reading || (st.phase
                is Inner && st.inner.len() > 0)
        }),
{
    reveal_strlit("Cargo.toml");
    reveal_strlit("/Cargo.toml");
    let file = "Cargo.toml"@;
    assert(!file.contains('/'));
    assert(dir + "/Cargo.toml"@ =~= dir + seq!['/'] + file);
    the_segments_stand_between_the_slashes(dir, file, file);
    assert((segments(dir) + seq![file]).drop_last() =~= segments(dir));
}

/// The tree that is listed is the tree that was extracted: from the time on that
/// git has named it, a checkout knows it by that name, whole.
pub proof fn the_extracted_tree_keeps_its_name(
    root: Seq<char>,
    told: Seq<Told>,
    scratch: Seq<char>,
    printed: Seq<u8>,
    a: Seq<char>,
    tree: Seq<char>,
    b: Seq<char>,
)
    requires
        told.len() >= 2,
        told[0] == Told::Text(Some(scratch)),
        told[1] == Told::Bytes(Some(printed)),
        lossy(printed) == a + tree + b,
        blank(a),
        blank(b),
        tree.len() > 0 ==> !white(tree[0]) && !white(tree.last()),
    ensures
        checkout_after(root, told).0.tree == tree,
        checkout_after(root, told).0.scratch == scratch,
        checkout_after(root, told).0.root == root,
        checkout_after(root, told).0.phase !is Making,
        checkout_after(root, told).0.phase !is Naming,
    decreases told.len(),
{
    trimming_takes_white_space_alone(a, tree, b);
    let before = told.drop_last();
    if told.len() == 2 {
        assert(before.drop_last() =~= Seq::empty());
        assert(checkout_after(root, before.drop_last()) == checkout_start(root));
        assert(before.last() == told[0]);
        assert(checkout_after(root, before) == checkout_next(checkout_start(root).0, told[0]));
    } else {
        assert(before[0] == told[0] && before[1] == told[1]);
        the_extracted_tree_keeps_its_name(root, before, scratch, printed, a, tree, b);
        lemma_turn(checkout_after(root, before).0, told.last());
    }
}

} // verus!
