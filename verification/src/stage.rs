//! Staging exact bytes without re-reading the working tree.
//!
//! The bytes go to the object store first, and the index entry is then pointed
//! at the object, so that a concurrent write to the working tree cannot change
//! what is committed.
use vstd::prelude::*;

use crate::action::{bytes_told, flag_told, Action, Answer, Asked, Reply, Request, Told};
use crate::command::Tool;
use crate::git::{entry_mode, index_mode};
use crate::text::{a_text_is_its_trimmed_text_with_white_space_around, blank, white};
use crate::text::{decode_lossy, lossy, trim, trimmed, trimming_takes_white_space_alone};

verus! {

/// How often the index entry is tried.
pub const ATTEMPTS: u64 = 5;

/// How far the staging of a path has come, over the kind of text in it.
#[derive(Debug)]
pub enum Progress<S> {
    /// The bytes are being written to the object store.
    Hashing,
    /// The object has a name; the mode of the entry is being looked up.
    Listing(S),
    /// An attempt at pointing the entry at the object, and the entry.
    Updating(u64, S),
    /// A pause before an attempt, and the entry.
    Pausing(u64, S),
    /// A warning that the bytes cannot be staged is being printed.
    GivingUp,
    /// Whether the bytes are staged.
    Finished(bool),
}

/// The staging of bytes for a path.
#[derive(Debug)]
pub struct Staging {
    path: String,
    progress: Progress<String>,
}

impl View for Staging {
    type V = Stage;

    closed spec fn view(&self) -> Stage {
        Stage {
            path: self.path@,
            progress: match self.progress {
                Progress::Hashing => Progress::Hashing,
                Progress::Listing(object) => Progress::Listing(object@),
                Progress::Updating(n, entry) => Progress::Updating(n, entry@),
                Progress::Pausing(n, entry) => Progress::Pausing(n, entry@),
                Progress::GivingUp => Progress::GivingUp,
                Progress::Finished(ok) => Progress::Finished(ok),
            },
        }
    }
}

/// The staging of bytes for a path, as contracts speak of it.
pub struct Stage {
    pub path: Seq<char>,
    pub progress: Progress<Seq<char>>,
}

/// The pause after a failed attempt, in milliseconds: it doubles each time.
pub open spec fn pause(attempt: nat) -> nat
    decreases attempt,
{
    if attempt == 0 {
        50
    } else {
        2 * pause((attempt - 1) as nat)
    }
}

/// An index entry as `git update-index --cacheinfo` takes it.
pub open spec fn cache_info(mode: Seq<char>, object: Seq<char>, path: Seq<char>) -> Seq<char> {
    mode + ","@ + object + ","@ + path
}

/// The warning that a fix could not be staged.
pub open spec fn busy(path: Seq<char>) -> Seq<char> {
    "could not stage fix for "@ + path + " (index busy)"@
}

/// The warning that a fix never got as far as the index.
pub open spec fn refused(path: Seq<char>) -> Seq<char> {
    "could not stage fix for "@ + path + " (object not written)"@
}

/// The first request of a staging.
pub open spec fn stage_start(path: Seq<char>, bytes: Seq<u8>) -> (Stage, Asked) {
    (Stage { path, progress: Progress::Hashing }, Action::Feed(Tool::HashObject, bytes))
}

/// The next request of a staging, after an answer.
pub open spec fn stage_next(st: Stage, told: Told) -> (Stage, Asked) {
    match st.progress {
        Progress::Hashing => match bytes_told(told) {
            Some(name) => (
                Stage { progress: Progress::Listing(trim(lossy(name))), ..st },
                Action::Output(Tool::Entry(st.path)),
            ),
            None => (
                Stage { progress: Progress::GivingUp, ..st },
                Action::Warn(refused(st.path)),
            ),
        },
        Progress::Listing(object) => {
            let entry = cache_info(entry_mode(bytes_told(told)), object, st.path);
            (
                Stage { progress: Progress::Updating(0, entry), ..st },
                Action::Status(Tool::UpdateIndex(entry)),
            )
        },
        Progress::Updating(attempt, entry) => if flag_told(told) {
            (Stage { progress: Progress::Finished(true), ..st }, Action::Done)
        } else if attempt + 1 < ATTEMPTS {
            (
                Stage { progress: Progress::Pausing((attempt + 1) as u64, entry), ..st },
                Action::Sleep(pause(attempt as nat) as u64),
            )
        } else {
            (Stage { progress: Progress::GivingUp, ..st }, Action::Warn(busy(st.path)))
        },
        Progress::Pausing(attempt, entry) => (
            Stage { progress: Progress::Updating(attempt, entry), ..st },
            Action::Status(Tool::UpdateIndex(entry)),
        ),
        Progress::GivingUp => (
            Stage { progress: Progress::Finished(false), ..st },
            Action::Done,
        ),
        Progress::Finished(_) => (st, Action::Done),
    }
}

fn pause_of(attempt: u64) -> (millis: u64)
    requires
        attempt + 1 < ATTEMPTS,
    ensures
        millis == pause(attempt as nat),
{
    reveal_with_fuel(pause, 5);
    if attempt == 0 {
        50
    } else if attempt == 1 {
        100
    } else if attempt == 2 {
        200
    } else {
        400
    }
}

impl Staging {
    /// Begins to stage exact bytes for a path.
    pub fn start(path: String, bytes: Vec<u8>) -> (r: (Staging, Request))
        ensures
            (r.0@, r.1@) == stage_start(path@, bytes@),
    {
        (Staging { path, progress: Progress::Hashing }, Action::Feed(Tool::HashObject, bytes))
    }

    /// Takes an answer and makes the next request. Another process's momentary
    /// `git add` holds the index lock, so a refused entry is tried a few times
    /// before the fix is given up with a warning.
    pub fn step(self, answer: Answer) -> (r: (Staging, Request))
        ensures
            (r.0@, r.1@) == stage_next(self@, answer@),
    {
        let path = self.path;
        match self.progress {
            Progress::Hashing => match answer.bytes() {
                Some(name) => {
                    let text = decode_lossy(&name);
                    let object = trimmed(text.as_str());
                    let tool = Tool::Entry(path.clone());
                    (Staging { path, progress: Progress::Listing(object) }, Action::Output(tool))
                },
                None => {
                    let mut message = "could not stage fix for ".to_owned();
                    message.append(path.as_str());
                    message.append(" (object not written)");
                    (Staging { path, progress: Progress::GivingUp }, Action::Warn(message))
                },
            },
            Progress::Listing(object) => {
                let mut entry = index_mode(&answer.bytes());
                entry.append(",");
                entry.append(object.as_str());
                entry.append(",");
                entry.append(path.as_str());
                let tool = Tool::UpdateIndex(entry.clone());
                (Staging { path, progress: Progress::Updating(0, entry) }, Action::Status(tool))
            },
            Progress::Updating(attempt, entry) => if answer.flag() {
                (Staging { path, progress: Progress::Finished(true) }, Action::Done)
            } else if attempt < ATTEMPTS - 1 {
                let millis = pause_of(attempt);
                (
                    Staging { path, progress: Progress::Pausing(attempt + 1, entry) },
                    Action::Sleep(millis),
                )
            } else {
                let mut message = "could not stage fix for ".to_owned();
                message.append(path.as_str());
                message.append(" (index busy)");
                (Staging { path, progress: Progress::GivingUp }, Action::Warn(message))
            },
            Progress::Pausing(attempt, entry) => {
                let tool = Tool::UpdateIndex(entry.clone());
                (
                    Staging { path, progress: Progress::Updating(attempt, entry) },
                    Action::Status(tool),
                )
            },
            Progress::GivingUp => (
                Staging { path, progress: Progress::Finished(false) },
                Action::Done,
            ),
            Progress::Finished(ok) => (
                Staging { path, progress: Progress::Finished(ok) },
                Action::Done,
            ),
        }
    }

    /// Whether the bytes are staged.
    pub fn staged(&self) -> (r: bool)
        ensures
            r == (self@.progress == Progress::<Seq<char>>::Finished(true)),
    {
        match self.progress {
            Progress::Finished(ok) => ok,
            _ => false,
        }
    }
}

/// A staging after a number of answers.
pub open spec fn stage_after(path: Seq<char>, bytes: Seq<u8>, told: Seq<Told>) -> (Stage, Asked)
    decreases told.len(),
{
    if told.len() == 0 {
        stage_start(path, bytes)
    } else {
        stage_next(stage_after(path, bytes, told.drop_last()).0, told.last())
    }
}

/// What is known of a staging after its answers.
spec fn stage_fits(path: Seq<char>, bytes: Seq<u8>, told: Seq<Told>) -> bool {
    let (st, asked) = stage_after(path, bytes, told);
    let entry = cache_info(
        entry_mode(bytes_told(told[1])),
        trim(lossy(bytes_told(told[0])->0)),
        path,
    );
    &&& st.path == path
    &&& match st.progress {
        Progress::Hashing => told.len() == 0 && asked == Asked::Feed(Tool::HashObject, bytes),
        Progress::Listing(object) => told.len() == 1 && bytes_told(told[0]) is Some && object
            == trim(lossy(bytes_told(told[0])->0)) && asked is Output,
        Progress::Updating(n, e) => n < ATTEMPTS && told.len() == 2 + 2 * n && bytes_told(
            told[0],
        ) is Some && e == entry && asked is Status && asked->Status_0 == Tool::UpdateIndex(entry),
        Progress::Pausing(n, e) => 1 <= n < ATTEMPTS && told.len() == 1 + 2 * n && bytes_told(
            told[0],
        ) is Some && e == entry && asked is Sleep,
        Progress::GivingUp => {
            ||| told.len() == 1 && asked == Asked::Warn(refused(path))
            ||| told.len() == 1 + 2 * ATTEMPTS && asked == Asked::Warn(busy(path))
        },
        Progress::Finished(ok) => asked is Done,
    }
}

proof fn lemma_stage_fits(path: Seq<char>, bytes: Seq<u8>, told: Seq<Told>)
    ensures
        stage_fits(path, bytes, told),
    decreases told.len(),
{
    if told.len() > 0 {
        let was = told.drop_last();
        lemma_stage_fits(path, bytes, was);
        if was.len() > 0 {
            assert(was[0] == told[0]);
        }
        if was.len() > 1 {
            assert(was[1] == told[1]);
        }
    }
}

/// Staging is content-addressed: whatever the answers, an entry that the index
/// is asked to take names the path, and the object that the object store named
/// when it was given exactly the bytes.
pub proof fn staging_is_content_addressed(
    path: Seq<char>,
    bytes: Seq<u8>,
    told: Seq<Told>,
    entry: Seq<char>,
)
    requires
        stage_after(path, bytes, told).1 == Asked::Status(Tool::UpdateIndex(entry)),
    ensures
        told.len() >= 2,
        stage_after(path, bytes, told.take(0)).1 == Asked::Feed(Tool::HashObject, bytes),
        bytes_told(told[0]) matches Some(name) && entry == cache_info(
            entry_mode(bytes_told(told[1])),
            trim(lossy(name)),
            path,
        ),
{
    lemma_stage_fits(path, bytes, told);
}

/// Staging ends, whatever the answers: with an index that stays busy it is
/// given up after its last attempt.
pub proof fn staging_ends(path: Seq<char>, bytes: Seq<u8>, told: Seq<Told>)
    ensures
        told.len() >= 2 + 2 * ATTEMPTS ==> stage_after(path, bytes, told).1 is Done,
{
    lemma_stage_fits(path, bytes, told);
}

/// A fix that is not staged gets a warning that names its path: whatever the
/// answers, a staging that ends without success has just printed one.
pub proof fn a_failed_staging_is_warned_about(path: Seq<char>, bytes: Seq<u8>, told: Seq<Told>)
    requires
        told.len() > 0,
        stage_after(path, bytes, told).1 is Done,
        stage_after(path, bytes, told.drop_last()).1 !is Done,
        stage_after(path, bytes, told).0.progress != Progress::<Seq<char>>::Finished(true),
    ensures
        ({
            let last = stage_after(path, bytes, told.drop_last()).1;
            last == Asked::Warn(busy(path)) || last == Asked::Warn(refused(path))
        }),
{
    lemma_stage_fits(path, bytes, told.drop_last());
    lemma_stage_fits(path, bytes, told);
}

/// Bytes count as staged only after the index took their entry.
pub proof fn staged_means_that_the_index_took_the_entry(
    path: Seq<char>,
    bytes: Seq<u8>,
    told: Seq<Told>,
)
    requires
        stage_after(path, bytes, told).0.progress == Progress::<Seq<char>>::Finished(true),
    ensures
        exists|k: int|
            0 <= k < told.len() && (#[trigger] stage_after(path, bytes, told.take(k))).1 is Status
                && flag_told(told[k]),
    decreases told.len(),
{
    let n = told.len() - 1;
    let was = told.drop_last();
    assert(was =~= told.take(n));
    lemma_stage_fits(path, bytes, was);
    if stage_after(path, bytes, was).0.progress is Finished {
        staged_means_that_the_index_took_the_entry(path, bytes, was);
        let k = choose|k: int|
            0 <= k < was.len() && (#[trigger] stage_after(path, bytes, was.take(k))).1 is Status
                && flag_told(was[k]);
        assert(was.take(k) =~= told.take(k));
        assert(stage_after(path, bytes, told.take(k)).1 is Status);
    } else {
        assert(stage_after(path, bytes, told.take(n)).1 is Status);
    }
}

/// The index is given the object's name whole: where the object store printed a
/// name with white space around it, the entry is the mode, a comma, every
/// character of the name, a comma and the path, however long the name is.
pub proof fn the_index_is_given_the_whole_name(
    path: Seq<char>,
    bytes: Seq<u8>,
    told: Seq<Told>,
    entry: Seq<char>,
    printed: Seq<u8>,
    a: Seq<char>,
    object: Seq<char>,
    b: Seq<char>,
)
    requires
        stage_after(path, bytes, told).1 == Asked::Status(Tool::UpdateIndex(entry)),
        told[0] == Told::Bytes(Some(printed)),
        lossy(printed) == a + object + b,
        blank(a),
        blank(b),
        object.len() > 0 ==> !white(object[0]) && !white(object.last()),
    ensures
        ({
            let mode = entry_mode(bytes_told(told[1]));
            let m = mode.len() as int;
            let n = object.len() as int;
            &&& entry == mode + seq![','] + object + seq![','] + path
            &&& entry[m] == ','
            &&& entry.subrange(m + 1, m + 1 + n) == object
            &&& entry[m + 1 + n] == ','
            &&& entry.skip(m + n + 2) == path
        }),
{
    staging_is_content_addressed(path, bytes, told, entry);
    if object.len() > 0 {
        trimming_takes_white_space_alone(a, object, b);
    } else {
        lemma_trim_blank(a + object + b);
    }
    reveal_strlit(",");
    assert(","@ =~= seq![',']);
    let mode = entry_mode(bytes_told(told[1]));
    let m = mode.len() as int;
    let n = object.len() as int;
    assert(entry.subrange(m + 1, m + 1 + n) =~= object);
    assert(entry.skip(m + n + 2) =~= path);
}

proof fn lemma_trim_blank(s: Seq<char>)
    requires
        blank(s),
    ensures
        trim(s) == Seq::<char>::empty(),
{
    let e = Seq::<char>::empty();
    let (a, b) = a_text_is_its_trimmed_text_with_white_space_around(s);
    if trim(s).len() > 0 {
        assert(s[a.len() as int] == trim(s)[0]);
    }
    assert(trim(s) =~= e);
}

/// The answers of a repository whose index is busy for some attempts and then
/// takes the entry.
pub open spec fn busy_for(
    name: Seq<u8>,
    listing: Option<Seq<u8>>,
    times: nat,
    pauses: spec_fn(int) -> Told,
) -> Seq<Told> {
    seq![Told::Bytes(Some(name)), Told::Bytes(listing)] + Seq::new(
        2 * times,
        |i: int| if i % 2 == 0 { Told::Flag(false) } else { pauses(i) },
    )
}

/// A busy index is tried five times, with pauses of 50, 100, 200 and 400
/// milliseconds, always with the same entry. Bytes whose entry the index takes
/// at any of the attempts are staged; where it takes none, the warning names
/// the path.
pub proof fn a_busy_index_is_tried_again(
    path: Seq<char>,
    bytes: Seq<u8>,
    name: Seq<u8>,
    listing: Option<Seq<u8>>,
    times: nat,
    pauses: spec_fn(int) -> Told,
)
    requires
        times < 5,
    ensures
        ({
            let told = busy_for(name, listing, times, pauses);
            let (st, asked) = stage_after(path, bytes, told);
            let refused = stage_after(path, bytes, told.push(Told::Flag(false))).1;
            let taken = stage_after(path, bytes, told.push(Told::Flag(true)));
            &&& asked matches Action::Status(Tool::UpdateIndex(entry)) && forall|early: nat|
                early <= times ==> (#[trigger] stage_after(
                    path,
                    bytes,
                    busy_for(name, listing, early, pauses),
                )).1 == Asked::Status(Tool::UpdateIndex(entry))
            &&& taken.1 is Done
            &&& taken.0.progress == Progress::<Seq<char>>::Finished(true)
            &&& times == 0 ==> refused == Asked::Sleep(50)
            &&& times == 1 ==> refused == Asked::Sleep(100)
            &&& times == 2 ==> refused == Asked::Sleep(200)
            &&& times == 3 ==> refused == Asked::Sleep(400)
            &&& times == 4 ==> refused == Asked::Warn(
                "could not stage fix for "@ + path + " (index busy)"@,
            )
        }),
{
    let told = busy_for(name, listing, times, pauses);
    let entry = cache_info(entry_mode(listing), trim(lossy(name)), path);
    lemma_busy(path, bytes, name, listing, times, pauses);
    assert forall|early: nat| early <= times implies (#[trigger] stage_after(
        path,
        bytes,
        busy_for(name, listing, early, pauses),
    )).1 == Asked::Status(Tool::UpdateIndex(entry)) by {
        lemma_busy(path, bytes, name, listing, early, pauses);
    }
    assert(told.push(Told::Flag(false)).drop_last() =~= told);
    assert(told.push(Told::Flag(true)).drop_last() =~= told);
    reveal_with_fuel(pause, 5);
}

proof fn lemma_busy(
    path: Seq<char>,
    bytes: Seq<u8>,
    name: Seq<u8>,
    listing: Option<Seq<u8>>,
    times: nat,
    pauses: spec_fn(int) -> Told,
)
    requires
        times < 5,
    ensures
        ({
            let entry = cache_info(entry_mode(listing), trim(lossy(name)), path);
            stage_after(path, bytes, busy_for(name, listing, times, pauses)) == (
                Stage { path, progress: Progress::Updating(times as u64, entry) },
                Asked::Status(Tool::UpdateIndex(entry)),
            )
        }),
    decreases times,
{
    let told = busy_for(name, listing, times, pauses);
    if times == 0 {
        let one = seq![Told::Bytes(Some(name))];
        assert(told.drop_last() =~= one);
        assert(one.drop_last() =~= Seq::empty());
        assert(stage_after(path, bytes, one.drop_last()) == stage_start(path, bytes));
        assert(stage_after(path, bytes, one) == stage_next(
            stage_start(path, bytes).0,
            Told::Bytes(Some(name)),
        ));
    } else {
        let was = busy_for(name, listing, (times - 1) as nat, pauses);
        lemma_busy(path, bytes, name, listing, (times - 1) as nat, pauses);
        let mid = was.push(Told::Flag(false));
        assert(told.drop_last() =~= mid);
        assert(mid.drop_last() =~= was);
        assert(stage_after(path, bytes, mid) == stage_next(
            stage_after(path, bytes, was).0,
            Told::Flag(false),
        ));
    }
}

/// Staging begins with the object store, which is given exactly the bytes, and
/// goes on with the listing of exactly the path. A store that takes no object
/// ends it, with a warning that names the path.
pub proof fn an_object_comes_before_its_entry(path: Seq<char>, bytes: Seq<u8>, told: Told)
    ensures
        stage_after(path, bytes, Seq::empty()).1 == Asked::Feed(Tool::HashObject, bytes),
        told matches Reply::Bytes(Some(_)) ==> stage_after(path, bytes, seq![told]).1
            == Asked::Output(Tool::Entry(path)),
        !(told matches Reply::Bytes(Some(_))) ==> stage_after(path, bytes, seq![told]).1
            == Asked::Warn("could not stage fix for "@ + path + " (object not written)"@),
{
    assert(seq![told].drop_last() =~= Seq::empty());
    assert(stage_after(path, bytes, seq![told]) == stage_next(
        stage_after(path, bytes, Seq::empty()).0,
        told,
    ));
}

} // verus!
