//! Suggestions of the compiler, as `rustfix` collects and applies them.
use vstd::prelude::*;

use crate::text::{opt_text, same, texts};

verus! {

/// A suggestion of the compiler.
#[verifier::external_type_specification]
#[verifier::external_body]
pub struct ExSuggestion(rustfix::Suggestion);

/// The replacement of a byte range of a file by a text, over the kind of text.
#[derive(Debug)]
pub struct Edit<S> {
    pub file: S,
    pub start: usize,
    pub end: usize,
    pub text: S,
}

impl View for Edit<String> {
    type V = Edit<Seq<char>>;

    open spec fn view(&self) -> Edit<Seq<char>> {
        Edit { file: self.file@, start: self.start, end: self.end, text: self.text@ }
    }
}

/// The edits of a suggestion, solution by solution.
pub type Edits = Seq<Seq<Edit<Seq<char>>>>;

/// Which suggestions are wanted.
#[derive(Debug)]
pub enum Wanted {
    /// Those that the compiler marks as safe to apply without a human.
    MachineApplicable,
    /// All of them.
    Everything,
}

/// The replacements that a `rustfix::Suggestion` holds, solution by solution.
pub uninterp spec fn edits(suggestion: rustfix::Suggestion) -> Edits;

/// What `rustfix::get_suggestions_from_json` collects from diagnostics.
pub uninterp spec fn suggested(
    text: Seq<char>,
    only: Seq<Seq<char>>,
    wanted: Wanted,
) -> Option<Seq<Edits>>;

/// What `rustfix::apply_suggestions` makes of a source text.
pub uninterp spec fn applied(code: Seq<char>, suggestions: Seq<Edits>) -> Option<Seq<char>>;

/// The edits of each suggestion of a list.
pub open spec fn all_edits(list: Seq<rustfix::Suggestion>) -> Seq<Edits> {
    list.map_values(|s: rustfix::Suggestion| edits(s))
}

/// The edits of each suggestion of an optional list.
pub open spec fn opt_edits(list: Option<Vec<rustfix::Suggestion>>) -> Option<Seq<Edits>> {
    match list {
        Some(list) => Some(all_edits(list@)),
        None => None,
    }
}

/// The contents of a list of edits.
pub open spec fn edit_views(list: Seq<Edit<String>>) -> Seq<Edit<Seq<char>>> {
    list.map_values(|e: Edit<String>| e@)
}

/// The contents of lists of edits.
pub open spec fn solution_views(list: Seq<Vec<Edit<String>>>) -> Edits {
    list.map_values(|s: Vec<Edit<String>>| edit_views(s@))
}

/// Copies the replacements out of a `rustfix::Suggestion`, solution by
/// solution.
#[verifier::external_body]
pub(crate) fn edits_of(suggestion: &rustfix::Suggestion) -> (r: Vec<Vec<Edit<String>>>)
    ensures
        solution_views(r@) == edits(*suggestion),
{
    let edit = |r: &rustfix::Replacement| Edit {
        file: r.snippet.file_name.clone(),
        start: r.snippet.range.start,
        end: r.snippet.range.end,
        text: r.replacement.clone(),
    };
    suggestion.solutions.iter().map(|s| s.replacements.iter().map(edit).collect()).collect()
}

/// Calls `rustfix::get_suggestions_from_json`: the wanted suggestions in a
/// diagnostic's JSON, restricted to some lint codes where any are given, if the
/// JSON is a diagnostic at all. They depend on the arguments alone.
#[verifier::external_body]
pub(crate) fn suggestions(text: &str, only: &Vec<String>, wanted: Wanted) -> (r: Option<
    Vec<rustfix::Suggestion>,
>)
    ensures
        opt_edits(r) == suggested(text@, texts(only@), wanted),
{
    let only: std::collections::HashSet<String> = only.iter().cloned().collect();
    let filter = match wanted {
        Wanted::MachineApplicable => rustfix::Filter::MachineApplicableOnly,
        Wanted::Everything => rustfix::Filter::Everything,
    };
    rustfix::get_suggestions_from_json(text, &only, filter).ok()
}

/// Calls `rustfix::apply_suggestions`: the source text with the suggestions
/// applied, if they fit it. It depends on the text and on the suggestions'
/// replacements alone.
#[verifier::external_body]
pub(crate) fn apply(code: &str, list: &Vec<rustfix::Suggestion>) -> (r: Option<String>)
    ensures
        opt_text(r) == applied(code@, all_edits(list@)),
{
    rustfix::apply_suggestions(code, list).ok()
}

/// The edits of all solutions, one after the other.
pub open spec fn flat(list: Edits) -> Seq<Edit<Seq<char>>>
    decreases list.len(),
{
    if list.len() == 0 {
        Seq::empty()
    } else {
        flat(list.drop_last()) + list.last()
    }
}

fn flat_of(list: Vec<Vec<Edit<String>>>) -> (r: Vec<Edit<String>>)
    ensures
        edit_views(r@) == flat(solution_views(list@)),
{
    let ghost all = solution_views(list@);
    let mut r: Vec<Edit<String>> = Vec::new();
    assert(all.take(0) =~= Seq::empty());
    assert(edit_views(r@) =~= Seq::empty());
    for s in it: list
        invariant
            all == solution_views(list@),
            it.seq() == list@,
            edit_views(r@) == flat(all.take(it.index() as int)),
    {
        let ghost i = it.index() as int;
        let ghost before = r@;
        let ghost own = s@;
        let mut s = s;
        r.append(&mut s);
        assert(edit_views(r@) =~= edit_views(before) + edit_views(own));
        assert(all.take(i + 1).drop_last() =~= all.take(i));
        assert(all.take(i + 1).last() == edit_views(own));
    }
    assert(all.take(all.len() as int) =~= all);
    r
}

/// The file that the edits of a suggestion touch, where they touch exactly one.
pub open spec fn only_file(list: Edits) -> Option<Seq<char>> {
    let all = flat(list);
    if all.len() > 0 && (forall|i: int| 0 <= i < all.len() ==> (#[trigger] all[i]).file == all[0].file) {
        Some(all[0].file)
    } else {
        None
    }
}

/// The file that the edits of a suggestion touch, where they touch exactly one:
/// a suggestion that spans files is not for a single file's fix.
pub fn only_file_of(list: Vec<Vec<Edit<String>>>) -> (r: Option<String>)
    ensures
        opt_text(r) == only_file(solution_views(list@)),
        r matches Some(file) ==> (exists|i: int, j: int|
            0 <= i < list@.len() && 0 <= j < list@[i]@.len() && (
            #[trigger] list@[i]@[j]).file@ == file@) && (forall|i: int, j: int|
            0 <= i < list@.len() && 0 <= j < list@[i]@.len() ==> (
            #[trigger] list@[i]@[j]).file@ == file@),
        r is None ==> (forall|i: int| 0 <= i < list@.len() ==> (#[trigger] list@[i])@.len() == 0)
            || (exists|i: int, j: int, k: int, l: int|
            0 <= i < list@.len() && 0 <= j < list@[i]@.len() && 0 <= k < list@.len() && 0 <= l
                < list@[k]@.len() && (#[trigger] list@[i]@[j]).file@ != (
            #[trigger] list@[k]@[l]).file@),
{
    proof {
        lemma_only_file_views(list@);
    }
    let found = flat_of(list);
    if found.len() == 0 {
        return None;
    }
    let ghost all = edit_views(found@);
    let mut i: usize = 1;
    while i < found.len()
        invariant
            1 <= i <= found@.len(),
            all == edit_views(found@),
            all == flat(solution_views(list@)),
            forall|j: int| 0 <= j < i ==> (#[trigger] all[j]).file == all[0].file,
        decreases found@.len() - i,
    {
        if !same(found[i].file.as_str(), found[0].file.as_str()) {
            assert(all[i as int].file != all[0].file);
            proof {
                lemma_only_file_views(list@);
            }
            return None;
        }
        i = i + 1;
    }
    Some(found[0].file.clone())
}

/// Where an edit stands among the solutions.
spec fn stands_at(list: Edits, e: Edit<Seq<char>>, i: int, j: int) -> bool {
    0 <= i < list.len() && 0 <= j < list[i].len() && list[i][j] == e
}

/// Every edit of a solution is among all edits.
proof fn lemma_flat(list: Edits, i: int, j: int)
    requires
        0 <= i < list.len(),
        0 <= j < list[i].len(),
    ensures
        flat(list).contains(list[i][j]),
    decreases list.len(),
{
    let was = list.drop_last();
    let n = flat(was).len() as int;
    if i < was.len() {
        lemma_flat(was, i, j);
        let k = choose|k: int| 0 <= k < n && flat(was)[k] == was[i][j];
        assert(flat(list)[k] == list[i][j]);
    } else {
        assert(flat(list)[n + j] == list[i][j]);
    }
}

/// Every one of all edits is of a solution.
proof fn lemma_flat_back(list: Edits, k: int) -> (at: (int, int))
    requires
        0 <= k < flat(list).len(),
    ensures
        stands_at(list, flat(list)[k], at.0, at.1),
    decreases list.len(),
{
    let was = list.drop_last();
    let n = flat(was).len() as int;
    if k < n {
        let at = lemma_flat_back(was, k);
        assert(flat(list)[k] == flat(was)[k]);
        assert(list[at.0] == was[at.0]);
        at
    } else {
        assert(flat(list)[k] == list.last()[k - n]);
        (list.len() - 1, k - n)
    }
}

/// A suggestion is for one file exactly where it replaces something and every
/// replacement, of whichever solution, names that file. How many replacements
/// there are makes no difference.
pub proof fn a_suggestion_is_for_the_file_that_all_its_edits_name(list: Edits, file: Seq<char>)
    ensures
        only_file(list) == Some(file) <==> ({
            &&& exists|i: int, j: int|
                0 <= i < list.len() && 0 <= j < list[i].len() && (#[trigger] list[i][j]).file
                    == file
            &&& forall|i: int, j: int|
                0 <= i < list.len() && 0 <= j < list[i].len() ==> (#[trigger] list[i][j]).file
                    == file
        }),
{
    let all = flat(list);
    if only_file(list) == Some(file) {
        let (i, j) = lemma_flat_back(list, 0);
        assert(list[i][j].file == file);
        assert forall|i: int, j: int| 0 <= i < list.len() && 0 <= j < list[i].len() implies (
        #[trigger] list[i][j]).file == file by {
            lemma_flat(list, i, j);
        }
    } else if exists|i: int, j: int|
        0 <= i < list.len() && 0 <= j < list[i].len() && (#[trigger] list[i][j]).file == file {
        let (i, j) = choose|i: int, j: int|
            0 <= i < list.len() && 0 <= j < list[i].len() && (#[trigger] list[i][j]).file == file;
        lemma_flat(list, i, j);
        if forall|i: int, j: int|
            0 <= i < list.len() && 0 <= j < list[i].len() ==> (#[trigger] list[i][j]).file
                == file {
            assert forall|k: int| 0 <= k < all.len() implies (#[trigger] all[k]).file == file by {
                let (a, b) = lemma_flat_back(list, k);
                assert(list[a][b].file == file);
            }
            assert(all[0].file == file);
        }
    }
}

/// A suggestion without a replacement, or with replacements in two files, is
/// for no single file.
pub proof fn a_suggestion_that_spans_files_is_for_none(list: Edits)
    ensures
        only_file(list) is None <==> ({
            ||| forall|i: int| 0 <= i < list.len() ==> (#[trigger] list[i]).len() == 0
            ||| exists|i: int, j: int, k: int, l: int|
                0 <= i < list.len() && 0 <= j < list[i].len() && 0 <= k < list.len() && 0 <= l
                    < list[k].len() && (#[trigger] list[i][j]).file != (
                #[trigger] list[k][l]).file
        }),
{
    if let Some(file) = only_file(list) {
        a_suggestion_is_for_the_file_that_all_its_edits_name(list, file);
    } else if exists|i: int| 0 <= i < list.len() && (#[trigger] list[i]).len() > 0 {
        let i = choose|i: int| 0 <= i < list.len() && (#[trigger] list[i]).len() > 0;
        let file = list[i][0].file;
        a_suggestion_is_for_the_file_that_all_its_edits_name(list, file);
        let (k, l) = choose|k: int, l: int|
            0 <= k < list.len() && 0 <= l < list[k].len() && (#[trigger] list[k][l]).file != file;
        assert(list[i][0].file != list[k][l].file);
    }
}

/// What the edits of a list name, read off the list or off its contents.
proof fn lemma_only_file_views(list: Seq<Vec<Edit<String>>>)
    ensures
        only_file(solution_views(list)) matches Some(file) ==> (exists|i: int, j: int|
            0 <= i < list.len() && 0 <= j < list[i]@.len() && (#[trigger] list[i]@[j]).file@
                == file) && (forall|i: int, j: int|
            0 <= i < list.len() && 0 <= j < list[i]@.len() ==> (#[trigger] list[i]@[j]).file@
                == file),
        only_file(solution_views(list)) is None ==> (forall|i: int|
            0 <= i < list.len() ==> (#[trigger] list[i])@.len() == 0) || (exists|
            i: int,
            j: int,
            k: int,
            l: int,
        |
            0 <= i < list.len() && 0 <= j < list[i]@.len() && 0 <= k < list.len() && 0 <= l
                < list[k]@.len() && (#[trigger] list[i]@[j]).file@ != (
            #[trigger] list[k]@[l]).file@),
{
    let all = solution_views(list);
    assert forall|i: int, j: int| 0 <= i < list.len() && 0 <= j < list[i]@.len() implies (
    #[trigger] list[i]@[j]).file@ == all[i][j].file by {}
    if let Some(file) = only_file(all) {
        a_suggestion_is_for_the_file_that_all_its_edits_name(all, file);
        let (i, j) = choose|i: int, j: int|
            0 <= i < all.len() && 0 <= j < all[i].len() && (#[trigger] all[i][j]).file == file;
        assert(list[i]@[j].file@ == file);
        assert forall|i: int, j: int| 0 <= i < list.len() && 0 <= j < list[i]@.len() implies (
        #[trigger] list[i]@[j]).file@ == file by {
            assert(all[i][j].file == file);
        }
    } else {
        a_suggestion_that_spans_files_is_for_none(all);
        if forall|i: int| 0 <= i < all.len() ==> (#[trigger] all[i]).len() == 0 {
            assert forall|i: int| 0 <= i < list.len() implies (#[trigger] list[i])@.len() == 0 by {
                assert(all[i].len() == 0);
            }
        } else {
            let (i, j, k, l) = choose|i: int, j: int, k: int, l: int|
                0 <= i < all.len() && 0 <= j < all[i].len() && 0 <= k < all.len() && 0 <= l
                    < all[k].len() && (#[trigger] all[i][j]).file != (#[trigger] all[k][l]).file;
            assert(list[i]@[j].file@ != list[k]@[l].file@);
        }
    }
}

} // verus!
