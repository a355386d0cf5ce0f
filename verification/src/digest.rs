//! What a lint run amounts to: whether the tree compiles, which lints stay
//! without an automatic fix, and which fixes go to which file.
use vstd::prelude::*;

use crate::diagnostic::{a_hard_error_has_a_number, numbered_error};
use crate::diagnostic::{diags, is_text, lint, lint_code, Diag, Diagnostic};
use crate::list::{a_number_in_decimal_spells_it, decimal, decimal_of, spelled};
use crate::path::{repo_path, repo_rel};
use crate::suggest::a_suggestion_is_for_the_file_that_all_its_edits_name;
use crate::suggest::{all_edits, edits, edits_of, only_file, only_file_of, Edits};
use crate::text::{begins, begins_with, chars_of, contains, opt_text, same, texts};

verus! {

/// An error that a lint raised.
pub open spec fn lint_error(d: Diag) -> bool {
    d.message.level == Some("error"@) && lint(d.message) is Some
}

/// An error that no lint raised.
pub open spec fn code_error(d: Diag) -> bool {
    d.message.level == Some("error"@) && lint(d.message) is None
}

/// Whether the tree does not compile: some error is not a lint's, or the run
/// failed although no lint raised an error.
pub open spec fn broken(list: Seq<Diag>, success: bool) -> bool {
    ||| exists|i: int| 0 <= i < list.len() && code_error(#[trigger] list[i])
    ||| !success && !(exists|i: int| 0 <= i < list.len() && lint_error(#[trigger] list[i]))
}

/// Whether the tree that was linted does not compile.
pub fn is_broken(list: &Vec<Diagnostic>, success: bool) -> (r: bool)
    ensures
        r == broken(diags(list@), success),
{
    let ghost all = diags(list@);
    let mut linted = false;
    let mut i: usize = 0;
    while i < list.len()
        invariant
            i <= list@.len(),
            all == diags(list@),
            linted == (exists|j: int| 0 <= j < i && lint_error(#[trigger] all[j])),
            forall|j: int| 0 <= j < i ==> !code_error(#[trigger] all[j]),
        decreases list@.len() - i,
    {
        assert(all[i as int] == list@[i as int]@);
        if is_text(&list[i].message.level, "error") {
            if lint_code(&list[i].message).is_some() {
                assert(lint_error(all[i as int]));
                linted = true;
            } else {
                assert(code_error(all[i as int]));
                return true;
            }
        } else {
            assert(!lint_error(all[i as int]));
        }
        i = i + 1;
    }
    !success && !linted
}

/// The report of a lint without an automatic fix: a clippy lint, at the level of
/// a warning or an error, in a file that the commit stages.
pub open spec fn unfixable(
    d: Diag,
    repo_root: Seq<char>,
    ws_root: Seq<char>,
    staged: Seq<Seq<char>>,
) -> Option<Seq<char>> {
    let raw = match d.message.file_name {
        Some(name) => name,
        None => "?"@,
    };
    let line = match d.message.line_start {
        Some(n) => n as nat,
        None => 0,
    };
    if d.fixes.len() > 0 || !(d.message.level == Some("warning"@) || d.message.level == Some(
        "error"@,
    )) {
        None
    } else {
        match (repo_path(raw, repo_root, ws_root), lint(d.message)) {
            (Some(at), Some(code)) => if staged.contains(at) && begins(code, "clippy::"@) {
                Some(code + " at "@ + at + ":"@ + decimal(line))
            } else {
                None
            },
            _ => None,
        }
    }
}

/// A report is about a clippy lint, without an automatic fix, in a file that the
/// commit stages.
pub proof fn a_report_is_about_a_staged_file(
    d: Diag,
    repo_root: Seq<char>,
    ws_root: Seq<char>,
    staged: Seq<Seq<char>>,
)
    requires
        unfixable(d, repo_root, ws_root, staged) is Some,
    ensures
        d.fixes.len() == 0,
        lint(d.message) matches Some(code) && begins(code, "clippy::"@),
        exists|at: Seq<char>|
            {
                &&& #[trigger] staged.contains(at)
                &&& repo_path(
                    match d.message.file_name {
                        Some(name) => name,
                        None => "?"@,
                    },
                    repo_root,
                    ws_root,
                ) == Some(at)
            },
{
}

/// Reports a lint that has no automatic fix and lies in a file of the commit.
/// Debt in files that the commit does not touch is not this committer's noise.
pub fn unfixable_of(
    d: &Diagnostic,
    repo_root: &str,
    ws_root: &str,
    staged: &Vec<String>,
) -> (r: Option<String>)
    ensures
        opt_text(r) == unfixable(d@, repo_root@, ws_root@, texts(staged@)),
{
    if d.fixes.len() > 0 {
        return None;
    }
    if !is_text(&d.message.level, "warning") && !is_text(&d.message.level, "error") {
        return None;
    }
    let raw: String = match &d.message.file_name {
        Some(name) => name.clone(),
        None => "?".to_owned(),
    };
    let line: u64 = match d.message.line_start {
        Some(n) => n,
        None => 0,
    };
    match (repo_rel(raw.as_str(), repo_root, ws_root), lint_code(&d.message)) {
        (Some(at), Some(code)) => {
            if contains(staged, at.as_str()) && begins_with(
                chars_of(code.as_str()).as_slice(),
                "clippy::",
            ) {
                let mut r = code;
                r.append(" at ");
                r.append(at.as_str());
                r.append(":");
                r.append(decimal_of(line).as_str());
                Some(r)
            } else {
                None
            }
        },
        _ => None,
    }
}

/// The reports of the lints without an automatic fix, in order.
pub open spec fn unfixables(
    list: Seq<Diag>,
    repo_root: Seq<char>,
    ws_root: Seq<char>,
    staged: Seq<Seq<char>>,
) -> Seq<Seq<char>>
    decreases list.len(),
{
    if list.len() == 0 {
        Seq::empty()
    } else {
        let rest = unfixables(list.drop_last(), repo_root, ws_root, staged);
        match unfixable(list.last(), repo_root, ws_root, staged) {
            Some(report) => rest.push(report),
            None => rest,
        }
    }
}

/// Reports the lints that have no automatic fix and lie in files of the commit.
pub fn unfixables_of(
    list: &Vec<Diagnostic>,
    repo_root: &str,
    ws_root: &str,
    staged: &Vec<String>,
) -> (r: Vec<String>)
    ensures
        texts(r@) == unfixables(diags(list@), repo_root@, ws_root@, texts(staged@)),
{
    let ghost all = diags(list@);
    let mut r: Vec<String> = Vec::new();
    let mut i: usize = 0;
    assert(all.take(0) =~= Seq::empty());
    assert(texts(r@) =~= Seq::empty());
    while i < list.len()
        invariant
            i <= list@.len(),
            all == diags(list@),
            texts(r@) == unfixables(all.take(i as int), repo_root@, ws_root@, texts(staged@)),
        decreases list@.len() - i,
    {
        let ghost before = r@;
        assert(all.take(i + 1).drop_last() =~= all.take(i as int));
        assert(all.take(i + 1).last() == list@[i as int]@);
        if let Some(report) = unfixable_of(&list[i], repo_root, ws_root, staged) {
            r.push(report);
            assert(texts(r@) =~= texts(before).push(report@));
        }
        i = i + 1;
    }
    assert(all.take(i as int) =~= all);
    r
}

/// A suggestion for a file of the repository.
#[verifier::ext_equal]
pub struct Located {
    pub file: Seq<char>,
    pub fix: Edits,
}

/// The file of the repository that a suggestion is for: it touches one file
/// only, and that file lies in the repository.
pub open spec fn home(fix: Edits, repo_root: Seq<char>, ws_root: Seq<char>) -> Option<Seq<char>> {
    match only_file(fix) {
        Some(file) => repo_path(file, repo_root, ws_root),
        None => None,
    }
}

/// The file of the repository that a suggestion is for.
pub fn home_of(fix: &rustfix::Suggestion, repo_root: &str, ws_root: &str) -> (r: Option<String>)
    ensures
        opt_text(r) == home(edits(*fix), repo_root@, ws_root@),
{
    match only_file_of(edits_of(fix)) {
        Some(file) => repo_rel(file.as_str(), repo_root, ws_root),
        None => None,
    }
}

/// The suggestions of a diagnostic that are for a file of the repository.
pub open spec fn located_in(
    fixes: Seq<Edits>,
    repo_root: Seq<char>,
    ws_root: Seq<char>,
) -> Seq<Located>
    decreases fixes.len(),
{
    if fixes.len() == 0 {
        Seq::empty()
    } else {
        let rest = located_in(fixes.drop_last(), repo_root, ws_root);
        match home(fixes.last(), repo_root, ws_root) {
            Some(file) => rest.push(Located { file, fix: fixes.last() }),
            None => rest,
        }
    }
}

/// The suggestions of diagnostics that are for a file of the repository, in
/// order.
pub open spec fn located(list: Seq<Diag>, repo_root: Seq<char>, ws_root: Seq<char>) -> Seq<Located>
    decreases list.len(),
{
    if list.len() == 0 {
        Seq::empty()
    } else {
        located(list.drop_last(), repo_root, ws_root) + located_in(
            list.last().fixes,
            repo_root,
            ws_root,
        )
    }
}

/// The suggestions for one file.
#[derive(Debug)]
pub struct FileFixes {
    pub file: String,
    pub fixes: Vec<rustfix::Suggestion>,
}

/// The suggestions for one file, as contracts speak of them.
#[verifier::ext_equal]
pub struct Group {
    pub file: Seq<char>,
    pub fixes: Seq<Edits>,
}

impl View for FileFixes {
    type V = Group;

    open spec fn view(&self) -> Group {
        Group { file: self.file@, fixes: all_edits(self.fixes@) }
    }
}

/// The contents of a list of suggestions by file.
pub open spec fn group_views(list: Seq<FileFixes>) -> Seq<Group> {
    list.map_values(|g: FileFixes| g@)
}

/// Where the group of a file stands; the number of groups where it has none.
pub open spec fn group_at(list: Seq<Group>, file: Seq<char>) -> int
    decreases list.len(),
{
    if list.len() == 0 || list[0].file == file {
        0
    } else {
        1 + group_at(list.skip(1), file)
    }
}

/// Groups with one more suggestion: it joins the group of its file, or starts
/// one.
pub open spec fn with_fix(list: Seq<Group>, file: Seq<char>, fix: Edits) -> Seq<Group> {
    let k = group_at(list, file);
    if 0 <= k < list.len() {
        list.update(k, Group { file: list[k].file, fixes: list[k].fixes.push(fix) })
    } else {
        list.push(Group { file, fixes: seq![fix] })
    }
}

/// Suggestions gathered by file.
pub open spec fn grouped(list: Seq<Located>) -> Seq<Group>
    decreases list.len(),
{
    if list.len() == 0 {
        Seq::empty()
    } else {
        with_fix(grouped(list.drop_last()), list.last().file, list.last().fix)
    }
}

/// `group_at` is the first group of the file.
pub proof fn lemma_group_at(list: Seq<Group>, file: Seq<char>)
    ensures
        0 <= group_at(list, file) <= list.len(),
        group_at(list, file) < list.len() ==> list[group_at(list, file)].file == file,
        forall|j: int| 0 <= j < group_at(list, file) ==> (#[trigger] list[j]).file != file,
    decreases list.len(),
{
    if list.len() == 0 || list[0].file == file {
    } else {
        lemma_group_at(list.skip(1), file);
        assert forall|j: int| 0 <= j < group_at(list, file) implies (#[trigger] list[j]).file
            != file by {
            if j > 0 {
                assert(list.skip(1)[j - 1] == list[j]);
            }
        }
    }
}

/// Adds a suggestion to the group of its file.
fn add_fix(list: &mut Vec<FileFixes>, file: String, fix: rustfix::Suggestion)
    ensures
        group_views(final(list)@) == with_fix(group_views(old(list)@), file@, edits(fix)),
{
    let ghost start = list@;
    let ghost all = group_views(list@);
    proof {
        lemma_group_at(all, file@);
    }
    let mut k: usize = 0;
    while k < list.len() && !same(list[k].file.as_str(), file.as_str())
        invariant
            k <= list@.len(),
            list@ == start,
            all == group_views(start),
            k <= group_at(all, file@) <= all.len(),
            group_at(all, file@) < all.len() ==> all[group_at(all, file@)].file == file@,
            forall|j: int| 0 <= j < group_at(all, file@) ==> (#[trigger] all[j]).file != file@,
        decreases list@.len() - k,
    {
        assert(all[k as int].file == list@[k as int].file@);
        k = k + 1;
    }
    if k < list.len() {
        assert(all[k as int].file == file@);
        let ghost e = edits(fix);
        list[k].fixes.push(fix);
        proof {
            let now = list@[k as int];
            assert(all_edits(now.fixes@) =~= all_edits(start[k as int].fixes@).push(e));
            assert(group_views(list@) =~= with_fix(all, file@, e));
        }
    } else {
        let ghost e = edits(fix);
        let ghost name = file@;
        let mut fixes: Vec<rustfix::Suggestion> = Vec::new();
        fixes.push(fix);
        assert(all_edits(fixes@) =~= seq![e]);
        list.push(FileFixes { file, fixes });
        assert(group_views(list@) =~= with_fix(all, name, e));
    }
}

proof fn lemma_grouped_push(list: Seq<Located>, l: Located)
    ensures
        grouped(list.push(l)) == with_fix(grouped(list), l.file, l.fix),
{
    assert(list.push(l).drop_last() =~= list);
}

/// Gathers the suggestions of diagnostics by the file of the repository that
/// they are for. Suggestions that span files, or are for other repositories,
/// are passed over.
pub fn group_fixes(list: Vec<Diagnostic>, repo_root: &str, ws_root: &str) -> (r: Vec<FileFixes>)
    ensures
        group_views(r@) == grouped(located(diags(list@), repo_root@, ws_root@)),
{
    let ghost all = diags(list@);
    let mut r: Vec<FileFixes> = Vec::new();
    assert(all.take(0) =~= Seq::empty());
    assert(group_views(r@) =~= grouped(located(all.take(0), repo_root@, ws_root@)));
    for d in it: list
        invariant
            all == diags(list@),
            it.seq() == list@,
            group_views(r@) == grouped(located(all.take(it.index() as int), repo_root@, ws_root@)),
    {
        let ghost i = it.index() as int;
        let ghost before = located(all.take(i), repo_root@, ws_root@);
        let ghost fixes = all_edits(d.fixes@);
        assert(all[i] == d@);
        let own = d.fixes;
        assert(fixes.take(0) =~= Seq::empty());
        assert(before + located_in(fixes.take(0), repo_root@, ws_root@) =~= before);
        for fix in inner: own
            invariant
                fixes == all_edits(own@),
                inner.seq() == own@,
                group_views(r@) == grouped(
                    before + located_in(fixes.take(inner.index() as int), repo_root@, ws_root@),
                ),
        {
            let ghost j = inner.index() as int;
            let ghost done = located_in(fixes.take(j), repo_root@, ws_root@);
            assert(fixes.take(j + 1).drop_last() =~= fixes.take(j));
            assert(fixes.take(j + 1).last() == edits(fix));
            let home = home_of(&fix, repo_root, ws_root);
            if let Some(file) = home {
                proof {
                    let l = Located { file: file@, fix: edits(fix) };
                    assert(before + done.push(l) =~= (before + done).push(l));
                    lemma_grouped_push(before + done, l);
                }
                add_fix(&mut r, file, fix);
            }
        }
        assert(fixes.take(fixes.len() as int) =~= fixes);
        assert(all.take(i + 1).drop_last() =~= all.take(i));
        assert(all.take(i + 1).last() == all[i]);
    }
    assert(all.take(all.len() as int) =~= all);
    r
}

/// The suggestions for a file, in order.
pub open spec fn fixes_for(list: Seq<Located>, file: Seq<char>) -> Seq<Edits>
    decreases list.len(),
{
    if list.len() == 0 {
        Seq::empty()
    } else if list.last().file == file {
        fixes_for(list.drop_last(), file).push(list.last().fix)
    } else {
        fixes_for(list.drop_last(), file)
    }
}

/// Gathering by file loses nothing and mixes nothing: each file has one group,
/// and a group holds exactly the suggestions for its file, in order.
pub proof fn gathering_keeps_each_files_fixes(list: Seq<Located>, file: Seq<char>)
    ensures
        forall|i: int, j: int|
            0 <= i < grouped(list).len() && 0 <= j < grouped(list).len() && (
            #[trigger] grouped(list)[i]).file == (#[trigger] grouped(list)[j]).file ==> i == j,
        0 <= group_at(grouped(list), file) <= grouped(list).len(),
        group_at(grouped(list), file) < grouped(list).len() ==> grouped(list)[group_at(
            grouped(list),
            file,
        )] == (Group { file, fixes: fixes_for(list, file) }),
        group_at(grouped(list), file) == grouped(list).len() ==> fixes_for(list, file)
            == Seq::<Edits>::empty(),
    decreases list.len(),
{
    let groups = grouped(list);
    lemma_group_at(groups, file);
    if list.len() > 0 {
        let l = list.last();
        let was = grouped(list.drop_last());
        gathering_keeps_each_files_fixes(list.drop_last(), file);
        gathering_keeps_each_files_fixes(list.drop_last(), l.file);
        lemma_group_at(was, l.file);
        lemma_group_at(was, file);
        let m = group_at(was, l.file);
        assert forall|i: int| 0 <= i < was.len() implies (#[trigger] groups[i]).file
            == was[i].file by {}
        assert forall|i: int, j: int|
            0 <= i < groups.len() && 0 <= j < groups.len() && (#[trigger] groups[i]).file == (
            #[trigger] groups[j]).file implies i == j by {
            if i < was.len() && j < was.len() {
                assert(was[i].file == was[j].file);
            }
        }
        let k = group_at(groups, file);
        if k < groups.len() {
            if k < was.len() {
                assert(was[k].file == file);
                assert(group_at(was, file) == k);
            } else {
                assert(file == l.file && m == was.len());
                assert(fixes_for(list, file) =~= seq![l.fix]);
            }
        } else {
            if group_at(was, file) < was.len() {
                assert(groups[group_at(was, file)].file == file);
            }
            if file == l.file {
                assert(groups[m].file == file);
            }
        }
    }
}

/// Every clippy lint without an automatic fix is reported, wherever in the
/// repository its file lies: a warning or an error whose code begins with
/// `clippy::`, in a file that the commit stages, gives the code, ` at `, the
/// path of the file, a colon and the line in decimal.
pub proof fn an_unfixable_lint_is_reported(
    d: Diag,
    repo_root: Seq<char>,
    ws_root: Seq<char>,
    staged: Seq<Seq<char>>,
    name: Seq<char>,
    file: Seq<char>,
    at: Seq<char>,
    line: u64,
    number: Seq<char>,
)
    requires
        d.fixes == Seq::<Edits>::empty(),
        d.message.level == Some("warning"@) || d.message.level == Some("error"@),
        d.message.code == Some("clippy::"@ + name),
        d.message.file_name == Some(file),
        d.message.line_start == Some(line),
        repo_path(file, repo_root, ws_root) == Some(at),
        staged.contains(at),
        number == decimal(line as nat),
    ensures
        unfixable(d, repo_root, ws_root, staged) == Some(
            "clippy::"@ + name + " at "@ + at + ":"@ + number,
        ),
        spelled(number) == line,
        number.len() > 1 ==> number[0] != '0',
{
    reveal_strlit("clippy::");
    let code = "clippy::"@ + name;
    assert(code[0] == 'c');
    assert(lint(d.message) == Some(code));
    assert(code.take(8) =~= "clippy::"@);
    a_number_in_decimal_spells_it(line as nat);
}

/// What is reported is reported for a reason: a diagnostic with an automatic
/// fix, of another level, without a code of clippy's or in a file that the
/// commit does not stage gives no report.
pub proof fn nothing_else_is_reported(
    d: Diag,
    repo_root: Seq<char>,
    ws_root: Seq<char>,
    staged: Seq<Seq<char>>,
    file: Seq<char>,
)
    requires
        d.message.file_name == Some(file),
        ({
            ||| d.fixes.len() > 0
            ||| d.message.level != Some("warning"@) && d.message.level != Some("error"@)
            ||| !(exists|name: Seq<char>| d.message.code == Some(#[trigger] ("clippy::"@ + name)))
            ||| !(exists|at: Seq<char>|
                repo_path(file, repo_root, ws_root) == Some(at) && #[trigger] staged.contains(at))
        }),
    ensures
        unfixable(d, repo_root, ws_root, staged) is None,
{
    if unfixable(d, repo_root, ws_root, staged) is Some {
        reveal_strlit("clippy::");
        let code = d.message.code->0;
        assert(begins(code, "clippy::"@));
        assert(code =~= "clippy::"@ + code.skip(8));
        assert(staged.contains(repo_path(file, repo_root, ws_root)->0));
    }
}

/// The reports of two lists of diagnostics are those of the first, and then
/// those of the second: no report is left out, and each comes once.
pub proof fn the_reports_follow_the_diagnostics(
    a: Seq<Diag>,
    d: Diag,
    b: Seq<Diag>,
    repo_root: Seq<char>,
    ws_root: Seq<char>,
    staged: Seq<Seq<char>>,
)
    ensures
        unfixables(a + b, repo_root, ws_root, staged) == unfixables(a, repo_root, ws_root, staged)
            + unfixables(b, repo_root, ws_root, staged),
        unfixables(seq![d], repo_root, ws_root, staged) == (match unfixable(
            d,
            repo_root,
            ws_root,
            staged,
        ) {
            Some(report) => seq![report],
            None => Seq::empty(),
        }),
        unfixables(Seq::empty(), repo_root, ws_root, staged) == Seq::<Seq<char>>::empty(),
    decreases b.len(),
{
    let none = Seq::<Seq<char>>::empty();
    assert(seq![d].drop_last() =~= Seq::<Diag>::empty());
    assert(unfixables(Seq::<Diag>::empty(), repo_root, ws_root, staged) =~= none);
    assert(forall|r: Seq<char>| #[trigger] none.push(r) =~= seq![r]);
    if b.len() == 0 {
        assert(a + b =~= a);
        assert(unfixables(a, repo_root, ws_root, staged) + none =~= unfixables(
            a,
            repo_root,
            ws_root,
            staged,
        ));
    } else {
        let was = b.drop_last();
        assert((a + b).drop_last() =~= a + was);
        the_reports_follow_the_diagnostics(a, d, was, repo_root, ws_root, staged);
        let left = unfixables(a, repo_root, ws_root, staged);
        let right = unfixables(was, repo_root, ws_root, staged);
        if let Some(report) = unfixable(b.last(), repo_root, ws_root, staged) {
            assert((left + right).push(report) =~= left + right.push(report));
        }
    }
}

/// A tree that does not compile is told by its errors. An error with the code
/// of a hard error, an `E` and four digits, or without a code breaks it,
/// whatever else is reported; without any, a run that succeeded is of a tree
/// that compiles, and a run that failed is of one exactly where some error
/// has a code of another shape.
pub proof fn a_tree_is_broken_by_its_errors(list: Seq<Diag>, success: bool)
    ensures
        broken(list, success) <==> ({
            ||| exists|i: int|
                0 <= i < list.len() && (#[trigger] list[i]).message.level == Some("error"@) && (
                list[i].message.code is None || numbered_error(list[i].message.code->0))
            ||| !success && forall|i: int|
                0 <= i < list.len() && (#[trigger] list[i]).message.level == Some("error"@)
                    ==> list[i].message.code is None || numbered_error(list[i].message.code->0)
        }),
{
    assert forall|i: int| 0 <= i < list.len() implies code_error(#[trigger] list[i]) == (
    list[i].message.level == Some("error"@) && (list[i].message.code is None || numbered_error(
        list[i].message.code->0,
    ))) by {
        if let Some(code) = list[i].message.code {
            a_hard_error_has_a_number(code);
        }
    }
    assert forall|i: int| 0 <= i < list.len() implies lint_error(#[trigger] list[i]) == (
    list[i].message.level == Some("error"@) && !(list[i].message.code is None || numbered_error(
        list[i].message.code->0,
    ))) by {
        if let Some(code) = list[i].message.code {
            a_hard_error_has_a_number(code);
        }
    }
    if exists|i: int| 0 <= i < list.len() && code_error(#[trigger] list[i]) {
        let i = choose|i: int| 0 <= i < list.len() && code_error(#[trigger] list[i]);
        assert(list[i].message.level == Some("error"@));
    }
    if exists|i: int| 0 <= i < list.len() && lint_error(#[trigger] list[i]) {
        let i = choose|i: int| 0 <= i < list.len() && lint_error(#[trigger] list[i]);
        assert(list[i].message.level == Some("error"@));
    }
    if exists|i: int|
        0 <= i < list.len() && (#[trigger] list[i]).message.level == Some("error"@) && (
        list[i].message.code is None || numbered_error(list[i].message.code->0)) {
        let i = choose|i: int|
            0 <= i < list.len() && (#[trigger] list[i]).message.level == Some("error"@) && (
            list[i].message.code is None || numbered_error(list[i].message.code->0));
        assert(code_error(list[i]));
    }
}

/// A suggestion belongs to a file of the repository exactly where it replaces
/// something, all of its replacements name one file, and that file is the one.
pub proof fn a_suggestion_belongs_to_the_file_of_its_edits(
    fix: Edits,
    repo_root: Seq<char>,
    ws_root: Seq<char>,
    file: Seq<char>,
    at: Seq<char>,
)
    requires
        exists|i: int, j: int|
            0 <= i < fix.len() && 0 <= j < fix[i].len() && (#[trigger] fix[i][j]).file == file,
    ensures
        (forall|i: int, j: int|
            0 <= i < fix.len() && 0 <= j < fix[i].len() ==> (#[trigger] fix[i][j]).file == file)
            ==> (home(fix, repo_root, ws_root) == Some(at) <==> repo_path(file, repo_root, ws_root)
            == Some(at)),
        (exists|i: int, j: int|
            0 <= i < fix.len() && 0 <= j < fix[i].len() && (#[trigger] fix[i][j]).file != file)
            ==> home(fix, repo_root, ws_root) is None,
{
    a_suggestion_is_for_the_file_that_all_its_edits_name(fix, file);
    if let Some(other) = only_file(fix) {
        a_suggestion_is_for_the_file_that_all_its_edits_name(fix, other);
    }
}

/// A suggestion that replaces nothing belongs to no file.
pub proof fn a_suggestion_without_edits_belongs_to_no_file(
    fix: Edits,
    repo_root: Seq<char>,
    ws_root: Seq<char>,
)
    requires
        forall|i: int| 0 <= i < fix.len() ==> (#[trigger] fix[i]).len() == 0,
    ensures
        home(fix, repo_root, ws_root) is None,
{
    if let Some(file) = only_file(fix) {
        a_suggestion_is_for_the_file_that_all_its_edits_name(fix, file);
    }
}

/// The suggestions for a file are found in order, diagnostic by diagnostic and
/// suggestion by suggestion: one that belongs to the file is taken where it
/// stands, and one that does not is passed over.
pub proof fn the_fixes_of_a_file_follow_the_diagnostics(
    before: Seq<Diag>,
    d: Diag,
    fixes: Seq<Edits>,
    fix: Edits,
    repo_root: Seq<char>,
    ws_root: Seq<char>,
    file: Seq<char>,
)
    requires
        d.fixes == fixes.push(fix),
    ensures
        fixes_for(located(Seq::empty(), repo_root, ws_root), file) == Seq::<Edits>::empty(),
        fixes_for(located(before.push((Diag { fixes: Seq::empty(), ..d })), repo_root, ws_root), file)
            == fixes_for(located(before, repo_root, ws_root), file),
        home(fix, repo_root, ws_root) == Some(file) ==> fixes_for(
            located(before.push(d), repo_root, ws_root),
            file,
        ) == fixes_for(
            located(before.push((Diag { fixes, ..d })), repo_root, ws_root),
            file,
        ).push(fix),
        home(fix, repo_root, ws_root) != Some(file) ==> fixes_for(
            located(before.push(d), repo_root, ws_root),
            file,
        ) == fixes_for(located(before.push((Diag { fixes, ..d })), repo_root, ws_root), file),
{
    let none = Diag { fixes: Seq::empty(), ..d };
    let less = Diag { fixes, ..d };
    let start = located(before, repo_root, ws_root);
    assert(before.push(d).drop_last() =~= before);
    assert(before.push(none).drop_last() =~= before);
    assert(before.push(less).drop_last() =~= before);
    assert(start + Seq::<Located>::empty() =~= start);
    assert(d.fixes.drop_last() =~= fixes);
    assert(d.fixes.last() == fix);
    let rest = located_in(fixes, repo_root, ws_root);
    if let Some(at) = home(fix, repo_root, ws_root) {
        let l = Located { file: at, fix };
        assert(start + rest.push(l) =~= (start + rest).push(l));
        assert((start + rest).push(l).drop_last() =~= start + rest);
    }
}

/// The groups hold what belongs to them: of the suggestions of diagnostics, the
/// group of a file holds exactly those for the file, in order, and a file
/// without any has no group.
pub proof fn a_group_holds_the_fixes_of_its_file(
    list: Seq<Diag>,
    repo_root: Seq<char>,
    ws_root: Seq<char>,
    k: int,
    file: Seq<char>,
)
    ensures
        ({
            let all = located(list, repo_root, ws_root);
            let groups = grouped(all);
            &&& 0 <= k < groups.len() ==> groups[k].fixes.len() > 0 && groups[k].fixes
                == fixes_for(all, groups[k].file)
            &&& fixes_for(all, file).len() > 0 ==> exists|i: int|
                0 <= i < groups.len() && (#[trigger] groups[i]).file == file
        }),
{
    let all = located(list, repo_root, ws_root);
    let groups = grouped(all);
    gathering_keeps_each_files_fixes(all, file);
    if 0 <= k < groups.len() {
        let own = groups[k].file;
        gathering_keeps_each_files_fixes(all, own);
        lemma_group_at(groups, own);
        assert(group_at(groups, own) <= k);
        assert(groups[group_at(groups, own)].file == groups[k].file);
        lemma_no_empty_group(all, k);
    }
    if fixes_for(all, file).len() > 0 {
        assert(groups[group_at(groups, file)].file == file);
    }
}

proof fn lemma_no_empty_group(list: Seq<Located>, k: int)
    requires
        0 <= k < grouped(list).len(),
    ensures
        grouped(list)[k].fixes.len() > 0,
    decreases list.len(),
{
    let was = grouped(list.drop_last());
    if k < was.len() {
        lemma_no_empty_group(list.drop_last(), k);
    }
}

/// A diagnostic without a file is about one named by a question mark, and one
/// without a line is about line zero.
pub proof fn what_a_span_lacks_is_filled_in(
    d: Diag,
    less: Diag,
    repo_root: Seq<char>,
    ws_root: Seq<char>,
    staged: Seq<Seq<char>>,
)
    requires
        less.fixes == d.fixes,
        less.message.level == d.message.level,
        less.message.code == d.message.code,
        less.message.file_name == d.message.file_name || (less.message.file_name is None
            && d.message.file_name == Some("?"@)),
        less.message.line_start == d.message.line_start || (less.message.line_start is None
            && d.message.line_start == Some(0u64)),
    ensures
        unfixable(less, repo_root, ws_root, staged) == unfixable(d, repo_root, ws_root, staged),
{
}

/// The suggestions of diagnostics are taken one by one, each with the file that
/// it belongs to; one that belongs to none is passed over.
pub proof fn the_suggestions_follow_the_diagnostics(
    before: Seq<Diag>,
    d: Diag,
    fixes: Seq<Edits>,
    fix: Edits,
    repo_root: Seq<char>,
    ws_root: Seq<char>,
)
    requires
        d.fixes == fixes.push(fix),
    ensures
        located(Seq::empty(), repo_root, ws_root) == Seq::<Located>::empty(),
        located(before.push((Diag { fixes: Seq::empty(), ..d })), repo_root, ws_root) == located(
            before,
            repo_root,
            ws_root,
        ),
        home(fix, repo_root, ws_root) matches Some(file) ==> located(
            before.push(d),
            repo_root,
            ws_root,
        ) == located(before.push((Diag { fixes, ..d })), repo_root, ws_root).push(
            (Located { file, fix }),
        ),
        home(fix, repo_root, ws_root) is None ==> located(before.push(d), repo_root, ws_root)
            == located(before.push((Diag { fixes, ..d })), repo_root, ws_root),
{
    let none = Diag { fixes: Seq::empty(), ..d };
    let less = Diag { fixes, ..d };
    let start = located(before, repo_root, ws_root);
    assert(before.push(d).drop_last() =~= before);
    assert(before.push(none).drop_last() =~= before);
    assert(before.push(less).drop_last() =~= before);
    assert(start + Seq::<Located>::empty() =~= start);
    assert(d.fixes.drop_last() =~= fixes);
    assert(d.fixes.last() == fix);
    let rest = located_in(fixes, repo_root, ws_root);
    if let Some(at) = home(fix, repo_root, ws_root) {
        let l = Located { file: at, fix };
        assert(start + rest.push(l) =~= (start + rest).push(l));
    }
}

/// The files of groups, in order.
pub open spec fn group_files(list: Seq<Group>) -> Seq<Seq<char>> {
    Seq::new(list.len(), |i: int| list[i].file)
}

/// The groups stand in the order in which their files first get a suggestion.
pub proof fn the_groups_stand_in_order(list: Seq<Located>, l: Located)
    ensures
        group_files(grouped(Seq::empty())) == Seq::<Seq<char>>::empty(),
        group_files(grouped(list.push(l))) == (if group_files(grouped(list)).contains(l.file) {
            group_files(grouped(list))
        } else {
            group_files(grouped(list)).push(l.file)
        }),
{
    lemma_grouped_push(list, l);
    let was = grouped(list);
    let files = group_files(was);
    lemma_group_at(was, l.file);
    let k = group_at(was, l.file);
    assert(group_files(grouped(Seq::empty())) =~= Seq::empty());
    if k < was.len() {
        assert(files[k] == l.file);
        assert(group_files(grouped(list.push(l))) =~= files);
    } else {
        if files.contains(l.file) {
            let i = choose|i: int| 0 <= i < files.len() && files[i] == l.file;
            assert(was[i].file == l.file);
        }
        assert(group_files(grouped(list.push(l))) =~= files.push(l.file));
    }
}

} // verus!
