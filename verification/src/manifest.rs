//! What the hook reads out of a `Cargo.toml`, line by line.
use vstd::prelude::*;

use crate::list::{
    ascending, ascending_lists_with_the_same_members_are_equal, lemma_ordered, lemma_pushed, lines,
    lines_of, ordered, ordered_of, same_members,
};
use crate::path::{
    fold_of, folded, lemma_folded_behind, lemma_folded_plain, lemma_own_segment,
    lemma_segments_plain, plain_segment, segments, segments_of, steps_up,
    steps_up_take_back_steps_down,
};
use crate::text::{
    a_prefix_is_followed_by_the_rest, a_text_is_its_trimmed_text_with_white_space_around,
    after_prefix, before, before_in, begins, begins_with, blank, chars_are, chars_of, clone_list,
    cutting_keeps_what_stands_before, ends, ends_with, find, find_in, is_white,
    leading_white_space_is_trimmed, lemma_find, lemma_trim_start, opt_text, same, string_of,
    strip_prefix, texts, trim, trim_of, trim_start, trim_end, trim_start_of,
    trimming_takes_white_space_alone, white,
};

verus! {

/// A text without the quotation marks at its two ends.
pub open spec fn unquoted(s: Seq<char>) -> Seq<char>
    decreases s.len(),
{
    if s.len() > 0 && s[0] == '"' {
        unquoted(s.skip(1))
    } else if s.len() > 0 && s.last() == '"' {
        unquoted(s.drop_last())
    } else {
        s
    }
}

fn unquote(s: &[char]) -> (r: &[char])
    ensures
        r@ == unquoted(s@),
{
    let mut from: usize = 0;
    let mut to: usize = s.len();
    assert(s@.subrange(0, to as int) =~= s@);
    while from < to && (s[from] == '"' || s[to - 1] == '"')
        invariant
            from <= to <= s@.len(),
            unquoted(s@) == unquoted(s@.subrange(from as int, to as int)),
        decreases to - from,
    {
        let ghost now = s@.subrange(from as int, to as int);
        if s[from] == '"' {
            from = from + 1;
            assert(now.skip(1) =~= s@.subrange(from as int, to as int));
        } else {
            to = to - 1;
            assert(now.drop_last() =~= s@.subrange(from as int, to as int));
        }
    }
    vstd::slice::slice_subrange(s, from, to)
}

/// An ASCII digit.
pub open spec fn is_digit(c: char) -> bool {
    '0' <= c <= '9'
}

/// A text of at least one ASCII digit and nothing else.
pub open spec fn is_number(s: Seq<char>) -> bool {
    &&& s.len() > 0
    &&& forall|i: int| 0 <= i < s.len() ==> is_digit(#[trigger] s[i])
}

/// Whether every character is an ASCII digit.
pub fn all_digits(s: &[char]) -> (r: bool)
    ensures
        r == (forall|i: int| 0 <= i < s@.len() ==> is_digit(#[trigger] s@[i])),
{
    let mut i: usize = 0;
    while i < s.len()
        invariant
            i <= s@.len(),
            forall|j: int| 0 <= j < i ==> is_digit(#[trigger] s@[j]),
        decreases s@.len() - i,
    {
        let c = s[i];
        if !('0' <= c && c <= '9') {
            assert(!is_digit(s@[i as int]));
            return false;
        }
        i = i + 1;
    }
    true
}

/// The quotation mark that is open behind a character.
pub open spec fn opened(open: Option<char>, c: char) -> Option<char> {
    match open {
        Some(mark) => if c == mark {
            None
        } else {
            open
        },
        None => if c == '"' || c == '\'' {
            Some(c)
        } else {
            None
        },
    }
}

fn open_after(open: Option<char>, c: char) -> (r: Option<char>)
    ensures
        r == opened(open, c),
{
    match open {
        Some(mark) => if c == mark {
            None
        } else {
            open
        },
        None => if c == '"' || c == '\'' {
            Some(c)
        } else {
            None
        },
    }
}

/// Where a character first stands outside of quotation marks, or the length of
/// the text where it does not: `open` is the mark that is open at its start.
pub open spec fn find_bare(s: Seq<char>, c: char, open: Option<char>) -> int
    decreases s.len(),
{
    if s.len() == 0 || (open is None && s[0] == c) {
        0
    } else {
        1 + find_bare(s.skip(1), c, opened(open, s[0]))
    }
}

/// Looks for the first occurrence of a character outside of quotation marks.
fn find_bare_in(s: &[char], c: char) -> (i: usize)
    ensures
        i == find_bare(s@, c, None),
        i <= s@.len(),
{
    let mut i: usize = 0;
    let mut open: Option<char> = None;
    assert(s@.skip(0) =~= s@);
    while i < s.len() && !(open.is_none() && s[i] == c)
        invariant
            i <= s@.len(),
            find_bare(s@, c, None) == i + find_bare(s@.skip(i as int), c, open),
        decreases s@.len() - i,
    {
        open = open_after(open, s[i]);
        i = i + 1;
        assert(s@.skip(i - 1).skip(1) =~= s@.skip(i as int));
    }
    i
}

/// A line without its comment: what stands before the first `#` outside of
/// quotation marks.
pub open spec fn uncommented(line: Seq<char>) -> Seq<char> {
    line.take(find_bare(line, '#', None))
}

/// The edition that one line of a manifest states: `edition`, an equals sign,
/// and a number, with or without quotation marks. A trailing comment is no part
/// of the line.
pub open spec fn edition_in(line: Seq<char>) -> Option<Seq<char>> {
    match after_prefix(trim(uncommented(line)), "edition"@) {
        Some(rest) => match after_prefix(trim_start(rest), "="@) {
            Some(value) => {
                let number = unquoted(trim(value));
                if is_number(number) {
                    Some(number)
                } else {
                    None
                }
            },
            None => None,
        },
        None => None,
    }
}

fn edition_of(line: &str) -> (r: Option<String>)
    ensures
        opt_text(r) == edition_in(line@),
{
    let line = chars_of(line);
    let end = find_bare_in(line.as_slice(), '#');
    let code = vstd::slice::slice_subrange(line.as_slice(), 0, end);
    assert(code@ =~= uncommented(line@));
    match strip_prefix(trim_of(code), "edition") {
        Some(rest) => match strip_prefix(trim_start_of(rest), "=") {
            Some(value) => {
                let number = unquote(trim_of(value));
                if number.len() > 0 && all_digits(number) {
                    Some(string_of(number))
                } else {
                    None
                }
            },
            None => None,
        },
        None => None,
    }
}

/// The first edition that the lines state, else the newest one.
pub open spec fn edition_stated(lines: Seq<Seq<char>>) -> Seq<char>
    decreases lines.len(),
{
    if lines.len() == 0 {
        "2024"@
    } else {
        match edition_in(lines[0]) {
            Some(edition) => edition,
            None => edition_stated(lines.skip(1)),
        }
    }
}

/// The lines of a manifest; none where it could not be read.
pub open spec fn manifest_lines(manifest: Option<Seq<char>>) -> Seq<Seq<char>> {
    match manifest {
        Some(text) => lines(text),
        None => Seq::empty(),
    }
}

fn split_manifest(manifest: &Option<String>) -> (r: Vec<String>)
    ensures
        texts(r@) == manifest_lines(opt_text(*manifest)),
{
    match manifest {
        Some(text) => lines_of(text.as_str()),
        None => {
            let r: Vec<String> = Vec::new();
            assert(texts(r@) =~= Seq::empty());
            r
        },
    }
}

/// The edition that a manifest states literally. Inherited and dotted forms
/// fall through to a default, and so does a manifest that cannot be read.
pub fn manifest_edition(manifest: &Option<String>) -> (edition: String)
    ensures
        edition@ == edition_stated(manifest_lines(opt_text(*manifest))),
{
    let list = split_manifest(manifest);
    let ghost all = texts(list@);
    let mut i: usize = 0;
    assert(all.skip(0) =~= all);
    while i < list.len()
        invariant
            i <= list@.len(),
            all == texts(list@),
            all == manifest_lines(opt_text(*manifest)),
            edition_stated(all) == edition_stated(all.skip(i as int)),
        decreases list@.len() - i,
    {
        assert(all.skip(i as int)[0] == list@[i as int]@);
        if let Some(edition) = edition_of(list[i].as_str()) {
            return edition;
        }
        i = i + 1;
        assert(all.skip(i - 1).skip(1) =~= all.skip(i as int));
    }
    "2024".to_owned()
}

/// An edition is a number, so that it is always a whole argument by itself.
pub proof fn an_edition_is_a_number(manifest: Option<Seq<char>>)
    ensures
        is_number(edition_stated(manifest_lines(manifest))),
{
    lemma_edition_is_number(manifest_lines(manifest));
}

proof fn lemma_edition_is_number(lines: Seq<Seq<char>>)
    ensures
        is_number(edition_stated(lines)),
    decreases lines.len(),
{
    if lines.len() == 0 {
        reveal_strlit("2024");
    } else if edition_in(lines[0]) is None {
        lemma_edition_is_number(lines.skip(1));
    }
}

/// A text without any white space.
pub open spec fn solid(s: Seq<char>) -> Seq<char> {
    s.filter(|c: char| !white(c))
}

/// A line without its comment and without any white space.
pub open spec fn bare(line: Seq<char>) -> Seq<char> {
    solid(before(line, '#'))
}

/// Drops the comment of a line and its white space.
fn bare_of(line: &str) -> (out: Vec<char>)
    ensures
        out@ == bare(line@),
{
    let line = chars_of(line);
    let s = before_in(line.as_slice(), '#');
    let mut out: Vec<char> = Vec::new();
    let mut i: usize = 0;
    let ghost keep = |c: char| !white(c);
    assert(s@.take(0) =~= Seq::empty());
    assert(out@ =~= s@.take(0).filter(keep)) by {
        reveal(Seq::filter);
    }
    while i < s.len()
        invariant
            i <= s@.len(),
            keep == (|c: char| !white(c)),
            out@ == s@.take(i as int).filter(keep),
        decreases s@.len() - i,
    {
        let c = s[i];
        if !is_white(c) {
            out.push(c);
        }
        i = i + 1;
        proof {
            reveal(Seq::filter);
            assert(s@.take(i as int).drop_last() =~= s@.take(i - 1));
            assert(s@.take(i as int).last() == c);
        }
    }
    assert(s@.take(i as int) =~= s@);
    out
}

/// A `[workspace]` table header, white space and a trailing comment aside.
pub open spec fn workspace_header(line: Seq<char>) -> bool {
    bare(line) == "[workspace]"@
}

/// True for a `[workspace]` table header, tolerating inner white space and a
/// trailing comment.
pub fn is_workspace_header(line: &str) -> (r: bool)
    ensures
        r == workspace_header(line@),
{
    chars_are(bare_of(line).as_slice(), "[workspace]")
}

/// A manifest with a `[workspace]` table.
pub open spec fn workspace(manifest: Option<Seq<char>>) -> bool {
    exists|i: int|
        0 <= i < manifest_lines(manifest).len() && workspace_header(
            #[trigger] manifest_lines(manifest)[i],
        )
}

/// Whether a manifest has a `[workspace]` table.
pub fn is_workspace(manifest: &Option<String>) -> (r: bool)
    ensures
        r == workspace(opt_text(*manifest)),
{
    let list = split_manifest(manifest);
    let ghost all = manifest_lines(opt_text(*manifest));
    let mut i: usize = 0;
    while i < list.len()
        invariant
            i <= list@.len(),
            all == texts(list@),
            all == manifest_lines(opt_text(*manifest)),
            forall|j: int| 0 <= j < i ==> !workspace_header(#[trigger] all[j]),
        decreases list@.len() - i,
    {
        assert(all[i as int] == list@[i as int]@);
        if is_workspace_header(list[i].as_str()) {
            return true;
        }
        i = i + 1;
    }
    false
}

/// What stands behind the key `path` and an equals sign, where a text begins with
/// them. The key may stand in quotation marks.
pub open spec fn path_value(s: Seq<char>) -> Option<Seq<char>> {
    let rest = if begins(s, "path"@) {
        after_prefix(s, "path"@)
    } else if begins(s, "\"path\""@) {
        after_prefix(s, "\"path\""@)
    } else {
        after_prefix(s, "'path'"@)
    };
    match rest {
        Some(rest) => after_prefix(trim_start(rest), "="@),
        None => None,
    }
}

fn path_value_of(s: &[char]) -> (r: Option<&[char]>)
    ensures
        match r {
            Some(value) => path_value(s@) == Some(value@),
            None => path_value(s@) is None,
        },
{
    let rest = if begins_with(s, "path") {
        strip_prefix(s, "path")
    } else if begins_with(s, "\"path\"") {
        strip_prefix(s, "\"path\"")
    } else {
        strip_prefix(s, "'path'")
    };
    match rest {
        Some(rest) => strip_prefix(trim_start_of(rest), "="),
        None => None,
    }
}

/// The path that a value names, from the directory above on: what stands behind
/// `"../`, up to the closing quotation mark.
pub open spec fn upward(value: Seq<char>) -> Option<Seq<char>> {
    match after_prefix(trim_start(value), "\"../"@) {
        Some(rest) => Some(before(rest, '"')),
        None => None,
    }
}

fn upward_of(value: &[char]) -> (r: Option<String>)
    ensures
        opt_text(r) == upward(value@),
{
    match strip_prefix(trim_start_of(value), "\"../") {
        Some(rest) => Some(string_of(before_in(rest, '"'))),
        None => None,
    }
}

/// The path that the first `path` key of an inline table names, of those that
/// lead to the directory above. A key stands behind a brace, a comma or a dot,
/// outside of quotation marks: `open` is the mark that is open at the start of
/// the text, and `ready` tells whether a key may stand there.
pub open spec fn inline_path(s: Seq<char>, open: Option<char>, ready: bool) -> Option<Seq<char>>
    decreases s.len(),
{
    if s.len() == 0 {
        None
    } else {
        let here = if open is None && ready {
            path_value(s)
        } else {
            None
        };
        if here is Some && upward(here->0) is Some {
            upward(here->0)
        } else {
            inline_path(
                s.skip(1),
                opened(open, s[0]),
                open is None && (s[0] == '{' || s[0] == ',' || s[0] == '.' || (ready && white(
                    s[0],
                ))),
            )
        }
    }
}

fn inline_path_of(s: &[char]) -> (r: Option<String>)
    ensures
        opt_text(r) == inline_path(s@, None, false),
{
    let mut i: usize = 0;
    let mut open: Option<char> = None;
    let mut ready = false;
    assert(s@.skip(0) =~= s@);
    while i < s.len()
        invariant
            i <= s@.len(),
            inline_path(s@, None, false) == inline_path(s@.skip(i as int), open, ready),
        decreases s@.len() - i,
    {
        let rest = vstd::slice::slice_subrange(s, i, s.len());
        assert(rest@ =~= s@.skip(i as int));
        let bare = open.is_none();
        if bare && ready {
            if let Some(value) = path_value_of(rest) {
                if let Some(path) = upward_of(value) {
                    return Some(path);
                }
            }
        }
        let c = s[i];
        ready = bare && (c == '{' || c == ',' || c == '.' || (ready && is_white(c)));
        open = open_after(open, c);
        i = i + 1;
        assert(s@.skip(i - 1).skip(1) =~= s@.skip(i as int));
    }
    None
}

/// The path that one line of a manifest names, from the directory above on: the
/// value of a `path` key, which stands on the line by itself, behind a dotted
/// name, or in an inline table.
pub open spec fn upward_in(line: Seq<char>) -> Option<Seq<char>> {
    let code = before(line, '#');
    let cut = find_bare(code, '=', None);
    if cut == code.len() {
        None
    } else {
        let key = trim(code.take(cut));
        let value = code.skip(cut + 1);
        if key == "path"@ || ends(key, ".path"@) {
            upward(value)
        } else if begins(trim_start(value), "{"@) {
            inline_path(value, None, false)
        } else {
            None
        }
    }
}

fn upward_in_of(line: &str) -> (r: Option<String>)
    ensures
        opt_text(r) == upward_in(line@),
{
    let line = chars_of(line);
    let code = before_in(line.as_slice(), '#');
    let cut = find_bare_in(code, '=');
    if cut == code.len() {
        return None;
    }
    let key = trim_of(vstd::slice::slice_subrange(code, 0, cut));
    let value = vstd::slice::slice_subrange(code, cut + 1, code.len());
    assert(code@.subrange(0, cut as int) =~= code@.take(cut as int));
    assert(value@ =~= code@.skip(cut + 1));
    if chars_are(key, "path") || ends_with(key, ".path") {
        upward_of(value)
    } else if begins_with(trim_start_of(value), "{") {
        inline_path_of(value)
    } else {
        None
    }
}

/// A header of a table that describes a target of the package: a `path` in it
/// names a source file, not a dependency.
pub open spec fn target_header(line: Seq<char>) -> bool {
    ||| bare(line) == "[lib]"@
    ||| bare(line) == "[[bin]]"@
    ||| bare(line) == "[[example]]"@
    ||| bare(line) == "[[test]]"@
    ||| bare(line) == "[[bench]]"@
}

/// Whether a line that follows the given ones stands in the table of a target.
pub open spec fn in_target(lines: Seq<Seq<char>>) -> bool
    decreases lines.len(),
{
    if lines.len() == 0 {
        false
    } else if begins(bare(lines.last()), "["@) {
        target_header(lines.last())
    } else {
        in_target(lines.drop_last())
    }
}

/// The paths that the lines of a manifest name as dependencies, each from the
/// directory above on, in order.
pub open spec fn upward_lines(lines: Seq<Seq<char>>) -> Seq<Seq<char>>
    decreases lines.len(),
{
    if lines.len() == 0 {
        Seq::empty()
    } else {
        let rest = upward_lines(lines.drop_last());
        match upward_in(lines.last()) {
            Some(path) => if in_target(lines.drop_last()) {
                rest
            } else {
                rest.push(path)
            },
            None => rest,
        }
    }
}

fn is_target(line: &[char]) -> (r: bool)
    ensures
        r == {
            ||| line@ == "[lib]"@
            ||| line@ == "[[bin]]"@
            ||| line@ == "[[example]]"@
            ||| line@ == "[[test]]"@
            ||| line@ == "[[bench]]"@
        },
{
    chars_are(line, "[lib]") || chars_are(line, "[[bin]]") || chars_are(line, "[[example]]")
        || chars_are(line, "[[test]]") || chars_are(line, "[[bench]]")
}

/// The paths that a manifest names as dependencies.
fn upward_paths(manifest: &Option<String>) -> (found: Vec<String>)
    ensures
        texts(found@) == upward_lines(manifest_lines(opt_text(*manifest))),
{
    let list = split_manifest(manifest);
    let ghost all = texts(list@);
    let mut found: Vec<String> = Vec::new();
    let mut target = false;
    let mut i: usize = 0;
    assert(all.take(0) =~= Seq::empty());
    assert(texts(found@) =~= upward_lines(all.take(0)));
    while i < list.len()
        invariant
            i <= list@.len(),
            all == texts(list@),
            target == in_target(all.take(i as int)),
            texts(found@) == upward_lines(all.take(i as int)),
        decreases list@.len() - i,
    {
        let ghost before = found@;
        assert(all.take(i + 1).drop_last() =~= all.take(i as int));
        assert(all.take(i + 1).last() == list@[i as int]@);
        if let Some(path) = upward_in_of(list[i].as_str()) {
            if !target {
                found.push(path);
                assert(texts(found@) =~= texts(before).push(path@));
            }
        }
        let line = bare_of(list[i].as_str());
        if begins_with(line.as_slice(), "[") {
            target = is_target(line.as_slice());
        }
        i = i + 1;
    }
    assert(all.take(i as int) =~= all);
    found
}

/// The name of a sibling: one path segment that names a directory of its own.
pub open spec fn sibling_name(name: Seq<char>) -> bool {
    name.len() > 0 && !name.contains('/') && name != "."@ && name != ".."@
}

fn is_sibling_name(name: &str) -> (r: bool)
    ensures
        r == sibling_name(name@),
{
    let chars = chars_of(name);
    let slash = find_in(chars.as_slice(), '/');
    if slash < chars.len() {
        assert(name@[slash as int] == '/');
        return false;
    }
    chars.len() > 0 && !same(name, ".") && !same(name, "..")
}

/// The paths of a list that are the names of siblings.
pub open spec fn sibling_names(list: Seq<Seq<char>>) -> Seq<Seq<char>>
    decreases list.len(),
{
    if list.len() == 0 {
        Seq::empty()
    } else if sibling_name(list.last()) {
        sibling_names(list.drop_last()).push(list.last())
    } else {
        sibling_names(list.drop_last())
    }
}

/// The siblings that the lines of a manifest depend on by path, in order.
pub open spec fn siblings_in(lines: Seq<Seq<char>>) -> Seq<Seq<char>> {
    sibling_names(upward_lines(lines))
}

/// The siblings that a manifest depends on by path, in ascending order.
pub open spec fn siblings(manifest: Option<Seq<char>>) -> Seq<Seq<char>> {
    ordered(siblings_in(manifest_lines(manifest)))
}

/// `path = "../x"` dependency names from a manifest: inline-table dependencies
/// and `path` keys in multi-line dependency tables. Each name comes once, in
/// ascending order.
pub fn sibling_deps(manifest: &Option<String>) -> (deps: Vec<String>)
    ensures
        texts(deps@) == siblings(opt_text(*manifest)),
        ascending(texts(deps@)),
        same_members(texts(deps@), siblings_in(manifest_lines(opt_text(*manifest)))),
{
    let list = upward_paths(manifest);
    let ghost all = texts(list@);
    let mut found: Vec<String> = Vec::new();
    let mut i: usize = 0;
    assert(all.take(0) =~= Seq::empty());
    assert(texts(found@) =~= sibling_names(all.take(0)));
    while i < list.len()
        invariant
            i <= list@.len(),
            all == texts(list@),
            texts(found@) == sibling_names(all.take(i as int)),
        decreases list@.len() - i,
    {
        let ghost before = found@;
        assert(all.take(i + 1).drop_last() =~= all.take(i as int));
        assert(all.take(i + 1).last() == list@[i as int]@);
        if is_sibling_name(list[i].as_str()) {
            found.push(list[i].clone());
            assert(texts(found@) =~= texts(before).push(list@[i as int]@));
        }
        i = i + 1;
    }
    assert(all.take(i as int) =~= all);
    ordered_of(&found)
}

/// What a path leads to beside the repository: the segment behind the one `..`
/// that leaves it, for a path taken from a directory of the repository, which is
/// given by its segments.
pub open spec fn beside(dir: Seq<Seq<char>>, path: Seq<char>) -> Option<Seq<char>> {
    let steps = folded(dir.push(".."@) + segments(path), false);
    if steps.len() >= 2 && steps[0] == ".."@ && steps[1] != ".."@ {
        Some(steps[1])
    } else {
        None
    }
}

fn beside_of(dir: &Vec<String>, path: &str) -> (r: Option<String>)
    ensures
        opt_text(r) == beside(texts(dir@), path@),
{
    let mut list = clone_list(dir);
    list.push("..".to_owned());
    let ghost raised = list@;
    assert(texts(raised) =~= texts(dir@).push(".."@));
    let chars = chars_of(path);
    let mut rest = segments_of(chars.as_slice());
    let ghost more = rest@;
    list.append(&mut rest);
    assert(texts(list@) =~= texts(raised) + texts(more));
    let steps = fold_of(&list, false);
    assert(texts(steps@).len() == steps@.len());
    if steps.len() >= 2 && same(steps[0].as_str(), "..") && !same(steps[1].as_str(), "..") {
        Some(steps[1].clone())
    } else {
        None
    }
}

/// What the paths of a list lead to beside the repository, in order.
pub open spec fn besides(dir: Seq<Seq<char>>, list: Seq<Seq<char>>) -> Seq<Seq<char>>
    decreases list.len(),
{
    if list.len() == 0 {
        Seq::empty()
    } else {
        let rest = besides(dir, list.drop_last());
        match beside(dir, list.last()) {
            Some(name) => rest.push(name),
            None => rest,
        }
    }
}

fn besides_of(list: &Vec<String>, dir: &Vec<String>) -> (found: Vec<String>)
    ensures
        texts(found@) == besides(texts(dir@), texts(list@)),
{
    let ghost all = texts(list@);
    let ghost place = texts(dir@);
    let mut found: Vec<String> = Vec::new();
    let mut i: usize = 0;
    assert(all.take(0) =~= Seq::empty());
    assert(texts(found@) =~= besides(place, all.take(0)));
    while i < list.len()
        invariant
            i <= list@.len(),
            all == texts(list@),
            place == texts(dir@),
            texts(found@) == besides(place, all.take(i as int)),
        decreases list@.len() - i,
    {
        let ghost before = found@;
        assert(all.take(i + 1).drop_last() =~= all.take(i as int));
        assert(all.take(i + 1).last() == list@[i as int]@);
        if let Some(name) = beside_of(dir, list[i].as_str()) {
            found.push(name);
            assert(texts(found@) =~= texts(before).push(name@));
        }
        i = i + 1;
    }
    assert(all.take(i as int) =~= all);
    found
}

/// What a manifest in a directory of a repository reaches beside the repository
/// by its path dependencies, in ascending order.
pub open spec fn reached(manifest: Option<Seq<char>>, dir: Seq<Seq<char>>) -> Seq<Seq<char>> {
    ordered(besides(dir, upward_lines(manifest_lines(manifest))))
}

/// What a manifest in a directory of a repository reaches beside the repository
/// by its path dependencies, however deep the directory lies and the path leads.
/// Each name comes once, in ascending order.
pub fn reached_deps(manifest: &Option<String>, dir: &Vec<String>) -> (deps: Vec<String>)
    ensures
        texts(deps@) == reached(opt_text(*manifest), texts(dir@)),
        ascending(texts(deps@)),
        same_members(
            texts(deps@),
            besides(texts(dir@), upward_lines(manifest_lines(opt_text(*manifest)))),
        ),
{
    ordered_of(&besides_of(&upward_paths(manifest), dir))
}

/// The paths in quotation marks that lead to the directory above, each from there
/// on, in order: `open` is the mark that is open at the start of the text.
pub open spec fn mentions(s: Seq<char>, open: Option<char>) -> Seq<Seq<char>>
    decreases s.len(),
{
    if s.len() == 0 {
        Seq::empty()
    } else {
        let rest = mentions(s.skip(1), opened(open, s[0]));
        if open is None && (s[0] == '"' || s[0] == '\'') && begins(s.skip(1), "../"@) {
            seq![before(s.skip(4), s[0])] + rest
        } else {
            rest
        }
    }
}

/// The paths in quotation marks on a line that lead to the directory above.
fn mentions_of(line: &str) -> (found: Vec<String>)
    ensures
        texts(found@) == mentions(uncommented(line@), None),
{
    let chars = chars_of(line);
    let end = find_bare_in(chars.as_slice(), '#');
    let code = vstd::slice::slice_subrange(chars.as_slice(), 0, end);
    let ghost all = mentions(code@, None);
    assert(code@ =~= uncommented(line@));
    let mut found: Vec<String> = Vec::new();
    let mut open: Option<char> = None;
    let mut i: usize = 0;
    assert(code@.skip(0) =~= code@);
    assert(texts(found@) + mentions(code@, None) =~= all);
    while i < code.len()
        invariant
            i <= code@.len(),
            all == mentions(code@, None),
            texts(found@) + mentions(code@.skip(i as int), open) == all,
        decreases code@.len() - i,
    {
        let ghost now = code@.skip(i as int);
        let ghost before_push = found@;
        let c = code[i];
        let rest = vstd::slice::slice_subrange(code, i + 1, code.len());
        assert(rest@ =~= now.skip(1));
        if open.is_none() && (c == '"' || c == '\'') && begins_with(rest, "../") {
            proof {
                reveal_strlit("../");
            }
            let path = vstd::slice::slice_subrange(code, i + 4, code.len());
            assert(path@ =~= now.skip(4));
            found.push(string_of(before_in(path, c)));
            assert(texts(found@) =~= texts(before_push).push(before(now.skip(4), c)));
        }
        open = open_after(open, c);
        i = i + 1;
        assert(code@.skip(i as int) =~= now.skip(1));
        assert(texts(found@) + mentions(code@.skip(i as int), open) =~= all);
    }
    assert(texts(found@) =~= all);
    found
}

/// The paths in quotation marks in the lines of a manifest that lead to the
/// directory above, in order.
pub open spec fn mention_lines(lines: Seq<Seq<char>>) -> Seq<Seq<char>>
    decreases lines.len(),
{
    if lines.len() == 0 {
        Seq::empty()
    } else {
        mention_lines(lines.drop_last()) + mentions(uncommented(lines.last()), None)
    }
}

/// What the manifest at the root of a workspace names beside the repository: a
/// member may lie there, and stands in a list, so that every path in quotation
/// marks counts. The names are in ascending order.
pub open spec fn mentioned(manifest: Option<Seq<char>>) -> Seq<Seq<char>> {
    ordered(besides(Seq::empty(), mention_lines(manifest_lines(manifest))))
}

/// What the manifest at the root of a workspace names beside the repository. Each
/// name comes once, in ascending order.
pub fn mentioned_deps(manifest: &Option<String>) -> (deps: Vec<String>)
    ensures
        texts(deps@) == mentioned(opt_text(*manifest)),
        ascending(texts(deps@)),
        same_members(
            texts(deps@),
            besides(Seq::empty(), mention_lines(manifest_lines(opt_text(*manifest)))),
        ),
{
    let list = split_manifest(manifest);
    let ghost all = texts(list@);
    let mut paths: Vec<String> = Vec::new();
    let mut i: usize = 0;
    assert(all.take(0) =~= Seq::empty());
    assert(texts(paths@) =~= mention_lines(all.take(0)));
    while i < list.len()
        invariant
            i <= list@.len(),
            all == texts(list@),
            texts(paths@) == mention_lines(all.take(i as int)),
        decreases list@.len() - i,
    {
        let ghost before_more = paths@;
        assert(all.take(i + 1).drop_last() =~= all.take(i as int));
        assert(all.take(i + 1).last() == list@[i as int]@);
        let mut more = mentions_of(list[i].as_str());
        let ghost added = more@;
        paths.append(&mut more);
        assert(texts(paths@) =~= texts(before_more) + texts(added));
        i = i + 1;
    }
    assert(all.take(i as int) =~= all);
    let top: Vec<String> = Vec::new();
    assert(texts(top@) =~= Seq::empty());
    ordered_of(&besides_of(&paths, &top))
}

/// A sibling's name is one plain path segment: it is not empty, it holds neither
/// a slash nor a quotation mark, and it is neither `.` nor `..`.
pub proof fn a_sibling_is_one_segment(manifest: Option<Seq<char>>, name: Seq<char>)
    requires
        siblings_in(manifest_lines(manifest)).contains(name),
    ensures
        name.len() > 0,
        !name.contains('/'),
        !name.contains('"'),
        name != "."@,
        name != ".."@,
{
    let lines = manifest_lines(manifest);
    lemma_named(upward_lines(lines), name);
    lemma_upward_lines(lines, name);
    let line = choose|line: Seq<char>| lines.contains(line) && upward_in(line) == Some(name);
    let code = before(line, '#');
    let cut = find_bare(code, '=', None);
    lemma_inline(code.skip(cut + 1), None, false);
    lemma_upward(code.skip(cut + 1));
}

/// A name is among those of a list where it is in the list.
proof fn lemma_named(list: Seq<Seq<char>>, name: Seq<char>)
    ensures
        sibling_names(list).contains(name) == (list.contains(name) && sibling_name(name)),
    decreases list.len(),
{
    if list.len() > 0 {
        let rest = list.drop_last();
        lemma_named(rest, name);
        lemma_pushed(rest, list.last(), name);
        lemma_pushed(sibling_names(rest), list.last(), name);
        assert(list =~= rest.push(list.last()));
    }
}

/// A path among those of the lines stands on one of them.
proof fn lemma_upward_lines(lines: Seq<Seq<char>>, path: Seq<char>)
    requires
        upward_lines(lines).contains(path),
    ensures
        exists|line: Seq<char>| lines.contains(line) && upward_in(line) == Some(path),
    decreases lines.len(),
{
    if lines.len() > 0 {
        let rest = lines.drop_last();
        let last = lines.last();
        assert(lines[lines.len() - 1] == last);
        assert(lines.contains(last));
        if upward_lines(rest).contains(path) {
            lemma_upward_lines(rest, path);
            let line = choose|line: Seq<char>| rest.contains(line) && upward_in(line) == Some(path);
            lemma_pushed(rest, last, line);
            assert(lines =~= rest.push(last));
            assert(lines.contains(line));
        } else {
            lemma_pushed(upward_lines(rest), upward_in(last)->0, path);
            assert(upward_in(last) == Some(path));
        }
    }
}

/// A path holds no quotation mark.
proof fn lemma_upward(value: Seq<char>)
    ensures
        upward(value) is Some ==> !upward(value)->0.contains('"'),
{
    match after_prefix(trim_start(value), "\"../"@) {
        Some(rest) => {
            lemma_find(rest, '"');
        },
        None => {},
    }
}

proof fn lemma_inline(s: Seq<char>, open: Option<char>, ready: bool)
    ensures
        inline_path(s, open, ready) is Some ==> !inline_path(s, open, ready)->0.contains('"'),
    decreases s.len(),
{
    if s.len() > 0 {
        if path_value(s) is Some {
            lemma_upward(path_value(s)->0);
        }
        lemma_inline(
            s.skip(1),
            opened(open, s[0]),
            open is None && (s[0] == '{' || s[0] == ',' || s[0] == '.' || (ready && white(s[0]))),
        );
    }
}

/// What a manifest reaches or names beside the repository is named by one plain
/// path segment.
pub proof fn what_is_reached_is_one_segment(
    manifest: Option<Seq<char>>,
    dir: Seq<Seq<char>>,
    name: Seq<char>,
)
    requires
        forall|i: int| 0 <= i < dir.len() ==> plain_segment(#[trigger] dir[i]),
        reached(manifest, dir).contains(name) || mentioned(manifest).contains(name),
    ensures
        sibling_name(name),
{
    let lines = manifest_lines(manifest);
    lemma_ordered(besides(dir, upward_lines(lines)));
    lemma_ordered(besides(Seq::empty(), mention_lines(lines)));
    if reached(manifest, dir).contains(name) {
        lemma_beside_plain(dir, upward_lines(lines), name);
    } else {
        lemma_beside_plain(Seq::empty(), mention_lines(lines), name);
    }
}

proof fn lemma_beside_plain(dir: Seq<Seq<char>>, list: Seq<Seq<char>>, name: Seq<char>)
    requires
        forall|i: int| 0 <= i < dir.len() ==> plain_segment(#[trigger] dir[i]),
        besides(dir, list).contains(name),
    ensures
        sibling_name(name),
{
    lemma_besides(dir, list, name);
    let path = choose|path: Seq<char>| list.contains(path) && beside(dir, path) == Some(name);
    lemma_segments_plain(path);
    let all = dir.push(".."@) + segments(path);
    assert forall|i: int| 0 <= i < all.len() implies plain_segment(#[trigger] all[i]) by {
        reveal_strlit("..");
        reveal_strlit(".");
        if i < dir.len() {
            assert(all[i] == dir[i]);
        } else if i > dir.len() {
            assert(all[i] == segments(path)[i - dir.len() - 1]);
        } else {
            assert(".."@.len() == 2);
        }
    }
    lemma_folded_plain(all, false);
}

/// A name among those that are reached is reached by one of the paths.
proof fn lemma_besides(dir: Seq<Seq<char>>, list: Seq<Seq<char>>, name: Seq<char>)
    requires
        besides(dir, list).contains(name),
    ensures
        exists|path: Seq<char>| list.contains(path) && beside(dir, path) == Some(name),
    decreases list.len(),
{
    if list.len() > 0 {
        let rest = list.drop_last();
        let last = list.last();
        assert(list =~= rest.push(last));
        assert(list[list.len() - 1] == last);
        assert(list.contains(last));
        if besides(dir, rest).contains(name) {
            lemma_besides(dir, rest, name);
            let path = choose|path: Seq<char>|
                rest.contains(path) && beside(dir, path) == Some(name);
            lemma_pushed(rest, last, path);
            assert(list.contains(path));
        } else {
            lemma_pushed(besides(dir, rest), beside(dir, last)->0, name);
            assert(beside(dir, last) == Some(name));
        }
    }
}

/// The paths that a manifest names, as dependencies or in quotation marks at all.
pub open spec fn paths_named(manifest: Option<Seq<char>>) -> Seq<Seq<char>> {
    upward_lines(manifest_lines(manifest)) + mention_lines(manifest_lines(manifest))
}

/// What is named beside the repository is a segment of one of the paths that the
/// manifest names.
pub proof fn a_sibling_is_a_segment_of_a_path(
    manifest: Option<Seq<char>>,
    dir: Seq<Seq<char>>,
    name: Seq<char>,
)
    requires
        !dir.contains(".."@),
        siblings(manifest).contains(name) || reached(manifest, dir).contains(name) || mentioned(
            manifest,
        ).contains(name),
    ensures
        exists|path: Seq<char>| #[trigger]
            paths_named(manifest).contains(path) && segments(path).contains(name),
{
    let lines = manifest_lines(manifest);
    let all = paths_named(manifest);
    lemma_ordered(siblings_in(lines));
    lemma_ordered(besides(dir, upward_lines(lines)));
    lemma_ordered(besides(Seq::empty(), mention_lines(lines)));
    let path = if siblings(manifest).contains(name) {
        lemma_named(upward_lines(lines), name);
        lemma_own_segment(name);
        assert(seq![name][0] == name);
        name
    } else if reached(manifest, dir).contains(name) {
        lemma_beside_segment(dir, upward_lines(lines), name)
    } else {
        lemma_beside_segment(Seq::empty(), mention_lines(lines), name)
    };
    if upward_lines(lines).contains(path) {
        let i = choose|i: int| 0 <= i < upward_lines(lines).len() && upward_lines(lines)[i] == path;
        assert(all[i] == path);
    } else {
        let i = choose|i: int|
            0 <= i < mention_lines(lines).len() && mention_lines(lines)[i] == path;
        assert(all[upward_lines(lines).len() + i] == path);
    }
    assert(all.contains(path) && segments(path).contains(name));
}

/// What a path leads to beside the repository is one of its segments.
proof fn lemma_beside_segment(
    dir: Seq<Seq<char>>,
    list: Seq<Seq<char>>,
    name: Seq<char>,
) -> (path: Seq<char>)
    requires
        !dir.contains(".."@),
        besides(dir, list).contains(name),
    ensures
        list.contains(path),
        segments(path).contains(name),
{
    lemma_besides(dir, list, name);
    let path = choose|path: Seq<char>| list.contains(path) && beside(dir, path) == Some(name);
    let rest = seq![".."@] + segments(path);
    let steps = folded(dir.push(".."@) + segments(path), false);
    assert(dir.push(".."@) + segments(path) =~= dir + rest);
    let k = lemma_folded_behind(dir, rest);
    if k > 0 {
        assert(steps[0] == dir[0]);
        assert(dir.contains(dir[0]));
    }
    assert(rest.contains(steps[1]));
    let i = choose|i: int| 0 <= i < rest.len() && rest[i] == steps[1];
    assert(segments(path)[i - 1] == name);
    path
}

/// The part of a line before its comment: all that decides which path it names.
pub open spec fn codes(lines: Seq<Seq<char>>) -> Seq<Seq<char>> {
    Seq::new(lines.len(), |i: int| before(lines[i], '#'))
}

/// Where no table of a target stands in a manifest, what it depends on is decided
/// by the set of its lines: the order of the lines, a line that stands there more
/// than once and a comment behind a line make no difference.
pub proof fn siblings_depend_on_the_set_of_lines(a: Option<Seq<char>>, b: Option<Seq<char>>)
    requires
        forall|i: int|
            0 <= i < manifest_lines(a).len() ==> !target_header(#[trigger] manifest_lines(a)[i]),
        forall|i: int|
            0 <= i < manifest_lines(b).len() ==> !target_header(#[trigger] manifest_lines(b)[i]),
        same_members(codes(manifest_lines(a)), codes(manifest_lines(b))),
    ensures
        siblings(a) == siblings(b),
{
    let x = manifest_lines(a);
    let y = manifest_lines(b);
    assert forall|name: Seq<char>| siblings_in(x).contains(name) <==> siblings_in(y).contains(
        name,
    ) by {
        lemma_named(upward_lines(x), name);
        lemma_named(upward_lines(y), name);
        if upward_lines(x).contains(name) {
            lemma_same_lines(x, y, name);
        }
        if upward_lines(y).contains(name) {
            lemma_same_lines(y, x, name);
        }
    }
    lemma_ordered(siblings_in(x));
    lemma_ordered(siblings_in(y));
    ascending_lists_with_the_same_members_are_equal(siblings(a), siblings(b));
}

/// A comment behind a line that has none changes nothing of what the line names.
pub proof fn a_comment_changes_no_sibling(line: Seq<char>, comment: Seq<char>)
    requires
        !line.contains('#'),
    ensures
        before(line.push('#') + comment, '#') == before(line, '#'),
        upward_in(line.push('#') + comment) == upward_in(line),
{
    let all = line.push('#') + comment;
    lemma_find(line, '#');
    lemma_find(all, '#');
    assert(all[line.len() as int] == '#');
    assert forall|j: int| 0 <= j < line.len() implies all[j] != '#' by {
        assert(all[j] == line[j]);
    }
    assert(before(all, '#') =~= line);
    assert(before(line, '#') =~= line);
}

/// Lists of lines without a target's table whose members are alike name the same
/// paths.
proof fn lemma_same_lines(x: Seq<Seq<char>>, y: Seq<Seq<char>>, path: Seq<char>)
    requires
        forall|i: int| 0 <= i < y.len() ==> !target_header(#[trigger] y[i]),
        same_members(codes(x), codes(y)),
        upward_lines(x).contains(path),
    ensures
        upward_lines(y).contains(path),
{
    lemma_upward_lines(x, path);
    let line = choose|line: Seq<char>| x.contains(line) && upward_in(line) == Some(path);
    let i = choose|i: int| 0 <= i < x.len() && x[i] == line;
    assert(codes(x)[i] == before(line, '#'));
    assert(codes(y).contains(before(line, '#')));
    let j = choose|j: int| 0 <= j < codes(y).len() && codes(y)[j] == before(line, '#');
    assert(before(y[j], '#') == before(line, '#'));
    assert(upward_in(y[j]) == Some(path));
    lemma_line_counts(y, j);
}

/// A line outside of every target's table has its path counted.
proof fn lemma_line_counts(lines: Seq<Seq<char>>, j: int)
    requires
        0 <= j < lines.len(),
        forall|i: int| 0 <= i < lines.len() ==> !target_header(#[trigger] lines[i]),
        upward_in(lines[j]) is Some,
    ensures
        upward_lines(lines).contains(upward_in(lines[j])->0),
    decreases lines.len(),
{
    let rest = lines.drop_last();
    let path = upward_in(lines[j])->0;
    assert forall|i: int| 0 <= i < rest.len() implies !target_header(#[trigger] rest[i]) by {
        assert(rest[i] == lines[i]);
    }
    lemma_no_target(rest);
    if j < rest.len() {
        assert(rest[j] == lines[j]);
        lemma_line_counts(rest, j);
    }
    if upward_in(lines.last()) is Some {
        lemma_pushed(upward_lines(rest), upward_in(lines.last())->0, path);
    }
}

/// Without the header of a target's table, no line stands in one.
proof fn lemma_no_target(lines: Seq<Seq<char>>)
    requires
        forall|i: int| 0 <= i < lines.len() ==> !target_header(#[trigger] lines[i]),
    ensures
        !in_target(lines),
    decreases lines.len(),
{
    if lines.len() > 0 {
        let rest = lines.drop_last();
        assert forall|i: int| 0 <= i < rest.len() implies !target_header(#[trigger] rest[i]) by {
            assert(rest[i] == lines[i]);
        }
        lemma_no_target(rest);
        assert(!target_header(lines[lines.len() - 1]));
    }
}

/// The quotation mark that a text leaves open at its end. A mark closes at the
/// next one of its kind; a mark of the other kind in between is a character.
pub open spec fn mark_behind(s: Seq<char>) -> Option<char>
    decreases s.len(),
{
    if s.len() == 0 {
        None
    } else {
        match mark_behind(s.drop_last()) {
            Some(mark) => if s.last() == mark {
                None
            } else {
                Some(mark)
            },
            None => if s.last() == '"' || s.last() == '\'' {
                Some(s.last())
            } else {
                None
            },
        }
    }
}

/// Every occurrence of a character in a text stands in quotation marks.
pub open spec fn only_quoted(s: Seq<char>, c: char) -> bool {
    forall|i: int| 0 <= i < s.len() && s[i] == c ==> mark_behind(#[trigger] s.take(i)) is Some
}

/// A text without quotation marks.
pub open spec fn markless(s: Seq<char>) -> bool {
    !s.contains('"') && !s.contains('\'')
}

proof fn lemma_mark_join(a: Seq<char>, b: Seq<char>)
    requires
        mark_behind(a) is None,
    ensures
        mark_behind(a + b) == mark_behind(b),
    decreases b.len(),
{
    if b.len() == 0 {
        assert(a + b =~= a);
    } else {
        lemma_mark_join(a, b.drop_last());
        assert((a + b).drop_last() =~= a + b.drop_last());
        assert((a + b).last() == b.last());
    }
}

proof fn lemma_mark_kept(a: Seq<char>, mark: char, b: Seq<char>)
    requires
        mark_behind(a) == Some(mark),
        !b.contains(mark),
    ensures
        mark_behind(a + b) == Some(mark),
    decreases b.len(),
{
    if b.len() == 0 {
        assert(a + b =~= a);
    } else {
        let front = b.drop_last();
        assert(!front.contains(mark)) by {
            if front.contains(mark) {
                let i = choose|i: int| 0 <= i < front.len() && front[i] == mark;
                assert(b[i] == mark);
            }
        }
        lemma_mark_kept(a, mark, front);
        assert((a + b).drop_last() =~= a + front);
        assert((a + b).last() == b[b.len() - 1]);
    }
}

proof fn lemma_markless(s: Seq<char>)
    requires
        markless(s),
    ensures
        mark_behind(s) is None,
    decreases s.len(),
{
    if s.len() > 0 {
        let front = s.drop_last();
        assert(markless(front)) by {
            assert forall|c: char| front.contains(c) implies s.contains(c) by {
                let i = choose|i: int| 0 <= i < front.len() && front[i] == c;
                assert(s[i] == c);
            }
        }
        lemma_markless(front);
        assert(s.contains(s[s.len() - 1]));
    }
}

proof fn lemma_mark_is_quote(s: Seq<char>)
    ensures
        mark_behind(s) matches Some(mark) ==> mark == '"' || mark == '\'',
    decreases s.len(),
{
    if s.len() > 0 {
        lemma_mark_is_quote(s.drop_last());
    }
}

/// A text in quotation marks leaves none open.
proof fn lemma_mark_quoted(mark: char, s: Seq<char>)
    requires
        mark == '"' || mark == '\'',
        !s.contains(mark),
    ensures
        mark_behind(seq![mark] + s + seq![mark]) is None,
{
    let head = seq![mark];
    assert(head.drop_last() =~= Seq::empty());
    assert(mark_behind(Seq::<char>::empty()) is None);
    assert(mark_behind(head) == Some(mark));
    lemma_mark_kept(head, mark, s);
    let all = head + s + seq![mark];
    assert(all.drop_last() =~= head + s);
    assert(all.last() == mark);
}

proof fn lemma_bare_walk(s: Seq<char>, c: char, i: int)
    requires
        0 <= i <= s.len(),
        forall|j: int| 0 <= j < i && s[j] == c ==> mark_behind(#[trigger] s.take(j)) is Some,
    ensures
        find_bare(s, c, None) == i + find_bare(s.skip(i), c, mark_behind(s.take(i))),
    decreases i,
{
    if i == 0 {
        assert(s.skip(0) =~= s);
        assert(s.take(0) =~= Seq::empty());
    } else {
        lemma_bare_walk(s, c, i - 1);
        assert(s.take(i).drop_last() =~= s.take(i - 1));
        assert(s.take(i).last() == s[i - 1]);
        assert(s.skip(i - 1).skip(1) =~= s.skip(i));
        assert(s.skip(i - 1)[0] == s[i - 1]);
        assert(s[i - 1] == c ==> mark_behind(s.take(i - 1)) is Some);
    }
}

proof fn lemma_bare_nowhere(s: Seq<char>, c: char, open: Option<char>)
    requires
        !s.contains(c),
    ensures
        find_bare(s, c, open) == s.len(),
    decreases s.len(),
{
    if s.len() > 0 {
        assert(s.contains(s[0]));
        assert(!s.skip(1).contains(c)) by {
            if s.skip(1).contains(c) {
                let i = choose|i: int| 0 <= i < s.skip(1).len() && s.skip(1)[i] == c;
                assert(s[i + 1] == c);
            }
        }
        lemma_bare_nowhere(s.skip(1), c, opened(open, s[0]));
    }
}

proof fn lemma_contains_join(a: Seq<char>, b: Seq<char>, c: char)
    ensures
        (a + b).contains(c) == (a.contains(c) || b.contains(c)),
{
    let all = a + b;
    if all.contains(c) {
        let i = choose|i: int| 0 <= i < all.len() && all[i] == c;
        if i < a.len() {
            assert(a[i] == c);
        } else {
            assert(b[i - a.len()] == c);
        }
    }
    if a.contains(c) {
        let i = choose|i: int| 0 <= i < a.len() && a[i] == c;
        assert(all[i] == c);
    }
    if b.contains(c) {
        let i = choose|i: int| 0 <= i < b.len() && b[i] == c;
        assert(all[a.len() + i] == c);
    }
}

/// The comment of a line begins at the first `#` outside of quotation marks, and
/// everything before that belongs to the line.
pub proof fn a_comment_begins_outside_of_quotation_marks(code: Seq<char>, comment: Seq<char>)
    requires
        only_quoted(code, '#'),
    ensures
        mark_behind(code) is None ==> uncommented(code.push('#') + comment) == code,
        uncommented(code) == code,
{
    let line = code.push('#') + comment;
    let n = code.len() as int;
    assert(line.take(n) =~= code);
    assert(code.take(n) =~= code);
    assert(code.skip(n) =~= Seq::empty());
    assert forall|j: int| 0 <= j < n && line[j] == '#' implies mark_behind(
        #[trigger] line.take(j),
    ) is Some by {
        assert(line[j] == code[j]);
        assert(line.take(j) =~= code.take(j));
    }
    lemma_bare_walk(line, '#', n);
    lemma_bare_walk(code, '#', n);
    assert(line.skip(n)[0] == '#');
}

/// Blanks hold neither marks nor signs.
proof fn lemma_blank_plain(w: Seq<char>)
    requires
        blank(w),
    ensures
        markless(w),
        !w.contains('#'),
        !w.contains('='),
{
    assert forall|c: char| w.contains(c) implies white(c) by {
        let i = choose|i: int| 0 <= i < w.len() && w[i] == c;
        assert(white(w[i]));
    }
}

/// A text of double quotation marks alone.
pub open spec fn all_marks(s: Seq<char>) -> bool {
    forall|i: int| 0 <= i < s.len() ==> #[trigger] s[i] == '"'
}

proof fn lemma_unquoted(a: Seq<char>, s: Seq<char>, b: Seq<char>)
    requires
        all_marks(a),
        all_marks(b),
        s.len() > 0,
        s[0] != '"',
        s.last() != '"',
    ensures
        unquoted(a + s + b) == s,
    decreases a.len() + b.len(),
{
    let t = a + s + b;
    if a.len() > 0 {
        assert(a[0] == '"');
        assert(t.skip(1) =~= a.skip(1) + s + b);
        assert forall|i: int| 0 <= i < a.skip(1).len() implies #[trigger] a.skip(1)[i] == '"' by {
            assert(a[i + 1] == '"');
        }
        lemma_unquoted(a.skip(1), s, b);
    } else if b.len() > 0 {
        assert(t[0] == s[0]);
        assert(b[b.len() - 1] == '"');
        assert(t.last() == b.last());
        assert(t.drop_last() =~= a + s + b.drop_last());
        assert forall|i: int| 0 <= i < b.drop_last().len() implies #[trigger] b.drop_last()[i]
            == '"' by {
            assert(b[i] == '"');
        }
        lemma_unquoted(a, s, b.drop_last());
    } else {
        assert(t =~= s);
    }
}

/// The pieces that unquoting takes off.
proof fn lemma_unquoting(s: Seq<char>) -> (r: (Seq<char>, Seq<char>))
    ensures
        all_marks(r.0),
        all_marks(r.1),
        s == r.0 + unquoted(s) + r.1,
    decreases s.len(),
{
    if s.len() > 0 && s[0] == '"' {
        let (a, b) = lemma_unquoting(s.skip(1));
        let front = seq!['"'] + a;
        assert(all_marks(front)) by {
            assert forall|i: int| 0 <= i < front.len() implies #[trigger] front[i] == '"' by {
                if i > 0 {
                    assert(a[i - 1] == '"');
                }
            }
        }
        assert(s =~= seq!['"'] + s.skip(1));
        assert(seq!['"'] + (a + unquoted(s) + b) =~= front + unquoted(s) + b);
        (front, b)
    } else if s.len() > 0 && s.last() == '"' {
        let (a, b) = lemma_unquoting(s.drop_last());
        let back = b.push('"');
        assert(all_marks(back)) by {
            assert forall|i: int| 0 <= i < back.len() implies #[trigger] back[i] == '"' by {
                if i < b.len() {
                    assert(b[i] == '"');
                }
            }
        }
        assert(s =~= s.drop_last().push('"'));
        assert((a + unquoted(s) + b).push('"') =~= a + unquoted(s) + back);
        (a, back)
    } else {
        assert(s =~= Seq::empty() + s + Seq::empty());
        (Seq::empty(), Seq::empty())
    }
}

/// A number as a manifest writes it.
pub open spec fn digits(n: Seq<char>) -> bool {
    n.len() > 0 && forall|i: int| 0 <= i < n.len() ==> '0' <= #[trigger] n[i] <= '9'
}

/// How an edition is stated: `edition`, an equals sign and a number, with white
/// space around each and with or without quotation marks around the number.
pub open spec fn edition_line(
    w: (Seq<char>, Seq<char>, Seq<char>, Seq<char>),
    open: Seq<char>,
    n: Seq<char>,
    close: Seq<char>,
) -> Seq<char> {
    w.0 + ("edition"@ + (w.1 + ("="@ + (w.2 + (open + n + close))))) + w.3
}

/// A stated edition is taken literally: a line that states a number states exactly
/// that number, whatever it is, and however much white space stands around. A
/// comment behind it makes no difference where its quotation marks pair up.
pub proof fn a_stated_edition_is_taken_literally(
    w: (Seq<char>, Seq<char>, Seq<char>, Seq<char>),
    open: Seq<char>,
    n: Seq<char>,
    close: Seq<char>,
    comment: Seq<char>,
)
    requires
        blank(w.0),
        blank(w.1),
        blank(w.2),
        blank(w.3),
        digits(n),
        all_marks(open),
        all_marks(close),
    ensures
        edition_in(edition_line(w, open, n, close)) == Some(n),
        open == seq!['"'] && close == seq!['"'] || open.len() + close.len() == 0 ==> edition_in(
            edition_line(w, open, n, close).push('#') + comment,
        ) == Some(n),
{
    reveal_strlit("edition");
    let line = edition_line(w, open, n, close);
    let value = open + n + close;
    let core = "edition"@ + (w.1 + ("="@ + (w.2 + value)));
    lemma_edition_plain(w, open, n, close);
    assert(only_quoted(line, '#')) by {
        assert forall|i: int| 0 <= i < line.len() && line[i] == '#' implies mark_behind(
            #[trigger] line.take(i),
        ) is Some by {
            assert(line.contains(line[i]));
        }
    }
    a_comment_begins_outside_of_quotation_marks(line, comment);
    lemma_edition_core(w.1, w.2, open, n, close);
    assert(core[0] == 'e');
    assert(core.last() == value.last());
    assert(value.last() == if close.len() > 0 { close[close.len() - 1] } else { n[n.len() - 1] });
    assert(!white(core.last()));
    trimming_takes_white_space_alone(w.0, core, w.3);
    assert(uncommented(line) == line);
    if open == seq!['"'] && close == seq!['"'] || open.len() + close.len() == 0 {
        lemma_edition_marks(w, open, n, close);
    }
}

/// A character that is no quotation mark and no digit does not stand in a stated
/// number.
proof fn lemma_number_plain(open: Seq<char>, n: Seq<char>, close: Seq<char>, c: char)
    requires
        digits(n),
        all_marks(open),
        all_marks(close),
        c == '#' || c == '\'',
    ensures
        !(open + n + close).contains(c),
        !n.contains(c),
        !n.contains('"'),
{
    lemma_contains_join(open + n, close, c);
    lemma_contains_join(open, n, c);
    if open.contains(c) {
        let i = choose|i: int| 0 <= i < open.len() && open[i] == c;
        assert(open[i] == '"');
    }
    if close.contains(c) {
        let i = choose|i: int| 0 <= i < close.len() && close[i] == c;
        assert(close[i] == '"');
    }
    if n.contains(c) {
        let i = choose|i: int| 0 <= i < n.len() && n[i] == c;
        assert('0' <= n[i] <= '9');
    }
    if n.contains('"') {
        let i = choose|i: int| 0 <= i < n.len() && n[i] == '"';
        assert('0' <= n[i] <= '9');
    }
}

/// No sign of a comment stands in a line that states an edition.
proof fn lemma_edition_plain(
    w: (Seq<char>, Seq<char>, Seq<char>, Seq<char>),
    open: Seq<char>,
    n: Seq<char>,
    close: Seq<char>,
)
    requires
        blank(w.0),
        blank(w.1),
        blank(w.2),
        blank(w.3),
        digits(n),
        all_marks(open),
        all_marks(close),
    ensures
        !edition_line(w, open, n, close).contains('#'),
{
    reveal_strlit("edition");
    reveal_strlit("=");
    let value = open + n + close;
    let c = '#';
    lemma_blank_plain(w.0);
    lemma_blank_plain(w.1);
    lemma_blank_plain(w.2);
    lemma_blank_plain(w.3);
    lemma_number_plain(open, n, close, c);
    let one = w.2 + value;
    lemma_contains_join(w.2, value, c);
    let two = "="@ + one;
    lemma_contains_join("="@, one, c);
    let three = w.1 + two;
    lemma_contains_join(w.1, two, c);
    let core = "edition"@ + three;
    lemma_contains_join("edition"@, three, c);
    lemma_contains_join(w.0, core, c);
    lemma_contains_join(w.0 + core, w.3, c);
}

/// No quotation mark is open behind a line that states an edition.
proof fn lemma_edition_marks(
    w: (Seq<char>, Seq<char>, Seq<char>, Seq<char>),
    open: Seq<char>,
    n: Seq<char>,
    close: Seq<char>,
)
    requires
        blank(w.0),
        blank(w.1),
        blank(w.2),
        blank(w.3),
        digits(n),
        all_marks(open),
        all_marks(close),
        open == seq!['"'] && close == seq!['"'] || open.len() + close.len() == 0,
    ensures
        mark_behind(edition_line(w, open, n, close)) is None,
{
    let line = edition_line(w, open, n, close);
    let value = open + n + close;
    let head = w.0 + ("edition"@ + (w.1 + ("="@ + w.2)));
    lemma_blank_plain(w.3);
    lemma_edition_head(w.0, w.1, w.2);
    lemma_markless(head);
    lemma_number_plain(open, n, close, '\'');
    assert(line =~= head + (value + w.3));
    lemma_mark_join(head, value + w.3);
    if open.len() > 0 {
        lemma_mark_quoted('"', n);
    } else {
        assert(value =~= n);
        lemma_markless(value);
    }
    lemma_mark_join(value, w.3);
    lemma_markless(w.3);
}

proof fn lemma_edition_head(a: Seq<char>, b: Seq<char>, c: Seq<char>)
    requires
        blank(a),
        blank(b),
        blank(c),
    ensures
        markless(a + ("edition"@ + (b + ("="@ + c)))),
{
    reveal_strlit("edition");
    reveal_strlit("=");
    lemma_blank_plain(a);
    lemma_blank_plain(b);
    lemma_blank_plain(c);
    lemma_contains_join("="@, c, '"');
    lemma_contains_join("="@, c, '\'');
    let one = "="@ + c;
    lemma_contains_join(b, one, '"');
    lemma_contains_join(b, one, '\'');
    let two = b + one;
    lemma_contains_join("edition"@, two, '"');
    lemma_contains_join("edition"@, two, '\'');
    let three = "edition"@ + two;
    lemma_contains_join(a, three, '"');
    lemma_contains_join(a, three, '\'');
}

proof fn lemma_edition_core(
    w: Seq<char>,
    x: Seq<char>,
    open: Seq<char>,
    n: Seq<char>,
    close: Seq<char>,
)
    requires
        blank(w),
        blank(x),
        digits(n),
        all_marks(open),
        all_marks(close),
    ensures
        ({
            let core = "edition"@ + (w + ("="@ + (x + (open + n + close))));
            &&& after_prefix(core, "edition"@) == Some(w + ("="@ + (x + (open + n + close))))
            &&& after_prefix(trim_start(after_prefix(core, "edition"@)->0), "="@) == Some(
                x + (open + n + close),
            )
            &&& unquoted(trim(x + (open + n + close))) == n
            &&& is_number(n)
        }),
{
    reveal_strlit("=");
    let value = open + n + close;
    let rest = "="@ + (x + value);
    a_prefix_is_followed_by_the_rest("edition"@, w + rest, Seq::empty());
    assert(rest[0] == '=');
    leading_white_space_is_trimmed(w, rest);
    a_prefix_is_followed_by_the_rest("="@, x + value, Seq::empty());
    assert('0' <= n[0] <= '9');
    assert('0' <= n[n.len() - 1] <= '9');
    assert(value[0] == if open.len() > 0 { open[0] } else { n[0] });
    assert(value.last() == if close.len() > 0 { close[close.len() - 1] } else { n[n.len() - 1] });
    assert(!white(value[0]) && !white(value.last()));
    assert(x + value =~= x + value + Seq::empty());
    trimming_takes_white_space_alone(x, value, Seq::empty());
    lemma_unquoted(open, n, close);
    assert forall|i: int| 0 <= i < n.len() implies is_digit(#[trigger] n[i]) by {
        assert('0' <= n[i] <= '9');
    }
}

/// A line states an edition only where it is written so, and the number is the
/// one that stands there.
pub proof fn an_edition_stands_on_its_line(line: Seq<char>) -> (r: (
    (Seq<char>, Seq<char>, Seq<char>, Seq<char>),
    Seq<char>,
    Seq<char>,
    Seq<char>,
))
    requires
        edition_in(line) is Some,
    ensures
        blank(r.0.0),
        blank(r.0.1),
        blank(r.0.2),
        blank(r.0.3),
        all_marks(r.1),
        all_marks(r.2),
        digits(edition_in(line)->0),
        line == edition_line(r.0, r.1, edition_in(line)->0, r.2) + r.3,
        r.3.len() > 0 ==> r.3[0] == '#',
{
    let n = edition_in(line)->0;
    let cut = find_bare(line, '#', None);
    lemma_bare_found(line, '#', None);
    let code = uncommented(line);
    let tail = line.skip(cut);
    let (a, b) = a_text_is_its_trimmed_text_with_white_space_around(code);
    let core = trim(code);
    let one = core.skip("edition"@.len() as int);
    assert(core =~= "edition"@ + one);
    let w = lemma_trim_start(one);
    let two = trim_start(one).skip("="@.len() as int);
    assert(trim_start(one) =~= "="@ + two);
    let (x, y) = a_text_is_its_trimmed_text_with_white_space_around(two);
    let (open, close) = lemma_unquoting(trim(two));
    assert forall|i: int| 0 <= i < n.len() implies '0' <= #[trigger] n[i] <= '9' by {
        assert(is_digit(n[i]));
    }
    // Nothing stands behind the number but marks: the code ends with no blank.
    assert(y =~= Seq::empty()) by {
        if y.len() > 0 {
            assert(core.last() == y[y.len() - 1]);
            assert(white(y[y.len() - 1]));
        }
    }
    let value = open + n + close;
    assert(two =~= x + value);
    assert(core =~= "edition"@ + (w + ("="@ + (x + value))));
    assert(line =~= code + tail);
    ((a, w, x, b), open, close, tail)
}

/// What a search outside of quotation marks comes upon.
proof fn lemma_bare_found(s: Seq<char>, c: char, open: Option<char>)
    ensures
        0 <= find_bare(s, c, open) <= s.len(),
        find_bare(s, c, open) < s.len() ==> s[find_bare(s, c, open)] == c,
    decreases s.len(),
{
    if s.len() == 0 || (open is None && s[0] == c) {
    } else {
        lemma_bare_found(s.skip(1), c, opened(open, s[0]));
    }
}

/// The first line that states an edition decides, and without one it is the
/// newest edition. The lines are those of the manifest's text; a manifest that
/// cannot be read has none.
pub proof fn the_first_stated_edition_decides(text: Seq<char>, i: int)
    requires
        0 <= i <= lines(text).len(),
        forall|j: int| 0 <= j < i ==> edition_in(#[trigger] lines(text)[j]) is None,
        i < lines(text).len() ==> edition_in(lines(text)[i]) is Some,
    ensures
        edition_stated(manifest_lines(Some(text))) == (if i < lines(text).len() {
            edition_in(lines(text)[i])->0
        } else {
            "2024"@
        }),
        edition_stated(manifest_lines(None)) == "2024"@,
{
    lemma_first_edition(lines(text), i);
}

proof fn lemma_first_edition(list: Seq<Seq<char>>, i: int)
    requires
        0 <= i <= list.len(),
        forall|j: int| 0 <= j < i ==> edition_in(#[trigger] list[j]) is None,
        i < list.len() ==> edition_in(list[i]) is Some,
    ensures
        edition_stated(list) == (if i < list.len() {
            edition_in(list[i])->0
        } else {
            "2024"@
        }),
    decreases i,
{
    if i > 0 {
        assert(edition_in(list[0]) is None);
        assert forall|j: int| 0 <= j < i - 1 implies edition_in(
            #[trigger] list.skip(1)[j],
        ) is None by {
            assert(edition_in(list[j + 1]) is None);
        }
        lemma_first_edition(list.skip(1), i - 1);
    }
}

/// The key of a path, with or without quotation marks.
pub open spec fn path_key(key: Seq<char>) -> bool {
    key == "path"@ || key == "\"path\""@ || key == "'path'"@
}

/// A key, an equals sign and a path that leads to the directory above, with white
/// space between them.
pub open spec fn upward_entry(
    key: Seq<char>,
    w: Seq<char>,
    x: Seq<char>,
    rest: Seq<char>,
) -> Seq<char> {
    key + (w + ("="@ + (x + ("\"../"@ + rest))))
}

/// Whether a text begins with a path key whose path leads to the directory above.
pub open spec fn leads_up(s: Seq<char>) -> bool {
    exists|key: Seq<char>, w: Seq<char>, x: Seq<char>, rest: Seq<char>|
        path_key(key) && blank(w) && blank(x) && s == #[trigger] upward_entry(key, w, x, rest)
}

/// Whether a key may stand behind a text: right behind a brace, a comma or a dot.
pub open spec fn key_place(s: Seq<char>) -> bool {
    let t = trim_end(s);
    t.len() > 0 && (t.last() == '{' || t.last() == ',' || t.last() == '.')
}

/// No path key of an inline table leads upward before a position.
pub open spec fn none_leads_up(table: Seq<char>, upto: int) -> bool {
    forall|i: int|
        0 <= i < upto && key_place(#[trigger] table.take(i)) && mark_behind(table.take(i)) is None
            ==> !leads_up(table.skip(i))
}

spec fn ready_behind(s: Seq<char>) -> bool
    decreases s.len(),
{
    if s.len() == 0 {
        false
    } else {
        let c = s.last();
        mark_behind(s.drop_last()) is None && (c == '{' || c == ',' || c == '.' || (ready_behind(
            s.drop_last(),
        ) && white(c)))
    }
}

proof fn lemma_ready_place(s: Seq<char>)
    requires
        ready_behind(s),
    ensures
        key_place(s),
    decreases s.len(),
{
    let c = s.last();
    if white(c) {
        lemma_ready_place(s.drop_last());
    } else {
        assert(trim_end(s) == s);
    }
}

proof fn lemma_ready_blank(s: Seq<char>, w: Seq<char>)
    requires
        ready_behind(s),
        mark_behind(s) is None,
        blank(w),
    ensures
        ready_behind(s + w),
        mark_behind(s + w) is None,
    decreases w.len(),
{
    if w.len() == 0 {
        assert(s + w =~= s);
    } else {
        let front = w.drop_last();
        assert forall|i: int| 0 <= i < front.len() implies white(#[trigger] front[i]) by {
            assert(white(w[i]));
        }
        lemma_ready_blank(s, front);
        assert((s + w).drop_last() =~= s + front);
        assert(white(w[w.len() - 1]));
        assert((s + w).last() == w[w.len() - 1]);
    }
}

/// Where a path key leads upward, it stands there.
proof fn lemma_leads_up(s: Seq<char>)
    requires
        path_value(s) is Some,
        upward(path_value(s)->0) is Some,
    ensures
        leads_up(s),
{
    let key = if begins(s, "path"@) {
        "path"@
    } else if begins(s, "\"path\""@) {
        "\"path\""@
    } else {
        "'path'"@
    };
    let one = after_prefix(s, key)->0;
    assert(s =~= key + one);
    let w = lemma_trim_start(one);
    let two = path_value(s)->0;
    assert(trim_start(one) =~= "="@ + two);
    let x = lemma_trim_start(two);
    let rest = after_prefix(trim_start(two), "\"../"@)->0;
    assert(trim_start(two) =~= "\"../"@ + rest);
    assert(s =~= upward_entry(key, w, x, rest));
}

/// A path key that leads upward has its path.
proof fn lemma_entry_value(key: Seq<char>, w: Seq<char>, x: Seq<char>, n: Seq<char>, b: Seq<char>)
    requires
        path_key(key),
        blank(w),
        blank(x),
        !n.contains('"'),
    ensures
        ({
            let s = upward_entry(key, w, x, n.push('"') + b);
            path_value(s) is Some && upward(path_value(s)->0) == Some(n)
        }),
{
    reveal_strlit("path");
    reveal_strlit("\"path\"");
    reveal_strlit("'path'");
    reveal_strlit("=");
    reveal_strlit("\"../");
    let rest = n.push('"') + b;
    let value = x + ("\"../"@ + rest);
    let tail = "="@ + value;
    let s = upward_entry(key, w, x, rest);
    a_prefix_is_followed_by_the_rest(key, w + tail, s);
    assert(s[0] == key[0]);
    if key != "path"@ {
        assert(!begins(s, "path"@)) by {
            if begins(s, "path"@) {
                assert(s.take(4)[0] == 'p');
            }
        }
    }
    if key == "'path'"@ {
        assert(!begins(s, "\"path\""@)) by {
            if begins(s, "\"path\""@) {
                assert(s.take(6)[0] == '"');
            }
        }
    }
    assert(tail[0] == '=');
    leading_white_space_is_trimmed(w, tail);
    a_prefix_is_followed_by_the_rest("="@, value, tail);
    assert(("\"../"@ + rest)[0] == '"');
    leading_white_space_is_trimmed(x, "\"../"@ + rest);
    a_prefix_is_followed_by_the_rest("\"../"@, rest, value);
    cutting_keeps_what_stands_before(n, '"', b);
}

proof fn lemma_inline_walk(s: Seq<char>, i: int)
    requires
        0 <= i <= s.len(),
        none_leads_up(s, i),
    ensures
        inline_path(s, None, false) == inline_path(
            s.skip(i),
            mark_behind(s.take(i)),
            ready_behind(s.take(i)),
        ),
    decreases i,
{
    if i == 0 {
        assert(s.skip(0) =~= s);
        assert(s.take(0) =~= Seq::empty());
    } else {
        lemma_inline_walk(s, i - 1);
        let now = s.skip(i - 1);
        let front = s.take(i - 1);
        assert(s.take(i).drop_last() =~= front);
        assert(s.take(i).last() == s[i - 1]);
        assert(now.skip(1) =~= s.skip(i));
        assert(now[0] == s[i - 1]);
        if mark_behind(front) is None && ready_behind(front) {
            lemma_ready_place(front);
            assert(!leads_up(now));
            if path_value(now) is Some && upward(path_value(now)->0) is Some {
                lemma_leads_up(now);
            }
        }
    }
}

/// An inline table, from its brace on, in which a path key stands behind other
/// text.
pub open spec fn inline_table(
    a: Seq<char>,
    y: Seq<char>,
    key: Seq<char>,
    w: Seq<char>,
    x: Seq<char>,
    rest: Seq<char>,
) -> Seq<char> {
    "{"@ + (a + (y + upward_entry(key, w, x, rest)))
}

proof fn lemma_inline_blank(w: Seq<char>, s: Seq<char>)
    requires
        blank(w),
    ensures
        inline_path(w + s, None, false) == inline_path(s, None, false),
    decreases w.len(),
{
    if w.len() == 0 {
        assert(w + s =~= s);
    } else {
        assert(white(w[0]));
        assert((w + s)[0] == w[0]);
        assert((w + s).skip(1) =~= w.skip(1) + s);
        assert forall|i: int| 0 <= i < w.skip(1).len() implies white(#[trigger] w.skip(1)[i]) by {
            assert(white(w[i + 1]));
        }
        lemma_inline_blank(w.skip(1), s);
    }
}

proof fn lemma_leads_up_more(s: Seq<char>, t: Seq<char>)
    requires
        leads_up(s),
    ensures
        leads_up(s + t),
        s.len() > 0,
        !white(s[0]),
{
    reveal_strlit("path");
    reveal_strlit("\"path\"");
    reveal_strlit("'path'");
    let (key, w, x, rest) = choose|key: Seq<char>, w: Seq<char>, x: Seq<char>, rest: Seq<char>|
        path_key(key) && blank(w) && blank(x) && s == #[trigger] upward_entry(key, w, x, rest);
    assert(s[0] == key[0]);
    assert(s + t =~= upward_entry(key, w, x, rest + t));
}

/// What stands before a character is kept with what stands before that.
proof fn lemma_before_join(a: Seq<char>, b: Seq<char>, c: char)
    requires
        !a.contains(c),
    ensures
        before(a + b, c) == a + before(b, c),
    decreases a.len(),
{
    let n = a.len() + find(b, c);
    lemma_find(b, c);
    lemma_find(a + b, c);
    assert forall|j: int| 0 <= j < n implies (a + b)[j] != c by {
        if j < a.len() {
            assert(a.contains(a[j]));
        } else {
            assert((a + b)[j] == b[j - a.len()]);
        }
    }
    if find(b, c) < b.len() {
        assert((a + b)[n] == c);
    }
    assert(find(a + b, c) == n);
    assert((a + b).take(n) =~= a + b.take(find(b, c)));
}

/// The search of an inline table comes to the path key.
proof fn lemma_inline_found(
    a: Seq<char>,
    y: Seq<char>,
    entry: (Seq<char>, Seq<char>, Seq<char>),
    n: Seq<char>,
    b: Seq<char>,
)
    requires
        blank(y),
        mark_behind(a) is None,
        a.len() == 0 || a.last() == '{' || a.last() == ',' || a.last() == '.',
        path_key(entry.0),
        blank(entry.1),
        blank(entry.2),
        !n.contains('"'),
        none_leads_up(
            inline_table(a, y, entry.0, entry.1, entry.2, n.push('"') + b),
            a.len() as int + 1,
        ),
    ensures
        inline_path(
            inline_table(a, y, entry.0, entry.1, entry.2, n.push('"') + b),
            None,
            false,
        ) == Some(n),
{
    reveal_strlit("{");
    let e = upward_entry(entry.0, entry.1, entry.2, n.push('"') + b);
    let t = inline_table(a, y, entry.0, entry.1, entry.2, n.push('"') + b);
    let head = "{"@ + a;
    let m = head.len() + y.len();
    assert(t =~= head + y + e);
    assert(t.take(m as int) =~= head + y);
    assert(t.skip(m as int) =~= e);
    assert("{"@ =~= seq!['{']);
    assert("{"@.drop_last() =~= Seq::empty());
    assert(mark_behind(Seq::<char>::empty()) is None);
    assert(mark_behind("{"@) is None);
    lemma_mark_join("{"@, a);
    assert(ready_behind(head)) by {
        if a.len() == 0 {
            assert(head =~= "{"@);
        } else {
            assert(head.last() == a.last());
            lemma_mark_is_quote(head.drop_last());
        }
    }
    lemma_ready_blank(head, y);
    assert(none_leads_up(t, m as int)) by {
        assert forall|i: int|
            0 <= i < m && key_place(#[trigger] t.take(i)) && mark_behind(
                t.take(i),
            ) is None implies !leads_up(t.skip(i)) by {
            if i >= head.len() {
                assert(t.skip(i)[0] == y[i - head.len()]);
                assert(white(y[i - head.len()]));
                if leads_up(t.skip(i)) {
                    lemma_leads_up_more(t.skip(i), Seq::empty());
                }
            }
        }
    }
    lemma_inline_walk(t, m as int);
    lemma_entry_value(entry.0, entry.1, entry.2, n, b);
    assert(e.len() > 0) by {
        reveal_strlit("=");
    }
}

/// A line with an inline table: a key, an equals sign and the table.
pub open spec fn table_line(k: Seq<char>, w: Seq<char>, table: Seq<char>) -> Seq<char> {
    k + ("="@ + (w + table))
}

/// An inline table names its sibling wherever the path key stands in it. Whatever
/// stands between the brace and the key (versions, lists of features, flags) makes
/// no difference, as long as no quotation mark is left open and no earlier path
/// key leads upward; nor does what stands behind the path, or how the key is
/// written. The key of the line is any but a path key; an equals sign in it may
/// stand in quotation marks.
pub proof fn an_inline_table_names_its_sibling(
    k: Seq<char>,
    w: Seq<char>,
    a: Seq<char>,
    y: Seq<char>,
    entry: (Seq<char>, Seq<char>, Seq<char>),
    n: Seq<char>,
    b: Seq<char>,
)
    requires
        mark_behind(k) is None,
        only_quoted(k, '='),
        trim(k) != "path"@,
        !ends(trim(k), ".path"@),
        blank(w),
        blank(y),
        mark_behind(a) is None,
        a.len() == 0 || a.last() == '{' || a.last() == ',' || a.last() == '.',
        path_key(entry.0),
        blank(entry.1),
        blank(entry.2),
        !n.contains('"'),
        !k.contains('#'),
        !a.contains('#'),
        !n.contains('#'),
        none_leads_up(
            inline_table(a, y, entry.0, entry.1, entry.2, n.push('"') + b),
            a.len() as int + 1,
        ),
    ensures
        upward_in(
            table_line(k, w, inline_table(a, y, entry.0, entry.1, entry.2, n.push('"') + b)),
        ) == Some(n),
{
    let table = inline_table(a, y, entry.0, entry.1, entry.2, n.push('"') + b);
    let line = table_line(k, w, table);
    let kept = inline_table(a, y, entry.0, entry.1, entry.2, n.push('"') + before(b, '#'));
    let p = inline_table(a, y, entry.0, entry.1, entry.2, n.push('"'));
    let head = table_line(k, w, p);
    lemma_table_more(k, w, a, y, entry, n.push('"'), b);
    lemma_table_more(k, w, a, y, entry, n.push('"'), before(b, '#'));
    lemma_table_plain(k, w, a, y, entry, n);
    lemma_before_join(head, b, '#');
    let code = before(line, '#');
    assert(code == table_line(k, w, kept));
    lemma_cut_at(k, w + kept);
    lemma_table_brace(w, a, y, entry, n.push('"') + before(b, '#'));
    lemma_inline_blank(w, kept);
    lemma_none_leads_up_less(a, y, entry, n, b);
    lemma_inline_found(a, y, entry, n, before(b, '#'));
}

/// A line is cut at the first equals sign outside of quotation marks.
proof fn lemma_cut_at(k: Seq<char>, v: Seq<char>)
    requires
        mark_behind(k) is None,
        only_quoted(k, '='),
    ensures
        find_bare(k + ("="@ + v), '=', None) == k.len(),
        (k + ("="@ + v)).take(k.len() as int) == k,
        (k + ("="@ + v)).skip(k.len() as int + 1) == v,
        (k + ("="@ + v)).len() > k.len(),
{
    reveal_strlit("=");
    let code = k + ("="@ + v);
    let m = k.len() as int;
    assert(code.take(m) =~= k);
    assert forall|j: int| 0 <= j < m && code[j] == '=' implies mark_behind(
        #[trigger] code.take(j),
    ) is Some by {
        assert(code[j] == k[j]);
        assert(code.take(j) =~= k.take(j));
    }
    lemma_bare_walk(code, '=', m);
    assert(code.skip(m)[0] == '=');
    assert(code.skip(m + 1) =~= v);
}

proof fn lemma_table_brace(
    w: Seq<char>,
    a: Seq<char>,
    y: Seq<char>,
    entry: (Seq<char>, Seq<char>, Seq<char>),
    rest: Seq<char>,
)
    requires
        blank(w),
    ensures
        begins(trim_start(w + inline_table(a, y, entry.0, entry.1, entry.2, rest)), "{"@),
{
    reveal_strlit("{");
    let table = inline_table(a, y, entry.0, entry.1, entry.2, rest);
    assert(table[0] == '{');
    leading_white_space_is_trimmed(w, table);
    a_prefix_is_followed_by_the_rest(
        "{"@,
        a + (y + upward_entry(entry.0, entry.1, entry.2, rest)),
        table,
    );
}

proof fn lemma_entry_more(
    entry: (Seq<char>, Seq<char>, Seq<char>),
    q: Seq<char>,
    r: Seq<char>,
)
    ensures
        upward_entry(entry.0, entry.1, entry.2, q + r) == upward_entry(
            entry.0,
            entry.1,
            entry.2,
            q,
        ) + r,
{
    let one = "\"../"@;
    assert(one + (q + r) =~= (one + q) + r);
    let two = one + q;
    assert(entry.2 + (two + r) =~= (entry.2 + two) + r);
    let three = entry.2 + two;
    assert("="@ + (three + r) =~= ("="@ + three) + r);
    let four = "="@ + three;
    assert(entry.1 + (four + r) =~= (entry.1 + four) + r);
    let five = entry.1 + four;
    assert(entry.0 + (five + r) =~= (entry.0 + five) + r);
}

/// What stands behind a table stands behind its line.
proof fn lemma_table_more(
    k: Seq<char>,
    w: Seq<char>,
    a: Seq<char>,
    y: Seq<char>,
    entry: (Seq<char>, Seq<char>, Seq<char>),
    q: Seq<char>,
    r: Seq<char>,
)
    ensures
        inline_table(a, y, entry.0, entry.1, entry.2, q + r) == inline_table(
            a,
            y,
            entry.0,
            entry.1,
            entry.2,
            q,
        ) + r,
        table_line(k, w, inline_table(a, y, entry.0, entry.1, entry.2, q + r)) == table_line(
            k,
            w,
            inline_table(a, y, entry.0, entry.1, entry.2, q),
        ) + r,
{
    lemma_entry_more(entry, q, r);
    let e = upward_entry(entry.0, entry.1, entry.2, q);
    assert(y + (e + r) =~= (y + e) + r);
    let one = y + e;
    assert(a + (one + r) =~= (a + one) + r);
    let two = a + one;
    assert("{"@ + (two + r) =~= ("{"@ + two) + r);
    let t = "{"@ + two;
    assert(w + (t + r) =~= (w + t) + r);
    let three = w + t;
    assert("="@ + (three + r) =~= ("="@ + three) + r);
    let four = "="@ + three;
    assert(k + (four + r) =~= (k + four) + r);
}

proof fn lemma_entry_plain(
    entry: (Seq<char>, Seq<char>, Seq<char>),
    q: Seq<char>,
)
    requires
        path_key(entry.0),
        blank(entry.1),
        blank(entry.2),
        !q.contains('#'),
    ensures
        !upward_entry(entry.0, entry.1, entry.2, q).contains('#'),
{
    reveal_strlit("=");
    reveal_strlit("path");
    reveal_strlit("\"path\"");
    reveal_strlit("'path'");
    reveal_strlit("\"../");
    let c = '#';
    lemma_blank_plain(entry.1);
    lemma_blank_plain(entry.2);
    let one = "\"../"@ + q;
    lemma_contains_join("\"../"@, q, c);
    let two = entry.2 + one;
    lemma_contains_join(entry.2, one, c);
    let three = "="@ + two;
    lemma_contains_join("="@, two, c);
    let four = entry.1 + three;
    lemma_contains_join(entry.1, three, c);
    lemma_contains_join(entry.0, four, c);
}

/// No comment begins before the path of the table.
proof fn lemma_table_plain(
    k: Seq<char>,
    w: Seq<char>,
    a: Seq<char>,
    y: Seq<char>,
    entry: (Seq<char>, Seq<char>, Seq<char>),
    n: Seq<char>,
)
    requires
        blank(w),
        blank(y),
        path_key(entry.0),
        blank(entry.1),
        blank(entry.2),
        !k.contains('#'),
        !a.contains('#'),
        !n.contains('#'),
    ensures
        !table_line(
            k,
            w,
            inline_table(a, y, entry.0, entry.1, entry.2, n.push('"')),
        ).contains('#'),
{
    reveal_strlit("{");
    reveal_strlit("=");
    let c = '#';
    let q = n.push('"');
    lemma_blank_plain(w);
    lemma_blank_plain(y);
    assert(!q.contains(c)) by {
        if q.contains(c) {
            let i = choose|i: int| 0 <= i < q.len() && q[i] == c;
            if i < n.len() {
                assert(n[i] == c);
            }
        }
    }
    lemma_entry_plain(entry, q);
    let e = upward_entry(entry.0, entry.1, entry.2, q);
    let one = y + e;
    lemma_contains_join(y, e, c);
    let two = a + one;
    lemma_contains_join(a, one, c);
    let t = "{"@ + two;
    lemma_contains_join("{"@, two, c);
    let three = w + t;
    lemma_contains_join(w, t, c);
    let four = "="@ + three;
    lemma_contains_join("="@, three, c);
    lemma_contains_join(k, four, c);
}

/// No path key leads upward where none did with more text behind.
proof fn lemma_none_leads_up_less(
    a: Seq<char>,
    y: Seq<char>,
    entry: (Seq<char>, Seq<char>, Seq<char>),
    n: Seq<char>,
    b: Seq<char>,
)
    requires
        none_leads_up(
            inline_table(a, y, entry.0, entry.1, entry.2, n.push('"') + b),
            a.len() as int + 1,
        ),
    ensures
        none_leads_up(
            inline_table(a, y, entry.0, entry.1, entry.2, n.push('"') + before(b, '#')),
            a.len() as int + 1,
        ),
{
    reveal_strlit("{");
    let table = inline_table(a, y, entry.0, entry.1, entry.2, n.push('"') + b);
    let q = n.push('"') + before(b, '#');
    let kept = inline_table(a, y, entry.0, entry.1, entry.2, q);
    let rest = b.skip(before(b, '#').len() as int);
    lemma_find(b, '#');
    assert(n.push('"') + b =~= q + rest);
    lemma_table_more(a, a, a, y, entry, q, rest);
    assert(table == kept + rest);
    assert(kept.len() > a.len());
    assert forall|i: int|
        0 <= i < a.len() + 1 && key_place(#[trigger] kept.take(i)) && mark_behind(
            kept.take(i),
        ) is None implies !leads_up(kept.skip(i)) by {
        assert(table.take(i) =~= kept.take(i));
        assert(table.skip(i) =~= kept.skip(i) + rest);
        if leads_up(kept.skip(i)) {
            lemma_leads_up_more(kept.skip(i), rest);
        }
    }
}

/// A path key on a line by itself, or behind a dotted name, names its sibling,
/// whatever the name before the dot and whatever stands behind the path.
pub proof fn a_path_key_names_its_sibling(
    w: Seq<char>,
    k: Seq<char>,
    x: Seq<char>,
    y: Seq<char>,
    n: Seq<char>,
    b: Seq<char>,
)
    requires
        blank(w),
        blank(x),
        blank(y),
        mark_behind(k) is None,
        only_quoted(k, '='),
        !k.contains('#'),
        k.len() > 0 ==> k.last() == '.' && !white(k[0]),
        !n.contains('"'),
        !n.contains('#'),
    ensures
        upward_in((w + k + "path"@ + x) + ("="@ + (y + ("\"../"@ + (n.push('"') + b))))) == Some(
            n,
        ),
{
    let name = w + k + "path"@ + x;
    let tail = n.push('"') + before(b, '#');
    let line = name + ("="@ + (y + ("\"../"@ + (n.push('"') + b))));
    let head = name + ("="@ + (y + ("\"../"@ + n.push('"'))));
    let value = y + ("\"../"@ + tail);
    let entry = (Seq::<char>::empty(), Seq::<char>::empty(), y);
    lemma_entry_more((name, Seq::empty(), y), n.push('"'), b);
    lemma_entry_more((name, Seq::empty(), y), n.push('"'), before(b, '#'));
    assert forall|r: Seq<char>| name + (Seq::<char>::empty() + r) == #[trigger] (name + r) by {
        assert(Seq::<char>::empty() + r =~= r);
    }
    assert(line == head + b);
    lemma_name_plain(w, k, x, y, n);
    lemma_before_join(head, b, '#');
    assert(before(line, '#') == name + ("="@ + value));
    lemma_name_marks(w, k, x);
    lemma_cut_at(name, value);
    lemma_name_key(w, k, x);
    reveal_strlit("\"../");
    assert(("\"../"@ + tail)[0] == '"');
    leading_white_space_is_trimmed(y, "\"../"@ + tail);
    a_prefix_is_followed_by_the_rest("\"../"@, tail, value);
    cutting_keeps_what_stands_before(n, '"', before(b, '#'));
}

proof fn lemma_name_plain(
    w: Seq<char>,
    k: Seq<char>,
    x: Seq<char>,
    y: Seq<char>,
    n: Seq<char>,
)
    requires
        blank(w),
        blank(x),
        blank(y),
        !k.contains('#'),
        !n.contains('#'),
    ensures
        !((w + k + "path"@ + x) + ("="@ + (y + ("\"../"@ + n.push('"'))))).contains('#'),
{
    reveal_strlit("path");
    reveal_strlit("=");
    reveal_strlit("\"../");
    let c = '#';
    let q = n.push('"');
    lemma_blank_plain(w);
    lemma_blank_plain(x);
    lemma_blank_plain(y);
    assert(!q.contains(c)) by {
        if q.contains(c) {
            let i = choose|i: int| 0 <= i < q.len() && q[i] == c;
            if i < n.len() {
                assert(n[i] == c);
            }
        }
    }
    let one = "\"../"@ + q;
    lemma_contains_join("\"../"@, q, c);
    let two = y + one;
    lemma_contains_join(y, one, c);
    let three = "="@ + two;
    lemma_contains_join("="@, two, c);
    lemma_contains_join(w, k, c);
    lemma_contains_join(w + k, "path"@, c);
    lemma_contains_join(w + k + "path"@, x, c);
    lemma_contains_join(w + k + "path"@ + x, three, c);
}

proof fn lemma_name_marks(w: Seq<char>, k: Seq<char>, x: Seq<char>)
    requires
        blank(w),
        blank(x),
        mark_behind(k) is None,
        only_quoted(k, '='),
    ensures
        mark_behind(w + k + "path"@ + x) is None,
        only_quoted(w + k + "path"@ + x, '='),
{
    reveal_strlit("path");
    let name = w + k + "path"@ + x;
    lemma_blank_plain(w);
    lemma_blank_plain(x);
    lemma_markless(w);
    lemma_mark_join(w, k);
    let plain = "path"@ + x;
    lemma_contains_join("path"@, x, '"');
    lemma_contains_join("path"@, x, '\'');
    lemma_markless(plain);
    assert(name =~= (w + k) + plain);
    lemma_mark_join(w + k, plain);
    assert forall|j: int| 0 <= j < name.len() && name[j] == '=' implies mark_behind(
        #[trigger] name.take(j),
    ) is Some by {
        if j < w.len() {
            assert(w.contains(w[j]));
        } else if j < w.len() + k.len() {
            let i = j - w.len();
            assert(k[i] == '=');
            assert(name.take(j) =~= w + k.take(i));
            lemma_mark_join(w, k.take(i));
        } else {
            let i = j - w.len() - k.len();
            assert(plain[i] == name[j]);
            if i >= 4 {
                assert(x.contains(x[i - 4]));
            }
        }
    }
}

proof fn lemma_name_key(w: Seq<char>, k: Seq<char>, x: Seq<char>)
    requires
        blank(w),
        blank(x),
        k.len() > 0 ==> k.last() == '.' && !white(k[0]),
    ensures
        trim(w + k + "path"@ + x) == "path"@ || ends(trim(w + k + "path"@ + x), ".path"@),
{
    reveal_strlit("path");
    reveal_strlit(".path");
    let key = k + "path"@;
    assert(w + k + "path"@ + x =~= w + key + x);
    assert(key.last() == 'h');
    assert(k.len() == 0 ==> key[0] == 'p');
    trimming_takes_white_space_alone(w, key, x);
    if k.len() == 0 {
        assert(key =~= "path"@);
    } else {
        assert(key.skip(key.len() - 5) =~= ".path"@);
    }
}

/// Whatever a manifest depends on by path is found: a line outside of the tables
/// of targets whose path is one plain segment up has that segment among the
/// siblings of the manifest.
pub proof fn a_named_sibling_is_found(manifest: Option<Seq<char>>, i: int, n: Seq<char>)
    requires
        0 <= i < manifest_lines(manifest).len(),
        upward_in(manifest_lines(manifest)[i]) == Some(n),
        n.len() > 0,
        !n.contains('/'),
        n != "."@,
        n != ".."@,
        forall|j: int|
            0 <= j < manifest_lines(manifest).len() ==> !target_header(
                #[trigger] manifest_lines(manifest)[j],
            ),
    ensures
        siblings(manifest).contains(n),
{
    let list = manifest_lines(manifest);
    lemma_line_counts(list, i);
    lemma_named(upward_lines(list), n);
    lemma_ordered(siblings_in(list));
}

/// A header is told by what is left of its line without its comment and any
/// white space: `[workspace]` begins the table of a workspace, and one of five
/// headers that of a target.
pub proof fn a_header_is_told_by_its_characters(code: Seq<char>, comment: Seq<char>)
    requires
        !code.contains('#'),
    ensures
        ({
            let left = code.filter(|c: char| !white(c));
            let target = left == "[lib]"@ || left == "[[bin]]"@ || left == "[[example]]"@ || left
                == "[[test]]"@ || left == "[[bench]]"@;
            &&& workspace_header(code) <==> left == "[workspace]"@
            &&& workspace_header(code.push('#') + comment) <==> left == "[workspace]"@
            &&& target_header(code) <==> target
            &&& target_header(code.push('#') + comment) <==> target
            &&& bare(code) == left
            &&& bare(code.push('#') + comment) == left
        }),
{
    cutting_keeps_what_stands_before(code, '#', comment);
    let left = code.filter(|c: char| !white(c));
    assert(solid(code) == left);
}

/// A manifest is a workspace's exactly where one of its lines is the header of a
/// workspace; one that cannot be read is not.
pub proof fn a_workspace_is_told_by_a_header(text: Seq<char>, i: int)
    ensures
        0 <= i < lines(text).len() && workspace_header(lines(text)[i]) ==> workspace(Some(text)),
        (forall|j: int| 0 <= j < lines(text).len() ==> !workspace_header(#[trigger] lines(text)[j]))
            ==> !workspace(Some(text)),
        !workspace(None),
{
    if 0 <= i < lines(text).len() && workspace_header(lines(text)[i]) {
        assert(workspace_header(manifest_lines(Some(text))[i]));
    }
}

/// A line stands in the table whose header comes last before it: in that of a
/// target where the header is a target's.
pub proof fn a_line_stands_in_the_last_table(lines: Seq<Seq<char>>, line: Seq<char>)
    ensures
        !in_target(Seq::empty()),
        bare(line).len() > 0 && bare(line)[0] == '[' ==> in_target(lines.push(line))
            == target_header(line),
        bare(line).len() == 0 || bare(line)[0] != '[' ==> in_target(lines.push(line)) == in_target(
            lines,
        ),
{
    reveal_strlit("[");
    let all = lines.push(line);
    assert(all.drop_last() =~= lines);
    assert(all.last() == line);
    let s = bare(line);
    if s.len() > 0 {
        assert(s.take(1)[0] == s[0]);
        if s[0] == '[' {
            assert(s.take(1) =~= "["@);
        }
    }
}

/// The paths of a manifest are those of its lines, in order, but for the lines in
/// the tables of targets.
pub proof fn the_paths_follow_the_lines(lines: Seq<Seq<char>>, line: Seq<char>)
    ensures
        upward_lines(Seq::empty()) == Seq::<Seq<char>>::empty(),
        upward_in(line) matches Some(path) ==> upward_lines(lines.push(line)) == (if in_target(
            lines,
        ) {
            upward_lines(lines)
        } else {
            upward_lines(lines).push(path)
        }),
        upward_in(line) is None ==> upward_lines(lines.push(line)) == upward_lines(lines),
{
    assert(lines.push(line).drop_last() =~= lines);
    assert(lines.push(line).last() == line);
}

/// The siblings of a manifest are exactly the paths of its lines that are one
/// plain segment, each once and in ascending order.
pub proof fn a_sibling_is_a_path_of_one_segment(manifest: Option<Seq<char>>, name: Seq<char>)
    ensures
        siblings(manifest).contains(name) <==> upward_lines(manifest_lines(manifest)).contains(name)
            && name.len() > 0 && !name.contains('/') && name != seq!['.'] && name != seq!['.', '.'],
        ascending(siblings(manifest)),
{
    reveal_strlit(".");
    reveal_strlit("..");
    assert("."@ =~= seq!['.']);
    assert(".."@ =~= seq!['.', '.']);
    let list = upward_lines(manifest_lines(manifest));
    lemma_named(list, name);
    lemma_ordered(sibling_names(list));
}

/// What a manifest reaches is exactly what one of the paths of its lines leads to
/// from where the manifest lies; and what the manifest of a workspace mentions is
/// what one of its paths in quotation marks leads to from the root.
pub proof fn what_is_reached_is_led_to(
    manifest: Option<Seq<char>>,
    dir: Seq<Seq<char>>,
    name: Seq<char>,
)
    ensures
        reached(manifest, dir).contains(name) <==> exists|path: Seq<char>|
            upward_lines(manifest_lines(manifest)).contains(path) && #[trigger] beside(dir, path)
                == Some(name),
        mentioned(manifest).contains(name) <==> exists|path: Seq<char>|
            mention_lines(manifest_lines(manifest)).contains(path) && #[trigger] beside(
                Seq::empty(),
                path,
            ) == Some(name),
        ascending(reached(manifest, dir)),
        ascending(mentioned(manifest)),
{
    let list = upward_lines(manifest_lines(manifest));
    let more = mention_lines(manifest_lines(manifest));
    lemma_ordered(besides(dir, list));
    lemma_ordered(besides(Seq::empty(), more));
    if reached(manifest, dir).contains(name) {
        lemma_besides(dir, list, name);
    }
    if mentioned(manifest).contains(name) {
        lemma_besides(Seq::empty(), more, name);
    }
    if exists|path: Seq<char>| list.contains(path) && #[trigger] beside(dir, path) == Some(name) {
        let path = choose|path: Seq<char>|
            list.contains(path) && #[trigger] beside(dir, path) == Some(name);
        lemma_led_to(dir, list, path);
    }
    if exists|path: Seq<char>|
        more.contains(path) && #[trigger] beside(Seq::empty(), path) == Some(name) {
        let path = choose|path: Seq<char>|
            more.contains(path) && #[trigger] beside(Seq::empty(), path) == Some(name);
        lemma_led_to(Seq::empty(), more, path);
    }
}

proof fn lemma_led_to(dir: Seq<Seq<char>>, list: Seq<Seq<char>>, path: Seq<char>)
    requires
        list.contains(path),
        beside(dir, path) is Some,
    ensures
        besides(dir, list).contains(beside(dir, path)->0),
    decreases list.len(),
{
    let rest = list.drop_last();
    let name = beside(dir, path)->0;
    assert(list =~= rest.push(list.last()));
    lemma_pushed(rest, list.last(), path);
    if rest.contains(path) {
        lemma_led_to(dir, rest, path);
    }
    if beside(dir, list.last()) is Some {
        lemma_pushed(besides(dir, rest), beside(dir, list.last())->0, name);
    }
}

/// A path leads beside the repository exactly where it goes up out of it by one
/// directory: from a directory of some depth, with one step up for each segment
/// of the directory besides the one that it starts with. It then leads to the
/// segment behind these steps, whatever follows. With fewer steps up it stays in
/// the repository, and with more it leaves the directory beside it.
pub proof fn a_path_leads_beside_the_repository(
    dir: Seq<Seq<char>>,
    ups: nat,
    down: Seq<Seq<char>>,
    path: Seq<char>,
)
    requires
        !dir.contains(".."@),
        !down.contains(".."@),
        segments(path) == steps_up(ups) + down,
    ensures
        ups == dir.len() && down.len() > 0 ==> beside(dir, path) == Some(down[0]),
        ups != dir.len() || down.len() == 0 ==> beside(dir, path) is None,
{
    let all = dir.push(".."@) + segments(path);
    let more = (ups + 1) as nat;
    assert(all =~= dir + steps_up(more) + down);
    steps_up_take_back_steps_down(dir, more, down);
    let steps = folded(all, false);
    if down.len() > 0 {
        assert(down.contains(down[0]));
    }
    if ups < dir.len() {
        let kept = dir.take(dir.len() - more);
        assert(steps == kept + down);
        if kept.len() > 0 {
            assert(dir.contains(kept[0]));
            assert(steps[0] == dir[0]);
        } else if down.len() > 0 {
            assert(steps[0] == down[0]);
        }
    } else {
        let out = steps_up((more - dir.len()) as nat);
        assert(steps == out + down);
        assert(steps[0] == out[0]);
        if out.len() >= 2 {
            assert(steps[1] == out[1]);
        } else if down.len() > 0 {
            assert(steps[1] == down[0]);
        }
    }
}

proof fn lemma_mention_walk(s: Seq<char>, i: int, x: Seq<char>)
    requires
        0 <= i <= s.len(),
        mentions(s.skip(i), mark_behind(s.take(i))).contains(x),
    ensures
        mentions(s, None).contains(x),
    decreases i,
{
    if i == 0 {
        assert(s.skip(0) =~= s);
        assert(s.take(0) =~= Seq::empty());
    } else {
        let now = s.skip(i - 1);
        let open = mark_behind(s.take(i - 1));
        assert(s.take(i).drop_last() =~= s.take(i - 1));
        assert(s.take(i).last() == s[i - 1]);
        assert(now.skip(1) =~= s.skip(i));
        assert(now[0] == s[i - 1]);
        assert(mark_behind(s.take(i)) == opened(open, now[0]));
        let rest = mentions(s.skip(i), mark_behind(s.take(i)));
        let all = mentions(now, open);
        let k = choose|k: int| 0 <= k < rest.len() && rest[k] == x;
        if all.len() == rest.len() {
            assert(all[k] == x);
        } else {
            assert(all[k + 1] == x);
        }
        lemma_mention_walk(s, i - 1, x);
    }
}

/// Every path in quotation marks that leads to the directory above is found,
/// wherever on a line it stands and whichever marks it stands in, as long as no
/// mark is open before it.
pub proof fn a_path_in_quotation_marks_is_found(
    a: Seq<char>,
    mark: char,
    path: Seq<char>,
    b: Seq<char>,
)
    requires
        mark_behind(a) is None,
        mark == '"' || mark == '\'',
        !path.contains(mark),
    ensures
        mentions(a + (seq![mark] + ("../"@ + (path.push(mark) + b))), None).contains(path),
{
    reveal_strlit("../");
    let tail = path.push(mark) + b;
    let quoted = "../"@ + tail;
    let now = seq![mark] + quoted;
    let s = a + now;
    let n = a.len() as int;
    assert(s.skip(n) =~= now);
    assert(s.take(n) =~= a);
    assert(now.skip(1) =~= quoted);
    assert(now.skip(4) =~= tail);
    a_prefix_is_followed_by_the_rest("../"@, tail, quoted);
    cutting_keeps_what_stands_before(path, mark, b);
    let all = mentions(now, None);
    assert(all[0] == path);
    lemma_mention_walk(s, n, path);
}

/// A path that is found stands in quotation marks: a text with no mark open, a
/// mark, `../`, the path, and behind it the closing mark or nothing.
#[verifier::spinoff_prover]
pub proof fn what_is_mentioned_stands_in_quotation_marks(s: Seq<char>, path: Seq<char>) -> (r: (
    Seq<char>,
    char,
    Seq<char>,
))
    requires
        mentions(s, None).contains(path),
    ensures
        mark_behind(r.0) is None,
        r.1 == '"' || r.1 == '\'',
        s == r.0 + (seq![r.1] + ("../"@ + (path + r.2))),
        !path.contains(r.1),
        r.2.len() > 0 ==> r.2[0] == r.1,
{
    assert(s.skip(0) =~= s);
    assert(s.take(0) =~= Seq::empty());
    let j = lemma_mention_back(s, 0, path);
    let mark = s[j];
    let tail = s.skip(j + 4);
    reveal_strlit("../");
    lemma_find(tail, mark);
    let rest = tail.skip(find(tail, mark));
    assert(tail =~= path + rest);
    assert(s.skip(j + 1) =~= "../"@ + tail) by {
        let t = s.skip(j + 1);
        assert(t.take(3) =~= "../"@);
        assert(t =~= t.take(3) + tail);
    }
    assert(s =~= s.take(j) + (seq![mark] + s.skip(j + 1)));
    assert(!path.contains(mark)) by {
        if path.contains(mark) {
            let i = choose|i: int| 0 <= i < path.len() && path[i] == mark;
            assert(tail[i] == mark);
        }
    }
    (s.take(j), mark, rest)
}

proof fn lemma_mention_back(s: Seq<char>, i: int, x: Seq<char>) -> (j: int)
    requires
        0 <= i <= s.len(),
        mentions(s.skip(i), mark_behind(s.take(i))).contains(x),
    ensures
        i <= j < s.len(),
        mark_behind(s.take(j)) is None,
        s[j] == '"' || s[j] == '\'',
        begins(s.skip(j + 1), "../"@),
        j + 4 <= s.len(),
        x == before(s.skip(j + 4), s[j]),
    decreases s.len() - i,
{
    reveal_strlit("../");
    let now = s.skip(i);
    let open = mark_behind(s.take(i));
    let all = mentions(now, open);
    let k = choose|k: int| 0 <= k < all.len() && all[k] == x;
    assert(now.len() > 0);
    assert(s.take(i + 1).drop_last() =~= s.take(i));
    assert(s.take(i + 1).last() == s[i]);
    assert(now.skip(1) =~= s.skip(i + 1));
    assert(now[0] == s[i]);
    assert(mark_behind(s.take(i + 1)) == opened(open, now[0]));
    let rest = mentions(s.skip(i + 1), mark_behind(s.take(i + 1)));
    if all.len() > rest.len() && k == 0 {
        assert(now.skip(4) =~= s.skip(i + 4));
        i
    } else {
        if all.len() > rest.len() {
            assert(rest[k - 1] == x);
        } else {
            assert(rest[k] == x);
        }
        lemma_mention_back(s, i + 1, x)
    }
}

/// The paths that the lines of a manifest mention are those of its lines without
/// their comments, in order.
pub proof fn the_mentions_follow_the_lines(lines: Seq<Seq<char>>, line: Seq<char>)
    ensures
        mention_lines(Seq::empty()) == Seq::<Seq<char>>::empty(),
        mention_lines(lines.push(line)) == mention_lines(lines) + mentions(uncommented(line), None),
{
    assert(lines.push(line).drop_last() =~= lines);
    assert(lines.push(line).last() == line);
}

/// Where an inline table names a path, a path key stands there.
proof fn lemma_inline_back(s: Seq<char>, i: int) -> (j: int)
    requires
        0 <= i <= s.len(),
        inline_path(s.skip(i), mark_behind(s.take(i)), ready_behind(s.take(i))) is Some,
    ensures
        i <= j < s.len(),
        mark_behind(s.take(j)) is None,
        key_place(s.take(j)),
        path_value(s.skip(j)) is Some,
        upward(path_value(s.skip(j))->0) == inline_path(
            s.skip(i),
            mark_behind(s.take(i)),
            ready_behind(s.take(i)),
        ),
    decreases s.len() - i,
{
    let now = s.skip(i);
    let open = mark_behind(s.take(i));
    let ready = ready_behind(s.take(i));
    assert(now.len() > 0);
    assert(s.take(i + 1).drop_last() =~= s.take(i));
    assert(s.take(i + 1).last() == s[i]);
    assert(now.skip(1) =~= s.skip(i + 1));
    assert(now[0] == s[i]);
    if open is None && ready && path_value(now) is Some && upward(path_value(now)->0) is Some {
        lemma_ready_place(s.take(i));
        i
    } else {
        lemma_inline_back(s, i + 1)
    }
}

/// A path that a line names stands behind a path key: before the comment of the
/// line there is the key `path`, an equals sign, a quotation mark, `../` and the
/// path, up to the closing mark. The key stands at the start of the line, or right
/// behind a dot, a brace or a comma.
pub proof fn a_named_path_stands_behind_its_key(line: Seq<char>, path: Seq<char>) -> (r: (
    Seq<char>,
    (Seq<char>, Seq<char>, Seq<char>),
    Seq<char>,
))
    requires
        upward_in(line) == Some(path),
    ensures
        before(line, '#') == r.0 + upward_entry((r.1).0, (r.1).1, (r.1).2, path + r.2),
        path_key((r.1).0),
        blank((r.1).1),
        blank((r.1).2),
        blank(r.0) || key_place(r.0),
        !path.contains('"'),
        r.2.len() > 0 ==> r.2[0] == '"',
{
    let code = before(line, '#');
    let cut = find_bare(code, '=', None);
    lemma_bare_found(code, '=', None);
    let front = code.take(cut);
    let value = code.skip(cut + 1);
    reveal_strlit("=");
    assert(code =~= front + ("="@ + value));
    let key = trim(front);
    if key == "path"@ || ends(key, ".path"@) {
        let (x, rest) = lemma_upward_back(value, path);
        let (head, w) = lemma_key_back(front);
        lemma_rebracket(head, "path"@, w, "="@ + value);
        (head, ("path"@, w, x), rest)
    } else {
        assert(value.skip(0) =~= value);
        assert(value.take(0) =~= Seq::empty());
        let j = lemma_inline_back(value, 0);
        let s = value.skip(j);
        let (own, w, two) = lemma_path_value_back(s);
        let (x, rest) = lemma_upward_back(two, path);
        let head = (front + "="@) + value.take(j);
        assert(value =~= value.take(j) + s);
        assert(front + ("="@ + value) =~= (front + "="@) + value);
        assert((front + "="@) + (value.take(j) + s) =~= head + s);
        lemma_place_more(front + "="@, value.take(j));
        (head, (own, w, x), rest)
    }
}

proof fn lemma_rebracket(a: Seq<char>, b: Seq<char>, c: Seq<char>, d: Seq<char>)
    ensures
        ((a + b) + c) + d == a + (b + (c + d)),
{
    assert(((a + b) + c) + d =~= a + (b + (c + d)));
}

/// Where a line begins with a path key, alone or behind a dot, it stands there.
proof fn lemma_key_back(front: Seq<char>) -> (r: (Seq<char>, Seq<char>))
    requires
        trim(front) == "path"@ || ends(trim(front), ".path"@),
    ensures
        front == (r.0 + "path"@) + r.1,
        blank(r.0) || key_place(r.0),
        blank(r.1),
{
    let key = trim(front);
    let (a, w) = a_text_is_its_trimmed_text_with_white_space_around(front);
    if key == "path"@ {
        (a, w)
    } else {
        reveal_strlit(".path");
        reveal_strlit("path");
        let t = key.take(key.len() - 5);
        assert(key.skip(key.len() - 5) =~= ".path"@);
        assert(key =~= t + ".path"@);
        let head = (a + t).push('.');
        assert(".path"@ =~= seq!['.'] + "path"@);
        assert(a + key =~= head + "path"@);
        crate::text::white_space_is_what_unicode_says('.');
        assert(trim_end(head) == head);
        (head, w)
    }
}

proof fn lemma_path_value_back(s: Seq<char>) -> (r: (Seq<char>, Seq<char>, Seq<char>))
    requires
        path_value(s) is Some,
    ensures
        path_key(r.0),
        blank(r.1),
        path_value(s) == Some(r.2),
        s == r.0 + (r.1 + ("="@ + r.2)),
{
    let key = if begins(s, "path"@) {
        "path"@
    } else if begins(s, "\"path\""@) {
        "\"path\""@
    } else {
        "'path'"@
    };
    let one = after_prefix(s, key)->0;
    assert(s =~= key + one);
    let w = lemma_trim_start(one);
    let two = path_value(s)->0;
    assert(trim_start(one) =~= "="@ + two);
    (key, w, two)
}

proof fn lemma_upward_back(value: Seq<char>, path: Seq<char>) -> (r: (Seq<char>, Seq<char>))
    requires
        upward(value) == Some(path),
    ensures
        blank(r.0),
        value == r.0 + ("\"../"@ + (path + r.1)),
        !path.contains('"'),
        r.1.len() > 0 ==> r.1[0] == '"',
{
    let x = lemma_trim_start(value);
    let rest = after_prefix(trim_start(value), "\"../"@)->0;
    assert(trim_start(value) =~= "\"../"@ + rest);
    lemma_find(rest, '"');
    let more = rest.skip(find(rest, '"'));
    assert(rest =~= path + more);
    assert(!path.contains('"')) by {
        if path.contains('"') {
            let i = choose|i: int| 0 <= i < path.len() && path[i] == '"';
            assert(rest[i] == '"');
        }
    }
    (x, more)
}

proof fn lemma_place_more(a: Seq<char>, s: Seq<char>)
    requires
        key_place(s),
    ensures
        key_place(a + s),
    decreases s.len(),
{
    if s.len() > 0 && white(s.last()) {
        assert(trim_end(s) == trim_end(s.drop_last()));
        lemma_place_more(a, s.drop_last());
        assert((a + s).drop_last() =~= a + s.drop_last());
        assert((a + s).last() == s.last());
    } else {
        assert((a + s).last() == s.last());
        assert(trim_end(a + s) == a + s);
    }
}

/// The path of a line outside of the tables of targets counts, wherever the line
/// stands among the others; and where it is one plain segment it is a sibling.
pub proof fn a_path_outside_of_target_tables_counts(
    manifest: Option<Seq<char>>,
    i: int,
    path: Seq<char>,
)
    requires
        0 <= i < manifest_lines(manifest).len(),
        upward_in(manifest_lines(manifest)[i]) == Some(path),
        !in_target(manifest_lines(manifest).take(i)),
    ensures
        upward_lines(manifest_lines(manifest)).contains(path),
        sibling_name(path) ==> siblings(manifest).contains(path),
{
    let list = manifest_lines(manifest);
    lemma_line_taken(list, i);
    lemma_named(upward_lines(list), path);
    lemma_ordered(siblings_in(list));
}

proof fn lemma_line_taken(list: Seq<Seq<char>>, i: int)
    requires
        0 <= i < list.len(),
        upward_in(list[i]) is Some,
        !in_target(list.take(i)),
    ensures
        upward_lines(list).contains(upward_in(list[i])->0),
    decreases list.len(),
{
    let rest = list.drop_last();
    let path = upward_in(list[i])->0;
    if i < rest.len() {
        assert(rest.take(i) =~= list.take(i));
        lemma_line_taken(rest, i);
        if upward_in(list.last()) is Some {
            lemma_pushed(upward_lines(rest), upward_in(list.last())->0, path);
        }
    } else {
        assert(rest =~= list.take(i));
        lemma_pushed(upward_lines(rest), path, path);
    }
}

/// A dependency in an inline table is a sibling, whatever stands in the table
/// before its path: a line outside of the tables of targets with a key, an equals
/// sign, a brace, any text that leaves no quotation mark open, and then
/// `, path = "../`, the name and a quotation mark names it, as long as no earlier
/// path key of the table leads upward.
pub proof fn a_dependency_in_an_inline_table_is_a_sibling(
    manifest: Option<Seq<char>>,
    i: int,
    k: Seq<char>,
    a: Seq<char>,
    n: Seq<char>,
    b: Seq<char>,
)
    requires
        0 <= i < manifest_lines(manifest).len(),
        !in_target(manifest_lines(manifest).take(i)),
        manifest_lines(manifest)[i] == k + ("= "@ + ("{"@ + (a + (", path = \"../"@ + (n.push('"')
            + b))))),
        mark_behind(k) is None,
        only_quoted(k, '='),
        !k.contains('#'),
        trim(k) != "path"@,
        !ends(trim(k), ".path"@),
        mark_behind(a) is None,
        !a.contains('#'),
        none_leads_up(
            "{"@ + (a + (", path = \"../"@ + (n.push('"') + b))),
            a.len() as int + 2,
        ),
        n.len() > 0,
        !n.contains('/'),
        !n.contains('"'),
        !n.contains('#'),
        n != "."@,
        n != ".."@,
    ensures
        siblings(manifest).contains(n),
{
    let rest = n.push('"') + b;
    let table = "{"@ + (a + (", path = \"../"@ + rest));
    let w = " "@;
    let entry = ("path"@, w, w);
    reveal_strlit(" ");
    assert(white(' '));
    assert(blank(w));
    lemma_inline_spelled(a, rest);
    reveal_strlit("= ");
    reveal_strlit("=");
    assert("= "@ =~= "="@ + w);
    assert("= "@ + table =~= "="@ + (w + table));
    let front = a.push(',');
    assert(front.drop_last() =~= a);
    assert(front.last() == ',');
    assert(!front.contains('#')) by {
        if front.contains('#') {
            let j = choose|j: int| 0 <= j < front.len() && front[j] == '#';
            if j < a.len() {
                assert(a[j] == '#');
            }
        }
    }
    an_inline_table_names_its_sibling(k, w, front, w, entry, n, b);
    a_path_outside_of_target_tables_counts(manifest, i, n);
}

proof fn lemma_inline_spelled(a: Seq<char>, rest: Seq<char>)
    ensures
        "{"@ + (a + (", path = \"../"@ + rest)) == inline_table(
            a.push(','),
            " "@,
            "path"@,
            " "@,
            " "@,
            rest,
        ),
{
    reveal_strlit(" ");
    reveal_strlit("=");
    reveal_strlit("path");
    reveal_strlit("\"../");
    reveal_strlit(", path = \"../");
    let end = "\"../"@;
    let one = "path"@ + (" "@ + ("="@ + (" "@ + end)));
    let two = seq![','] + (" "@ + one);
    assert(", path = \"../"@ =~= two);
    let entry = upward_entry("path"@, " "@, " "@, rest);
    lemma_entry_end(rest);
    assert(two + rest =~= seq![','] + (" "@ + (one + rest)));
    assert(a + (seq![','] + (" "@ + entry)) =~= a.push(',') + (" "@ + entry));
}

proof fn lemma_entry_end(rest: Seq<char>)
    ensures
        ("path"@ + (" "@ + ("="@ + (" "@ + "\"../"@)))) + rest == upward_entry(
            "path"@,
            " "@,
            " "@,
            rest,
        ),
{
    let none = Seq::<char>::empty();
    let end = "\"../"@;
    lemma_entry_more(("path"@, " "@, " "@), none, rest);
    assert(none + rest =~= rest);
    assert(end + none =~= end);
}

} // verus!
