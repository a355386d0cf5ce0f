//! What git's answers mean.
use vstd::prelude::*;

use crate::list::{a_field_ends_at_its_separator, the_first_word_stands_between_white_space};
use crate::list::{fields, fields_of, first_word, first_word_of, lemma_fields};
use crate::text::{blank, decode_lossy, lossy, opt_bytes, texts, white};

verus! {

/// The paths in a NUL-separated list, where git printed one.
pub open spec fn path_list(output: Option<Seq<u8>>) -> Option<Seq<Seq<char>>> {
    match output {
        Some(bytes) => Some(fields(lossy(bytes), '\0')),
        None => None,
    }
}

/// The texts of an optional list.
pub open spec fn opt_texts(list: Option<Vec<String>>) -> Option<Seq<Seq<char>>> {
    match list {
        Some(list) => Some(texts(list@)),
        None => None,
    }
}

/// The paths in a NUL-separated list from git; `None` if git itself failed.
pub fn git_paths(output: &Option<Vec<u8>>) -> (r: Option<Vec<String>>)
    ensures
        opt_texts(r) == path_list(opt_bytes(*output)),
{
    match output {
        Some(bytes) => {
            let text = decode_lossy(bytes);
            Some(fields_of(text.as_str(), '\0'))
        },
        None => None,
    }
}

/// The paths in a list from git; none where git failed.
pub open spec fn paths_or_none(output: Option<Seq<u8>>) -> Seq<Seq<char>> {
    match path_list(output) {
        Some(paths) => paths,
        None => Seq::empty(),
    }
}

/// The paths in a list from git; none where git failed.
pub fn git_paths_or_none(output: &Option<Vec<u8>>) -> (r: Vec<String>)
    ensures
        texts(r@) == paths_or_none(opt_bytes(*output)),
{
    match git_paths(output) {
        Some(paths) => paths,
        None => {
            let r: Vec<String> = Vec::new();
            assert(texts(r@) =~= Seq::empty());
            r
        },
    }
}

/// No path of a list is empty, and none holds a NUL.
pub proof fn a_listed_path_is_a_name(output: Option<Seq<u8>>, i: int)
    requires
        0 <= i < paths_or_none(output).len(),
    ensures
        paths_or_none(output)[i].len() > 0,
        !paths_or_none(output)[i].contains('\0'),
{
    lemma_fields(lossy(output->0), '\0');
}

/// The mode in an index entry as git lists it: its first word, or that of a
/// plain file where there is no entry.
pub open spec fn entry_mode(listing: Option<Seq<u8>>) -> Seq<char> {
    match listing {
        Some(bytes) => if first_word(lossy(bytes)).len() > 0 {
            first_word(lossy(bytes))
        } else {
            "100644"@
        },
        None => "100644"@,
    }
}

/// The mode of a path's index entry, from how git lists the entry.
pub fn index_mode(listing: &Option<Vec<u8>>) -> (mode: String)
    ensures
        mode@ == entry_mode(opt_bytes(*listing)),
{
    match listing {
        Some(bytes) => {
            let text = decode_lossy(bytes);
            let mode = first_word_of(text.as_str());
            if mode.as_str().is_empty() {
                "100644".to_owned()
            } else {
                mode
            }
        },
        None => "100644".to_owned(),
    }
}

/// Names, each with a NUL behind it.
pub open spec fn nul_terminated(names: Seq<Seq<char>>) -> Seq<char>
    decreases names.len(),
{
    if names.len() == 0 {
        Seq::empty()
    } else {
        names[0].push('\0') + nul_terminated(names.skip(1))
    }
}

/// Reading a list undoes printing it: names without a NUL, each printed with a
/// NUL behind it, are read as they were, all of them and in order.
pub proof fn a_printed_list_is_read_back(bytes: Seq<u8>, names: Seq<Seq<char>>)
    requires
        lossy(bytes) == nul_terminated(names),
        forall|i: int|
            0 <= i < names.len() ==> (#[trigger] names[i]).len() > 0 && !names[i].contains('\0'),
    ensures
        path_list(Some(bytes)) == Some(names),
        paths_or_none(Some(bytes)) == names,
        path_list(None) is None,
        paths_or_none(None) == Seq::<Seq<char>>::empty(),
{
    lemma_terminated(names);
}

proof fn lemma_terminated(names: Seq<Seq<char>>)
    requires
        forall|i: int|
            0 <= i < names.len() ==> (#[trigger] names[i]).len() > 0 && !names[i].contains('\0'),
    ensures
        fields(nul_terminated(names), '\0') == names,
    decreases names.len(),
{
    if names.len() == 0 {
        a_field_ends_at_its_separator(Seq::empty(), '\0', Seq::empty());
        assert(names =~= Seq::empty());
    } else {
        let rest = names.skip(1);
        assert forall|i: int| 0 <= i < rest.len() implies (#[trigger] rest[i]).len() > 0
            && !rest[i].contains('\0') by {
            assert(rest[i] == names[i + 1]);
        }
        lemma_terminated(rest);
        assert(!names[0].contains('\0'));
        a_field_ends_at_its_separator(names[0], '\0', nul_terminated(rest));
        assert(seq![names[0]] + rest =~= names);
    }
}

/// The mode of an entry is what its listing begins with, up to the first white
/// space; a path without an entry gets the mode of a plain file.
pub proof fn a_listing_begins_with_the_mode(
    bytes: Seq<u8>,
    w: Seq<char>,
    mode: Seq<char>,
    rest: Seq<char>,
)
    requires
        lossy(bytes) == w + mode + rest,
        blank(w),
        forall|i: int| 0 <= i < mode.len() ==> !white(#[trigger] mode[i]),
        rest.len() > 0 ==> white(rest[0]),
        mode.len() == 0 ==> rest.len() == 0,
    ensures
        mode.len() > 0 ==> entry_mode(Some(bytes)) == mode,
        mode.len() == 0 ==> entry_mode(Some(bytes)) == "100644"@,
        entry_mode(None) == "100644"@,
{
    the_first_word_stands_between_white_space(w, mode, rest);
}

} // verus!
