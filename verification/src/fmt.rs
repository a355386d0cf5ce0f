//! Formatting changes: which bytes are provably nothing but formatting.
use vstd::prelude::*;

use crate::action::groups;
use crate::text::{clone_bytes, opt_bytes, same_bytes, texts};

verus! {

/// The formatted blob, where the indexed blob exists, the formatter accepted
/// it, and the working copy already equals what the formatter made of it.
pub open spec fn pure_fmt(
    blob: Option<Seq<u8>>,
    formatted: Option<Seq<u8>>,
    worktree: Option<Seq<u8>>,
) -> Option<Seq<u8>> {
    if blob is Some && formatted is Some && worktree == formatted {
        formatted
    } else {
        None
    }
}

/// The validated pure-formatting bytes of a file: rustfmt of the indexed blob,
/// but only when the working copy already equals them.
pub fn pure_fmt_bytes(
    blob: &Option<Vec<u8>>,
    formatted: &Option<Vec<u8>>,
    worktree: &Option<Vec<u8>>,
) -> (r: Option<Vec<u8>>)
    ensures
        opt_bytes(r) == pure_fmt(opt_bytes(*blob), opt_bytes(*formatted), opt_bytes(*worktree)),
{
    match (blob, formatted, worktree) {
        (Some(_), Some(want), Some(found)) => {
            if same_bytes(found, want) {
                Some(clone_bytes(want))
            } else {
                None
            }
        },
        _ => None,
    }
}

/// True when the working copy is exactly rustfmt of the indexed blob, so that
/// the on-disk change is provably pure formatting.
#[must_use]
pub fn is_pure_fmt(
    blob: &Option<Vec<u8>>,
    formatted: &Option<Vec<u8>>,
    worktree: &Option<Vec<u8>>,
) -> (r: bool)
    ensures
        r == (pure_fmt(opt_bytes(*blob), opt_bytes(*formatted), opt_bytes(*worktree)) is Some),
{
    pure_fmt_bytes(blob, formatted, worktree).is_some()
}

/// The largest number of groups that the tree is formatted in at once.
pub const WORKERS: usize = 8;

/// The size of the groups that a number of files is formatted in.
pub open spec fn group_size(files: nat) -> nat {
    if files == 0 {
        1
    } else {
        ((files + WORKERS - 1) / WORKERS as int) as nat
    }
}

/// A list cut into groups of a size, the last of which may be smaller.
pub open spec fn cut(list: Seq<Seq<char>>, size: nat) -> Seq<Seq<Seq<char>>>
    decreases list.len(),
{
    if list.len() == 0 || size == 0 {
        Seq::empty()
    } else if list.len() <= size {
        seq![list]
    } else {
        seq![list.take(size as int)] + cut(list.skip(size as int), size)
    }
}

/// The groups that a tree's files are formatted in.
pub open spec fn tree_groups(list: Seq<Seq<char>>) -> Seq<Seq<Seq<char>>> {
    cut(list, group_size(list.len()))
}

/// Cuts the files of a tree into groups that are formatted side by side.
pub fn tree_groups_of(list: Vec<String>) -> (r: Vec<Vec<String>>)
    ensures
        groups(r@) == tree_groups(texts(list@)),
{
    let n: usize = list.len();
    let mut size: usize = 1;
    if n > 0 {
        size = (n - 1) / WORKERS + 1;
    }
    let ghost all = texts(list@);
    assert(size == group_size(all.len()));
    let mut rest = list;
    let mut r: Vec<Vec<String>> = Vec::new();
    assert(groups(r@) =~= Seq::empty());
    assert(groups(r@) + cut(texts(rest@), size as nat) =~= cut(all, size as nat));
    while rest.len() > 0
        invariant
            size > 0,
            cut(all, size as nat) == groups(r@) + cut(texts(rest@), size as nat),
        decreases rest@.len(),
    {
        let ghost before = r@;
        let ghost was = texts(rest@);
        if rest.len() <= size {
            let mut head: Vec<String> = Vec::new();
            head.append(&mut rest);
            r.push(head);
            assert(texts(head@) =~= was);
            assert(texts(rest@) =~= Seq::empty());
        } else {
            let tail = rest.split_off(size);
            let ghost front = rest@;
            r.push(rest);
            rest = tail;
            assert(texts(front) =~= was.take(size as int));
            assert(texts(rest@) =~= was.skip(size as int));
        }
        assert(groups(r@) =~= groups(before).push(texts(r@.last()@)));
        assert(groups(r@) + cut(texts(rest@), size as nat) =~= groups(before) + cut(
            was,
            size as nat,
        ));
    }
    assert(texts(rest@) =~= Seq::empty());
    assert(groups(r@) =~= cut(all, size as nat));
    r
}

/// Lists one after the other.
pub open spec fn strung(list: Seq<Seq<Seq<char>>>) -> Seq<Seq<char>>
    decreases list.len(),
{
    if list.len() == 0 {
        Seq::empty()
    } else {
        list[0] + strung(list.skip(1))
    }
}

proof fn lemma_cut(list: Seq<Seq<char>>, size: nat)
    requires
        size > 0,
    ensures
        strung(cut(list, size)) == list,
        cut(list, size).len() == (list.len() + size - 1) / size as int,
        forall|i: int|
            0 <= i < cut(list, size).len() ==> 0 < (#[trigger] cut(list, size)[i]).len() <= size,
    decreases list.len(),
{
    let groups = cut(list, size);
    if list.len() == 0 {
        assert(groups =~= Seq::empty());
        assert((size - 1) / size as int == 0) by (nonlinear_arith)
            requires
                size > 0,
        ;
    } else if list.len() <= size {
        assert(groups.skip(1) =~= Seq::empty());
        assert(strung(groups.skip(1)) =~= Seq::empty());
        assert(strung(groups) =~= list);
        let n = list.len() as int;
        assert((n + size - 1) / size as int == 1) by (nonlinear_arith)
            requires
                0 < n <= size,
        ;
    } else {
        let rest = list.skip(size as int);
        lemma_cut(rest, size);
        assert(groups.skip(1) =~= cut(rest, size));
        assert(strung(groups) =~= list.take(size as int) + rest);
        assert(list.take(size as int) + rest =~= list);
        let n = list.len() as int;
        assert((n + size - 1) / size as int == 1 + (n - size + size - 1) / size as int)
            by (nonlinear_arith)
            requires
                size > 0,
        ;
        assert forall|i: int| 0 <= i < groups.len() implies 0 < (#[trigger] groups[i]).len()
            <= size by {
            if i > 0 {
                assert(groups[i] == cut(rest, size)[i - 1]);
            }
        }
    }
}

/// Every file of the tree is formatted, in order and once, in at most as many
/// groups as there are workers.
pub proof fn the_groups_are_the_tree(list: Seq<Seq<char>>)
    ensures
        strung(tree_groups(list)) == list,
        tree_groups(list).len() <= WORKERS,
{
    let n = list.len() as int;
    let size = group_size(list.len());
    assert(size > 0);
    lemma_cut(list, size);
    if n > 0 {
        assert(8 * size >= n);
        assert((n + size - 1) / size as int <= 8) by (nonlinear_arith)
            requires
                8 * size >= n,
                size > 0,
        ;
    } else {
        assert(tree_groups(list) =~= Seq::empty());
    }
}

/// Bytes are a pure formatting change exactly where there is a blob, the
/// formatter made the bytes of it, and the working copy is just these bytes.
pub proof fn a_pure_change_is_the_formatted_blob(
    blob: Option<Seq<u8>>,
    formatted: Option<Seq<u8>>,
    worktree: Option<Seq<u8>>,
    bytes: Seq<u8>,
)
    ensures
        pure_fmt(blob, formatted, worktree) == Some(bytes) <==> blob is Some && formatted == Some(
            bytes,
        ) && worktree == Some(bytes),
{
}

/// The files are shared out evenly: in at most eight groups, each of which but
/// the last has an eighth of the files, rounded up.
pub proof fn the_files_are_shared_out_evenly(list: Seq<Seq<char>>)
    ensures
        tree_groups(list).len() <= 8,
        forall|i: int|
            0 <= i < tree_groups(list).len() - 1 ==> (#[trigger] tree_groups(list)[i]).len() == (
            list.len() + 7) / 8,
        forall|i: int| 0 <= i < tree_groups(list).len() ==> (#[trigger] tree_groups(list)[i]).len()
            > 0,
{
    the_groups_are_the_tree(list);
    let size = group_size(list.len());
    lemma_cut(list, size);
    lemma_cut_even(list, size);
}

proof fn lemma_cut_even(list: Seq<Seq<char>>, size: nat)
    requires
        size > 0,
    ensures
        forall|i: int|
            0 <= i < cut(list, size).len() - 1 ==> (#[trigger] cut(list, size)[i]).len() == size,
    decreases list.len(),
{
    if list.len() > size {
        let rest = list.skip(size as int);
        lemma_cut_even(rest, size);
        let all = cut(list, size);
        assert forall|i: int| 0 <= i < all.len() - 1 implies (#[trigger] all[i]).len() == size by {
            if i > 0 {
                assert(all[i] == cut(rest, size)[i - 1]);
            }
        }
    }
}

} // verus!
