//! Slash-separated paths as texts: their steps, and paths relative to a
//! directory.
use vstd::prelude::*;

use crate::list::{join, joined};
use crate::text::a_prefix_is_followed_by_the_rest;
use crate::text::{
    begins, begins_with, chars_of, contains, find, find_in, lemma_find, opt_text, same, string_of,
    texts,
};

verus! {

/// A path from the root of the file system.
pub open spec fn absolute(p: Seq<char>) -> bool {
    p.len() > 0 && p[0] == '/'
}

/// Whether a text starts with a `.` segment.
pub open spec fn dot_first(t: Seq<char>) -> bool {
    t.len() > 0 && t[0] == '.' && (t.len() == 1 || t[1] == '/')
}

/// Whether a text ends with a `.` segment.
pub open spec fn dot_last(t: Seq<char>) -> bool {
    t.len() > 0 && t.last() == '.' && (t.len() == 1 || t[t.len() - 2] == '/')
}

/// A text without the slashes and `.` segments that it starts with.
pub open spec fn clear_start(t: Seq<char>) -> Seq<char>
    decreases t.len(),
{
    if (t.len() > 0 && t[0] == '/') || dot_first(t) {
        clear_start(t.skip(1))
    } else {
        t
    }
}

/// A text without the slashes and `.` segments that it ends with.
pub open spec fn clear_end(t: Seq<char>) -> Seq<char>
    decreases t.len(),
{
    if (t.len() > 0 && t.last() == '/') || dot_last(t) {
        clear_end(t.drop_last())
    } else {
        t
    }
}

/// Clearing the start leaves a suffix that does not start with a slash.
pub proof fn lemma_clear_start(t: Seq<char>)
    ensures
        clear_start(t).len() <= t.len(),
        clear_start(t) == t.skip(t.len() - clear_start(t).len()),
        clear_start(t).len() > 0 ==> clear_start(t)[0] != '/',
        !dot_first(clear_start(t)),
    decreases t.len(),
{
    if (t.len() > 0 && t[0] == '/') || dot_first(t) {
        lemma_clear_start(t.skip(1));
        assert(t.skip(1).skip(t.skip(1).len() - clear_start(t).len()) =~= t.skip(
            t.len() - clear_start(t).len(),
        ));
    } else {
        assert(t.skip(0) =~= t);
    }
}

/// The segments of a text between slashes, without empty and `.` segments.
pub open spec fn segments(t: Seq<char>) -> Seq<Seq<char>>
    decreases t.len(),
{
    let u = clear_start(t);
    if u.len() == 0 {
        Seq::empty()
    } else {
        proof {
            lemma_clear_start(t);
            lemma_find(u, '/');
        }
        seq![u.take(find(u, '/'))] + segments(u.skip(find(u, '/')))
    }
}

/// The length of what stands before the segments: a slash for an absolute
/// path, a `.` for a relative path that starts with one.
pub open spec fn lead(p: Seq<char>) -> int {
    if absolute(p) || dot_first(p) {
        1
    } else {
        0
    }
}

/// Segments with each `..` taken back together with the segment before it. A
/// `..` at the root of the file system stays there; one at the start of a
/// relative path is kept.
pub open spec fn folded(list: Seq<Seq<char>>, rooted: bool) -> Seq<Seq<char>>
    decreases list.len(),
{
    if list.len() == 0 {
        Seq::empty()
    } else {
        let rest = folded(list.drop_last(), rooted);
        if list.last() != ".."@ {
            rest.push(list.last())
        } else if rest.len() > 0 && rest.last() != ".."@ {
            rest.drop_last()
        } else if rooted {
            rest
        } else {
            rest.push(list.last())
        }
    }
}

/// The steps that a path takes, one after the other.
pub open spec fn steps(p: Seq<char>) -> Seq<Seq<char>> {
    folded(segments(p), absolute(p))
}

/// What is left of a path inside a directory, where the directory's steps are
/// the first of the path's.
pub open spec fn inside(p: Seq<char>, dir: Seq<char>) -> Option<Seq<char>> {
    let all = steps(p);
    let head = steps(dir);
    if absolute(p) == absolute(dir) && head.len() <= all.len() && all.take(head.len() as int)
        == head && !all.skip(head.len() as int).contains(".."@) {
        Some(joined(all.skip(head.len() as int), "/"@))
    } else {
        None
    }
}

/// What is left of a text behind its first segments.
pub open spec fn behind(t: Seq<char>, n: nat) -> Seq<char>
    decreases n,
{
    if n == 0 {
        t
    } else {
        let u = clear_start(t);
        behind(u.skip(find(u, '/')), (n - 1) as nat)
    }
}

/// The components of a path: what stands before its segments, and these.
pub open spec fn components(p: Seq<char>) -> Seq<Seq<char>> {
    if lead(p) == 1 {
        seq![p.take(1)] + segments(p.skip(1))
    } else {
        segments(p)
    }
}

/// What is left of a path below a directory, as it is written, where the
/// directory's components are the first of the path's.
pub open spec fn below(p: Seq<char>, dir: Seq<char>) -> Option<Seq<char>> {
    let all = components(p);
    let head = components(dir);
    let body = p.skip(lead(p));
    if head.len() > all.len() || all.take(head.len() as int) != head {
        None
    } else if head.len() == 0 {
        Some(p.take(lead(p)) + clear_end(body))
    } else {
        Some(clear_end(clear_start(behind(body, (head.len() - lead(p)) as nat))))
    }
}

/// A path that never goes up.
pub open spec fn descending(p: Seq<char>) -> bool {
    !segments(p).contains(".."@)
}

/// A path taken relative to a directory: an absolute path stays as it is.
pub open spec fn resolved(dir: Seq<char>, file: Seq<char>) -> Seq<char> {
    if absolute(file) {
        file
    } else if dir.len() > 0 && dir.last() != '/' {
        dir.push('/') + file
    } else {
        dir + file
    }
}

/// The part of a text that `clear_start` leaves.
fn clear_start_of(s: &[char]) -> (r: &[char])
    ensures
        r@ == clear_start(s@),
{
    let mut i: usize = 0;
    assert(s@.skip(0) =~= s@);
    while i < s.len() && (s[i] == '/' || (s[i] == '.' && (i + 1 == s.len() || s[i + 1] == '/')))
        invariant
            i <= s@.len(),
            clear_start(s@) == clear_start(s@.skip(i as int)),
        decreases s@.len() - i,
    {
        i = i + 1;
        assert(s@.skip(i - 1).skip(1) =~= s@.skip(i as int));
    }
    assert(s@.subrange(i as int, s@.len() as int) =~= s@.skip(i as int));
    vstd::slice::slice_subrange(s, i, s.len())
}

/// The part of a text that `clear_end` leaves.
fn clear_end_of(s: &[char]) -> (r: &[char])
    ensures
        r@ == clear_end(s@),
{
    let mut n: usize = s.len();
    assert(s@.take(n as int) =~= s@);
    while n > 0 && (s[n - 1] == '/' || (s[n - 1] == '.' && (n == 1 || s[n - 2] == '/')))
        invariant
            n <= s@.len(),
            clear_end(s@) == clear_end(s@.take(n as int)),
        decreases n,
    {
        n = n - 1;
        assert(s@.take(n + 1).drop_last() =~= s@.take(n as int));
    }
    assert(s@.subrange(0, n as int) =~= s@.take(n as int));
    vstd::slice::slice_subrange(s, 0, n)
}

/// The text from an offset on.
fn from_of(s: &[char], i: usize) -> (r: &[char])
    requires
        i <= s@.len(),
    ensures
        r@ == s@.skip(i as int),
{
    assert(s@.subrange(i as int, s@.len() as int) =~= s@.skip(i as int));
    vstd::slice::slice_subrange(s, i, s.len())
}

/// The text up to an offset.
fn upto_of(s: &[char], i: usize) -> (r: &[char])
    requires
        i <= s@.len(),
    ensures
        r@ == s@.take(i as int),
{
    assert(s@.subrange(0, i as int) =~= s@.take(i as int));
    vstd::slice::slice_subrange(s, 0, i)
}

fn lead_of(p: &[char]) -> (n: usize)
    ensures
        n == lead(p@),
        n <= p@.len(),
{
    if p.len() > 0 && (p[0] == '/' || (p[0] == '.' && (p.len() == 1 || p[1] == '/'))) {
        1
    } else {
        0
    }
}

/// The segments of a text.
pub fn segments_of(s: &[char]) -> (out: Vec<String>)
    ensures
        texts(out@) == segments(s@),
{
    let mut out: Vec<String> = Vec::new();
    let mut t = s;
    assert(segments(s@) =~= texts(out@) + segments(t@));
    loop
        invariant
            segments(s@) == texts(out@) + segments(t@),
        ensures
            segments(s@) == texts(out@),
        decreases t@.len(),
    {
        let ghost was = t@;
        proof {
            lemma_clear_start(was);
            lemma_find(clear_start(was), '/');
        }
        let u = clear_start_of(t);
        if u.len() == 0 {
            assert(segments(s@) =~= texts(out@));
            break;
        }
        let n = find_in(u, '/');
        let ghost before = out@;
        out.push(string_of(upto_of(u, n)));
        t = from_of(u, n);
        assert(texts(out@) =~= texts(before).push(u@.take(n as int)));
        assert(texts(out@) + segments(t@) =~= texts(before) + segments(was));
    }
    out
}

/// Takes each `..` of a list back together with the segment before it.
pub fn fold_of(list: &Vec<String>, rooted: bool) -> (r: Vec<String>)
    ensures
        texts(r@) == folded(texts(list@), rooted),
{
    let ghost all = texts(list@);
    let mut r: Vec<String> = Vec::new();
    let mut i: usize = 0;
    assert(all.take(0) =~= Seq::empty());
    assert(texts(r@) =~= Seq::empty());
    while i < list.len()
        invariant
            i <= list@.len(),
            all == texts(list@),
            texts(r@) == folded(all.take(i as int), rooted),
        decreases list@.len() - i,
    {
        let ghost before = r@;
        assert(all.take(i + 1).drop_last() =~= all.take(i as int));
        assert(all.take(i + 1).last() == list@[i as int]@);
        let up = same(list[i].as_str(), "..");
        if up && r.len() > 0 && !same(r[r.len() - 1].as_str(), "..") {
            r.pop();
            assert(texts(r@) =~= texts(before).drop_last());
        } else if !up || !rooted {
            r.push(list[i].clone());
            assert(texts(r@) =~= texts(before).push(list@[i as int]@));
        }
        i = i + 1;
    }
    assert(all.take(i as int) =~= all);
    r
}

/// The steps that a path takes.
pub fn steps_of(path: &str) -> (r: Vec<String>)
    ensures
        texts(r@) == steps(path@),
{
    let p = chars_of(path);
    let rooted = p.len() > 0 && p[0] == '/';
    fold_of(&segments_of(p.as_slice()), rooted)
}

/// What is left of a text behind its first segments.
fn behind_of(s: &[char], n: usize) -> (r: &[char])
    ensures
        r@ == behind(s@, n as nat),
{
    let mut t = s;
    let mut k: usize = n;
    while k > 0
        invariant
            behind(s@, n as nat) == behind(t@, k as nat),
        decreases k,
    {
        let u = clear_start_of(t);
        let cut = find_in(u, '/');
        t = from_of(u, cut);
        k = k - 1;
    }
    t
}

/// The components of a path.
fn components_of(p: &[char]) -> (out: Vec<String>)
    ensures
        texts(out@) == components(p@),
{
    let n = lead_of(p);
    if n == 0 {
        return segments_of(p);
    }
    let mut out: Vec<String> = Vec::new();
    out.push(string_of(upto_of(p, 1)));
    assert(texts(out@) =~= seq![p@.take(1)]);
    let ghost first = out@;
    let mut rest = segments_of(from_of(p, 1));
    let ghost more = rest@;
    out.append(&mut rest);
    assert(texts(out@) =~= texts(first) + texts(more));
    out
}

/// The remainder of a path below a directory, as it is written.
pub fn below_of(path: &str, dir: &str) -> (r: Option<String>)
    ensures
        opt_text(r) == below(path@, dir@),
{
    let p = chars_of(path);
    let d = chars_of(dir);
    let all = components_of(p.as_slice());
    let head = components_of(d.as_slice());
    assert(texts(head@).len() == head@.len() && texts(all@).len() == all@.len());
    if !starts_list(&all, &head) {
        return None;
    }
    let n = lead_of(p.as_slice());
    let body = from_of(p.as_slice(), n);
    if head.len() == 0 {
        let mut r = string_of(upto_of(p.as_slice(), n));
        let tail = string_of(clear_end_of(body));
        r.append(tail.as_str());
        Some(r)
    } else {
        let rest = behind_of(body, head.len() - n);
        Some(string_of(clear_end_of(clear_start_of(rest))))
    }
}

/// Whether one list starts with another.
fn starts_list(all: &Vec<String>, head: &Vec<String>) -> (r: bool)
    ensures
        r == (head@.len() <= all@.len() && texts(all@).take(head@.len() as int) == texts(head@)),
{
    if head.len() > all.len() {
        return false;
    }
    let mut i: usize = 0;
    while i < head.len()
        invariant
            i <= head@.len() <= all@.len(),
            forall|j: int| 0 <= j < i ==> texts(all@)[j] == #[trigger] texts(head@)[j],
        decreases head@.len() - i,
    {
        if !same(all[i].as_str(), head[i].as_str()) {
            assert(texts(all@).take(head@.len() as int)[i as int] != texts(head@)[i as int]);
            return false;
        }
        i = i + 1;
    }
    assert(texts(all@).take(head@.len() as int) =~= texts(head@));
    true
}

/// The remainder of a path inside a directory.
pub fn inside_of(path: &str, dir: &str) -> (r: Option<String>)
    ensures
        opt_text(r) == inside(path@, dir@),
{
    let p = chars_of(path);
    let d = chars_of(dir);
    if (p.len() > 0 && p[0] == '/') != (d.len() > 0 && d[0] == '/') {
        return None;
    }
    let mut all = steps_of(path);
    let head = steps_of(dir);
    let ghost whole = texts(all@);
    assert(texts(head@).len() == head@.len() && whole.len() == all@.len());
    if !starts_list(&all, &head) {
        return None;
    }
    let rest = all.split_off(head.len());
    assert(texts(rest@) =~= whole.skip(head@.len() as int));
    if contains(&rest, "..") {
        None
    } else {
        Some(join(&rest, "/"))
    }
}

/// Takes a path relative to a directory.
pub fn resolve(dir: &str, file: &str) -> (r: String)
    ensures
        r@ == resolved(dir@, file@),
{
    let f = chars_of(file);
    if f.len() > 0 && f[0] == '/' {
        return file.to_owned();
    }
    let d = chars_of(dir);
    let mut r = dir.to_owned();
    if d.len() > 0 && d[d.len() - 1] != '/' {
        r.push('/');
    }
    r.append(file);
    r
}

/// Where a diagnostic's file lies in the repository, if it does: what is left of
/// its path below the repository, as it is written. Where one of the two paths
/// goes up, it is what is left of the steps that the path takes.
pub open spec fn repo_path(file: Seq<char>, repo_root: Seq<char>, ws_root: Seq<char>) -> Option<
    Seq<char>,
> {
    let path = resolved(ws_root, file);
    if descending(path) && descending(repo_root) {
        below(path, repo_root)
    } else {
        inside(path, repo_root)
    }
}

/// Diagnostic paths arrive relative to the cargo workspace root (or absolute),
/// not the git repository: for a repository that is a member of an enclosing
/// workspace those differ. Resolves to repository-relative; `None` for files
/// outside this repository (such as sibling path-dependency diagnostics).
pub fn repo_rel(file: &str, repo_root: &str, ws_root: &str) -> (r: Option<String>)
    ensures
        opt_text(r) == repo_path(file@, repo_root@, ws_root@),
{
    let path = resolve(ws_root, file);
    let p = chars_of(path.as_str());
    let root = chars_of(repo_root);
    if contains(&segments_of(p.as_slice()), "..") || contains(&segments_of(root.as_slice()), "..") {
        inside_of(path.as_str(), repo_root)
    } else {
        below_of(path.as_str(), repo_root)
    }
}

/// A relative path without empty segments, `.` segments or a slash at an end.
pub open spec fn clean(t: Seq<char>) -> bool {
    &&& t.len() > 0
    &&& t[0] != '/'
    &&& !dot_first(t)
    &&& forall|i: int|
        0 <= i < t.len() && #[trigger] t[i] == '/' ==> i + 1 < t.len() && t[i + 1] != '/'
            && !dot_first(t.skip(i + 1))
}

proof fn lemma_clear_join(a: Seq<char>, b: Seq<char>)
    ensures
        clear_start(a).len() == 0 ==> clear_start(a.push('/') + b) == clear_start(b),
        clear_start(a).len() > 0 ==> clear_start(a.push('/') + b) == clear_start(a).push('/') + b,
    decreases a.len(),
{
    let t = a.push('/') + b;
    if a.len() == 0 {
        assert(t.skip(1) =~= b);
        assert(t[0] == '/');
    } else {
        let q = a.skip(1);
        assert(t[0] == a[0]);
        assert(t[1] == (if a.len() == 1 { '/' } else { a[1] }));
        assert(t.skip(1) =~= q.push('/') + b);
        lemma_clear_join(q, b);
    }
}

/// Where the first segment ends in a text that has another behind a slash.
proof fn lemma_first_end(u: Seq<char>, b: Seq<char>)
    ensures
        ({
            let v = u.push('/') + b;
            let n = find(u, '/');
            &&& 0 <= n <= u.len()
            &&& find(v, '/') == n
            &&& v.take(n) == u.take(n)
            &&& n < u.len() ==> v.skip(n) == u.skip(n).push('/') + b
            &&& n == u.len() ==> clear_start(v.skip(n)) == clear_start(b)
        }),
{
    let v = u.push('/') + b;
    let n = find(u, '/');
    lemma_find(u, '/');
    lemma_find(v, '/');
    assert forall|j: int| 0 <= j < n implies v[j] != '/' by {
        assert(v[j] == u[j]);
    }
    assert(v[n] == '/');
    assert(v.take(n) =~= u.take(n));
    if n < u.len() {
        assert(v.skip(n) =~= u.skip(n).push('/') + b);
    } else {
        assert(v.skip(n).skip(1) =~= b);
        assert(v.skip(n)[0] == '/');
    }
}

/// The segments of a text depend on what follows its leading slashes alone.
proof fn lemma_segments_clear(s: Seq<char>, t: Seq<char>)
    requires
        clear_start(s) == clear_start(t),
    ensures
        segments(s) == segments(t),
{
}

/// The segments of two texts with a slash between them are those of the one and
/// then those of the other.
#[verifier::spinoff_prover]
proof fn lemma_segments_join(a: Seq<char>, b: Seq<char>)
    ensures
        segments(a.push('/') + b) == segments(a) + segments(b),
    decreases a.len(),
{
    let t = a.push('/') + b;
    let u = clear_start(a);
    lemma_clear_join(a, b);
    lemma_clear_start(a);
    if u.len() == 0 {
        assert(segments(a) =~= Seq::empty());
        lemma_segments_clear(t, b);
        assert(segments(a) + segments(b) =~= segments(b));
    } else {
        let v = u.push('/') + b;
        let n = find(u, '/');
        let q = u.skip(n);
        lemma_first_end(u, b);
        lemma_find(u, '/');
        assert(n > 0);
        assert(segments(a) == seq![u.take(n)] + segments(q));
        assert(segments(t) == seq![u.take(n)] + segments(v.skip(n)));
        if n < u.len() {
            lemma_segments_join(q, b);
        } else {
            assert(q =~= Seq::empty());
            lemma_segments_clear(v.skip(n), b);
            assert(segments(q) =~= Seq::empty());
            assert(segments(q) + segments(b) =~= segments(b));
        }
        assert(seq![u.take(n)] + (segments(q) + segments(b)) =~= (seq![u.take(n)] + segments(q))
            + segments(b));
    }
}

/// The segments of a path taken relative to a directory.
proof fn lemma_resolved_segments(dir: Seq<char>, file: Seq<char>)
    requires
        !absolute(file),
    ensures
        segments(resolved(dir, file)) == segments(dir) + segments(file),
        dir.len() > 0 ==> absolute(resolved(dir, file)) == absolute(dir),
{
    if dir.len() == 0 {
        assert(dir + file =~= file);
        assert(segments(dir) =~= Seq::empty());
        assert(segments(dir) + segments(file) =~= segments(file));
    } else if dir.last() != '/' {
        lemma_segments_join(dir, file);
    } else {
        let a = dir.drop_last();
        assert(dir =~= a.push('/') + Seq::empty());
        assert(dir + file =~= a.push('/') + file);
        lemma_segments_join(a, Seq::empty());
        lemma_segments_join(a, file);
        assert(segments(Seq::<char>::empty()) =~= Seq::empty());
        assert(segments(a) + segments(Seq::<char>::empty()) =~= segments(a));
    }
}

/// Segments that never go up are folded one by one.
proof fn lemma_folded_down(a: Seq<Seq<char>>, b: Seq<Seq<char>>, rooted: bool)
    requires
        !b.contains(".."@),
    ensures
        folded(a + b, rooted) == folded(a, rooted) + b,
    decreases b.len(),
{
    if b.len() == 0 {
        assert(a + b =~= a);
        assert(folded(a, rooted) + b =~= folded(a, rooted));
    } else {
        let rest = b.drop_last();
        assert forall|i: int| 0 <= i < rest.len() implies rest[i] != ".."@ by {
            assert(rest[i] == b[i]);
        }
        lemma_folded_down(a, rest, rooted);
        assert(b[b.len() - 1] != ".."@);
        assert((a + b).drop_last() =~= a + rest);
        assert(folded(a, rooted) + b =~= (folded(a, rooted) + rest).push(b.last()));
    }
}

/// A clean path is its segments with a slash between each two.
proof fn lemma_clean(t: Seq<char>)
    requires
        clean(t),
    ensures
        segments(t).len() > 0,
        joined(segments(t), "/"@) == t,
    decreases t.len(),
{
    reveal_strlit("/");
    let n = find(t, '/');
    lemma_find(t, '/');
    assert(clear_start(t) == t);
    assert(segments(t) == seq![t.take(n)] + segments(t.skip(n)));
    if n == t.len() {
        assert(t.skip(n) =~= Seq::empty());
        assert(segments(t.skip(n)) =~= Seq::empty());
        assert(t.take(n) =~= t);
        assert(segments(t) =~= seq![t]);
    } else {
        let q = t.skip(n + 1);
        assert(t.skip(n).skip(1) =~= q);
        assert(clear_start(t.skip(n)) == clear_start(q));
        assert(q[0] == t[n + 1]);
        assert forall|i: int| 0 <= i < q.len() && #[trigger] q[i] == '/' implies i + 1 < q.len()
            && q[i + 1] != '/' && !dot_first(q.skip(i + 1)) by {
            assert(t[i + n + 1] == '/');
            assert(q.skip(i + 1) =~= t.skip(i + n + 2));
        }
        lemma_clean(q);
        assert(segments(t.skip(n)) == segments(q));
        lemma_joined_first(t.take(n), segments(q));
        assert(t.take(n) + "/"@ + q =~= t);
    }
}

proof fn lemma_joined_first(first: Seq<char>, rest: Seq<Seq<char>>)
    requires
        rest.len() > 0,
    ensures
        joined(seq![first] + rest, "/"@) == first + "/"@ + joined(rest, "/"@),
    decreases rest.len(),
{
    let all = seq![first] + rest;
    if rest.len() == 1 {
        assert(all.drop_last() =~= seq![first]);
        assert(joined(seq![first], "/"@) == first);
        assert(all.last() == rest[0]);
    } else {
        lemma_joined_first(first, rest.drop_last());
        assert(all.drop_last() =~= seq![first] + rest.drop_last());
        assert(joined(all, "/"@) =~= first + "/"@ + joined(rest, "/"@));
    }
}

/// A path below a directory that is itself reached in any way lies inside it.
proof fn lemma_inside(p: Seq<char>, dir: Seq<char>, file: Seq<char>)
    requires
        absolute(dir),
        absolute(p),
        segments(p) == segments(dir) + segments(file),
        descending(file),
    ensures
        inside(p, dir) == Some(joined(segments(file), "/"@)),
{
    lemma_folded_down(segments(dir), segments(file), true);
    let head = steps(dir);
    assert(steps(p) == head + segments(file));
    assert(steps(p).take(head.len() as int) =~= head);
    assert(steps(p).skip(head.len() as int) =~= segments(file));
}

/// Behind the segments of a directory stands what was taken relative to it.
proof fn lemma_behind(a: Seq<char>, file: Seq<char>)
    ensures
        clear_start(behind(a.push('/') + file, segments(a).len())) == clear_start(file),
    decreases a.len(),
{
    let t = a.push('/') + file;
    let u = clear_start(a);
    lemma_clear_join(a, file);
    lemma_clear_start(a);
    if u.len() > 0 {
        let v = u.push('/') + file;
        let n = find(u, '/');
        let q = u.skip(n);
        lemma_first_end(u, file);
        lemma_find(u, '/');
        assert(n > 0);
        assert(segments(a) == seq![u.take(n)] + segments(q));
        assert(segments(a).len() == 1 + segments(q).len());
        assert(behind(t, segments(a).len()) == behind(v.skip(n), segments(q).len()));
        if n < u.len() {
            lemma_behind(q, file);
        } else {
            assert(q =~= Seq::empty());
            assert(segments(q) =~= Seq::empty());
        }
    }
}

/// The components of an absolute path are the root and its segments.
proof fn lemma_absolute(p: Seq<char>)
    requires
        absolute(p),
    ensures
        components(p) == seq![seq!['/']] + segments(p),
{
    assert(clear_start(p) == clear_start(p.skip(1)));
    assert(segments(p) == segments(p.skip(1)));
    assert(p.take(1) =~= seq!['/']);
}

/// A path below a directory is what was taken relative to it.
proof fn lemma_below(dir: Seq<char>, file: Seq<char>)
    requires
        absolute(dir),
        !absolute(file),
    ensures
        below(resolved(dir, file), dir) == Some(clear_end(clear_start(file))),
{
    let p = resolved(dir, file);
    let n = segments(dir).len();
    lemma_resolved_segments(dir, file);
    lemma_absolute(p);
    lemma_absolute(dir);
    assert(components(p) =~= components(dir) + segments(file));
    assert(components(p).take(components(dir).len() as int) =~= components(dir));
    if dir.last() != '/' {
        lemma_behind(dir, file);
    } else {
        let a = dir.drop_last();
        assert(dir =~= a.push('/') + Seq::empty());
        assert(p =~= a.push('/') + file);
        lemma_segments_join(a, Seq::empty());
        assert(segments(Seq::<char>::empty()) =~= Seq::empty());
        assert(segments(dir) =~= segments(a));
        lemma_behind(a, file);
    }
    assert(clear_start(behind(p, n)) == clear_start(file));
    assert(clear_start(p) == clear_start(p.skip(1)));
    assert(clear_start(behind(p.skip(1), n)) == clear_start(behind(p, n)));
}

/// A clean path ends where its last segment does.
proof fn lemma_clean_end(t: Seq<char>)
    requires
        clean(t),
    ensures
        clear_end(clear_start(t)) == t,
{
    assert(clear_start(t) == t);
    assert(t[t.len() - 1] == t.last());
    if dot_last(t) && t.len() > 1 {
        assert(t[t.len() - 2] == '/');
        assert(dot_first(t.skip(t.len() - 2 + 1)));
    }
}

/// A path taken relative to a directory goes up where one of the two does.
proof fn lemma_descending(dir: Seq<char>, file: Seq<char>)
    requires
        !absolute(file),
    ensures
        descending(resolved(dir, file)) == (descending(dir) && descending(file)),
{
    lemma_resolved_segments(dir, file);
    let a = segments(dir);
    let b = segments(file);
    if a.contains(".."@) {
        let i = choose|i: int| 0 <= i < a.len() && a[i] == ".."@;
        assert((a + b)[i] == ".."@);
    }
    if b.contains(".."@) {
        let i = choose|i: int| 0 <= i < b.len() && b[i] == ".."@;
        assert((a + b)[a.len() + i] == ".."@);
    }
}

/// A relative path as it stands below the repository: as it is written, but for
/// slashes and `.` segments at its ends; where the repository's own path goes up,
/// its segments.
pub open spec fn tail(root: Seq<char>, file: Seq<char>) -> Seq<char> {
    if descending(root) {
        clear_end(clear_start(file))
    } else {
        joined(segments(file), "/"@)
    }
}

/// A file of the repository is found under its repository path: named relative
/// to the repository itself, by its absolute path whatever the workspace, or
/// relative to an enclosing workspace of which the repository is a member. The
/// repository path is the file's own where that is clean.
pub proof fn a_file_of_the_repository_is_found(
    root: Seq<char>,
    file: Seq<char>,
    workspace: Seq<char>,
    name: Seq<char>,
)
    requires
        absolute(root),
        !absolute(file),
        descending(file),
    ensures
        repo_path(file, root, root) == Some(tail(root, file)),
        repo_path(resolved(root, file), root, workspace) == Some(tail(root, file)),
        !absolute(name) && root == resolved(workspace, name) ==> repo_path(
            resolved(name, file),
            root,
            workspace,
        ) == Some(tail(root, file)),
        clean(file) ==> tail(root, file) == file,
{
    lemma_resolved_segments(root, file);
    lemma_inside(resolved(root, file), root, file);
    lemma_below(root, file);
    lemma_descending(root, file);
    if !absolute(name) && root == resolved(workspace, name) {
        let inner = resolved(name, file);
        if name.len() > 0 {
            assert(inner[0] == name[0]);
            assert(root.last() == name.last());
        } else {
            assert(name + file =~= file);
        }
        assert(resolved(workspace, inner) =~= resolved(root, file));
    }
    if clean(file) {
        lemma_clean(file);
        lemma_clean_end(file);
    }
}

/// A segment as it stands between slashes: not empty, without a slash, and not
/// `.`.
pub open spec fn plain_segment(s: Seq<char>) -> bool {
    s.len() > 0 && !s.contains('/') && s != "."@
}

/// Every segment of a text is a plain one.
pub proof fn lemma_segments_plain(t: Seq<char>)
    ensures
        forall|i: int| 0 <= i < segments(t).len() ==> plain_segment(#[trigger] segments(t)[i]),
    decreases t.len(),
{
    let u = clear_start(t);
    lemma_clear_start(t);
    if u.len() > 0 {
        let n = find(u, '/');
        lemma_find(u, '/');
        assert(n > 0);
        lemma_segments_plain(u.skip(n));
        let list = segments(t);
        assert(list == seq![u.take(n)] + segments(u.skip(n)));
        assert(u.take(n) != "."@) by {
            reveal_strlit(".");
            if u.take(n) == "."@ {
                assert(n == 1) by {
                    assert(u.take(n).len() == 1);
                }
                assert(u.take(n)[0] == '.');
                assert(dot_first(u));
            }
        }
        assert forall|i: int| 0 <= i < list.len() implies plain_segment(#[trigger] list[i]) by {
            if i > 0 {
                assert(list[i] == segments(u.skip(n))[i - 1]);
            }
        }
    }
}

/// A name without a slash is its own segment.
pub proof fn lemma_own_segment(name: Seq<char>)
    requires
        plain_segment(name),
    ensures
        segments(name) == seq![name],
{
    reveal_strlit(".");
    lemma_find(name, '/');
    if dot_first(name) {
        if name.len() == 1 {
            assert(name =~= "."@);
        } else {
            assert(name[1] == '/');
            assert(name.contains('/'));
        }
    }
    if name[0] == '/' {
        assert(name.contains('/'));
    }
    assert(clear_start(name) == name);
    assert(find(name, '/') == name.len()) by {
        if find(name, '/') < name.len() {
            assert(name[find(name, '/')] == '/');
        }
    }
    assert(name.take(name.len() as int) =~= name);
    assert(name.skip(name.len() as int) =~= Seq::empty());
    assert(segments(Seq::<char>::empty()) =~= Seq::empty());
    assert(segments(name) == seq![name.take(find(name, '/'))] + segments(
        name.skip(find(name, '/')),
    ));
}

/// Behind a directory that never goes up, folding keeps a first part of the
/// directory; what follows comes from behind it.
pub proof fn lemma_folded_behind(dir: Seq<Seq<char>>, list: Seq<Seq<char>>) -> (k: int)
    requires
        !dir.contains(".."@),
    ensures
        0 <= k <= dir.len(),
        k <= folded(dir + list, false).len(),
        forall|i: int| 0 <= i < k ==> #[trigger] folded(dir + list, false)[i] == dir[i],
        forall|i: int|
            k <= i < folded(dir + list, false).len() ==> #[trigger] folded(dir + list, false)[i]
                == ".."@ || list.contains(folded(dir + list, false)[i]),
    decreases list.len(),
{
    let all = folded(dir + list, false);
    if list.len() == 0 {
        lemma_folded_down(Seq::empty(), dir, false);
        assert(Seq::<Seq<char>>::empty() + dir =~= dir);
        assert(dir + list =~= dir);
        dir.len() as int
    } else {
        let front = list.drop_last();
        let rest = folded(dir + front, false);
        let k = lemma_folded_behind(dir, front);
        assert((dir + list).drop_last() =~= dir + front);
        assert((dir + list).last() == list.last());
        assert(list[list.len() - 1] == list.last());
        assert forall|x: Seq<char>| #[trigger] front.contains(x) implies list.contains(x) by {
            let j = choose|j: int| 0 <= j < front.len() && front[j] == x;
            assert(list[j] == x);
        }
        let m = if k <= all.len() {
            k
        } else {
            all.len() as int
        };
        assert forall|i: int| 0 <= i < m implies #[trigger] all[i] == dir[i] by {
            assert(all[i] == rest[i]);
        }
        assert forall|i: int| m <= i < all.len() implies #[trigger] all[i] == ".."@
            || list.contains(all[i]) by {
            if i < rest.len() {
                assert(all[i] == rest[i]);
            }
        }
        m
    }
}

/// Folding leaves plain segments plain.
pub proof fn lemma_folded_plain(list: Seq<Seq<char>>, rooted: bool)
    requires
        forall|i: int| 0 <= i < list.len() ==> plain_segment(#[trigger] list[i]),
    ensures
        forall|i: int|
            0 <= i < folded(list, rooted).len() ==> plain_segment(
                #[trigger] folded(list, rooted)[i],
            ),
    decreases list.len(),
{
    if list.len() > 0 {
        let front = list.drop_last();
        assert forall|i: int| 0 <= i < front.len() implies plain_segment(#[trigger] front[i]) by {
            assert(front[i] == list[i]);
        }
        lemma_folded_plain(front, rooted);
        let rest = folded(front, rooted);
        let all = folded(list, rooted);
        assert(plain_segment(list[list.len() - 1]));
        assert forall|i: int| 0 <= i < all.len() implies plain_segment(#[trigger] all[i]) by {
            if i < rest.len() {
                assert(all[i] == rest[i]);
            }
        }
    }
}

/// A file whose steps do not begin with the repository's is not the
/// repository's.
pub proof fn a_file_outside_the_repository_is_refused(
    file: Seq<char>,
    root: Seq<char>,
    workspace: Seq<char>,
)
    requires
        ({
            let path = steps(resolved(workspace, file));
            let dir = steps(root);
            dir.len() > path.len() || path.take(dir.len() as int) != dir
        }),
    ensures
        repo_path(file, root, workspace) is None,
{
    let p = resolved(workspace, file);
    if descending(p) && descending(root) {
        let all = components(p);
        let head = components(root);
        lemma_folded_down(Seq::empty(), segments(p), absolute(p));
        lemma_folded_down(Seq::empty(), segments(root), absolute(root));
        assert(Seq::<Seq<char>>::empty() + segments(p) =~= segments(p));
        assert(Seq::<Seq<char>>::empty() + segments(root) =~= segments(root));
        lemma_components(p);
        lemma_components(root);
        if head.len() <= all.len() && all.take(head.len() as int) == head {
            if head.len() > 0 {
                assert(all.take(head.len() as int)[0] == head[0]);
            }
            assert(segments(root).len() > 0 ==> lead(p) == lead(root));
            assert(segments(p).take(segments(root).len() as int) =~= segments(root)) by {
                assert forall|i: int| 0 <= i < segments(root).len() implies segments(p)[i]
                    == segments(root)[i] by {
                    assert(all[i + lead(p)] == all.take(head.len() as int)[i + lead(p)]);
                }
            }
        }
    }
}

/// The components of a path are its lead and its segments, which differ.
proof fn lemma_components(p: Seq<char>)
    ensures
        components(p).len() == lead(p) + segments(p).len(),
        forall|i: int|
            0 <= i < segments(p).len() ==> #[trigger] components(p)[i + lead(p)] == segments(p)[i],
        components(p).len() > 0 ==> (lead(p) == 1 <==> !plain_segment(components(p)[0])),
{
    reveal_strlit(".");
    lemma_segments_plain(p);
    if lead(p) == 1 {
        assert(clear_start(p) == clear_start(p.skip(1)));
        assert(segments(p) == segments(p.skip(1)));
        let first = p.take(1);
        assert(components(p)[0] == first);
        assert(first[0] == p[0]);
        if p[0] == '/' {
            assert(first.contains('/'));
        } else {
            assert(first =~= "."@);
        }
    } else if segments(p).len() > 0 {
        assert(components(p)[0] == segments(p)[0]);
    }
}

/// A file of a sibling of the repository, named through the directory that holds
/// both, is not the repository's.
pub proof fn a_file_of_a_sibling_is_refused(root: Seq<char>, name: Seq<char>, file: Seq<char>)
    requires
        absolute(root),
        steps(root).len() > 0,
        segments(name) == seq![name],
        name != ".."@,
        name != steps(root).last(),
        !absolute(file),
        descending(file),
    ensures
        repo_path(resolved(resolved(".."@, name), file), root, root) is None,
{
    reveal_strlit("..");
    let up = ".."@;
    let sibling = resolved(up, name);
    lemma_clear_start(name);
    assert(!absolute(name)) by {
        if absolute(name) {
            assert(clear_start(name) == clear_start(name.skip(1)));
            lemma_clear_start(name.skip(1));
            lemma_find(clear_start(name), '/');
            assert(segments(name)[0].len() < name.len());
        }
    }
    lemma_resolved_segments(up, name);
    lemma_resolved_segments(sibling, file);
    assert(sibling[0] == '.');
    let path = resolved(sibling, file);
    assert(path[0] == '.');
    lemma_resolved_segments(root, path);
    assert(segments(up) =~= seq![up]) by {
        lemma_find(up, '/');
        assert(clear_start(up) == up);
        assert(up.take(2) =~= up);
        assert(up.skip(2) =~= Seq::empty());
        assert(segments(up.skip(2)) =~= Seq::empty());
        assert(segments(up) == seq![up.take(find(up, '/'))] + segments(up.skip(find(up, '/'))));
    }
    let down = seq![name] + segments(file);
    let raised = segments(root).push(up);
    assert(segments(root) + (seq![up] + seq![name] + segments(file)) =~= raised + down);
    assert(!down.contains(up)) by {
        if down.contains(up) {
            let i = choose|i: int| 0 <= i < down.len() && down[i] == up;
            if i > 0 {
                assert(segments(file)[i - 1] == up);
            }
        }
    }
    lemma_folded_down(raised, down, true);
    assert((raised + down)[raised.len() - 1] == up);
    assert(raised.drop_last() =~= segments(root));
    lemma_rooted(segments(root));
    let head = steps(root);
    let all = steps(resolved(root, path));
    assert(all == head.drop_last() + down);
    assert(all.take(head.len() as int)[head.len() - 1] == name);
}

/// A path from the root of the file system folds all of its `..` segments.
proof fn lemma_rooted(list: Seq<Seq<char>>)
    ensures
        !folded(list, true).contains(".."@),
    decreases list.len(),
{
    if list.len() > 0 {
        lemma_rooted(list.drop_last());
        let rest = folded(list.drop_last(), true);
        let all = folded(list, true);
        assert forall|i: int| 0 <= i < all.len() implies all[i] != ".."@ by {
            if i < rest.len() {
                assert(all[i] == rest[i]);
            }
        }
    }
}

/// Where the last segment of a text starts.
pub open spec fn last_start(t: Seq<char>) -> int
    decreases t.len(),
{
    if t.len() == 0 || t.last() == '/' {
        t.len() as int
    } else {
        last_start(t.drop_last())
    }
}

fn last_start_of(t: &[char]) -> (n: usize)
    ensures
        n == last_start(t@),
        n <= t@.len(),
{
    let mut n: usize = t.len();
    assert(t@.take(n as int) =~= t@);
    while n > 0 && t[n - 1] != '/'
        invariant
            n <= t@.len(),
            last_start(t@) == last_start(t@.take(n as int)),
        decreases n,
    {
        n = n - 1;
        assert(t@.take(n + 1).drop_last() =~= t@.take(n as int));
    }
    n
}

/// The directory that holds a path's last component; the root and the empty
/// path have none.
pub open spec fn parent(p: Seq<char>) -> Option<Seq<char>> {
    let body = clear_end(p.skip(lead(p)));
    if body.len() > 0 {
        Some(p.take(lead(p)) + clear_end(body.take(last_start(body))))
    } else if dot_first(p) {
        Some(Seq::empty())
    } else {
        None
    }
}

/// The directory that holds a path's last component.
pub fn parent_of(path: &str) -> (r: Option<String>)
    ensures
        opt_text(r) == parent(path@),
{
    let p = chars_of(path);
    let n = lead_of(p.as_slice());
    let body = clear_end_of(from_of(p.as_slice(), n));
    if body.len() > 0 {
        let cut = last_start_of(body);
        let mut r = string_of(upto_of(p.as_slice(), n));
        let tail = string_of(clear_end_of(upto_of(body, cut)));
        r.append(tail.as_str());
        Some(r)
    } else if n == 1 && p[0] == '.' {
        Some(String::new())
    } else {
        None
    }
}

/// The last segment of a path, empty where it has none.
pub open spec fn file_name(p: Seq<char>) -> Seq<char> {
    let body = clear_end(p.skip(lead(p)));
    body.skip(last_start(body))
}

/// Whether an index file is the throwaway one that git makes for a partial
/// commit.
pub open spec fn next_index(index_file: Option<Seq<char>>) -> bool {
    match index_file {
        Some(path) => begins(file_name(path), "next-index-"@),
        None => false,
    }
}

/// Whether git runs the hook for a partial commit (`git commit <pathspec>`):
/// the name of the index file tells.
pub fn is_pathspec_mode(index_file: &Option<String>) -> (r: bool)
    ensures
        r == next_index(opt_text(*index_file)),
{
    match index_file {
        Some(path) => {
            let p = chars_of(path.as_str());
            let n = lead_of(p.as_slice());
            let body = clear_end_of(from_of(p.as_slice(), n));
            let cut = last_start_of(body);
            begins_with(from_of(body, cut), "next-index-")
        },
        None => false,
    }
}

/// A path relative to a directory is the directory, a slash and the path, with
/// no second slash behind a directory that ends with one; an absolute path is
/// taken as it is.
pub proof fn a_relative_path_stands_behind_its_directory(dir: Seq<char>, file: Seq<char>)
    ensures
        resolved(dir, seq!['/'] + file) == seq!['/'] + file,
        file.len() == 0 || file[0] != '/' ==> resolved(dir.push('/'), file) == dir + seq!['/']
            + file,
        (file.len() == 0 || file[0] != '/') && dir.len() > 0 && dir.last() != '/' ==> resolved(
            dir,
            file,
        ) == dir + seq!['/'] + file,
        file.len() == 0 || file[0] != '/' ==> resolved(Seq::empty(), file) == file,
{
    assert((seq!['/'] + file)[0] == '/');
    assert(dir.push('/') + file =~= dir + seq!['/'] + file);
    assert(Seq::<char>::empty() + file =~= file);
}

/// The segments of a path are what stands between its slashes, but for empty
/// segments and dots: those of two paths with a slash between them follow each
/// other, and a name is one.
pub proof fn the_segments_stand_between_the_slashes(a: Seq<char>, b: Seq<char>, name: Seq<char>)
    ensures
        segments(a + seq!['/'] + b) == segments(a) + segments(b),
        name.len() > 0 && !name.contains('/') && name != seq!['.'] ==> segments(name)
            == seq![name],
        segments(Seq::empty()) == Seq::<Seq<char>>::empty(),
        segments(seq!['.']) == Seq::<Seq<char>>::empty(),
{
    reveal_strlit(".");
    assert("."@ =~= seq!['.']);
    lemma_segments_join(a, b);
    assert(a.push('/') + b =~= a + seq!['/'] + b);
    if name.len() > 0 && !name.contains('/') && name != seq!['.'] {
        lemma_own_segment(name);
    }
    let e = Seq::<char>::empty();
    assert(clear_start(e) == e);
    assert(segments(e) =~= Seq::empty());
    assert(seq!['.'].skip(1) =~= e);
    assert(dot_first(seq!['.']));
    assert(clear_start(seq!['.']) == e);
    assert(segments(seq!['.']) =~= Seq::empty());
}

/// A step up takes back the step before it; one at the root of the file system
/// stays there, and at the start of a relative path it is kept.
pub proof fn a_step_up_takes_back_the_step_before(
    list: Seq<Seq<char>>,
    name: Seq<char>,
    rooted: bool,
    ups: nat,
)
    requires
        name != ".."@,
    ensures
        folded(Seq::empty(), rooted) == Seq::<Seq<char>>::empty(),
        folded(list.push(name), rooted) == folded(list, rooted).push(name),
        folded(list.push(name).push(".."@), rooted) == folded(list, rooted),
        folded(Seq::new(ups, |i: int| ".."@), true) == Seq::<Seq<char>>::empty(),
        folded(Seq::new(ups, |i: int| ".."@), false) == Seq::new(ups, |i: int| ".."@),
    decreases ups,
{
    assert(list.push(name).drop_last() =~= list);
    assert(list.push(name).push(".."@).drop_last() =~= list.push(name));
    assert(folded(list.push(name), rooted) == folded(list, rooted).push(name));
    assert(list.push(name).push(".."@).last() == ".."@);
    assert(folded(list, rooted).push(name).drop_last() =~= folded(list, rooted));
    assert(folded(list.push(name).push(".."@), rooted) == folded(list, rooted));
    let all = Seq::new(ups, |i: int| ".."@);
    if ups > 0 {
        let less = (ups - 1) as nat;
        a_step_up_takes_back_the_step_before(list, name, rooted, less);
        let front = Seq::new(less, |i: int| ".."@);
        assert(all.drop_last() =~= front);
        assert(front.push(".."@) =~= all);
        if less > 0 {
            assert(front.last() == ".."@);
        }
    } else {
        assert(all =~= Seq::empty());
    }
}

/// A path that goes down into a directory and up again is the path without that
/// detour: the file is the repository's, under the same segments.
pub proof fn a_detour_makes_no_difference(root: Seq<char>, name: Seq<char>, file: Seq<char>)
    requires
        absolute(root),
        !absolute(file),
        descending(file),
        plain_segment(name),
        name != ".."@,
    ensures
        repo_path(name + "/../"@ + file, root, root) == Some(joined(segments(file), "/"@)),
{
    reveal_strlit("/../");
    reveal_strlit("..");
    reveal_strlit(".");
    let up = ".."@;
    let whole = name + "/../"@ + file;
    assert(whole[0] == name[0]);
    if whole[0] == '/' {
        assert(name.contains('/'));
    }
    lemma_resolved_segments(root, whole);
    let path = resolved(root, whole);
    assert(whole =~= name.push('/') + (up.push('/') + file));
    lemma_segments_join(name, up.push('/') + file);
    lemma_segments_join(up, file);
    lemma_own_segment(name);
    assert(plain_segment(up)) by {
        assert(up[0] == '.' && up[1] == '.');
        assert(up.len() != "."@.len());
    }
    lemma_own_segment(up);
    let base = segments(root);
    let all = segments(path);
    let mid = base.push(name).push(up);
    assert(all =~= mid + segments(file));
    assert(all[mid.len() - 1] == up);
    assert(!descending(path)) by {
        assert(all.contains(up));
    }
    a_step_up_takes_back_the_step_before(base, name, true, 0);
    lemma_folded_down(mid, segments(file), true);
    let head = folded(base, true);
    assert(steps(path) == head + segments(file));
    assert(steps(root) == head);
    assert((head + segments(file)).take(head.len() as int) =~= head);
    assert((head + segments(file)).skip(head.len() as int) =~= segments(file));
}

/// Nothing is cleared at the end of a text that ends with neither a slash nor a
/// `.` segment; and a slash there is.
proof fn lemma_clear_end_kept(t: Seq<char>)
    requires
        t.len() > 0,
        t.last() != '/',
        !dot_last(t),
    ensures
        clear_end(t) == t,
        clear_end(t.push('/')) == t,
{
    assert(t.push('/').drop_last() =~= t);
}

proof fn lemma_last_start(t: Seq<char>, name: Seq<char>)
    requires
        !name.contains('/'),
        t.len() > 0 ==> t.last() == '/',
    ensures
        last_start(t + name) == t.len(),
    decreases name.len(),
{
    if name.len() == 0 {
        assert(t + name =~= t);
    } else {
        let less = name.drop_last();
        assert(!less.contains('/')) by {
            if less.contains('/') {
                let i = choose|i: int| 0 <= i < less.len() && less[i] == '/';
                assert(name[i] == '/');
            }
        }
        assert((t + name).last() == name.last());
        assert(name[name.len() - 1] != '/');
        assert((t + name).drop_last() =~= t + less);
        lemma_last_start(t, less);
    }
}

/// A name that is a segment ends with neither a slash nor a `.` segment,
/// whatever stands before it.
proof fn lemma_name_end(t: Seq<char>, name: Seq<char>)
    requires
        plain_segment(name),
        t.len() > 0 ==> t.last() == '/',
    ensures
        (t + name).last() == name.last(),
        name.last() != '/',
        name[0] != '/',
        !dot_last(t + name),
        !dot_first(name),
{
    reveal_strlit(".");
    let s = t + name;
    assert(name[name.len() - 1] != '/');
    assert(name.contains(name[0]));
    if name.len() == 1 {
        if name[0] == '.' {
            assert(name =~= "."@);
        }
    } else {
        assert(s[s.len() - 2] == name[name.len() - 2]);
        assert(name.contains(name[name.len() - 2]));
        assert(name.contains(name[1]));
    }
}

/// The directory of a path is what stands before its last slash, and the name of
/// its file is what stands behind it.
pub proof fn a_path_is_its_directory_and_its_name(dir: Seq<char>, name: Seq<char>)
    requires
        name.len() > 0,
        !name.contains('/'),
        name != seq!['.'],
    ensures
        dir.len() > 0 && dir.last() != '/' && !dot_last(dir) ==> parent(dir + seq!['/'] + name)
            == Some(dir) && file_name(dir + seq!['/'] + name) == name,
        parent(seq!['/'] + name) == Some(seq!['/']),
        file_name(seq!['/'] + name) == name,
        parent(name) == Some(Seq::<char>::empty()),
        file_name(name) == name,
        parent(seq!['/']) is None,
        parent(Seq::empty()) is None,
{
    reveal_strlit(".");
    assert("."@ =~= seq!['.']);
    let e = Seq::<char>::empty();
    let root = seq!['/'];
    assert(plain_segment(name));
    lemma_name_end(e, name);
    assert(e + name =~= name);
    lemma_last_start(e, name);
    lemma_clear_end_kept(name);
    assert(name.skip(0) =~= name);
    assert(name.take(0) =~= e);
    assert(clear_end(e) == e);
    assert(e + e =~= e);
    let one = root + name;
    assert(one.skip(1) =~= name);
    assert(one.take(1) =~= root);
    assert(root + e =~= root);
    assert(root.skip(1) =~= e);
    if dir.len() > 0 && dir.last() != '/' && !dot_last(dir) {
        let p = dir + root + name;
        let n = lead(p);
        assert(p[0] == dir[0]);
        assert(p[1] == (if dir.len() == 1 { '/' } else { dir[1] }));
        assert(n == lead(dir));
        let stem = dir.skip(n);
        assert(dir.len() > n);
        assert(stem.last() == dir.last());
        assert(!dot_last(stem)) by {
            if stem.len() > 1 {
                assert(stem[stem.len() - 2] == dir[dir.len() - 2]);
            } else if n == 1 {
                assert(dir.len() == 2);
            }
        }
        let body = p.skip(n);
        let front = stem.push('/');
        assert(body =~= front + name);
        lemma_name_end(front, name);
        lemma_clear_end_kept(body);
        lemma_last_start(front, name);
        assert(body.take(front.len() as int) =~= front);
        assert(body.skip(front.len() as int) =~= name);
        lemma_clear_end_kept(stem);
        assert(p.take(n) + stem =~= dir);
    }
}

/// A commit is partial exactly where the name of the index file begins with
/// `next-index-`, whatever directory it lies in; without an index file named it
/// is not.
pub proof fn the_name_of_the_index_tells_a_partial_commit(dir: Seq<char>, name: Seq<char>)
    requires
        name.len() > 0,
        !name.contains('/'),
        name != seq!['.'],
        dir.len() > 0,
        dir.last() != '/',
        !dot_last(dir),
    ensures
        next_index(Some(dir + seq!['/'] + name)) <==> exists|rest: Seq<char>|
            name == #[trigger] ("next-index-"@ + rest),
        next_index(Some(seq!['/'] + name)) <==> exists|rest: Seq<char>|
            name == #[trigger] ("next-index-"@ + rest),
        next_index(Some(name)) <==> exists|rest: Seq<char>|
            name == #[trigger] ("next-index-"@ + rest),
        !next_index(None),
{
    a_path_is_its_directory_and_its_name(dir, name);
    a_prefix_is_followed_by_the_rest("next-index-"@, name, name);
}

/// A number of steps up.
pub open spec fn steps_up(n: nat) -> Seq<Seq<char>> {
    Seq::new(n, |i: int| ".."@)
}

/// Steps up take back as many steps down; where there are more of them, the rest
/// leads further up. Steps down behind that are taken one by one.
pub proof fn steps_up_take_back_steps_down(
    dir: Seq<Seq<char>>,
    ups: nat,
    down: Seq<Seq<char>>,
)
    requires
        !dir.contains(".."@),
        !down.contains(".."@),
    ensures
        folded(dir + steps_up(ups) + down, false) == (if ups <= dir.len() {
            dir.take(dir.len() - ups)
        } else {
            steps_up((ups - dir.len()) as nat)
        }) + down,
{
    lemma_folded_up(dir, ups);
    lemma_folded_down(dir + steps_up(ups), down, false);
}

proof fn lemma_folded_up(dir: Seq<Seq<char>>, ups: nat)
    requires
        !dir.contains(".."@),
    ensures
        folded(dir + steps_up(ups), false) == (if ups <= dir.len() {
            dir.take(dir.len() - ups)
        } else {
            steps_up((ups - dir.len()) as nat)
        }),
    decreases ups,
{
    let none = Seq::<Seq<char>>::empty();
    if ups == 0 {
        assert(dir + steps_up(0) =~= none + dir);
        lemma_folded_down(none, dir, false);
        assert(none + dir =~= dir);
        assert(dir.take(dir.len() as int) =~= dir);
    } else {
        let less = (ups - 1) as nat;
        lemma_folded_up(dir, less);
        let all = dir + steps_up(ups);
        assert(all.drop_last() =~= dir + steps_up(less));
        assert(all.last() == ".."@);
        let rest = folded(dir + steps_up(less), false);
        if ups <= dir.len() {
            let n = dir.len() - less;
            assert(rest == dir.take(n));
            assert(rest.last() == dir[n - 1]);
            assert(dir.contains(dir[n - 1]));
            assert(rest.drop_last() =~= dir.take(n - 1));
        } else {
            let n = (less - dir.len()) as nat;
            if n == 0 {
                assert(dir.take(0) =~= steps_up(0));
            } else {
                assert(rest.last() == ".."@);
            }
            assert(rest =~= steps_up(n));
            assert(steps_up(n).push(".."@) =~= steps_up(n + 1));
        }
    }
}

/// Slashes and dots between slashes are cleared from the ends of a path, and
/// nothing else is.
pub proof fn slashes_and_dots_are_cleared_at_the_ends(t: Seq<char>, name: Seq<char>)
    requires
        name.len() > 0,
        !name.contains('/'),
        name != seq!['.'],
    ensures
        clear_start(seq!['/'] + t) == clear_start(t),
        clear_start(seq!['.', '/'] + t) == clear_start(t),
        clear_start(name) == name,
        clear_start(name + seq!['/'] + t) == name + seq!['/'] + t,
        clear_end(t + seq!['/']) == clear_end(t),
        clear_end(t + seq!['/', '.']) == clear_end(t),
        clear_end(name) == name,
        clear_end(t + seq!['/'] + name) == t + seq!['/'] + name,
        clear_start(Seq::empty()) == Seq::<char>::empty(),
        clear_end(Seq::empty()) == Seq::<char>::empty(),
{
    reveal_strlit(".");
    assert("."@ =~= seq!['.']);
    let e = Seq::<char>::empty();
    let one = seq!['/'] + t;
    assert(one.skip(1) =~= t);
    let two = seq!['.', '/'] + t;
    assert(two.skip(1) =~= one);
    assert(dot_first(two));
    assert(one[0] == '/');
    assert(clear_start(one) == clear_start(t));
    assert(clear_start(two) == clear_start(one));
    lemma_name_end(e, name);
    assert(e + name =~= name);
    lemma_clear_end_kept(name);
    let long = name + seq!['/'] + t;
    assert(long[0] == name[0]);
    assert(long[1] == (if name.len() == 1 { '/' } else { name[1] }));
    if name.len() == 1 && name[0] == '.' {
        assert(name =~= seq!['.']);
    }
    if name.len() > 1 {
        assert(name.contains(name[1]));
    }
    assert((t + seq!['/']).drop_last() =~= t);
    let dotted = t + seq!['/', '.'];
    assert(dotted.drop_last() =~= t + seq!['/']);
    assert(dotted[dotted.len() - 2] == '/');
    assert(dot_last(dotted));
    let front = t + seq!['/'];
    assert(front.last() == '/');
    assert(clear_end(front) == clear_end(t));
    assert(clear_end(dotted) == clear_end(front));
    lemma_name_end(front, name);
    assert((front + name).len() > 0);
    lemma_clear_end_kept(front + name);
}

/// A path that goes up belongs to the repository exactly where the steps that it
/// takes are those of the repository and further ones down, and these are its
/// path there.
pub proof fn a_path_that_goes_up_is_taken_by_its_steps(
    file: Seq<char>,
    root: Seq<char>,
    workspace: Seq<char>,
    rest: Seq<Seq<char>>,
)
    requires
        ({
            ||| segments(resolved(workspace, file)).contains(".."@)
            ||| segments(root).contains(".."@)
        }),
    ensures
        ({
            let path = resolved(workspace, file);
            &&& absolute(path) == absolute(root) && steps(path) == steps(root) + rest
                && !rest.contains(".."@) ==> repo_path(file, root, workspace) == Some(
                joined(rest, "/"@),
            )
            &&& repo_path(file, root, workspace) is Some ==> exists|more: Seq<Seq<char>>|
                steps(path) == #[trigger] (steps(root) + more) && !more.contains(".."@)
            &&& repo_path(file, root, workspace) is Some ==> absolute(path) == absolute(root)
        }),
{
    let path = resolved(workspace, file);
    let head = steps(root);
    let all = steps(path);
    let n = head.len() as int;
    if all == head + rest {
        assert(all.take(n) =~= head);
        assert(all.skip(n) =~= rest);
    }
    if repo_path(file, root, workspace) is Some {
        let more = all.skip(n);
        assert(all =~= head + more);
    }
}

/// The steps of a path are its segments, each step up taken back with the step
/// before it.
pub proof fn the_steps_of_a_path_are_its_segments(path: Seq<char>)
    ensures
        !segments(path).contains(".."@) ==> steps(path) == segments(path),
        steps(path) == folded(segments(path), path.len() > 0 && path[0] == '/'),
{
    if !segments(path).contains(".."@) {
        let none = Seq::<Seq<char>>::empty();
        lemma_folded_down(none, segments(path), absolute(path));
        assert(none + segments(path) =~= segments(path));
        assert(folded(none, absolute(path)) + segments(path) =~= segments(path));
    }
}

/// A path is absolute exactly where it begins with a slash, and goes up exactly
/// where one of its segments is two dots.
pub proof fn a_path_goes_up_by_its_segments(path: Seq<char>)
    ensures
        absolute(path) <==> exists|rest: Seq<char>| path == #[trigger] (seq!['/'] + rest),
        descending(path) <==> forall|i: int|
            0 <= i < segments(path).len() ==> #[trigger] segments(path)[i] != seq!['.', '.'],
{
    reveal_strlit("..");
    assert(".."@ =~= seq!['.', '.']);
    if absolute(path) {
        assert(path =~= seq!['/'] + path.skip(1));
    }
    if !descending(path) {
        let i = choose|i: int| 0 <= i < segments(path).len() && segments(path)[i] == ".."@;
        assert(segments(path)[i] == seq!['.', '.']);
    }
}

/// A slash behind a path changes neither its directory nor its name.
pub proof fn a_slash_behind_a_path_makes_no_difference(dir: Seq<char>, name: Seq<char>)
    requires
        name.len() > 0,
        !name.contains('/'),
        name != seq!['.'],
        dir.len() > 0,
        dir.last() != '/',
        !dot_last(dir),
    ensures
        parent((dir + seq!['/'] + name).push('/')) == Some(dir),
        file_name((dir + seq!['/'] + name).push('/')) == name,
{
    reveal_strlit(".");
    assert("."@ =~= seq!['.']);
    a_path_is_its_directory_and_its_name(dir, name);
    let p = dir + seq!['/'] + name;
    let q = p.push('/');
    assert(plain_segment(name));
    assert(q[0] == p[0] && q[1] == p[1]);
    let n = lead(p);
    assert(lead(q) == n);
    let body = p.skip(n);
    assert(q.skip(n) =~= body.push('/'));
    let front = (dir + seq!['/']).skip(n);
    assert(body =~= front + name);
    assert(front.len() > 0 ==> front.last() == '/');
    lemma_name_end(front, name);
    lemma_clear_end_kept(body);
    assert(q.take(n) =~= p.take(n));
}

proof fn lemma_segments_start(t: Seq<char>)
    ensures
        segments(clear_start(t)) == segments(t),
{
    lemma_clear_start(t);
    lemma_segments_clear(clear_start(t), t);
}

proof fn lemma_segments_end(t: Seq<char>)
    ensures
        segments(clear_end(t)) == segments(t),
    decreases t.len(),
{
    let e = Seq::<char>::empty();
    if (t.len() > 0 && t.last() == '/') || dot_last(t) {
        let s = t.drop_last();
        lemma_segments_end(s);
        the_segments_stand_between_the_slashes(e, e, e);
        if t.last() == '/' {
            assert(t =~= s + seq!['/'] + e);
            the_segments_stand_between_the_slashes(s, e, e);
            assert(segments(s) + segments(e) =~= segments(s));
        } else if t.len() == 1 {
            assert(t =~= seq!['.']);
            assert(s =~= e);
        } else {
            let r = s.drop_last();
            assert(s.last() == '/');
            assert(s =~= r + seq!['/'] + e);
            assert(t =~= r + seq!['/'] + seq!['.']);
            the_segments_stand_between_the_slashes(r, e, e);
            the_segments_stand_between_the_slashes(r, seq!['.'], e);
        }
    }
}

proof fn lemma_segments_behind(t: Seq<char>, n: nat)
    requires
        n <= segments(t).len(),
    ensures
        segments(behind(t, n)) == segments(t).skip(n as int),
    decreases n,
{
    if n == 0 {
        assert(segments(t).skip(0) =~= segments(t));
    } else {
        let u = clear_start(t);
        let rest = u.skip(find(u, '/'));
        assert(segments(t) == seq![u.take(find(u, '/'))] + segments(rest));
        lemma_segments_behind(rest, (n - 1) as nat);
        assert(segments(t).skip(n as int) =~= segments(rest).skip(n - 1));
    }
}

/// A file lies in the repository exactly where the segments of its path begin
/// with those of the repository, however the two are written; and the segments
/// behind these are those of its path there.
pub proof fn a_file_is_found_by_the_segments_of_its_path(
    file: Seq<char>,
    root: Seq<char>,
    workspace: Seq<char>,
    rest: Seq<Seq<char>>,
)
    requires
        absolute(file),
        absolute(root),
        !segments(file).contains(".."@),
        !segments(root).contains(".."@),
    ensures
        segments(file) == segments(root) + rest ==> (repo_path(file, root, workspace) matches Some(
            at,
        ) && segments(at) == rest),
        repo_path(file, root, workspace) matches Some(at) ==> segments(file) == segments(root)
            + segments(at),
{
    let one = seq!['/'];
    let p = file.skip(1);
    let q = root.skip(1);
    assert(file.take(1) =~= one);
    assert(root.take(1) =~= one);
    lemma_segments_clear(file, p);
    lemma_segments_clear(root, q);
    let all = components(file);
    let head = components(root);
    assert(all == seq![one] + segments(file));
    assert(head == seq![one] + segments(root));
    let n = segments(root).len();
    if segments(file) == segments(root) + rest {
        assert(all.take(head.len() as int) =~= head);
        assert(segments(file).skip(n as int) =~= rest);
    }
    if repo_path(file, root, workspace) is Some {
        assert(all.take(head.len() as int) == head);
        assert(segments(root) =~= segments(file).take(n as int)) by {
            assert forall|i: int| 0 <= i < n implies segments(root)[i] == segments(file)[i] by {
                assert(head[i + 1] == all.take(head.len() as int)[i + 1]);
            }
        }
        assert(segments(file) =~= segments(root) + segments(file).skip(n as int));
    }
    if head.len() <= all.len() {
        let tail = behind(p, n);
        lemma_segments_behind(p, n);
        lemma_segments_start(tail);
        lemma_segments_end(clear_start(tail));
    }
}

proof fn lemma_component_list(p: Seq<char>)
    ensures
        lead(p) == 1 ==> components(p) == seq![p.take(1)] + segments(p),
        lead(p) == 0 ==> components(p) == segments(p),
        segments(p.skip(lead(p))) == segments(p),
{
    if lead(p) == 1 {
        lemma_segments_clear(p, p.skip(1));
    } else {
        assert(p.skip(0) =~= p);
    }
}

/// How a path and a directory begin decides with their segments: the path lies
/// below the directory exactly where both begin alike, at the root of the file
/// system, at a dot or with a name, and the segments of the one begin with those
/// of the other.
pub proof fn what_lies_below_a_directory(
    path: Seq<char>,
    dir: Seq<char>,
    rest: Seq<Seq<char>>,
)
    requires
        lead(dir) == 1 || segments(dir).len() > 0,
    ensures
        ({
            let alike = lead(path) == lead(dir) && (lead(dir) == 1 ==> path[0] == dir[0]);
            let found = below(path, dir);
            &&& !alike ==> found is None
            &&& alike && segments(path) == segments(dir) + rest ==> (found matches Some(at)
                && segments(at) == rest)
            &&& found matches Some(at) ==> segments(path) == segments(dir) + segments(at)
        }),
{
    reveal_strlit(".");
    let all = components(path);
    let head = components(dir);
    lemma_component_list(path);
    lemma_component_list(dir);
    lemma_segments_plain(path);
    lemma_segments_plain(dir);
    let m = lead(dir);
    let n = segments(dir).len();
    let found = below(path, dir);
    if lead(path) == 1 {
        assert(path.take(1)[0] == path[0]);
    }
    if lead(dir) == 1 {
        assert(dir.take(1)[0] == dir[0]);
    }
    if found is Some {
        let front = all.take(head.len() as int);
        assert(front == head);
        assert(front[0] == all[0]);
        if lead(dir) == 1 && lead(path) == 0 {
            let first = segments(path)[0];
            assert(first == dir.take(1));
            assert(plain_segment(first));
            assert(first[0] == dir[0]);
            assert(first.contains(first[0]));
            assert(first =~= "."@);
        }
        if lead(dir) == 0 && lead(path) == 1 {
            let first = segments(dir)[0];
            assert(first == path.take(1));
            assert(plain_segment(first));
            assert(first[0] == path[0]);
            assert(first.contains(first[0]));
            assert(first =~= "."@);
        }
        assert(lead(path) == m);
        assert(segments(dir) =~= segments(path).take(n as int)) by {
            assert forall|i: int| 0 <= i < n implies segments(dir)[i] == segments(path)[i] by {
                assert(head[i + m] == front[i + m]);
            }
        }
        assert(segments(path) =~= segments(dir) + segments(path).skip(n as int));
    }
    if lead(path) == m && (m == 1 ==> path[0] == dir[0]) && segments(path) == segments(dir)
        + rest {
        assert(m == 1 ==> path.take(1) =~= dir.take(1));
        assert(all.take(head.len() as int) =~= head);
        assert(segments(path).skip(n as int) =~= rest);
    }
    if lead(path) == m && head.len() <= all.len() {
        let body = path.skip(m);
        let tail = behind(body, n);
        lemma_segments_behind(body, n);
        lemma_segments_start(tail);
        lemma_segments_end(clear_start(tail));
    }
}

/// A file lies in the repository exactly where its path begins like that of the
/// repository, and the segments of the one begin with those of the other.
pub proof fn a_file_and_the_repository_begin_alike(
    file: Seq<char>,
    root: Seq<char>,
    workspace: Seq<char>,
    rest: Seq<Seq<char>>,
)
    requires
        !segments(resolved(workspace, file)).contains(".."@),
        !segments(root).contains(".."@),
        lead(root) == 1 || segments(root).len() > 0,
    ensures
        ({
            let path = resolved(workspace, file);
            let alike = lead(path) == lead(root) && (lead(root) == 1 ==> path[0] == root[0]);
            let found = repo_path(file, root, workspace);
            &&& !alike ==> found is None
            &&& alike && segments(path) == segments(root) + rest ==> (found matches Some(at)
                && segments(at) == rest)
            &&& found matches Some(at) ==> segments(path) == segments(root) + segments(at)
        }),
{
    what_lies_below_a_directory(resolved(workspace, file), root, rest);
}

/// A path lies inside a directory exactly where both begin at the root of the
/// file system or neither does, and the steps of the path are those of the
/// directory and further ones down; these are what is left of it.
pub proof fn what_lies_inside_a_directory(path: Seq<char>, dir: Seq<char>, rest: Seq<Seq<char>>)
    ensures
        absolute(path) == absolute(dir) && steps(path) == steps(dir) + rest && !rest.contains(
            ".."@,
        ) ==> inside(path, dir) == Some(joined(rest, "/"@)),
        inside(path, dir) is Some ==> absolute(path) == absolute(dir) && exists|
            more: Seq<Seq<char>>,
        |
            steps(path) == #[trigger] (steps(dir) + more) && !more.contains(".."@),
{
    let head = steps(dir);
    let all = steps(path);
    let n = head.len() as int;
    if all == head + rest {
        assert(all.take(n) =~= head);
        assert(all.skip(n) =~= rest);
    }
    if inside(path, dir) is Some {
        let more = all.skip(n);
        assert(all =~= head + more);
    }
}

/// Everything lies below the empty path, under its own name.
pub proof fn everything_lies_below_the_empty_path(file: Seq<char>, workspace: Seq<char>)
    requires
        clean(file),
        descending(file),
    ensures
        repo_path(file, Seq::empty(), Seq::empty()) == Some(file),
        repo_path(seq!['/'] + file, Seq::empty(), workspace) == Some(seq!['/'] + file),
{
    let e = Seq::<char>::empty();
    let full = seq!['/'] + file;
    the_segments_stand_between_the_slashes(e, file, e);
    assert(e + seq!['/'] + file =~= full);
    assert(segments(e) + segments(file) =~= segments(file));
    assert(!segments(e).contains(".."@));
    assert(e + file =~= file);
    lemma_clean(file);
    lemma_clean_end(file);
    assert(components(e) =~= Seq::empty());
    assert(file.skip(0) =~= file);
    assert(file.take(0) + file =~= file);
    assert(full.skip(1) =~= file);
    assert(full.take(1) =~= seq!['/']);
    assert(components(file).take(0) =~= Seq::empty());
    assert(components(full).take(0) =~= Seq::empty());
}

/// The directory of a dot is the empty path.
pub proof fn a_dot_lies_in_the_empty_path()
    ensures
        parent(seq!['.']) == Some(Seq::<char>::empty()),
        parent(seq!['.', '/']) == Some(Seq::<char>::empty()),
{
    let e = Seq::<char>::empty();
    assert(seq!['.'].skip(1) =~= e);
    assert(seq!['.', '/'].skip(1) =~= seq!['/']);
    assert(seq!['/'].drop_last() =~= e);
    assert(clear_end(e) == e);
    assert(clear_end(seq!['/']) == e);
}

} // verus!
