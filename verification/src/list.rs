//! Lists of texts: lines, separated fields, joining, and ordered sets.
use vstd::prelude::*;

use crate::text::{
    blank, chars_of, contains, cutting_keeps_what_stands_before, find, find_in, is_white,
    lemma_find, same_chars, string_of, texts, white,
};

verus! {

/// A line without the carriage return that precedes its line feed.
pub open spec fn without_cr(s: Seq<char>) -> Seq<char> {
    if s.len() > 0 && s.last() == '\r' {
        s.drop_last()
    } else {
        s
    }
}

/// The lines of a text. A line ends at a line feed or at the end of the text;
/// a carriage return before the line feed belongs to the line's end.
pub open spec fn lines(s: Seq<char>) -> Seq<Seq<char>>
    decreases s.len(),
{
    if s.len() == 0 {
        Seq::empty()
    } else {
        let n = find(s, '\n');
        if 0 <= n < s.len() {
            seq![without_cr(s.take(n))] + lines(s.skip(n + 1))
        } else {
            seq![s]
        }
    }
}

/// Splits a text into its lines.
pub fn lines_of(text: &str) -> (out: Vec<String>)
    ensures
        texts(out@) == lines(text@),
{
    let s = chars_of(text);
    let mut out: Vec<String> = Vec::new();
    let mut at: usize = 0;
    assert(s@.skip(0) =~= s@);
    assert(texts(out@) =~= Seq::empty());
    assert(lines(s@) =~= texts(out@) + lines(s@.skip(0)));
    while at < s.len()
        invariant
            at <= s@.len(),
            lines(s@) == texts(out@) + lines(s@.skip(at as int)),
        decreases s@.len() - at,
    {
        let rest = vstd::slice::slice_subrange(s.as_slice(), at, s.len());
        assert(rest@ =~= s@.skip(at as int));
        let n = find_in(rest, '\n');
        let ghost before = out@;
        if n < rest.len() {
            let mut end: usize = n;
            if n > 0 && rest[n - 1] == '\r' {
                end = n - 1;
            }
            let line = string_of(vstd::slice::slice_subrange(rest, 0, end));
            assert(line@ =~= without_cr(rest@.take(n as int)));
            out.push(line);
            assert(texts(out@) =~= texts(before).push(line@));
            at = at + n + 1;
            assert(rest@.skip(n + 1) =~= s@.skip(at as int));
            assert(texts(out@) + lines(s@.skip(at as int)) =~= texts(before) + lines(rest@));
        } else {
            let line = string_of(rest);
            out.push(line);
            assert(texts(out@) =~= texts(before).push(line@));
            at = s.len();
            assert(s@.skip(at as int) =~= Seq::empty());
            assert(texts(out@) + lines(s@.skip(at as int)) =~= texts(before) + lines(rest@));
        }
    }
    assert(s@.skip(at as int) =~= Seq::empty());
    assert(lines(s@) =~= texts(out@));
    out
}

/// The fields of a text between occurrences of a separator, without the empty
/// ones.
pub open spec fn fields(s: Seq<char>, sep: char) -> Seq<Seq<char>>
    decreases s.len(),
{
    if s.len() == 0 {
        Seq::empty()
    } else {
        let n = find(s, sep);
        let head = if n == 0 {
            Seq::empty()
        } else {
            seq![s.take(n)]
        };
        if 0 <= n < s.len() {
            head + fields(s.skip(n + 1), sep)
        } else {
            head
        }
    }
}

/// Splits a text at a separator and drops the empty fields.
pub fn fields_of(text: &str, sep: char) -> (out: Vec<String>)
    ensures
        texts(out@) == fields(text@, sep),
{
    let s = chars_of(text);
    let mut out: Vec<String> = Vec::new();
    let mut at: usize = 0;
    assert(s@.skip(0) =~= s@);
    assert(texts(out@) =~= Seq::empty());
    assert(fields(s@, sep) =~= texts(out@) + fields(s@.skip(0), sep));
    while at < s.len()
        invariant
            at <= s@.len(),
            fields(s@, sep) == texts(out@) + fields(s@.skip(at as int), sep),
        decreases s@.len() - at,
    {
        let rest = vstd::slice::slice_subrange(s.as_slice(), at, s.len());
        assert(rest@ =~= s@.skip(at as int));
        let n = find_in(rest, sep);
        let ghost before = out@;
        if n > 0 {
            let field = string_of(vstd::slice::slice_subrange(rest, 0, n));
            assert(field@ =~= rest@.take(n as int));
            out.push(field);
            assert(texts(out@) =~= texts(before).push(field@));
        }
        if n < rest.len() {
            at = at + n + 1;
            assert(rest@.skip(n + 1) =~= s@.skip(at as int));
        } else {
            at = s.len();
            assert(s@.skip(at as int) =~= Seq::empty());
        }
        assert(texts(out@) + fields(s@.skip(at as int), sep) =~= texts(before) + fields(rest@, sep));
    }
    assert(s@.skip(at as int) =~= Seq::empty());
    assert(fields(s@, sep) =~= texts(out@));
    out
}

/// No field is empty and none holds the separator.
pub proof fn lemma_fields(s: Seq<char>, sep: char)
    ensures
        forall|i: int|
            0 <= i < fields(s, sep).len() ==> (#[trigger] fields(s, sep)[i]).len() > 0
                && !fields(s, sep)[i].contains(sep),
    decreases s.len(),
{
    if s.len() > 0 {
        let n = find(s, sep);
        lemma_find(s, sep);
        if n < s.len() {
            lemma_fields(s.skip(n + 1), sep);
            let tail = fields(s.skip(n + 1), sep);
            assert forall|i: int| 0 <= i < fields(s, sep).len() implies (#[trigger] fields(
                s,
                sep,
            )[i]).len() > 0 && !fields(s, sep)[i].contains(sep) by {
                if n == 0 {
                    assert(fields(s, sep)[i] == tail[i]);
                } else if i == 0 {
                    assert(fields(s, sep)[0] == s.take(n));
                } else {
                    assert(fields(s, sep)[i] == tail[i - 1]);
                }
            }
        }
    }
}

/// The first word of a text: what stands before white space, after the leading
/// white space; empty where there is none.
pub open spec fn first_word(s: Seq<char>) -> Seq<char>
    decreases s.len(),
{
    if s.len() == 0 {
        s
    } else if white(s[0]) {
        first_word(s.skip(1))
    } else {
        word(s)
    }
}

/// The longest prefix without white space.
pub open spec fn word(s: Seq<char>) -> Seq<char>
    decreases s.len(),
{
    if s.len() == 0 || white(s[0]) {
        Seq::empty()
    } else {
        seq![s[0]] + word(s.skip(1))
    }
}

/// Picks the first word of a text.
pub fn first_word_of(text: &str) -> (r: String)
    ensures
        r@ == first_word(text@),
{
    let s = chars_of(text);
    let mut i: usize = 0;
    assert(s@.skip(0) =~= s@);
    while i < s.len() && is_white(s[i])
        invariant
            i <= s@.len(),
            first_word(s@) == first_word(s@.skip(i as int)),
        decreases s@.len() - i,
    {
        i = i + 1;
        assert(s@.skip(i - 1).skip(1) =~= s@.skip(i as int));
    }
    let mut out = String::new();
    assert(out@ + word(s@.skip(i as int)) =~= word(s@.skip(i as int)));
    assert(first_word(s@) =~= out@ + word(s@.skip(i as int)));
    while i < s.len() && !is_white(s[i])
        invariant
            i <= s@.len(),
            first_word(s@) == out@ + word(s@.skip(i as int)),
        decreases s@.len() - i,
    {
        let ghost before = out@;
        out.push(s[i]);
        i = i + 1;
        assert(s@.skip(i - 1).skip(1) =~= s@.skip(i as int));
        assert(out@ + word(s@.skip(i as int)) =~= before + word(s@.skip(i - 1)));
    }
    assert(first_word(s@) =~= out@);
    out
}

/// Texts with a separator between each two.
pub open spec fn joined(list: Seq<Seq<char>>, sep: Seq<char>) -> Seq<char>
    decreases list.len(),
{
    if list.len() == 0 {
        Seq::empty()
    } else if list.len() == 1 {
        list[0]
    } else {
        joined(list.drop_last(), sep) + sep + list.last()
    }
}

/// Joins texts with a separator.
pub fn join(list: &Vec<String>, sep: &str) -> (r: String)
    ensures
        r@ == joined(texts(list@), sep@),
{
    let mut r = String::new();
    let mut i: usize = 0;
    assert(texts(list@).take(0) =~= Seq::empty());
    while i < list.len()
        invariant
            i <= list@.len(),
            r@ == joined(texts(list@).take(i as int), sep@),
        decreases list@.len() - i,
    {
        if i > 0 {
            r.append(sep);
        }
        r.append(list[i].as_str());
        i = i + 1;
        assert(texts(list@).take(i as int).drop_last() =~= texts(list@).take(i - 1));
        if i == 1 {
            assert(r@ =~= texts(list@).take(1)[0]);
        }
    }
    assert(texts(list@).take(i as int) =~= texts(list@));
    r
}

/// The decimal digit of a value below ten.
pub open spec fn digit(d: int) -> char {
    (0x30 + d) as char
}

/// A number in decimal, without leading zeros.
pub open spec fn decimal(n: nat) -> Seq<char>
    decreases n,
{
    if n < 10 {
        seq![digit(n as int)]
    } else {
        decimal(n / 10).push(digit((n % 10) as int))
    }
}

/// Writes a number in decimal.
pub fn decimal_of(n: u64) -> (r: String)
    ensures
        r@ == decimal(n as nat),
    decreases n,
{
    let d: u8 = (n % 10) as u8 + 0x30;
    let c: char = d as char;
    assert(c == digit((n % 10) as int));
    if n < 10 {
        let mut r = String::new();
        r.push(c);
        assert(r@ =~= decimal(n as nat));
        r
    } else {
        let mut r = decimal_of(n / 10);
        r.push(c);
        r
    }
}

/// The order of texts by code point, the first difference deciding.
pub open spec fn less(a: Seq<char>, b: Seq<char>) -> bool
    decreases a.len(),
{
    if b.len() == 0 {
        false
    } else if a.len() == 0 {
        true
    } else if a[0] != b[0] {
        (a[0] as int) < (b[0] as int)
    } else {
        less(a.skip(1), b.skip(1))
    }
}

/// Whether one text comes before another.
pub fn is_less(a: &str, b: &str) -> (r: bool)
    ensures
        r == less(a@, b@),
{
    let x = chars_of(a);
    let y = chars_of(b);
    let mut i: usize = 0;
    assert(x@.skip(0) =~= x@);
    assert(y@.skip(0) =~= y@);
    while i < x.len() && i < y.len() && x[i] == y[i]
        invariant
            i <= x@.len(),
            i <= y@.len(),
            less(x@, y@) == less(x@.skip(i as int), y@.skip(i as int)),
        decreases x@.len() - i,
    {
        i = i + 1;
        assert(x@.skip(i - 1).skip(1) =~= x@.skip(i as int));
        assert(y@.skip(i - 1).skip(1) =~= y@.skip(i as int));
    }
    if i >= y.len() {
        false
    } else if i >= x.len() {
        true
    } else {
        x[i] < y[i]
    }
}

/// The order of texts is irreflexive.
pub proof fn lemma_less_irreflexive(a: Seq<char>)
    ensures
        !less(a, a),
    decreases a.len(),
{
    if a.len() > 0 {
        lemma_less_irreflexive(a.skip(1));
    }
}

/// The order of texts is transitive.
pub proof fn lemma_less_transitive(a: Seq<char>, b: Seq<char>, c: Seq<char>)
    requires
        less(a, b),
        less(b, c),
    ensures
        less(a, c),
    decreases a.len(),
{
    if a.len() > 0 && b.len() > 0 && c.len() > 0 && a[0] == b[0] && b[0] == c[0] {
        lemma_less_transitive(a.skip(1), b.skip(1), c.skip(1));
    }
}

/// Of two different texts one comes before the other.
pub proof fn lemma_less_total(a: Seq<char>, b: Seq<char>)
    requires
        a != b,
    ensures
        less(a, b) || less(b, a),
    decreases a.len(),
{
    if a.len() == 0 || b.len() == 0 {
        if a.len() == 0 && b.len() == 0 {
            assert(a =~= b);
        }
    } else if a[0] == b[0] {
        if a.skip(1) == b.skip(1) {
            assert(a =~= seq![a[0]] + a.skip(1));
            assert(b =~= seq![b[0]] + b.skip(1));
        }
        lemma_less_total(a.skip(1), b.skip(1));
    }
}

/// A list in strictly ascending order.
pub open spec fn ascending(list: Seq<Seq<char>>) -> bool {
    forall|i: int, j: int| 0 <= i < j < list.len() ==> less(#[trigger] list[i], #[trigger] list[j])
}

/// Two lists with the same members.
pub open spec fn same_members(a: Seq<Seq<char>>, b: Seq<Seq<char>>) -> bool {
    forall|x: Seq<char>| a.contains(x) <==> b.contains(x)
}

/// What a list contains with one more member.
pub proof fn lemma_pushed(list: Seq<Seq<char>>, last: Seq<char>, name: Seq<char>)
    ensures
        list.push(last).contains(name) == (list.contains(name) || last == name),
{
    let all = list.push(last);
    if all.contains(name) {
        let i = choose|i: int| 0 <= i < all.len() && all[i] == name;
        if i < list.len() {
            assert(list[i] == name);
        }
    }
    if list.contains(name) {
        let i = choose|i: int| 0 <= i < list.len() && list[i] == name;
        assert(all[i] == name);
    }
    if last == name {
        assert(all[list.len() as int] == name);
    }
}

/// Puts a text into an ascending list, unless it is already there.
pub fn insert_ordered(list: &mut Vec<String>, item: String)
    requires
        ascending(texts(old(list)@)),
    ensures
        ascending(texts(final(list)@)),
        forall|x: Seq<char>|
            texts(final(list)@).contains(x) <==> (texts(old(list)@).contains(x) || x == item@),
{
    let ghost start = texts(list@);
    let mut at: usize = 0;
    while at < list.len() && is_less(list[at].as_str(), item.as_str())
        invariant
            at <= list@.len(),
            texts(list@) == start,
            forall|j: int| 0 <= j < at ==> less(#[trigger] start[j], item@),
        decreases list@.len() - at,
    {
        at = at + 1;
    }
    if at < list.len() && same_chars(
        chars_of(list[at].as_str()).as_slice(),
        chars_of(item.as_str()).as_slice(),
    ) {
        assert(start[at as int] == item@);
        return;
    }
    let ghost text = item@;
    proof {
        if at < start.len() {
            lemma_less_total(start[at as int], text);
            assert(less(text, start[at as int]));
            assert forall|j: int| at <= j < start.len() implies less(text, #[trigger] start[j]) by {
                if j > at {
                    lemma_less_transitive(text, start[at as int], start[j]);
                }
            }
        }
    }
    list.insert(at, item);
    let ghost done = texts(list@);
    assert(done =~= start.insert(at as int, text));
    proof {
        assert forall|x: Seq<char>| done.contains(x) <==> (start.contains(x) || x == text) by {
            if done.contains(x) {
                let i = choose|i: int| 0 <= i < done.len() && done[i] == x;
                if i < at {
                    assert(start[i] == x);
                } else if i > at {
                    assert(start[i - 1] == x);
                }
            }
            if start.contains(x) {
                let i = choose|i: int| 0 <= i < start.len() && start[i] == x;
                if i < at {
                    assert(done[i] == x);
                } else {
                    assert(done[i + 1] == x);
                }
            }
            if x == text {
                assert(done[at as int] == x);
            }
        }
    }
}

/// The members of a list in ascending order, each once.
pub open spec fn ordered(list: Seq<Seq<char>>) -> Seq<Seq<char>> {
    choose|r: Seq<Seq<char>>| ascending(r) && same_members(r, list)
}

/// Every list can be put in ascending order.
pub proof fn lemma_ordered(list: Seq<Seq<char>>)
    ensures
        ascending(ordered(list)),
        same_members(ordered(list), list),
{
    let r = lemma_sorted(list);
    assert(ascending(r) && same_members(r, list));
}

proof fn lemma_sorted(list: Seq<Seq<char>>) -> (r: Seq<Seq<char>>)
    ensures
        ascending(r),
        same_members(r, list),
    decreases list.len(),
{
    if list.len() == 0 {
        assert(list =~= Seq::empty());
        Seq::empty()
    } else {
        let was = list.drop_last();
        let text = list.last();
        let rest = lemma_sorted(was);
        let r = lemma_put(rest, text);
        assert forall|x: Seq<char>| r.contains(x) <==> list.contains(x) by {
            assert(rest.contains(x) <==> was.contains(x));
            if list.contains(x) {
                let k = choose|k: int| 0 <= k < list.len() && list[k] == x;
                if k < was.len() {
                    assert(was[k] == x);
                }
            }
            if was.contains(x) {
                let k = choose|k: int| 0 <= k < was.len() && was[k] == x;
                assert(list[k] == x);
            }
            if x == text {
                assert(list[list.len() - 1] == x);
            }
        }
        r
    }
}

/// A text has its place in an ascending list.
proof fn lemma_put(list: Seq<Seq<char>>, text: Seq<char>) -> (r: Seq<Seq<char>>)
    requires
        ascending(list),
    ensures
        ascending(r),
        forall|x: Seq<char>| r.contains(x) <==> (list.contains(x) || x == text),
    decreases list.len(),
{
    if list.len() == 0 {
        let r = seq![text];
        assert(r[0] == text);
        r
    } else {
        let last = list.last();
        let front = list.drop_last();
        assert(list[list.len() - 1] == last);
        if last == text {
            list
        } else if less(last, text) {
            let r = list.push(text);
            assert forall|i: int, j: int| 0 <= i < j < r.len() implies less(
                #[trigger] r[i],
                #[trigger] r[j],
            ) by {
                if j == list.len() && i < list.len() - 1 {
                    assert(less(list[i], list[list.len() - 1]));
                    lemma_less_transitive(list[i], last, text);
                }
            }
            assert forall|x: Seq<char>| r.contains(x) <==> (list.contains(x) || x == text) by {
                if list.contains(x) {
                    let k = choose|k: int| 0 <= k < list.len() && list[k] == x;
                    assert(r[k] == x);
                }
                if x == text {
                    assert(r[list.len() as int] == x);
                }
            }
            r
        } else {
            lemma_less_total(last, text);
            let head = lemma_put(front, text);
            let r = head.push(last);
            assert forall|i: int, j: int| 0 <= i < j < r.len() implies less(
                #[trigger] r[i],
                #[trigger] r[j],
            ) by {
                if j == head.len() {
                    assert(head.contains(r[i]));
                    if r[i] != text {
                        assert(front.contains(r[i]));
                        let k = choose|k: int| 0 <= k < front.len() && front[k] == r[i];
                        assert(less(list[k], list[list.len() - 1]));
                    }
                }
            }
            assert forall|x: Seq<char>| r.contains(x) <==> (list.contains(x) || x == text) by {
                assert(head.contains(x) <==> (front.contains(x) || x == text));
                if r.contains(x) {
                    let k = choose|k: int| 0 <= k < r.len() && r[k] == x;
                    if k < head.len() {
                        assert(head[k] == x);
                    }
                }
                if head.contains(x) {
                    let k = choose|k: int| 0 <= k < head.len() && head[k] == x;
                    assert(r[k] == x);
                }
                if list.contains(x) {
                    let k = choose|k: int| 0 <= k < list.len() && list[k] == x;
                    if k < front.len() {
                        assert(front[k] == x);
                    } else {
                        assert(r[head.len() as int] == x);
                    }
                }
                if front.contains(x) {
                    let k = choose|k: int| 0 <= k < front.len() && front[k] == x;
                    assert(list[k] == x);
                }
                if x == last {
                    assert(list[list.len() - 1] == x);
                }
            }
            r
        }
    }
}

/// Puts the members of a list in ascending order, each once.
pub fn ordered_of(list: &Vec<String>) -> (r: Vec<String>)
    ensures
        texts(r@) == ordered(texts(list@)),
        ascending(texts(r@)),
        same_members(texts(r@), texts(list@)),
{
    let mut r: Vec<String> = Vec::new();
    let mut i: usize = 0;
    assert(texts(r@) =~= texts(list@).take(0));
    while i < list.len()
        invariant
            i <= list@.len(),
            ascending(texts(r@)),
            same_members(texts(r@), texts(list@).take(i as int)),
        decreases list@.len() - i,
    {
        let ghost before = texts(r@);
        insert_ordered(&mut r, list[i].clone());
        i = i + 1;
        proof {
            let now = texts(list@).take(i as int);
            let was = texts(list@).take(i - 1);
            assert(now =~= was.push(list@[i - 1]@));
            assert forall|x: Seq<char>| texts(r@).contains(x) <==> now.contains(x) by {
                if was.contains(x) {
                    let k = choose|k: int| 0 <= k < was.len() && was[k] == x;
                    assert(now[k] == x);
                }
                if now.contains(x) {
                    let k = choose|k: int| 0 <= k < now.len() && now[k] == x;
                    if k < was.len() {
                        assert(was[k] == x);
                    }
                }
                if x == list@[i - 1]@ {
                    assert(now[i - 1] == x);
                }
                assert(before.contains(x) <==> was.contains(x));
            }
        }
    }
    assert(texts(list@).take(i as int) =~= texts(list@));
    proof {
        ascending_lists_with_the_same_members_are_equal(texts(r@), ordered(texts(list@)));
    }
    r
}

/// An ascending list is determined by its members.
pub proof fn ascending_lists_with_the_same_members_are_equal(a: Seq<Seq<char>>, b: Seq<Seq<char>>)
    requires
        ascending(a),
        ascending(b),
        same_members(a, b),
    ensures
        a == b,
    decreases a.len(),
{
    if a.len() == 0 {
        if b.len() > 0 {
            assert(b.contains(b[0]));
        }
        assert(a =~= b);
    } else {
        assert(a.contains(a[0]));
        let k = choose|k: int| 0 <= k < b.len() && b[k] == a[0];
        assert(b.contains(b[0]));
        let m = choose|m: int| 0 <= m < a.len() && a[m] == b[0];
        if k > 0 && m > 0 {
            assert(less(b[0], b[k]));
            assert(less(a[0], a[m]));
            lemma_less_transitive(a[0], b[0], a[0]);
            lemma_less_irreflexive(a[0]);
        }
        assert(a[0] == b[0]);
        let x = a.skip(1);
        let y = b.skip(1);
        assert forall|t: Seq<char>| x.contains(t) <==> y.contains(t) by {
            lemma_less_irreflexive(a[0]);
            if x.contains(t) {
                let i = choose|i: int| 0 <= i < x.len() && x[i] == t;
                assert(a[i + 1] == t);
                assert(less(a[0], a[i + 1]));
                assert(a.contains(t));
                let j = choose|j: int| 0 <= j < b.len() && b[j] == t;
                assert(j > 0);
                assert(y[j - 1] == t);
            }
            if y.contains(t) {
                let i = choose|i: int| 0 <= i < y.len() && y[i] == t;
                assert(b[i + 1] == t);
                assert(less(b[0], b[i + 1]));
                assert(b.contains(t));
                let j = choose|j: int| 0 <= j < a.len() && a[j] == t;
                assert(j > 0);
                assert(x[j - 1] == t);
            }
        }
        assert forall|i: int, j: int| 0 <= i < j < x.len() implies less(
            #[trigger] x[i],
            #[trigger] x[j],
        ) by {
            assert(less(a[i + 1], a[j + 1]));
        }
        assert forall|i: int, j: int| 0 <= i < j < y.len() implies less(
            #[trigger] y[i],
            #[trigger] y[j],
        ) by {
            assert(less(b[i + 1], b[j + 1]));
        }
        ascending_lists_with_the_same_members_are_equal(x, y);
        assert(a =~= seq![a[0]] + x);
        assert(b =~= seq![b[0]] + y);
    }
}

/// A line ends at its line feed, of which a carriage return right before it is a
/// part; the lines behind it are those of what follows.
pub proof fn a_line_ends_at_its_line_feed(a: Seq<char>, b: Seq<char>)
    requires
        !a.contains('\n'),
    ensures
        a.len() == 0 || a.last() != '\r' ==> lines(a.push('\n') + b) == seq![a] + lines(b),
        lines(a.push('\r').push('\n') + b) == seq![a] + lines(b),
        a.len() > 0 ==> lines(a) == seq![a],
        lines(Seq::empty()) == Seq::<Seq<char>>::empty(),
{
    let s = a.push('\n') + b;
    cutting_keeps_what_stands_before(a, '\n', b);
    assert(s.take(a.len() as int) =~= a);
    assert(s.skip(a.len() as int + 1) =~= b);
    let r = a.push('\r');
    assert(!r.contains('\n')) by {
        lemma_char_pushed(a, '\r', '\n');
    }
    cutting_keeps_what_stands_before(r, '\n', b);
    let t = r.push('\n') + b;
    assert(t.take(r.len() as int) =~= r);
    assert(t.skip(r.len() as int + 1) =~= b);
    assert(r.drop_last() =~= a);
}

proof fn lemma_char_pushed(a: Seq<char>, last: char, c: char)
    ensures
        a.push(last).contains(c) == (a.contains(c) || last == c),
{
    let all = a.push(last);
    if all.contains(c) {
        let i = choose|i: int| 0 <= i < all.len() && all[i] == c;
        if i < a.len() {
            assert(a[i] == c);
        }
    }
    if a.contains(c) {
        let i = choose|i: int| 0 <= i < a.len() && a[i] == c;
        assert(all[i] == c);
    }
    if last == c {
        assert(all[a.len() as int] == c);
    }
}

/// The lines of a text that goes on behind a line feed are the lines up to there
/// and then those of what follows.
pub proof fn lines_follow_each_other(a: Seq<char>, b: Seq<char>)
    ensures
        lines(a.push('\n') + b) == lines(a.push('\n')) + lines(b),
    decreases a.len(),
{
    let s = a.push('\n') + b;
    let t = a.push('\n');
    let n = find(a, '\n');
    lemma_find(a, '\n');
    lemma_find(s, '\n');
    lemma_find(t, '\n');
    assert(t[a.len() as int] == '\n');
    assert(s[a.len() as int] == '\n');
    assert forall|j: int| 0 <= j < n implies s[j] != '\n' && t[j] != '\n' by {
        assert(s[j] == a[j] && t[j] == a[j]);
    }
    if n < a.len() {
        assert(s[n] == '\n' && t[n] == '\n');
    }
    assert(find(s, '\n') == n);
    assert(find(t, '\n') == n);
    assert(s.take(n) =~= t.take(n));
    if n < a.len() {
        let rest = a.skip(n + 1);
        assert(s.skip(n + 1) =~= rest.push('\n') + b);
        assert(t.skip(n + 1) =~= rest.push('\n'));
        lines_follow_each_other(rest, b);
        assert(lines(s) =~= lines(t) + lines(b));
    } else {
        assert(s.skip(n + 1) =~= b);
        assert(t.skip(n + 1) =~= Seq::empty());
        assert(lines(Seq::<char>::empty()) =~= Seq::empty());
        assert(lines(s) =~= lines(t) + lines(b));
    }
}

/// A field ends at the separator and is kept whole unless it is empty; the fields
/// behind it are those of what follows.
pub proof fn a_field_ends_at_its_separator(a: Seq<char>, sep: char, b: Seq<char>)
    requires
        !a.contains(sep),
    ensures
        a.len() > 0 ==> fields(a.push(sep) + b, sep) == seq![a] + fields(b, sep),
        a.len() == 0 ==> fields(a.push(sep) + b, sep) == fields(b, sep),
        a.len() > 0 ==> fields(a, sep) == seq![a],
        fields(Seq::empty(), sep) == Seq::<Seq<char>>::empty(),
{
    let s = a.push(sep) + b;
    cutting_keeps_what_stands_before(a, sep, b);
    assert(s.take(a.len() as int) =~= a);
    assert(s.skip(a.len() as int + 1) =~= b);
    assert(a.take(a.len() as int) =~= a);
    assert(Seq::<Seq<char>>::empty() + fields(b, sep) =~= fields(b, sep));
}

/// The first word of a text is what stands between white space and white space.
pub proof fn the_first_word_stands_between_white_space(w: Seq<char>, x: Seq<char>, rest: Seq<char>)
    requires
        blank(w),
        forall|i: int| 0 <= i < x.len() ==> !white(#[trigger] x[i]),
        rest.len() > 0 ==> white(rest[0]),
        x.len() == 0 ==> rest.len() == 0,
    ensures
        first_word(w + x + rest) == x,
    decreases w.len(),
{
    let s = w + x + rest;
    if w.len() > 0 {
        assert(white(w[0]));
        assert(s[0] == w[0]);
        assert(s.skip(1) =~= w.skip(1) + x + rest);
        assert forall|i: int| 0 <= i < w.skip(1).len() implies white(#[trigger] w.skip(1)[i]) by {
            assert(white(w[i + 1]));
        }
        the_first_word_stands_between_white_space(w.skip(1), x, rest);
    } else {
        assert(s =~= x + rest);
        if x.len() > 0 {
            assert(!white(x[0]));
            assert(s[0] == x[0]);
            lemma_word(x, rest);
        } else {
            assert(s =~= Seq::empty());
            assert(x =~= Seq::empty());
        }
    }
}

proof fn lemma_word(x: Seq<char>, rest: Seq<char>)
    requires
        forall|i: int| 0 <= i < x.len() ==> !white(#[trigger] x[i]),
        rest.len() > 0 ==> white(rest[0]),
    ensures
        word(x + rest) == x,
    decreases x.len(),
{
    let s = x + rest;
    if x.len() > 0 {
        assert(!white(x[0]));
        assert(s.skip(1) =~= x.skip(1) + rest);
        assert forall|i: int| 0 <= i < x.skip(1).len() implies !white(#[trigger] x.skip(1)[i]) by {
            assert(!white(x[i + 1]));
        }
        lemma_word(x.skip(1), rest);
        assert(word(s) =~= x);
    } else {
        assert(s =~= rest);
        assert(x =~= Seq::empty());
    }
}

/// Joining puts the separator between each two texts and nowhere else, and
/// changes none of them.
pub proof fn joining_puts_the_separator_between(
    list: Seq<Seq<char>>,
    text: Seq<char>,
    sep: Seq<char>,
)
    ensures
        joined(Seq::empty(), sep) == Seq::<char>::empty(),
        joined(seq![text], sep) == text,
        list.len() > 0 ==> joined(list.push(text), sep) == joined(list, sep) + sep + text,
{
    assert(list.push(text).drop_last() =~= list);
}

/// The number that decimal digits spell.
pub open spec fn spelled(s: Seq<char>) -> int
    decreases s.len(),
{
    if s.len() == 0 {
        0
    } else {
        10 * spelled(s.drop_last()) + (s.last() as int - '0' as int)
    }
}

/// A number in decimal spells the number, in decimal digits alone, and without a
/// leading zero.
pub proof fn a_number_in_decimal_spells_it(n: nat)
    ensures
        spelled(decimal(n)) == n,
        decimal(n).len() > 0,
        forall|i: int| 0 <= i < decimal(n).len() ==> '0' <= #[trigger] decimal(n)[i] <= '9',
        n > 0 ==> decimal(n)[0] != '0',
    decreases n,
{
    let d = digit((n % 10) as int);
    assert(d as int == 0x30 + n % 10);
    if n < 10 {
        assert(decimal(n).drop_last() =~= Seq::empty());
        assert(decimal(n)[0] == d);
        assert(spelled(Seq::<char>::empty()) == 0);
    } else {
        a_number_in_decimal_spells_it(n / 10);
        let rest = decimal(n / 10);
        assert(decimal(n).drop_last() =~= rest);
        assert forall|i: int| 0 <= i < decimal(n).len() implies '0' <= #[trigger] decimal(n)[i]
            <= '9' by {
            if i < rest.len() {
                assert(decimal(n)[i] == rest[i]);
            }
        }
        assert(decimal(n)[0] == rest[0]);
    }
}

/// A text comes before another where they are alike up to a place at which it
/// ends, or has the smaller character; and nowhere else.
pub proof fn the_first_difference_decides(a: Seq<char>, b: Seq<char>)
    ensures
        less(a, b) <==> exists|k: int|
            {
                &&& 0 <= k <= a.len() && k < b.len()
                &&& a.take(k) == #[trigger] b.take(k)
                &&& k == a.len() || (a[k] as int) < (b[k] as int)
            },
    decreases a.len(),
{
    let parted = |x: Seq<char>, y: Seq<char>, k: int|
        {
            &&& 0 <= k <= x.len() && k < y.len()
            &&& x.take(k) == y.take(k)
            &&& k == x.len() || (x[k] as int) < (y[k] as int)
        };
    if b.len() > 0 {
        if a.len() == 0 || a[0] != b[0] {
            assert(a.take(0) =~= b.take(0));
            if exists|k: int|
                {
                    &&& 0 <= k <= a.len() && k < b.len()
                    &&& a.take(k) == #[trigger] b.take(k)
                    &&& k == a.len() || (a[k] as int) < (b[k] as int)
                } {
                let k = choose|k: int|
                    {
                        &&& 0 <= k <= a.len() && k < b.len()
                        &&& a.take(k) == #[trigger] b.take(k)
                        &&& k == a.len() || (a[k] as int) < (b[k] as int)
                    };
                if k > 0 && a.len() > 0 {
                    assert(a.take(k)[0] == b.take(k)[0]);
                }
            }
        } else {
            let x = a.skip(1);
            let y = b.skip(1);
            the_first_difference_decides(x, y);
            if less(x, y) {
                let k = choose|k: int|
                    {
                        &&& 0 <= k <= x.len() && k < y.len()
                        &&& x.take(k) == #[trigger] y.take(k)
                        &&& k == x.len() || (x[k] as int) < (y[k] as int)
                    };
                assert(a.take(k + 1) =~= seq![a[0]] + x.take(k));
                assert(b.take(k + 1) =~= seq![b[0]] + y.take(k));
                assert(a.take(k + 1) == b.take(k + 1));
                assert(parted(a, b, k + 1));
            }
            if exists|k: int|
                {
                    &&& 0 <= k <= a.len() && k < b.len()
                    &&& a.take(k) == #[trigger] b.take(k)
                    &&& k == a.len() || (a[k] as int) < (b[k] as int)
                } {
                let k = choose|k: int|
                    {
                        &&& 0 <= k <= a.len() && k < b.len()
                        &&& a.take(k) == #[trigger] b.take(k)
                        &&& k == a.len() || (a[k] as int) < (b[k] as int)
                    };
                assert(k > 0);
                assert(x.take(k - 1) =~= a.take(k).skip(1));
                assert(y.take(k - 1) =~= b.take(k).skip(1));
                assert(x.take(k - 1) == y.take(k - 1));
                assert(parted(x, y, k - 1));
            }
        }
    }
}

/// An ordered list has the members of the list, each once: every one is smaller
/// than those behind it.
pub proof fn an_ordered_list_ascends(list: Seq<Seq<char>>, name: Seq<char>, i: int, j: int)
    ensures
        ordered(list).contains(name) <==> list.contains(name),
        0 <= i < j < ordered(list).len() ==> less(ordered(list)[i], ordered(list)[j])
            && ordered(list)[i] != ordered(list)[j],
{
    lemma_ordered(list);
    if 0 <= i < j < ordered(list).len() {
        lemma_less_irreflexive(ordered(list)[i]);
    }
}

} // verus!
