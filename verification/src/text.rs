//! Text as sequences of characters: trimming, splitting, searching, joining.
//!
//! Every function here works on characters, so that its contract can speak of
//! the text itself and not of how it is encoded.
use vstd::prelude::*;
use vstd::utf8::{decode_utf8, encode_utf8, valid_utf8};

verus! {

/// The texts of a list of strings.
pub open spec fn texts(list: Seq<String>) -> Seq<Seq<char>> {
    list.map_values(|s: String| s@)
}

/// The text of an optional string.
pub open spec fn opt_text(s: Option<String>) -> Option<Seq<char>> {
    match s {
        Some(s) => Some(s@),
        None => None,
    }
}

/// The bytes of an optional buffer.
pub open spec fn opt_bytes(b: Option<Vec<u8>>) -> Option<Seq<u8>> {
    match b {
        Some(b) => Some(b@),
        None => None,
    }
}

/// `String::push` appends one character.
pub assume_specification[ String::push ](s: &mut String, c: char)
    ensures
        final(s)@ == old(s)@.push(c),
;

/// What `String::from_utf8_lossy` makes of a buffer.
pub uninterp spec fn lossy(bytes: Seq<u8>) -> Seq<char>;

/// Calls `String::from_utf8_lossy`: a function of the bytes alone, and their
/// exact decoding where they are valid UTF-8. Which characters replace an
/// invalid run is left to the standard library.
#[verifier::external_body]
pub(crate) fn decode_lossy(bytes: &Vec<u8>) -> (s: String)
    ensures
        s@ == lossy(bytes@),
        valid_utf8(bytes@) ==> s@ == decode_utf8(bytes@),
{
    String::from_utf8_lossy(bytes).into_owned()
}

/// The text that a buffer encodes, if it is valid UTF-8.
pub open spec fn decoded(bytes: Seq<u8>) -> Option<Seq<char>> {
    if valid_utf8(bytes) {
        Some(decode_utf8(bytes))
    } else {
        None
    }
}

/// Calls `String::from_utf8`: the decoded text exactly when the bytes are valid
/// UTF-8.
#[verifier::external_body]
pub(crate) fn decode(bytes: Vec<u8>) -> (s: Option<String>)
    ensures
        opt_text(s) == decoded(bytes@),
{
    String::from_utf8(bytes).ok()
}

/// The text that an optional buffer encodes, if there is one and it is valid
/// UTF-8.
pub open spec fn opt_decoded(bytes: Option<Seq<u8>>) -> Option<Seq<char>> {
    match bytes {
        Some(bytes) => decoded(bytes),
        None => None,
    }
}

/// Decodes an optional buffer.
pub fn decode_opt(bytes: Option<Vec<u8>>) -> (s: Option<String>)
    ensures
        opt_text(s) == opt_decoded(opt_bytes(bytes)),
{
    match bytes {
        Some(bytes) => decode(bytes),
        None => None,
    }
}

/// The characters of a string.
pub fn chars_of(s: &str) -> (out: Vec<char>)
    ensures
        out@ == s@,
{
    let mut out: Vec<char> = Vec::new();
    for c in it: s.chars()
        invariant
            it.seq() == s@,
            out@ == s@.take(it.index() as int),
    {
        out.push(c);
        assert(s@.take(it.index() + 1) =~= s@.take(it.index() as int).push(c));
    }
    assert(s@.take(s@.len() as int) =~= s@);
    out
}

/// The string with the given characters.
pub fn string_of(chars: &[char]) -> (s: String)
    ensures
        s@ == chars@,
{
    let mut s = String::new();
    let mut i: usize = 0;
    while i < chars.len()
        invariant
            i <= chars@.len(),
            s@ == chars@.take(i as int),
        decreases chars@.len() - i,
    {
        s.push(chars[i]);
        i = i + 1;
        assert(chars@.take(i as int) =~= chars@.take(i - 1).push(chars@[i - 1]));
    }
    assert(chars@.take(i as int) =~= chars@);
    s
}

/// Whether two strings hold the same text.
pub fn same(a: &str, b: &str) -> (r: bool)
    ensures
        r == (a@ == b@),
{
    a.to_owned() == b.to_owned()
}

/// Whether two character runs are equal.
pub fn same_chars(a: &[char], b: &[char]) -> (r: bool)
    ensures
        r == (a@ == b@),
{
    if a.len() != b.len() {
        return false;
    }
    let mut i: usize = 0;
    while i < a.len()
        invariant
            i <= a@.len(),
            a@.len() == b@.len(),
            a@.take(i as int) == b@.take(i as int),
        decreases a@.len() - i,
    {
        if a[i] != b[i] {
            return false;
        }
        i = i + 1;
        assert(a@.take(i as int) =~= a@.take(i - 1).push(a@[i - 1]));
        assert(b@.take(i as int) =~= b@.take(i - 1).push(b@[i - 1]));
    }
    assert(a@.take(i as int) =~= a@);
    assert(b@.take(i as int) =~= b@);
    true
}

/// Whether a character run is the given literal.
pub fn chars_are(a: &[char], b: &str) -> (r: bool)
    ensures
        r == (a@ == b@),
{
    let b = chars_of(b);
    same_chars(a, b.as_slice())
}

/// Whether two buffers hold the same bytes.
pub fn same_bytes(a: &Vec<u8>, b: &Vec<u8>) -> (r: bool)
    ensures
        r == (a@ == b@),
{
    let r = *a == *b;
    assert(r ==> a@ =~= b@);
    r
}

/// Whether two optional buffers are equal.
pub fn same_opt_bytes(a: &Option<Vec<u8>>, b: &Option<Vec<u8>>) -> (r: bool)
    ensures
        r == (opt_bytes(*a) == opt_bytes(*b)),
{
    match (a, b) {
        (Some(a), Some(b)) => same_bytes(a, b),
        (None, None) => true,
        _ => false,
    }
}

/// Whether a list holds a text.
pub fn contains(list: &Vec<String>, name: &str) -> (r: bool)
    ensures
        r == texts(list@).contains(name@),
{
    let mut i: usize = 0;
    while i < list.len()
        invariant
            i <= list@.len(),
            forall|j: int| 0 <= j < i ==> #[trigger] texts(list@)[j] != name@,
        decreases list@.len() - i,
    {
        if same(list[i].as_str(), name) {
            assert(texts(list@)[i as int] == name@);
            return true;
        }
        i = i + 1;
    }
    false
}

/// A copy of a list of strings.
pub fn clone_list(list: &Vec<String>) -> (out: Vec<String>)
    ensures
        texts(out@) == texts(list@),
{
    let mut out: Vec<String> = Vec::new();
    let mut i: usize = 0;
    while i < list.len()
        invariant
            i <= list@.len(),
            texts(out@) == texts(list@).take(i as int),
        decreases list@.len() - i,
    {
        let ghost before = out@;
        out.push(list[i].clone());
        i = i + 1;
        assert(texts(out@) =~= texts(before).push(list@[i - 1]@));
        assert(texts(list@).take(i as int) =~= texts(list@).take(i - 1).push(list@[i - 1]@));
    }
    assert(texts(list@).take(i as int) =~= texts(list@));
    out
}

/// A copy of a buffer.
pub fn clone_bytes(bytes: &Vec<u8>) -> (out: Vec<u8>)
    ensures
        out@ == bytes@,
{
    vstd::slice::slice_to_vec(bytes.as_slice())
}

/// A copy of an optional buffer.
pub fn clone_opt_bytes(bytes: &Option<Vec<u8>>) -> (out: Option<Vec<u8>>)
    ensures
        opt_bytes(out) == opt_bytes(*bytes),
{
    match bytes {
        Some(b) => Some(clone_bytes(b)),
        None => None,
    }
}

/// The Unicode property `White_Space`.
pub open spec fn white(c: char) -> bool {
    let u = c as u32;
    ||| 0x9 <= u <= 0xd
    ||| u == 0x20
    ||| u == 0x85
    ||| u == 0xa0
    ||| u == 0x1680
    ||| 0x2000 <= u <= 0x200a
    ||| u == 0x2028
    ||| u == 0x2029
    ||| u == 0x202f
    ||| u == 0x205f
    ||| u == 0x3000
}

/// Whether a character is white space.
pub fn is_white(c: char) -> (r: bool)
    ensures
        r == white(c),
{
    let u: u32 = c as u32;
    (0x9 <= u && u <= 0xd) || u == 0x20 || u == 0x85 || u == 0xa0 || u == 0x1680 || (0x2000 <= u
        && u <= 0x200a) || u == 0x2028 || u == 0x2029 || u == 0x202f || u == 0x205f || u == 0x3000
}

/// A text without its leading white space.
pub open spec fn trim_start(s: Seq<char>) -> Seq<char>
    decreases s.len(),
{
    if s.len() > 0 && white(s[0]) {
        trim_start(s.skip(1))
    } else {
        s
    }
}

/// A text without its trailing white space.
pub open spec fn trim_end(s: Seq<char>) -> Seq<char>
    decreases s.len(),
{
    if s.len() > 0 && white(s.last()) {
        trim_end(s.drop_last())
    } else {
        s
    }
}

/// A text without the white space at its two ends.
pub open spec fn trim(s: Seq<char>) -> Seq<char> {
    trim_end(trim_start(s))
}

/// Drops leading white space.
pub fn trim_start_of(s: &[char]) -> (r: &[char])
    ensures
        r@ == trim_start(s@),
{
    let mut i: usize = 0;
    assert(s@.skip(0) =~= s@);
    while i < s.len() && is_white(s[i])
        invariant
            i <= s@.len(),
            trim_start(s@) == trim_start(s@.skip(i as int)),
        decreases s@.len() - i,
    {
        i = i + 1;
        assert(s@.skip(i - 1).skip(1) =~= s@.skip(i as int));
    }
    assert(s@.subrange(i as int, s@.len() as int) =~= s@.skip(i as int));
    vstd::slice::slice_subrange(s, i, s.len())
}

/// Drops trailing white space.
pub fn trim_end_of(s: &[char]) -> (r: &[char])
    ensures
        r@ == trim_end(s@),
{
    let mut n: usize = s.len();
    assert(s@.take(n as int) =~= s@);
    while n > 0 && is_white(s[n - 1])
        invariant
            n <= s@.len(),
            trim_end(s@) == trim_end(s@.take(n as int)),
        decreases n,
    {
        n = n - 1;
        assert(s@.take(n + 1).drop_last() =~= s@.take(n as int));
    }
    assert(s@.subrange(0, n as int) =~= s@.take(n as int));
    vstd::slice::slice_subrange(s, 0, n)
}

/// Drops the white space at both ends.
pub fn trim_of(s: &[char]) -> (r: &[char])
    ensures
        r@ == trim(s@),
{
    trim_end_of(trim_start_of(s))
}

/// The trimmed text of a string.
pub fn trimmed(s: &str) -> (r: String)
    ensures
        r@ == trim(s@),
{
    let c = chars_of(s);
    string_of(trim_of(c.as_slice()))
}

/// Where a character first occurs; the length of the text where it does not.
pub open spec fn find(s: Seq<char>, c: char) -> int
    decreases s.len(),
{
    if s.len() == 0 || s[0] == c {
        0
    } else {
        1 + find(s.skip(1), c)
    }
}

/// `find` is the first position at which the character stands.
pub proof fn lemma_find(s: Seq<char>, c: char)
    ensures
        0 <= find(s, c) <= s.len(),
        forall|j: int| 0 <= j < find(s, c) ==> s[j] != c,
        find(s, c) < s.len() ==> s[find(s, c)] == c,
    decreases s.len(),
{
    if s.len() == 0 || s[0] == c {
    } else {
        lemma_find(s.skip(1), c);
        assert forall|j: int| 0 <= j < find(s, c) implies s[j] != c by {
            if j > 0 {
                assert(s.skip(1)[j - 1] == s[j]);
            }
        }
    }
}

/// Looks for the first occurrence of a character.
pub fn find_in(s: &[char], c: char) -> (i: usize)
    ensures
        i == find(s@, c),
        i <= s@.len(),
        i < s@.len() ==> s@[i as int] == c,
        forall|j: int| 0 <= j < i ==> s@[j] != c,
{
    let mut i: usize = 0;
    proof {
        lemma_find(s@, c);
    }
    while i < s.len() && s[i] != c
        invariant
            i <= s@.len(),
            i <= find(s@, c) <= s@.len(),
            find(s@, c) < s@.len() ==> s@[find(s@, c)] == c,
            forall|j: int| 0 <= j < find(s@, c) ==> s@[j] != c,
        decreases s@.len() - i,
    {
        i = i + 1;
    }
    i
}

/// The part of a text before the first occurrence of a character.
pub open spec fn before(s: Seq<char>, c: char) -> Seq<char> {
    s.take(find(s, c))
}

/// Cuts a text at the first occurrence of a character.
pub fn before_in(s: &[char], c: char) -> (r: &[char])
    ensures
        r@ == before(s@, c),
{
    let i = find_in(s, c);
    assert(s@.subrange(0, i as int) =~= s@.take(i as int));
    vstd::slice::slice_subrange(s, 0, i)
}

/// Whether a text begins with another.
pub open spec fn begins(s: Seq<char>, p: Seq<char>) -> bool {
    p.len() <= s.len() && s.take(p.len() as int) == p
}

/// Whether a text ends with another.
pub open spec fn ends(s: Seq<char>, p: Seq<char>) -> bool {
    p.len() <= s.len() && s.skip(s.len() - p.len()) == p
}

/// Whether a text begins with a literal.
pub fn begins_with(s: &[char], p: &str) -> (r: bool)
    ensures
        r == begins(s@, p@),
{
    let p = chars_of(p);
    if p.len() <= s.len() {
        assert(s@.subrange(0, p@.len() as int) =~= s@.take(p@.len() as int));
        same_chars(vstd::slice::slice_subrange(s, 0, p.len()), p.as_slice())
    } else {
        false
    }
}

/// What follows a prefix, where a text has it.
pub open spec fn after_prefix(s: Seq<char>, p: Seq<char>) -> Option<Seq<char>> {
    if begins(s, p) {
        Some(s.skip(p.len() as int))
    } else {
        None
    }
}

/// Takes a literal prefix off a text.
pub fn strip_prefix<'a>(s: &'a [char], p: &str) -> (r: Option<&'a [char]>)
    ensures
        match r {
            Some(rest) => after_prefix(s@, p@) == Some(rest@),
            None => after_prefix(s@, p@) is None,
        },
{
    let p = chars_of(p);
    if p.len() <= s.len() {
        assert(s@.subrange(0, p@.len() as int) =~= s@.take(p@.len() as int));
        assert(s@.subrange(p@.len() as int, s@.len() as int) =~= s@.skip(p@.len() as int));
        if same_chars(vstd::slice::slice_subrange(s, 0, p.len()), p.as_slice()) {
            return Some(vstd::slice::slice_subrange(s, p.len(), s.len()));
        }
    }
    None
}

/// Whether a text ends with a literal.
pub fn ends_with(s: &[char], p: &str) -> (r: bool)
    ensures
        r == ends(s@, p@),
{
    let p = chars_of(p);
    if p.len() <= s.len() {
        let from: usize = s.len() - p.len();
        assert(s@.subrange(from as int, s@.len() as int) =~= s@.skip(from as int));
        same_chars(vstd::slice::slice_subrange(s, from, s.len()), p.as_slice())
    } else {
        false
    }
}

/// The characters that count as white space are the twenty-five that Unicode
/// gives the property, and no others.
pub proof fn white_space_is_what_unicode_says(c: char)
    ensures
        white(c) <==> seq![
            '\u{9}', '\u{a}', '\u{b}', '\u{c}', '\u{d}', '\u{20}', '\u{85}', '\u{a0}',
            '\u{1680}', '\u{2000}', '\u{2001}', '\u{2002}', '\u{2003}', '\u{2004}', '\u{2005}',
            '\u{2006}', '\u{2007}', '\u{2008}', '\u{2009}', '\u{200a}', '\u{2028}', '\u{2029}',
            '\u{202f}', '\u{205f}', '\u{3000}',
        ].contains(c),
{
    let all = seq![
        '\u{9}', '\u{a}', '\u{b}', '\u{c}', '\u{d}', '\u{20}', '\u{85}', '\u{a0}', '\u{1680}',
        '\u{2000}', '\u{2001}', '\u{2002}', '\u{2003}', '\u{2004}', '\u{2005}', '\u{2006}',
        '\u{2007}', '\u{2008}', '\u{2009}', '\u{200a}', '\u{2028}', '\u{2029}', '\u{202f}',
        '\u{205f}', '\u{3000}',
    ];
    assert forall|i: int| 0 <= i < 25 implies white(#[trigger] all[i]) by {}
    if white(c) {
        let u = c as u32;
        let i: int = if u <= 0xd {
            u - 0x9
        } else if u == 0x20 {
            5
        } else if u == 0x85 {
            6
        } else if u == 0xa0 {
            7
        } else if u == 0x1680 {
            8
        } else if u <= 0x200a {
            u - 0x2000 + 9
        } else if u == 0x2028 {
            20
        } else if u == 0x2029 {
            21
        } else if u == 0x202f {
            22
        } else if u == 0x205f {
            23
        } else {
            24
        };
        assert(all[i] == c);
    }
    if all.contains(c) {
        let i = choose|i: int| 0 <= i < all.len() && all[i] == c;
        assert(white(all[i]));
    }
}

/// A text of white space alone.
pub open spec fn blank(s: Seq<char>) -> bool {
    forall|i: int| 0 <= i < s.len() ==> white(#[trigger] s[i])
}

/// White space before a text is trimmed, and nothing of the text is.
pub proof fn leading_white_space_is_trimmed(w: Seq<char>, s: Seq<char>)
    requires
        blank(w),
        s.len() > 0 ==> !white(s[0]),
    ensures
        trim_start(w + s) == s,
    decreases w.len(),
{
    if w.len() == 0 {
        assert(w + s =~= s);
    } else {
        assert(white(w[0]));
        assert((w + s)[0] == w[0]);
        assert((w + s).skip(1) =~= w.skip(1) + s);
        assert forall|i: int| 0 <= i < w.skip(1).len() implies white(#[trigger] w.skip(1)[i]) by {
            assert(white(w[i + 1]));
        }
        leading_white_space_is_trimmed(w.skip(1), s);
    }
}

/// White space behind a text is trimmed, and nothing of the text is.
pub proof fn trailing_white_space_is_trimmed(s: Seq<char>, w: Seq<char>)
    requires
        blank(w),
        s.len() > 0 ==> !white(s.last()),
    ensures
        trim_end(s + w) == s,
    decreases w.len(),
{
    if w.len() == 0 {
        assert(s + w =~= s);
    } else {
        assert(white(w[w.len() - 1]));
        assert((s + w).last() == w.last());
        assert((s + w).drop_last() =~= s + w.drop_last());
        assert forall|i: int| 0 <= i < w.drop_last().len() implies white(
            #[trigger] w.drop_last()[i],
        ) by {
            assert(white(w[i]));
        }
        trailing_white_space_is_trimmed(s, w.drop_last());
    }
}

/// Trimming takes the white space at the two ends of a text, all of it, and
/// nothing else.
pub proof fn trimming_takes_white_space_alone(a: Seq<char>, s: Seq<char>, b: Seq<char>)
    requires
        blank(a),
        blank(b),
        s.len() > 0 ==> !white(s[0]) && !white(s.last()),
    ensures
        trim(a + s + b) == s,
{
    if s.len() > 0 {
        assert(a + s + b =~= a + (s + b));
        assert((s + b)[0] == s[0]);
        leading_white_space_is_trimmed(a, s + b);
        trailing_white_space_is_trimmed(s, b);
    } else {
        assert(a + s + b =~= (a + b) + Seq::empty());
        assert(blank(a + b)) by {
            assert forall|i: int| 0 <= i < (a + b).len() implies white(#[trigger] (a + b)[i]) by {
                if i < a.len() {
                    assert(white(a[i]));
                } else {
                    assert(white(b[i - a.len()]));
                }
            }
        }
        leading_white_space_is_trimmed(a + b, Seq::empty());
        assert(trim_end(Seq::<char>::empty()) =~= Seq::empty());
        assert(s =~= Seq::empty());
    }
}

/// What white space a text starts with.
pub proof fn lemma_trim_start(s: Seq<char>) -> (w: Seq<char>)
    ensures
        blank(w),
        s == w + trim_start(s),
        trim_start(s).len() > 0 ==> !white(trim_start(s)[0]),
    decreases s.len(),
{
    if s.len() > 0 && white(s[0]) {
        let rest = lemma_trim_start(s.skip(1));
        let w = seq![s[0]] + rest;
        assert(blank(w)) by {
            assert forall|i: int| 0 <= i < w.len() implies white(#[trigger] w[i]) by {
                if i > 0 {
                    assert(white(rest[i - 1]));
                }
            }
        }
        assert(s =~= seq![s[0]] + s.skip(1));
        assert(seq![s[0]] + (rest + trim_start(s)) =~= w + trim_start(s));
        w
    } else {
        assert(s =~= Seq::empty() + s);
        Seq::empty()
    }
}

/// What white space a text ends with.
pub proof fn lemma_trim_end(s: Seq<char>) -> (w: Seq<char>)
    ensures
        blank(w),
        s == trim_end(s) + w,
        trim_end(s).len() > 0 ==> !white(trim_end(s).last()) && trim_end(s)[0] == s[0],
    decreases s.len(),
{
    if s.len() > 0 && white(s.last()) {
        let rest = lemma_trim_end(s.drop_last());
        let w = rest.push(s.last());
        assert(blank(w)) by {
            assert forall|i: int| 0 <= i < w.len() implies white(#[trigger] w[i]) by {
                if i < rest.len() {
                    assert(white(rest[i]));
                }
            }
        }
        assert(s =~= s.drop_last().push(s.last()));
        assert((trim_end(s) + rest).push(s.last()) =~= trim_end(s) + w);
        w
    } else {
        assert(s =~= s + Seq::empty());
        Seq::empty()
    }
}

/// A text is what is left of it when it is trimmed, with white space around.
pub proof fn a_text_is_its_trimmed_text_with_white_space_around(s: Seq<char>) -> (r: (
    Seq<char>,
    Seq<char>,
))
    ensures
        blank(r.0),
        blank(r.1),
        s == r.0 + trim(s) + r.1,
        trim(s).len() > 0 ==> !white(trim(s)[0]) && !white(trim(s).last()),
{
    let a = lemma_trim_start(s);
    let b = lemma_trim_end(trim_start(s));
    assert(s =~= a + trim(s) + b);
    (a, b)
}

/// The part of a text before a character is all that stands before its first
/// occurrence; without one it is the whole text.
pub proof fn cutting_keeps_what_stands_before(a: Seq<char>, c: char, b: Seq<char>)
    requires
        !a.contains(c),
    ensures
        before(a.push(c) + b, c) == a,
        before(a, c) == a,
        find(a.push(c) + b, c) == a.len(),
        find(a, c) == a.len(),
{
    let s = a.push(c) + b;
    lemma_find(s, c);
    lemma_find(a, c);
    assert(s[a.len() as int] == c);
    assert forall|j: int| 0 <= j < a.len() implies s[j] != c && a[j] != c by {
        assert(s[j] == a[j]);
        assert(a.contains(a[j]));
    }
    assert(s.take(a.len() as int) =~= a);
    assert(a.take(a.len() as int) =~= a);
}

/// A text begins with another exactly where it is that one and something behind
/// it, and what follows the prefix is just that.
pub proof fn a_prefix_is_followed_by_the_rest(p: Seq<char>, rest: Seq<char>, s: Seq<char>)
    ensures
        begins(p + rest, p),
        after_prefix(p + rest, p) == Some(rest),
        begins(s, p) <==> exists|t: Seq<char>| s == #[trigger] (p + t),
        after_prefix(s, p) is Some <==> begins(s, p),
{
    assert((p + rest).take(p.len() as int) =~= p);
    assert((p + rest).skip(p.len() as int) =~= rest);
    if begins(s, p) {
        assert(s =~= p + s.skip(p.len() as int));
    }
    if exists|t: Seq<char>| s == #[trigger] (p + t) {
        let t = choose|t: Seq<char>| s == #[trigger] (p + t);
        assert((p + t).take(p.len() as int) =~= p);
    }
}

/// A text ends with another exactly where it is something and that one behind it.
pub proof fn a_suffix_follows_the_rest(p: Seq<char>, s: Seq<char>)
    ensures
        ends(s, p) <==> exists|t: Seq<char>| s == #[trigger] (t + p),
{
    if ends(s, p) {
        assert(s =~= s.take(s.len() - p.len()) + p);
    }
    if exists|t: Seq<char>| s == #[trigger] (t + p) {
        let t = choose|t: Seq<char>| s == #[trigger] (t + p);
        assert((t + p).skip(s.len() - p.len()) =~= p);
    }
}

/// Decoding gives back every text that was encoded, and what it gives for bytes
/// encodes to just these bytes.
pub proof fn decoding_undoes_encoding(text: Seq<char>, bytes: Seq<u8>)
    ensures
        decoded(encode_utf8(text)) == Some(text),
        opt_decoded(Some(encode_utf8(text))) == Some(text),
        decoded(bytes) matches Some(t) ==> encode_utf8(t) == bytes,
        opt_decoded(Some(bytes)) matches Some(t) ==> encode_utf8(t) == bytes,
        opt_decoded(None) is None,
{
    vstd::utf8::encode_utf8_valid_utf8(text);
    vstd::utf8::encode_utf8_decode_utf8(text);
    if valid_utf8(bytes) {
        vstd::utf8::decode_utf8_encode_utf8(bytes);
    }
}

} // verus!
