//! Compiler diagnostics, as `cargo` prints them: one JSON document on a line.
use vstd::prelude::*;

use crate::json::{
    as_text, as_whole, document, element, field, item, member, parse, rendered, rendering,
};
use crate::json::{text_in, tree, whole_in, Json};
use crate::list::{lines, lines_of};
use crate::manifest::{all_digits, is_digit};
use crate::suggest::{all_edits, suggested, suggestions, Edits, Wanted};
use crate::text::{chars_of, decode_lossy, lossy, opt_text, same, texts};

verus! {

/// What the hook reads of one line of `cargo`'s output, over the kind of text.
#[derive(Debug)]
pub struct Message<S> {
    /// What the line reports.
    pub reason: Option<S>,
    /// How severe the diagnostic is.
    pub level: Option<S>,
    /// The error code or the name of the lint.
    pub code: Option<S>,
    /// The file of the first span.
    pub file_name: Option<S>,
    /// The line that the first span starts on.
    pub line_start: Option<u64>,
    /// The diagnostic itself, as JSON.
    pub rendered: S,
}

impl View for Message<String> {
    type V = Message<Seq<char>>;

    open spec fn view(&self) -> Message<Seq<char>> {
        Message {
            reason: opt_text(self.reason),
            level: opt_text(self.level),
            code: opt_text(self.code),
            file_name: opt_text(self.file_name),
            line_start: self.line_start,
            rendered: self.rendered@,
        }
    }
}

/// What the hook reads of a document.
pub open spec fn message_in(doc: Json) -> Message<Seq<char>> {
    let message = field(doc, "message"@);
    let span = item(field(message, "spans"@), 0);
    Message {
        reason: as_text(field(doc, "reason"@)),
        level: as_text(field(message, "level"@)),
        code: as_text(field(field(message, "code"@), "code"@)),
        file_name: as_text(field(span, "file_name"@)),
        line_start: as_whole(field(span, "line_start"@)),
        rendered: rendering(message),
    }
}

/// Reads a document of output.
pub fn message_of(doc: &serde_json::Value) -> (r: Message<String>)
    ensures
        r@ == message_in(tree(*doc)),
{
    let message = member(doc, "message");
    let span = element(member(message, "spans"), 0);
    Message {
        reason: text_in(member(doc, "reason")),
        level: text_in(member(message, "level")),
        code: text_in(member(member(message, "code"), "code")),
        file_name: text_in(member(span, "file_name")),
        line_start: whole_in(member(span, "line_start")),
        rendered: rendered(message),
    }
}

/// Reads one line of output; a line that is no JSON has no message.
pub fn read_message(line: &str) -> (r: Option<Message<String>>)
    ensures
        match r {
            Some(message) => document(line@) matches Some(doc) && message@ == message_in(doc),
            None => document(line@) is None,
        },
{
    match parse(line) {
        Some(doc) => Some(message_of(&doc)),
        None => None,
    }
}

/// A code of a hard error of the compiler: `E` and four digits.
pub open spec fn hard_error(code: Seq<char>) -> bool {
    &&& code.len() == 5
    &&& code[0] == 'E'
    &&& forall|i: int| 1 <= i < 5 ==> is_digit(#[trigger] code[i])
}

/// The name of the lint behind a diagnostic; a hard error has none.
pub open spec fn lint(message: Message<Seq<char>>) -> Option<Seq<char>> {
    match message.code {
        Some(code) => if hard_error(code) {
            None
        } else {
            Some(code)
        },
        None => None,
    }
}

/// The name of the lint behind a diagnostic; a hard error of the compiler, or a
/// diagnostic without a code, has none.
pub fn lint_code(message: &Message<String>) -> (r: Option<String>)
    ensures
        opt_text(r) == lint(message@),
{
    match &message.code {
        Some(code) => {
            let c = chars_of(code.as_str());
            let mut hard = false;
            if c.len() == 5 && c[0] == 'E' {
                let digits = vstd::slice::slice_subrange(c.as_slice(), 1, 5);
                hard = all_digits(digits);
                proof {
                    assert forall|i: int| 1 <= i < 5 && hard implies is_digit(#[trigger] c@[i]) by {
                        assert(digits@[i - 1] == c@[i]);
                    }
                    if !hard {
                        let i = choose|i: int| 0 <= i < digits@.len() && !is_digit(#[trigger] digits@[i]);
                        assert(digits@[i] == c@[i + 1]);
                    }
                }
            }
            if hard {
                None
            } else {
                Some(code.clone())
            }
        },
        None => None,
    }
}

/// A diagnostic and the suggestions that can be applied for it.
#[derive(Debug)]
pub struct Diagnostic {
    pub message: Message<String>,
    pub fixes: Vec<rustfix::Suggestion>,
}

/// A diagnostic and its suggestions, as contracts speak of them.
#[verifier::ext_equal]
pub struct Diag {
    pub message: Message<Seq<char>>,
    pub fixes: Seq<Edits>,
}

impl View for Diagnostic {
    type V = Diag;

    open spec fn view(&self) -> Diag {
        Diag { message: self.message@, fixes: all_edits(self.fixes@) }
    }
}

/// The machine-applicable suggestions of a diagnostic; none where its JSON is
/// not of the shape that the compiler prints.
pub open spec fn machine_applicable(diagnostic: Seq<char>) -> Seq<Edits> {
    match suggested(diagnostic, Seq::empty(), Wanted::MachineApplicable) {
        Some(list) => list,
        None => Seq::empty(),
    }
}

fn machine_applicable_of(diagnostic: &str) -> (r: Vec<rustfix::Suggestion>)
    ensures
        all_edits(r@) == machine_applicable(diagnostic@),
{
    let only: Vec<String> = Vec::new();
    assert(texts(only@) =~= Seq::empty());
    match suggestions(diagnostic, &only, Wanted::MachineApplicable) {
        Some(list) => list,
        None => {
            let r: Vec<rustfix::Suggestion> = Vec::new();
            assert(all_edits(r@) =~= Seq::empty());
            r
        },
    }
}

/// The diagnostic on a line of output: the line is JSON, and it reports a
/// message of the compiler.
pub open spec fn diag_in(line: Seq<char>) -> Option<Diag> {
    match document(line) {
        Some(doc) => {
            let message = message_in(doc);
            if message.reason == Some("compiler-message"@) {
                Some(Diag { message, fixes: machine_applicable(message.rendered) })
            } else {
                None
            }
        },
        None => None,
    }
}

/// Whether an optional text is a literal.
pub fn is_text(text: &Option<String>, literal: &str) -> (r: bool)
    ensures
        r == (opt_text(*text) == Some(literal@)),
{
    match text {
        Some(text) => same(text.as_str(), literal),
        None => false,
    }
}

/// Reads the diagnostic on a line of output, with its suggestions.
pub fn read_diagnostic(line: &str) -> (r: Option<Diagnostic>)
    ensures
        match r {
            Some(d) => diag_in(line@) == Some(d@),
            None => diag_in(line@) is None,
        },
{
    match read_message(line) {
        Some(message) => {
            if is_text(&message.reason, "compiler-message") {
                let fixes = machine_applicable_of(message.rendered.as_str());
                Some(Diagnostic { message, fixes })
            } else {
                None
            }
        },
        None => None,
    }
}

/// The contents of a list of diagnostics.
pub open spec fn diags(list: Seq<Diagnostic>) -> Seq<Diag> {
    list.map_values(|d: Diagnostic| d@)
}

/// The diagnostics on lines of output, in order.
pub open spec fn diags_in(lines: Seq<Seq<char>>) -> Seq<Diag>
    decreases lines.len(),
{
    if lines.len() == 0 {
        Seq::empty()
    } else {
        match diag_in(lines.last()) {
            Some(d) => diags_in(lines.drop_last()).push(d),
            None => diags_in(lines.drop_last()),
        }
    }
}

/// Reads the diagnostics in the output of `cargo`, in order.
pub fn read_diagnostics(output: &Vec<u8>) -> (r: Vec<Diagnostic>)
    ensures
        diags(r@) == diags_in(lines(lossy(output@))),
{
    let text = decode_lossy(output);
    diagnostics_of(text.as_str())
}

/// Reads the diagnostics in a text, in order.
pub fn diagnostics_of(text: &str) -> (r: Vec<Diagnostic>)
    ensures
        diags(r@) == diags_in(lines(text@)),
{
    let list = lines_of(text);
    let ghost all = texts(list@);
    let mut r: Vec<Diagnostic> = Vec::new();
    let mut i: usize = 0;
    assert(all.take(0) =~= Seq::empty());
    assert(diags(r@) =~= diags_in(all.take(0)));
    while i < list.len()
        invariant
            i <= list@.len(),
            all == texts(list@),
            diags(r@) == diags_in(all.take(i as int)),
        decreases list@.len() - i,
    {
        let ghost before = r@;
        assert(all.take(i + 1).drop_last() =~= all.take(i as int));
        assert(all.take(i + 1).last() == list@[i as int]@);
        if let Some(d) = read_diagnostic(list[i].as_str()) {
            r.push(d);
            assert(diags(r@) =~= diags(before).push(d@));
        }
        i = i + 1;
    }
    assert(all.take(i as int) =~= all);
    r
}

/// An `E` and four digits.
pub open spec fn numbered_error(code: Seq<char>) -> bool {
    exists|a: char, b: char, c: char, d: char|
        {
            &&& code == #[trigger] seq!['E', a, b, c, d]
            &&& '0' <= a <= '9'
            &&& '0' <= b <= '9'
            &&& '0' <= c <= '9'
            &&& '0' <= d <= '9'
        }
}

/// The code of a hard error is an `E` and four digits, and nothing else is one.
pub proof fn a_hard_error_has_a_number(code: Seq<char>)
    ensures
        hard_error(code) == numbered_error(code),
{
    if hard_error(code) {
        assert(code =~= seq!['E', code[1], code[2], code[3], code[4]]);
        assert(is_digit(code[1]) && is_digit(code[2]) && is_digit(code[3]) && is_digit(code[4]));
    }
}

/// A diagnostic comes from a lint exactly where it has a code that is no number
/// of a hard error, and the lint's name is that code, whole.
pub proof fn a_lint_is_named_by_its_code(message: Message<Seq<char>>, code: Seq<char>)
    ensures
        lint(message) == Some(code) <==> message.code == Some(code) && !numbered_error(code),
{
    a_hard_error_has_a_number(code);
    if let Some(own) = message.code {
        a_hard_error_has_a_number(own);
    }
}

/// Whether a document is an object with a member.
pub open spec fn holds(json: Json, key: Seq<char>, value: Json) -> bool {
    json matches Json::Object(fields) && fields.contains_key(key) && fields[key] == value
}

/// What is read of a document stands in it: the reason beside the message, in
/// the message its level, the code of its code, and of the first of its spans
/// the file and the line. Each is read exactly where it is there and of its
/// kind.
pub proof fn a_message_stands_in_its_document(
    doc: Json,
    message: Json,
    text: Seq<char>,
    line: u64,
    spans: Seq<Json>,
)
    requires
        holds(doc, "message"@, message),
        holds(message, "spans"@, Json::Array(spans)),
    ensures
        ({
            let read = message_in(doc);
            &&& read.reason == Some(text) <==> holds(doc, "reason"@, Json::Text(text))
            &&& read.level == Some(text) <==> holds(message, "level"@, Json::Text(text))
            &&& read.code == Some(text) <==> exists|code: Json|
                #[trigger] holds(message, "code"@, code) && holds(
                    code,
                    "code"@,
                    Json::Text(text),
                )
            &&& read.file_name == Some(text) <==> spans.len() > 0 && holds(
                spans[0],
                "file_name"@,
                Json::Text(text),
            )
            &&& read.line_start == Some(line) <==> spans.len() > 0 && exists|digits: Seq<char>|
                #[trigger] holds(
                    spans[0],
                    "line_start"@,
                    (Json::Number { text: digits, whole: Some(line) }),
                )
            &&& read.rendered == rendering(message)
        }),
{
    let read = message_in(doc);
    if read.code == Some(text) {
        let code = field(message, "code"@);
        assert(holds(message, "code"@, code));
    }
    if read.line_start == Some(line) {
        let number = field(spans[0], "line_start"@);
        assert(holds(
            spans[0],
            "line_start"@,
            Json::Number { text: number->Number_text, whole: Some(line) },
        ));
    }
}

/// A document without a message has no diagnostic to read, and one without spans
/// has no file and no line.
pub proof fn what_is_missing_is_not_read(doc: Json, message: Json)
    ensures
        (forall|value: Json| !#[trigger] holds(doc, "message"@, value)) ==> ({
            let read = message_in(doc);
            read.level is None && read.code is None && read.file_name is None && read.line_start
                is None && read.rendered == rendering(Json::Null)
        }),
        holds(doc, "message"@, message) && (forall|spans: Seq<Json>|
            !#[trigger] holds(message, "spans"@, Json::Array(spans))) ==> message_in(
            doc,
        ).file_name is None && message_in(doc).line_start is None,
        holds(doc, "message"@, message) ==> message_in(doc).rendered == rendering(message),
{
    let there = field(doc, "message"@);
    if there != Json::Null {
        assert(holds(doc, "message"@, there));
    }
    let spans = field(message, "spans"@);
    if let Json::Array(list) = spans {
        assert(holds(message, "spans"@, Json::Array(list)));
    }
}

/// A line holds a diagnostic exactly where it is a document whose reason is a
/// message of the compiler. The diagnostic is what is read of the document, with
/// all machine-applicable suggestions for its message.
pub proof fn a_compiler_message_is_a_diagnostic(line: Seq<char>, doc: Json)
    ensures
        document(line) is None ==> diag_in(line) is None,
        document(line) == Some(doc) ==> (diag_in(line) is Some <==> holds(
            doc,
            "reason"@,
            Json::Text("compiler-message"@),
        )),
        document(line) == Some(doc) && diag_in(line) is Some ==> ({
            let d = diag_in(line)->0;
            &&& d.message == message_in(doc)
            &&& suggested(
                d.message.rendered,
                Seq::empty(),
                Wanted::MachineApplicable,
            ) matches Some(list) ==> d.fixes == list
            &&& suggested(d.message.rendered, Seq::empty(), Wanted::MachineApplicable) is None
                ==> d.fixes == Seq::<Edits>::empty()
        }),
{
}

/// The diagnostics of output are those of its lines, in order: none is left out,
/// and a line without one adds none.
pub proof fn the_diagnostics_follow_the_lines(
    a: Seq<Seq<char>>,
    line: Seq<char>,
    b: Seq<Seq<char>>,
)
    ensures
        diags_in(a + b) == diags_in(a) + diags_in(b),
        diag_in(line) matches Some(d) ==> diags_in(seq![line]) == seq![d],
        diag_in(line) is None ==> diags_in(seq![line]) == Seq::<Diag>::empty(),
        diags_in(Seq::empty()) == Seq::<Diag>::empty(),
    decreases b.len(),
{
    let none = Seq::<Diag>::empty();
    assert(seq![line].drop_last() =~= Seq::<Seq<char>>::empty());
    assert(diags_in(Seq::<Seq<char>>::empty()) =~= none);
    assert(forall|d: Diag| #[trigger] none.push(d) =~= seq![d]);
    if b.len() == 0 {
        assert(a + b =~= a);
        assert(diags_in(a) + none =~= diags_in(a));
    } else {
        let was = b.drop_last();
        assert((a + b).drop_last() =~= a + was);
        the_diagnostics_follow_the_lines(a, line, was);
        if let Some(d) = diag_in(b.last()) {
            assert((diags_in(a) + diags_in(was)).push(d) =~= diags_in(a) + diags_in(was).push(d));
        }
    }
}

/// The level and the code of a message are read whether or not it has spans, and
/// the reason whether or not there is a message.
pub proof fn a_level_and_a_code_need_no_span(doc: Json, message: Json, text: Seq<char>)
    ensures
        message_in(doc).reason == Some(text) <==> holds(doc, "reason"@, Json::Text(text)),
        holds(doc, "message"@, message) ==> (message_in(doc).level == Some(text) <==> holds(
            message,
            "level"@,
            Json::Text(text),
        )),
        holds(doc, "message"@, message) ==> (message_in(doc).code == Some(text) <==> exists|
            code: Json,
        | #[trigger]
            holds(message, "code"@, code) && holds(code, "code"@, Json::Text(text))),
{
    if holds(doc, "message"@, message) && message_in(doc).code == Some(text) {
        assert(holds(message, "code"@, field(message, "code"@)));
    }
}

} // verus!
