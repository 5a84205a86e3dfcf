//! Hooks for a conformance driver: which boundaries a process reports, and what a fault schedule
//! makes it do there. The hooks report, hold, withhold or hard-exit at boundaries that were actually
//! reached; they never forge commits, receipts or protocol results.

use super::labels;
use super::messages::{Control, Drain, Scope, Session, Work};
use super::wire::same_octets;
use crate::text::{self, ascii_string, push_decimal};
use vstd::prelude::*;
use vstd::utf8::*;

verus! {

/// `String::push`: appends the character to the end of the text.
pub assume_specification[ String::push ](s: &mut String, c: char)
    ensures
        final(s)@ == old(s)@.push(c),
;

/// How many event records one process may publish for one run.
pub const MAX_RECORDS: u64 = 65_536;

/// The characters of a text.
fn characters(s: &str) -> (r: Vec<char>)
    ensures
        r@ == s@,
{
    let mut out: Vec<char> = Vec::new();
    for c in it: s.chars()
        invariant
            out@ == it.seq().take(it.index()),
            it.seq() == s@,
    {
        out.push(c);
    }
    out
}

fn push_text(out: &mut String, piece: &str)
    ensures
        final(out)@ == old(out)@ + piece@,
{
    let chars = characters(piece);
    let mut i: usize = 0;
    assert(out@ =~= old(out)@ + piece@.take(0));
    while i < chars.len()
        invariant
            i <= chars@.len(),
            chars@ == piece@,
            out@ == old(out)@ + piece@.take(i as int),
        decreases chars@.len() - i,
    {
        out.push(chars[i]);
        i += 1;
        assert(out@ =~= old(out)@ + piece@.take(i as int));
    }
    assert(piece@.take(i as int) =~= piece@);
}

fn same_text(a: &str, b: &str) -> (r: bool)
    ensures
        r == (a@ == b@),
{
    let same = same_octets(a.as_bytes(), b.as_bytes());
    proof {
        if same {
            labels::lemma_text_injective(a@, b@);
        }
    }
    same
}

fn same_chars(a: &Vec<char>, b: &Vec<char>) -> (r: bool)
    ensures
        r == (a@ == b@),
{
    if a.len() != b.len() {
        return false;
    }
    let mut i: usize = 0;
    while i < a.len()
        invariant
            i <= a@.len(),
            a@.len() == b@.len(),
            forall|j: int| 0 <= j < i ==> a@[j] == b@[j],
        decreases a@.len() - i,
    {
        if a[i] != b[i] {
            return false;
        }
        i += 1;
    }
    assert(a@ =~= b@);
    true
}

/// What stands for a character in a label.
pub open spec fn escape_of(c: char) -> Seq<char> {
    if c == '\t' {
        seq!['\\', 't']
    } else if c == '\n' {
        seq!['\\', 'n']
    } else if c == '\r' {
        seq!['\\', 'r']
    } else if c == '\\' {
        seq!['\\', '\\']
    } else {
        seq![c]
    }
}

pub open spec fn escaped(label: Seq<char>) -> Seq<char>
    decreases label.len(),
{
    if label.len() == 0 {
        Seq::empty()
    } else {
        escaped(label.drop_last()) + escape_of(label.last())
    }
}

/// The character that an escape stands for, if it stands for one.
pub open spec fn escape_meaning(c: char) -> Option<char> {
    if c == 't' {
        Some('\t')
    } else if c == 'n' {
        Some('\n')
    } else if c == 'r' {
        Some('\r')
    } else if c == '\\' {
        Some('\\')
    } else {
        None
    }
}

/// The label that was escaped, if the text is one that was.
pub open spec fn unescaped(text: Seq<char>) -> Option<Seq<char>>
    decreases text.len(),
{
    if text.len() == 0 {
        Some(Seq::empty())
    } else if text[0] != '\\' {
        match unescaped(text.skip(1)) {
            Some(rest) => Some(seq![text[0]] + rest),
            None => None,
        }
    } else if text.len() < 2 || escape_meaning(text[1]) is None {
        None
    } else {
        match unescaped(text.skip(2)) {
            Some(rest) => Some(seq![escape_meaning(text[1])->0] + rest),
            None => None,
        }
    }
}

proof fn lemma_escaped_front(label: Seq<char>)
    requires
        label.len() > 0,
    ensures
        escaped(label) == escape_of(label[0]) + escaped(label.skip(1)),
    decreases label.len(),
{
    if label.len() == 1 {
        assert(label.drop_last() =~= Seq::empty());
        assert(label.skip(1) =~= Seq::empty());
        assert(escaped(label.drop_last()) + escape_of(label.last()) =~= escape_of(label[0])
            + escaped(label.skip(1)));
    } else {
        lemma_escaped_front(label.drop_last());
        let rest = label.skip(1);
        assert(label.drop_last().skip(1) =~= rest.drop_last());
        assert(rest.last() == label.last());
        assert(escaped(label) =~= escape_of(label[0]) + escaped(rest));
    }
}

/// Escaping loses nothing: every label is read back.
pub proof fn law_escaping_round_trips(label: Seq<char>)
    ensures
        unescaped(escaped(label)) == Some(label),
    decreases label.len(),
{
    if label.len() > 0 {
        let rest = label.skip(1);
        law_escaping_round_trips(rest);
        lemma_escaped_front(label);
        let first = escape_of(label[0]);
        assert(escaped(label).skip(first.len() as int) =~= escaped(rest));
        assert(seq![label[0]] + rest =~= label);
    }
}

pub fn escape(label: &str) -> (r: String)
    ensures
        r@ == escaped(label@),
{
    let chars = characters(label);
    let mut out = String::new();
    let mut i: usize = 0;
    proof {
        assert(label@.take(0) =~= Seq::empty());
        assert(out@ =~= escaped(label@.take(0)));
    }
    while i < chars.len()
        invariant
            i <= chars@.len(),
            chars@ == label@,
            out@ == escaped(label@.take(i as int)),
        decreases chars@.len() - i,
    {
        let c = chars[i];
        let ghost before = out@;
        if c == '\t' {
            out.push('\\');
            out.push('t');
        } else if c == '\n' {
            out.push('\\');
            out.push('n');
        } else if c == '\r' {
            out.push('\\');
            out.push('r');
        } else if c == '\\' {
            out.push('\\');
            out.push('\\');
        } else {
            out.push(c);
        }
        proof {
            assert(label@.take(i + 1).drop_last() =~= label@.take(i as int));
            assert(label@.take(i + 1).last() == c);
            assert(out@ =~= before + escape_of(c));
        }
        i += 1;
    }
    assert(label@.take(i as int) =~= label@);
    out
}

/// What is wrong with a schedule.
#[derive(Debug, Clone, Copy, PartialEq, Eq, Structural)]
pub enum ScheduleFault {
    Columns,
    Version,
    Escape,
    Run,
    Scenario,
    Boundary,
    Deadline,
    DriverSide,
    ReplyPair,
    Action,
}

fn unescape_chars(text: &Vec<char>) -> (r: Option<Vec<char>>)
    ensures
        match r {
            Some(v) => unescaped(text@) == Some(v@),
            None => unescaped(text@) is None,
        },
{
    let mut out: Vec<char> = Vec::new();
    let mut i: usize = 0;
    assert(text@.skip(0) =~= text@);
    proof {
        if unescaped(text@) is Some {
            assert(out@ + unescaped(text@)->0 =~= unescaped(text@)->0);
        }
    }
    while i < text.len()
        invariant
            i <= text@.len(),
            match unescaped(text@.skip(i as int)) {
                Some(rest) => unescaped(text@) == Some(out@ + rest),
                None => unescaped(text@) is None,
            },
        decreases text@.len() - i,
    {
        let ghost tail = text@.skip(i as int);
        let ghost before = out@;
        let c = text[i];
        assert(tail[0] == c);
        if c != '\\' {
            assert(tail.skip(1) =~= text@.skip(i + 1));
            out.push(c);
            i += 1;
            proof {
                if unescaped(tail.skip(1)) is Some {
                    let rest = unescaped(tail.skip(1))->0;
                    assert(before + (seq![c] + rest) =~= out@ + rest);
                }
            }
        } else {
            if i + 1 >= text.len() {
                return None;
            }
            let d = text[i + 1];
            assert(tail[1] == d);
            let meant = if d == 't' {
                '\t'
            } else if d == 'n' {
                '\n'
            } else if d == 'r' {
                '\r'
            } else if d == '\\' {
                '\\'
            } else {
                return None;
            };
            assert(tail.skip(2) =~= text@.skip(i + 2));
            out.push(meant);
            i += 2;
            proof {
                if unescaped(tail.skip(2)) is Some {
                    let rest = unescaped(tail.skip(2))->0;
                    assert(before + (seq![meant] + rest) =~= out@ + rest);
                }
            }
        }
    }
    assert(text@.skip(i as int) =~= Seq::empty());
    assert(out@ + Seq::<char>::empty() =~= out@);
    Some(out)
}

fn text_of(chars: &Vec<char>) -> (r: String)
    ensures
        r@ == chars@,
{
    let mut out = String::new();
    let mut i: usize = 0;
    while i < chars.len()
        invariant
            i <= chars@.len(),
            out@ =~= chars@.take(i as int),
        decreases chars@.len() - i,
    {
        out.push(chars[i]);
        i += 1;
    }
    assert(chars@.take(i as int) =~= chars@);
    out
}

pub fn unescape(label: &str) -> (r: Result<String, ScheduleFault>)
    ensures
        match r {
            Ok(s) => unescaped(label@) == Some(s@),
            Err(e) => unescaped(label@) is None && e == ScheduleFault::Escape,
        },
{
    let chars = characters(label);
    match unescape_chars(&chars) {
        Some(out) => Ok(text_of(&out)),
        None => Err(ScheduleFault::Escape),
    }
}

/// The boundaries that a server reaches, in lifecycle order.
pub open spec fn boundaries() -> Seq<Seq<char>> {
    seq![
        "LISTENING"@,
        "CONNECTION_AUTHENTICATED"@,
        "SESSION_COMMITTED"@,
        "SESSION_RESPONSE_SENT"@,
        "DECLARATION_COMMITTED"@,
        "DECLARATION_RESPONSE_SENT"@,
        "ADMISSION_COMMITTED"@,
        "ADMISSION_RESPONSE_SENT"@,
        "EXECUTION_CLAIMED"@,
        "PUBLICATION_COMMITTED"@,
        "RETRY_COMMITTED"@,
        "FENCE_COMMITTED"@,
        "CLOSURE_COMMITTED"@,
        "COMPLETE_RESPONSE_SENT"@,
        "DETACH_ACKNOWLEDGED"@,
        "REFUSAL_SENT"@,
    ]
}

/// Committed boundaries whose reply is written on the same connection: the only ones where a reply can
/// be held or withheld.
pub open spec fn is_reply_pair(boundary: Seq<char>) -> bool {
    boundary == "SESSION_COMMITTED"@ || boundary == "DECLARATION_COMMITTED"@ || boundary
        == "ADMISSION_COMMITTED"@
}

fn reply_pair(boundary: &str) -> (r: bool)
    ensures
        r == is_reply_pair(boundary@),
{
    same_text(boundary, "SESSION_COMMITTED") || same_text(boundary, "DECLARATION_COMMITTED")
        || same_text(boundary, "ADMISSION_COMMITTED")
}

fn boundary_label(i: usize) -> (r: &'static str)
    requires
        i < 16,
    ensures
        r@ == boundaries()[i as int],
{
    if i == 0 {
        "LISTENING"
    } else if i == 1 {
        "CONNECTION_AUTHENTICATED"
    } else if i == 2 {
        "SESSION_COMMITTED"
    } else if i == 3 {
        "SESSION_RESPONSE_SENT"
    } else if i == 4 {
        "DECLARATION_COMMITTED"
    } else if i == 5 {
        "DECLARATION_RESPONSE_SENT"
    } else if i == 6 {
        "ADMISSION_COMMITTED"
    } else if i == 7 {
        "ADMISSION_RESPONSE_SENT"
    } else if i == 8 {
        "EXECUTION_CLAIMED"
    } else if i == 9 {
        "PUBLICATION_COMMITTED"
    } else if i == 10 {
        "RETRY_COMMITTED"
    } else if i == 11 {
        "FENCE_COMMITTED"
    } else if i == 12 {
        "CLOSURE_COMMITTED"
    } else if i == 13 {
        "COMPLETE_RESPONSE_SENT"
    } else if i == 14 {
        "DETACH_ACKNOWLEDGED"
    } else {
        "REFUSAL_SENT"
    }
}

/// The boundary that a field of a schedule names.
fn parse_boundary(field: &Vec<char>) -> (r: Option<&'static str>)
    ensures
        match r {
            Some(b) => b@ == field@ && boundaries().contains(field@),
            None => !boundaries().contains(field@),
        },
{
    let mut i: usize = 0;
    while i < 16
        invariant
            i <= 16,
            boundaries().len() == 16,
            forall|j: int| 0 <= j < i ==> #[trigger] boundaries()[j] != field@,
        decreases 16 - i,
    {
        let label = boundary_label(i);
        let chars = characters(label);
        if same_chars(&chars, field) {
            assert(boundaries()[i as int] == field@);
            return Some(label);
        }
        i += 1;
    }
    None
}

/// What a schedule makes a process do at a boundary that it reached.
#[derive(Debug, Clone, Copy, PartialEq, Eq, Structural)]
pub enum Action {
    /// Hold the pending reply until a release file appears or the deadline
    /// elapses. The boundary's commit is untouched.
    Pause,
    /// Withhold the pending reply and reset the connection (lost-ACK shape).
    DropReply,
    /// Close the connection at the boundary without process death.
    Disconnect,
    /// Hard process exit at the boundary, without destructors.
    Kill,
}

/// A parsed, target-filtered fault-schedule row that arms one boundary.
#[derive(Debug, Clone, Copy, PartialEq, Eq)]
pub struct Arm {
    pub boundary: &'static str,
    pub action: Action,
    /// Hard bound for the hold, in milliseconds.
    pub deadline: u64,
}

/// The boundary that a commit reaches. Supplementary storage probes have no boundary: they cannot be
/// armed through a schedule and never emit an event record.
pub open spec fn commit_name(key: Seq<char>) -> Option<Seq<char>> {
    if key == "create"@ {
        Some("SESSION_COMMITTED"@)
    } else if key == "declare"@ {
        Some("DECLARATION_COMMITTED"@)
    } else if key == "admit-input"@ {
        Some("ADMISSION_COMMITTED"@)
    } else if key == "worker-claim"@ {
        Some("EXECUTION_CLAIMED"@)
    } else if key == "worker-publish"@ {
        Some("PUBLICATION_COMMITTED"@)
    } else if key == "worker-retry"@ {
        Some("RETRY_COMMITTED"@)
    } else if key == "work-fence"@ || key == "scope-fence"@ {
        Some("FENCE_COMMITTED"@)
    } else if key == "settlement-scope"@ {
        Some("CLOSURE_COMMITTED"@)
    } else {
        None
    }
}

/// Maps the stable key of a commit to its boundary label.
pub fn commit_label(key: &str) -> (r: Option<&'static str>)
    ensures
        match r {
            Some(label) => commit_name(key@) == Some(label@),
            None => commit_name(key@) is None,
        },
{
    if same_text(key, "create") {
        Some("SESSION_COMMITTED")
    } else if same_text(key, "declare") {
        Some("DECLARATION_COMMITTED")
    } else if same_text(key, "admit-input") {
        Some("ADMISSION_COMMITTED")
    } else if same_text(key, "worker-claim") {
        Some("EXECUTION_CLAIMED")
    } else if same_text(key, "worker-publish") {
        Some("PUBLICATION_COMMITTED")
    } else if same_text(key, "worker-retry") {
        Some("RETRY_COMMITTED")
    } else if same_text(key, "work-fence") || same_text(key, "scope-fence") {
        Some("FENCE_COMMITTED")
    } else if same_text(key, "settlement-scope") {
        Some("CLOSURE_COMMITTED")
    } else {
        None
    }
}

/// The boundary that sending a message reaches, if it reaches one.
pub open spec fn sent_name(control: Control) -> Option<Seq<char>> {
    match control {
        Control::Session(Session::Binding { .. }) => Some("SESSION_RESPONSE_SENT"@),
        Control::Scope(Scope::Declared { .. }) => Some("DECLARATION_RESPONSE_SENT"@),
        Control::Work(Work::Admitted { .. }) => Some("ADMISSION_RESPONSE_SENT"@),
        Control::Drain(Drain::Completed { .. }) => Some("COMPLETE_RESPONSE_SENT"@),
        Control::Drain(Drain::Detached { .. }) => Some("DETACH_ACKNOWLEDGED"@),
        Control::Refusal(_) => Some("REFUSAL_SENT"@),
        _ => None,
    }
}

/// Classifies a control reply that was just sent.
pub fn sent_label(control: &Control) -> (r: Option<&'static str>)
    ensures
        match r {
            Some(label) => sent_name(*control) == Some(label@),
            None => sent_name(*control) is None,
        },
{
    match control {
        Control::Session(Session::Binding { .. }) => Some("SESSION_RESPONSE_SENT"),
        Control::Scope(Scope::Declared { .. }) => Some("DECLARATION_RESPONSE_SENT"),
        Control::Work(Work::Admitted { .. }) => Some("ADMISSION_RESPONSE_SENT"),
        Control::Drain(Drain::Completed { .. }) => Some("COMPLETE_RESPONSE_SENT"),
        Control::Drain(Drain::Detached { .. }) => Some("DETACH_ACKNOWLEDGED"),
        Control::Refusal(_) => Some("REFUSAL_SENT"),
        _ => None,
    }
}

/// The pieces between the separators, at least one.
pub open spec fn pieces(s: Seq<char>, c: char) -> Seq<Seq<char>>
    decreases s.len(),
{
    if s.len() == 0 {
        seq![Seq::empty()]
    } else {
        let before = pieces(s.drop_last(), c);
        if s.last() == c {
            before.push(Seq::empty())
        } else {
            before.drop_last().push(before.last().push(s.last()))
        }
    }
}

pub open spec fn texts(parts: Seq<Vec<char>>) -> Seq<Seq<char>> {
    parts.map_values(|p: Vec<char>| p@)
}

fn split(s: &Vec<char>, c: char) -> (r: Vec<Vec<char>>)
    ensures
        texts(r@) == pieces(s@, c),
        r@.len() > 0,
{
    let mut parts: Vec<Vec<char>> = Vec::new();
    let mut current: Vec<char> = Vec::new();
    let mut i: usize = 0;
    proof {
        assert(s@.take(0) =~= Seq::empty());
        assert(texts(parts@).push(current@) =~= pieces(s@.take(0), c));
    }
    while i < s.len()
        invariant
            i <= s@.len(),
            texts(parts@).push(current@) == pieces(s@.take(i as int), c),
        decreases s@.len() - i,
    {
        let ghost before = pieces(s@.take(i as int), c);
        let ghost done = texts(parts@);
        let x = s[i];
        proof {
            assert(s@.take(i + 1).drop_last() =~= s@.take(i as int));
            assert(s@.take(i + 1).last() == x);
            assert(before.drop_last() =~= done);
        }
        let ghost piece = current@;
        if x == c {
            parts.push(current);
            current = Vec::new();
            assert(texts(parts@) =~= done.push(piece));
            assert(texts(parts@).push(current@) =~= before.push(Seq::empty()));
        } else {
            current.push(x);
            assert(texts(parts@).push(current@) =~= before.drop_last().push(
                before.last().push(x),
            ));
        }
        i += 1;
    }
    let ghost done = texts(parts@);
    let ghost piece = current@;
    parts.push(current);
    assert(texts(parts@) =~= done.push(piece));
    assert(s@.take(i as int) =~= s@);
    parts
}

pub open spec fn is_digit(c: char) -> bool {
    '0' <= c && c <= '9'
}

/// The number that digits write.
pub open spec fn digits_value(s: Seq<char>) -> nat
    decreases s.len(),
{
    if s.len() == 0 {
        0
    } else {
        digits_value(s.drop_last()) * 10 + (s.last() as nat - '0' as nat) as nat
    }
}

/// The digits of a number, without a plus sign before them.
pub open spec fn unsigned(s: Seq<char>) -> Seq<char> {
    if s.len() > 0 && s[0] == '+' {
        s.skip(1)
    } else {
        s
    }
}

/// The number that a field writes: digits, possibly behind a plus sign, that fit 64 bits.
pub open spec fn number_of(s: Seq<char>) -> Option<u64> {
    let d = unsigned(s);
    if d.len() > 0 && (forall|i: int| 0 <= i < d.len() ==> is_digit(#[trigger] d[i])) && digits_value(
        d,
    ) <= u64::MAX {
        Some(digits_value(d) as u64)
    } else {
        None
    }
}

proof fn lemma_digits_grow(s: Seq<char>, i: int)
    requires
        0 <= i <= s.len(),
        forall|j: int| 0 <= j < s.len() ==> is_digit(#[trigger] s[j]),
    ensures
        digits_value(s.take(i)) <= digits_value(s),
    decreases s.len() - i,
{
    if i < s.len() {
        assert(s.take(i + 1).drop_last() =~= s.take(i));
        lemma_digits_grow(s, i + 1);
    } else {
        assert(s.take(i) =~= s);
    }
}

fn digit_value(c: char) -> (r: Option<u64>)
    ensures
        match r {
            Some(v) => is_digit(c) && v == c as nat - '0' as nat && v <= 9,
            None => !is_digit(c),
        },
{
    if '0' <= c && c <= '9' {
        Some((c as u32 - '0' as u32) as u64)
    } else {
        None
    }
}

fn parse_number(s: &Vec<char>) -> (r: Option<u64>)
    ensures
        r == number_of(s@),
{
    let ghost d = unsigned(s@);
    let start: usize = if s.len() > 0 && s[0] == '+' {
        1
    } else {
        0
    };
    if start >= s.len() {
        return None;
    }
    let mut n: u64 = 0;
    let mut i: usize = start;
    proof {
        assert(d =~= s@.skip(start as int));
        assert(d.take(0) =~= Seq::empty());
    }
    while i < s.len()
        invariant
            start <= i <= s@.len(),
            start < s@.len(),
            d == s@.skip(start as int),
            d == unsigned(s@),
            forall|j: int| 0 <= j < i - start ==> is_digit(#[trigger] d[j]),
            n == digits_value(d.take(i - start)),
        decreases s@.len() - i,
    {
        let k = digit_value(s[i]);
        proof {
            assert(d[i - start] == s@[i as int]);
            assert(d.take(i - start + 1).drop_last() =~= d.take(i - start));
            assert(d.take(i - start + 1).last() == s@[i as int]);
        }
        match k {
            Some(v) => {
                let next = match n.checked_mul(10) {
                    Some(m) => m.checked_add(v),
                    None => None,
                };
                match next {
                    Some(m) => {
                        n = m;
                    },
                    None => {
                        proof {
                            if number_of(s@) is Some {
                                lemma_digits_grow(d, i - start + 1);
                            }
                        }
                        return None;
                    },
                }
            },
            None => {
                return None;
            },
        }
        i += 1;
    }
    assert(d.take(i - start) =~= d);
    Some(n)
}

/// The outcome of one row: the boundary that it arms, how and for how long; nothing where it is for
/// another target or for the driver.
pub open spec fn row_outcome(line: Seq<char>, run: Seq<char>, scenario: Seq<char>) -> Result<
    Option<(Seq<char>, Action, u64)>,
    ScheduleFault,
> {
    let cols = pieces(line, '\t');
    let boundary = unescaped(cols[4])->0;
    let deadline = number_of(cols[7])->0;
    if cols.len() != 8 {
        Err(ScheduleFault::Columns)
    } else if cols[0] != seq!['1'] {
        Err(ScheduleFault::Version)
    } else if unescaped(cols[1]) is None {
        Err(ScheduleFault::Escape)
    } else if unescaped(cols[1])->0 != run {
        Err(ScheduleFault::Run)
    } else if unescaped(cols[2]) is None {
        Err(ScheduleFault::Escape)
    } else if unescaped(cols[2])->0 != scenario {
        Err(ScheduleFault::Scenario)
    } else if cols[3] != "server"@ {
        Ok(None)
    } else if unescaped(cols[4]) is None {
        Err(ScheduleFault::Escape)
    } else if !boundaries().contains(boundary) {
        Err(ScheduleFault::Boundary)
    } else if number_of(cols[7]) is None {
        Err(ScheduleFault::Deadline)
    } else if cols[5] == "release"@ {
        Ok(None)
    } else if cols[5] == "stop"@ || cols[5] == "restart"@ || cols[5] == "clock-set"@ {
        Err(ScheduleFault::DriverSide)
    } else if cols[5] == "kill"@ {
        Ok(Some((boundary, Action::Kill, deadline)))
    } else if cols[5] == "pause"@ || cols[5] == "drop-reply"@ || cols[5] == "disconnect"@ {
        if !is_reply_pair(boundary) {
            Err(ScheduleFault::ReplyPair)
        } else if cols[5] == "pause"@ {
            Ok(Some((boundary, Action::Pause, deadline)))
        } else if cols[5] == "drop-reply"@ {
            Ok(Some((boundary, Action::DropReply, deadline)))
        } else {
            Ok(Some((boundary, Action::Disconnect, deadline)))
        }
    } else {
        Err(ScheduleFault::Action)
    }
}

fn is_text(chars: &Vec<char>, text: &str) -> (r: bool)
    ensures
        r == (chars@ == text@),
{
    let other = characters(text);
    same_chars(chars, &other)
}

fn parse_action(field: &Vec<char>, boundary: &str) -> (r: Result<Option<Action>, ScheduleFault>)
    ensures
        ({
            let held = field@ == "pause"@ || field@ == "drop-reply"@ || field@ == "disconnect"@;
            let expected: Result<Option<Action>, ScheduleFault> = if field@ == "release"@ {
                Ok(None)
            } else if field@ == "stop"@ || field@ == "restart"@ || field@ == "clock-set"@ {
                Err(ScheduleFault::DriverSide)
            } else if field@ == "kill"@ {
                Ok(Some(Action::Kill))
            } else if held && !is_reply_pair(boundary@) {
                Err(ScheduleFault::ReplyPair)
            } else if field@ == "pause"@ {
                Ok(Some(Action::Pause))
            } else if field@ == "drop-reply"@ {
                Ok(Some(Action::DropReply))
            } else if held {
                Ok(Some(Action::Disconnect))
            } else {
                Err(ScheduleFault::Action)
            };
            r == expected
        }),
{
    if is_text(field, "release") {
        return Ok(None);
    }
    if is_text(field, "stop") || is_text(field, "restart") || is_text(field, "clock-set") {
        return Err(ScheduleFault::DriverSide);
    }
    if is_text(field, "kill") {
        return Ok(Some(Action::Kill));
    }
    let action = if is_text(field, "pause") {
        Action::Pause
    } else if is_text(field, "drop-reply") {
        Action::DropReply
    } else if is_text(field, "disconnect") {
        Action::Disconnect
    } else {
        return Err(ScheduleFault::Action);
    };
    if !reply_pair(boundary) {
        return Err(ScheduleFault::ReplyPair);
    }
    Ok(Some(action))
}

/// The armed boundary is the one that was asked for.
pub open spec fn arms_as(arm: Arm, row: (Seq<char>, Action, u64)) -> bool {
    arm.boundary@ == row.0 && arm.action == row.1 && arm.deadline == row.2
}

fn parse_row(line: &Vec<char>, run: &Vec<char>, scenario: &Vec<char>) -> (r: Result<
    Option<Arm>,
    ScheduleFault,
>)
    ensures
        match r {
            Ok(Some(arm)) => row_outcome(line@, run@, scenario@) matches Ok(Some(row)) && arms_as(
                arm,
                row,
            ),
            Ok(None) => row_outcome(line@, run@, scenario@) == Ok::<
                Option<(Seq<char>, Action, u64)>,
                ScheduleFault,
            >(None),
            Err(e) => row_outcome(line@, run@, scenario@) == Err::<
                Option<(Seq<char>, Action, u64)>,
                ScheduleFault,
            >(e),
        },
{
    let columns = split(line, '\t');
    let ghost cols = pieces(line@, '\t');
    proof {
        assert(columns@.len() == cols.len());
        assert(forall|i: int| 0 <= i < cols.len() ==> (#[trigger] columns@[i])@ == cols[i]);
    }
    if columns.len() != 8 {
        return Err(ScheduleFault::Columns);
    }
    if columns[0].len() != 1 || columns[0][0] != '1' {
        assert(cols[0] != seq!['1']);
        return Err(ScheduleFault::Version);
    }
    assert(cols[0] =~= seq!['1']);
    match unescape_chars(&columns[1]) {
        None => {
            return Err(ScheduleFault::Escape);
        },
        Some(found) => {
            if !same_chars(&found, run) {
                return Err(ScheduleFault::Run);
            }
        },
    }
    match unescape_chars(&columns[2]) {
        None => {
            return Err(ScheduleFault::Escape);
        },
        Some(found) => {
            if !same_chars(&found, scenario) {
                return Err(ScheduleFault::Scenario);
            }
        },
    }
    if !is_text(&columns[3], "server") {
        // Other targets are the driver's business.
        return Ok(None);
    }
    let boundary = match unescape_chars(&columns[4]) {
        None => {
            return Err(ScheduleFault::Escape);
        },
        Some(found) => match parse_boundary(&found) {
            Some(boundary) => boundary,
            None => {
                return Err(ScheduleFault::Boundary);
            },
        },
    };
    let deadline = match parse_number(&columns[7]) {
        Some(n) => n,
        None => {
            return Err(ScheduleFault::Deadline);
        },
    };
    match parse_action(&columns[5], boundary)? {
        Some(action) => Ok(Some(Arm { boundary, action, deadline })),
        None => Ok(None),
    }
}

/// The lines of a text. A line ends with a line feed, or with a carriage return and a line feed.
pub open spec fn line_at(text: Seq<char>, i: int) -> Seq<char> {
    let parts = pieces(text, '\n');
    let part = parts[i];
    if i < parts.len() - 1 && part.len() > 0 && part.last() == '\r' {
        part.drop_last()
    } else {
        part
    }
}

/// What the first `n` lines arm, or the first line that is wrong.
pub open spec fn schedule_outcome(text: Seq<char>, n: int, run: Seq<char>, scenario: Seq<char>) -> Result<
    Seq<(Seq<char>, Action, u64)>,
    (int, ScheduleFault),
>
    decreases n,
{
    if n <= 0 {
        Ok(Seq::empty())
    } else {
        match schedule_outcome(text, n - 1, run, scenario) {
            Err(e) => Err(e),
            Ok(arms) => if line_at(text, n - 1).len() == 0 {
                Ok(arms)
            } else {
                match row_outcome(line_at(text, n - 1), run, scenario) {
                    Err(fault) => Err((n, fault)),
                    Ok(Some(row)) => Ok(arms.push(row)),
                    Ok(None) => Ok(arms),
                }
            },
        }
    }
}

proof fn lemma_schedule_error(
    text: Seq<char>,
    n: int,
    m: int,
    run: Seq<char>,
    scenario: Seq<char>,
)
    requires
        n <= m,
        schedule_outcome(text, n, run, scenario) is Err,
    ensures
        schedule_outcome(text, m, run, scenario) == schedule_outcome(text, n, run, scenario),
    decreases m - n,
{
    if n < m {
        lemma_schedule_error(text, n, m - 1, run, scenario);
    }
}

/// Where a schedule is wrong, and how.
#[derive(Debug, Clone, Copy, PartialEq, Eq, Structural)]
pub struct ScheduleError {
    pub row: usize,
    pub fault: ScheduleFault,
}

/// The arms are those of the rows, in their order.
pub open spec fn arms_rows(arms: Seq<Arm>, rows: Seq<(Seq<char>, Action, u64)>) -> bool {
    arms.len() == rows.len() && forall|i: int|
        0 <= i < arms.len() ==> arms_as(#[trigger] arms[i], rows[i])
}

/// Parses a fault schedule (8-column TSV) into the rows that
/// arm this subject. Rows for other targets and `release` rows belong to the
/// driver and are dropped. Rejects unknown versions, columns, boundaries and
/// actions; rejects `pause`/`drop-reply`/`disconnect` outside the three reply
/// pairs; rejects driver-side actions (`stop`, `restart`, `clock-set`) on the
/// server target. `run_id`/`scenario_id` must match the armed run.
pub fn parse_schedule(text: &str, run_id: &str, scenario_id: &str) -> (r: Result<
    Vec<Arm>,
    ScheduleError,
>)
    ensures
        ({
            let n = pieces(text@, '\n').len() as int;
            let outcome = schedule_outcome(text@, n, run_id@, scenario_id@);
            match r {
                Ok(arms) => outcome matches Ok(rows) && arms_rows(arms@, rows),
                Err(e) => outcome == Err::<Seq<(Seq<char>, Action, u64)>, (int, ScheduleFault)>(
                    (e.row as int, e.fault),
                ),
            }
        }),
{
    let chars = characters(text);
    let run = characters(run_id);
    let scenario = characters(scenario_id);
    let mut lines = split(&chars, '\n');
    let ghost parts = pieces(text@, '\n');
    let mut arms: Vec<Arm> = Vec::new();
    let mut i: usize = 0;
    let count = lines.len();
    proof {
        assert(count == parts.len());
        assert(forall|j: int| 0 <= j < parts.len() ==> (#[trigger] lines@[j])@ == parts[j]);
    }
    while i < count
        invariant
            i <= count,
            count == lines@.len(),
            parts == pieces(text@, '\n'),
            count == parts.len(),
            run@ == run_id@,
            scenario@ == scenario_id@,
            forall|j: int| i <= j < parts.len() ==> (#[trigger] lines@[j])@ == parts[j],
            schedule_outcome(text@, i as int, run_id@, scenario_id@) matches Ok(rows) && arms_rows(
                arms@,
                rows,
            ),
        decreases count - i,
    {
        let mut line: Vec<char> = Vec::new();
        std::mem::swap(&mut lines[i], &mut line);
        let ghost part = parts[i as int];
        let length = line.len();
        if i + 1 < count && length > 0 && line[length - 1] == '\r' {
            line.pop();
            assert(line@ =~= part.drop_last());
        }
        assert(line@ == line_at(text@, i as int));
        if line.len() > 0 {
            match parse_row(&line, &run, &scenario) {
                Ok(Some(arm)) => {
                    let ghost had = arms@;
                    arms.push(arm);
                    proof {
                        let rows = schedule_outcome(
                            text@,
                            i + 1,
                            run_id@,
                            scenario_id@,
                        )->Ok_0;
                        assert forall|j: int| 0 <= j < arms@.len() implies arms_as(
                            #[trigger] arms@[j],
                            rows[j],
                        ) by {
                            if j < had.len() {
                                assert(had[j] == arms@[j]);
                            }
                        }
                    }
                },
                Ok(None) => {},
                Err(fault) => {
                    proof {
                        lemma_schedule_error(text@, i + 1, count as int, run_id@, scenario_id@);
                    }
                    return Err(ScheduleError { row: i + 1, fault });
                },
            }
        }
        i += 1;
    }
    Ok(arms)
}

/// What the pre-queue reply gate must do at a committed, reply-bearing
/// boundary, per the armed schedule.
#[derive(Debug, Clone, PartialEq, Eq)]
pub enum Gate {
    /// Queue the reply normally.
    Pass,
    /// Hold the pending reply until the release file appears or the deadline
    /// elapses, then queue it. The commit stands untouched.
    Hold { release: String, deadline: u64 },
    /// Withhold the reply and reset the connection (lost-ACK shape).
    Drop,
}

/// How often a boundary was reached.
#[derive(Debug, Clone, Copy, PartialEq, Eq)]
pub struct Reached {
    pub boundary: &'static str,
    pub count: u64,
}

/// What a hook makes the process do: publish a record, unless the run's bound is exceeded, and then
/// perhaps exit at once.
#[derive(Debug, Clone, PartialEq, Eq)]
pub struct Event {
    pub record: Option<String>,
    pub kill: bool,
}

/// The configuration of one process, and what it has reached. Boundaries are named by text, which the
/// specified maps cannot be keyed by, so both are rows.
#[derive(Debug, Clone, PartialEq, Eq)]
pub struct Fixture {
    pub run_id: String,
    pub scenario_id: String,
    pub process_start_id: String,
    pub arms: Vec<Arm>,
    pub reached: Vec<Reached>,
    pub sequence: u64,
}

/// The boundary is armed.
pub open spec fn is_armed(arms: Seq<Arm>, boundary: Seq<char>) -> bool {
    exists|i: int| 0 <= i < arms.len() && (#[trigger] arms[i]).boundary@ == boundary
}

/// The boundary is armed with the action.
pub open spec fn armed_with(arms: Seq<Arm>, boundary: Seq<char>, action: Action) -> bool {
    exists|i: int|
        0 <= i < arms.len() && (#[trigger] arms[i]).boundary@ == boundary && arms[i].action == action
}

/// The deadline of the first hold at the boundary.
pub open spec fn pause_deadline(arms: Seq<Arm>, boundary: Seq<char>) -> u64
    decreases arms.len(),
{
    if arms.len() == 0 {
        0
    } else if arms[0].boundary@ == boundary && arms[0].action == Action::Pause {
        arms[0].deadline
    } else {
        pause_deadline(arms.skip(1), boundary)
    }
}

/// How often a boundary was reached.
pub open spec fn reached_count(rows: Seq<Reached>, boundary: Seq<char>) -> u64
    decreases rows.len(),
{
    if rows.len() == 0 {
        0
    } else if rows[0].boundary@ == boundary {
        rows[0].count
    } else {
        reached_count(rows.skip(1), boundary)
    }
}

/// The decimal digits of a number.
pub open spec fn decimal(n: nat) -> Seq<char> {
    text::decimal_digits(n).map_values(|b: u8| b as char)
}

/// One complete event record, so that a reached boundary is evidence of the subject.
pub open spec fn record_text(f: Fixture, sequence: u64, boundary: Seq<char>) -> Seq<char> {
    "1\t"@ + escaped(f.run_id@) + "\t"@ + escaped(f.scenario_id@) + "\trust\tserver\t"@
        + f.process_start_id@ + "\t"@ + decimal(sequence as nat) + "\t"@ + escaped(boundary)
        + "\t\t\t\t\t\t\t\n"@
}

/// The number of the next record. The count stops at the largest number.
pub open spec fn next_number(n: u64) -> u64 {
    if n < u64::MAX {
        (n + 1) as u64
    } else {
        n
    }
}

/// The event that an armed boundary gives, nothing at another.
pub open spec fn event_fits(f: Fixture, boundary: Seq<char>, r: Option<Event>) -> bool {
    match r {
        None => !is_armed(f.arms@, boundary),
        Some(e) => {
            &&& is_armed(f.arms@, boundary)
            &&& e.kill == armed_with(f.arms@, boundary, Action::Kill)
            &&& match e.record {
                Some(text) => next_number(f.sequence) <= MAX_RECORDS && text@ == record_text(
                    f,
                    next_number(f.sequence),
                    boundary,
                ),
                None => next_number(f.sequence) > MAX_RECORDS,
            }
        },
    }
}

/// The fixture after a boundary that counts no commit.
pub open spec fn after_event(f: Fixture, boundary: Seq<char>) -> Fixture {
    if is_armed(f.arms@, boundary) {
        Fixture { sequence: next_number(f.sequence), ..f }
    } else {
        f
    }
}

fn next(n: u64) -> (r: u64)
    ensures
        r == next_number(n),
{
    if n < u64::MAX {
        n + 1
    } else {
        n
    }
}

fn push_number(out: &mut String, n: u64)
    ensures
        final(out)@ == old(out)@ + decimal(n as nat),
{
    let mut digits: Vec<u8> = Vec::new();
    push_decimal(&mut digits, n);
    proof {
        text::lemma_decimal_roundtrip(n as nat);
        assert(digits@ =~= text::decimal_digits(n as nat));
        assert forall|i: int| 0 <= i < digits@.len() implies #[trigger] digits@[i] < 0x80 by {
            assert(text::is_digit(digits@[i]));
        }
        text::lemma_ascii_utf8(digits@);
    }
    let ghost octets = digits@;
    let written = ascii_string(digits);
    proof {
        labels::lemma_text_injective(written@, octets.map_values(|b: u8| b as char));
    }
    push_text(out, written.as_str());
}

/// Whether the boundary is armed.
fn armed(arms: &Vec<Arm>, boundary: &str) -> (r: bool)
    ensures
        r == is_armed(arms@, boundary@),
{
    let mut i: usize = 0;
    while i < arms.len()
        invariant
            i <= arms@.len(),
            forall|j: int| 0 <= j < i ==> (#[trigger] arms@[j]).boundary@ != boundary@,
        decreases arms@.len() - i,
    {
        if same_text(arms[i].boundary, boundary) {
            return true;
        }
        i += 1;
    }
    false
}

fn performs(arms: &Vec<Arm>, boundary: &str, action: Action) -> (r: bool)
    ensures
        r == armed_with(arms@, boundary@, action),
{
    let mut i: usize = 0;
    while i < arms.len()
        invariant
            i <= arms@.len(),
            forall|j: int|
                0 <= j < i ==> !((#[trigger] arms@[j]).boundary@ == boundary@ && arms@[j].action
                    == action),
        decreases arms@.len() - i,
    {
        if arms[i].action == action && same_text(arms[i].boundary, boundary) {
            return true;
        }
        i += 1;
    }
    false
}

/// The configuration of a process: its run, its scenario, the name of this start, and the boundaries
/// that a schedule arms.
pub fn arm(run_id: String, scenario_id: String, process_start_id: String, arms: Vec<Arm>) -> (r:
    Fixture)
    ensures
        r.run_id == run_id,
        r.scenario_id == scenario_id,
        r.process_start_id == process_start_id,
        r.arms == arms,
        r.reached@ == Seq::<Reached>::empty(),
        r.sequence == 0,
{
    Fixture { run_id, scenario_id, process_start_id, arms, reached: Vec::new(), sequence: 0 }
}

/// The record of a boundary.
fn record(f: &Fixture, sequence: u64, boundary: &str) -> (r: String)
    ensures
        r@ == record_text(*f, sequence, boundary@),
{
    let mut out = String::new();
    push_text(&mut out, "1\t");
    assert(out@ =~= "1\t"@);
    let run = escape(f.run_id.as_str());
    push_text(&mut out, run.as_str());
    push_text(&mut out, "\t");
    let scenario = escape(f.scenario_id.as_str());
    push_text(&mut out, scenario.as_str());
    push_text(&mut out, "\trust\tserver\t");
    push_text(&mut out, f.process_start_id.as_str());
    push_text(&mut out, "\t");
    push_number(&mut out, sequence);
    push_text(&mut out, "\t");
    let label = escape(boundary);
    push_text(&mut out, label.as_str());
    push_text(&mut out, "\t\t\t\t\t\t\t\n");
    out
}

/// A boundary that is reported where it is armed: the record comes first, a scheduled kill after it.
fn boundary_hook(f: &mut Fixture, boundary: &str) -> (r: Option<Event>)
    ensures
        event_fits(*old(f), boundary@, r),
        *final(f) == after_event(*old(f), boundary@),
{
    if !armed(&f.arms, boundary) {
        return None;
    }
    let sequence = next(f.sequence);
    let text = if sequence <= MAX_RECORDS {
        Some(record(f, sequence, boundary))
    } else {
        // The bound of the run is exceeded; missing evidence fails the run on the driver's side.
        None
    };
    let kill = performs(&f.arms, boundary, Action::Kill);
    f.sequence = sequence;
    Some(Event { record: text, kill })
}

/// Reports the start of service where that is armed.
pub fn listening(f: &mut Fixture) -> (r: Option<Event>)
    ensures
        event_fits(*old(f), "LISTENING"@, r),
        *final(f) == after_event(*old(f), "LISTENING"@),
{
    boundary_hook(f, "LISTENING")
}

/// Reports an authenticated connection where that is armed.
pub fn connection_authenticated(f: &mut Fixture) -> (r: Option<Event>)
    ensures
        event_fits(*old(f), "CONNECTION_AUTHENTICATED"@, r),
        *final(f) == after_event(*old(f), "CONNECTION_AUTHENTICATED"@),
{
    boundary_hook(f, "CONNECTION_AUTHENTICATED")
}

/// Reports a reply that the transport accepted, where its boundary is armed.
pub fn sent_boundary(f: &mut Fixture, control: &Control) -> (r: Option<Event>)
    ensures
        match sent_name(*control) {
            Some(boundary) => event_fits(*old(f), boundary, r) && *final(f) == after_event(
                *old(f),
                boundary,
            ),
            None => r is None && *final(f) == *old(f),
        },
{
    match sent_label(control) {
        Some(boundary) => boundary_hook(f, boundary),
        None => None,
    }
}

proof fn lemma_reached_found(rows: Seq<Reached>, i: int, boundary: Seq<char>)
    requires
        0 <= i < rows.len(),
        rows[i].boundary@ == boundary,
        forall|j: int| 0 <= j < i ==> (#[trigger] rows[j]).boundary@ != boundary,
    ensures
        reached_count(rows, boundary) == rows[i].count,
    decreases i,
{
    if i > 0 {
        assert(rows[0].boundary@ != boundary);
        let rest = rows.skip(1);
        assert forall|j: int| 0 <= j < i - 1 implies (#[trigger] rest[j]).boundary@ != boundary by {
            assert(rest[j] == rows[j + 1]);
        }
        lemma_reached_found(rest, i - 1, boundary);
    }
}

proof fn lemma_reached_absent(rows: Seq<Reached>, boundary: Seq<char>)
    requires
        forall|j: int| 0 <= j < rows.len() ==> (#[trigger] rows[j]).boundary@ != boundary,
    ensures
        reached_count(rows, boundary) == 0,
    decreases rows.len(),
{
    if rows.len() > 0 {
        assert(rows[0].boundary@ != boundary);
        let rest = rows.skip(1);
        assert forall|j: int| 0 <= j < rest.len() implies (#[trigger] rest[j]).boundary@ != boundary by {
            assert(rest[j] == rows[j + 1]);
        }
        lemma_reached_absent(rest, boundary);
    }
}

proof fn lemma_reached_other(rows: Seq<Reached>, i: int, row: Reached, boundary: Seq<char>)
    requires
        0 <= i <= rows.len(),
        i < rows.len() ==> rows[i].boundary@ != boundary,
        row.boundary@ != boundary,
    ensures
        i < rows.len() ==> reached_count(rows.update(i, row), boundary) == reached_count(
            rows,
            boundary,
        ),
        i == rows.len() ==> reached_count(rows.push(row), boundary) == reached_count(rows, boundary),
    decreases rows.len(),
{
    if rows.len() == 0 {
        assert(rows.push(row).skip(1) =~= rows);
    } else if i == 0 {
        assert(rows.update(0, row).skip(1) =~= rows.skip(1));
    } else {
        lemma_reached_other(rows.skip(1), i - 1, row, boundary);
        if i < rows.len() {
            assert(rows.update(i, row).skip(1) =~= rows.skip(1).update(i - 1, row));
        } else {
            assert(rows.push(row).skip(1) =~= rows.skip(1).push(row));
        }
    }
}

/// Counts one more commit at the boundary.
fn count_commit(rows: &mut Vec<Reached>, boundary: &'static str)
    ensures
        reached_count(final(rows)@, boundary@) == next_number(reached_count(old(rows)@, boundary@)),
        forall|other: Seq<char>|
            other != boundary@ ==> #[trigger] reached_count(final(rows)@, other) == reached_count(
                old(rows)@,
                other,
            ),
{
    let ghost before = rows@;
    let mut i: usize = 0;
    while i < rows.len() && !same_text(rows[i].boundary, boundary)
        invariant
            i <= rows@.len(),
            rows@ == before,
            forall|j: int| 0 <= j < i ==> (#[trigger] rows@[j]).boundary@ != boundary@,
        decreases rows@.len() - i,
    {
        i += 1;
    }
    let ghost row: Reached;
    if i < rows.len() {
        let count = next(rows[i].count);
        proof {
            row = Reached { boundary: rows@[i as int].boundary, count };
            lemma_reached_found(before, i as int, boundary@);
        }
        let name = rows[i].boundary;
        rows.set(i, Reached { boundary: name, count });
        proof {
            assert(rows@ == before.update(i as int, row));
            lemma_reached_found(rows@, i as int, boundary@);
        }
    } else {
        proof {
            row = Reached { boundary, count: 1 };
            lemma_reached_absent(before, boundary@);
        }
        rows.push(Reached { boundary, count: 1 });
        proof {
            assert(rows@ == before.push(row));
            lemma_reached_found(rows@, i as int, boundary@);
        }
    }
    proof {
        assert forall|other: Seq<char>| other != boundary@ implies #[trigger] reached_count(
            rows@,
            other,
        ) == reached_count(before, other) by {
            lemma_reached_other(before, i as int, row, other);
        }
    }
}

/// Reports a commit where its boundary is armed, and counts it there.
/// A kill is scheduled only after the commit.
pub fn commit_boundary(f: &mut Fixture, key: &str) -> (r: Option<Event>)
    ensures
        match commit_name(key@) {
            Some(boundary) => {
                &&& event_fits(*old(f), boundary, r)
                &&& *final(f) == (Fixture {
                    reached: final(f).reached,
                    ..after_event(*old(f), boundary)
                })
                &&& forall|b: Seq<char>| #[trigger]
                    reached_count(final(f).reached@, b) == if b == boundary && is_armed(
                        old(f).arms@,
                        boundary,
                    ) {
                        next_number(reached_count(old(f).reached@, b))
                    } else {
                        reached_count(old(f).reached@, b)
                    }
            },
            None => r is None && *final(f) == *old(f),
        },
{
    match commit_label(key) {
        Some(boundary) => {
            let event = boundary_hook(f, boundary);
            if event.is_some() {
                count_commit(&mut f.reached, boundary);
            }
            event
        },
        None => None,
    }
}

/// How many commits at this boundary were counted in this process. The
/// pre-queue reply gate compares this count around an operation so that pause and
/// drop-reply act only on a freshly committed one.
pub fn reached(f: &Fixture, boundary: &str) -> (r: u64)
    ensures
        r == reached_count(f.reached@, boundary@),
{
    let mut i: usize = 0;
    while i < f.reached.len()
        invariant
            i <= f.reached@.len(),
            forall|j: int| 0 <= j < i ==> (#[trigger] f.reached@[j]).boundary@ != boundary@,
        decreases f.reached@.len() - i,
    {
        if same_text(f.reached[i].boundary, boundary) {
            proof {
                lemma_reached_found(f.reached@, i as int, boundary@);
            }
            return f.reached[i].count;
        }
        i += 1;
    }
    proof {
        lemma_reached_absent(f.reached@, boundary@);
    }
    0
}

fn first_pause(arms: &Vec<Arm>, boundary: &str) -> (r: u64)
    requires
        armed_with(arms@, boundary@, Action::Pause),
    ensures
        r == pause_deadline(arms@, boundary@),
{
    let mut i: usize = 0;
    assert(arms@.skip(0) =~= arms@);
    while i < arms.len()
        invariant
            i <= arms@.len(),
            pause_deadline(arms@, boundary@) == pause_deadline(arms@.skip(i as int), boundary@),
        decreases arms@.len() - i,
    {
        assert(arms@.skip(i as int)[0] == arms@[i as int]);
        assert(arms@.skip(i as int).skip(1) =~= arms@.skip(i + 1));
        if arms[i].action == Action::Pause && same_text(arms[i].boundary, boundary) {
            return arms[i].deadline;
        }
        i += 1;
    }
    assert(arms@.skip(i as int).len() == 0);
    0
}

/// What becomes of the reply of a boundary.
pub open spec fn gate_fits(f: Fixture, boundary: Seq<char>, r: Gate) -> bool {
    let dropped = armed_with(f.arms@, boundary, Action::DropReply) || armed_with(
        f.arms@,
        boundary,
        Action::Disconnect,
    );
    let paused = armed_with(f.arms@, boundary, Action::Pause);
    match r {
        Gate::Drop => dropped,
        Gate::Hold { release, deadline } => !dropped && paused && release@ == "release-"@ + boundary
            && deadline == pause_deadline(f.arms@, boundary),
        Gate::Pass => !dropped && !paused,
    }
}

/// Decides the pre-queue action for a committed, reply-bearing boundary.
/// Boundaries that are not armed always pass. A held reply names the file whose appearance releases
/// it.
pub fn reply_gate(f: &Fixture, boundary: &str) -> (r: Gate)
    ensures
        gate_fits(*f, boundary@, r),
{
    if performs(&f.arms, boundary, Action::DropReply) || performs(
        &f.arms,
        boundary,
        Action::Disconnect,
    ) {
        return Gate::Drop;
    }
    if performs(&f.arms, boundary, Action::Pause) {
        let deadline = first_pause(&f.arms, boundary);
        let mut release = String::new();
        push_text(&mut release, "release-");
        assert(release@ =~= "release-"@);
        push_text(&mut release, boundary);
        return Gate::Hold { release, deadline };
    }
    Gate::Pass
}

/// A reply is gated only where the schedule arms its boundary.
pub proof fn law_unarmed_boundaries_are_silent(f: Fixture, boundary: Seq<char>, event: Option<Event>)
    requires
        !is_armed(f.arms@, boundary),
        event_fits(f, boundary, event),
    ensures
        event is None,
        after_event(f, boundary) == f,
        forall|action: Action| !armed_with(f.arms@, boundary, action),
{
}

} // verus!
