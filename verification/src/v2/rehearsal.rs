//! What a fault schedule does: rows arm what they say, reached boundaries are told in order, and only
//! replies are held or withheld.

use super::fixture::{self, Action, Arm, Event, Fixture, Gate, ScheduleFault};
use super::messages::{Control, Drain, Scope, Session, Work};
use vstd::prelude::*;

verus! {

/// The columns, one `c` between each two.
pub open spec fn set_side_by_side(cols: Seq<Seq<char>>, c: char) -> Seq<char>
    decreases cols.len(),
{
    if cols.len() == 0 {
        Seq::empty()
    } else if cols.len() == 1 {
        cols[0]
    } else {
        set_side_by_side(cols.drop_last(), c) + seq![c] + cols.last()
    }
}

pub open spec fn without(s: Seq<char>, c: char) -> bool {
    forall|i: int| 0 <= i < s.len() ==> #[trigger] s[i] != c
}

proof fn lemma_pieces_nonempty(s: Seq<char>, c: char)
    ensures
        fixture::pieces(s, c).len() > 0,
        fixture::pieces(s, c).last().len() > 0 ==> s.len() > 0 && fixture::pieces(s, c).last().last()
            == s.last(),
    decreases s.len(),
{
    if s.len() > 0 {
        lemma_pieces_nonempty(s.drop_last(), c);
    }
}

proof fn lemma_pieces_of_one(s: Seq<char>, c: char)
    requires
        without(s, c),
    ensures
        fixture::pieces(s, c) == seq![s],
    decreases s.len(),
{
    if s.len() == 0 {
        assert(s =~= Seq::empty());
    } else {
        let front = s.drop_last();
        assert forall|i: int| 0 <= i < front.len() implies #[trigger] front[i] != c by {
            assert(front[i] == s[i]);
        }
        lemma_pieces_of_one(front, c);
        assert(s[s.len() - 1] != c);
        assert(front.push(s.last()) =~= s);
        assert(fixture::pieces(s, c) =~= seq![s]);
    }
}

proof fn lemma_pieces_push(a: Seq<char>, b: Seq<char>, c: char)
    requires
        without(b, c),
    ensures
        fixture::pieces(a + seq![c] + b, c) == fixture::pieces(a, c).push(b),
    decreases b.len(),
{
    let s = a + seq![c] + b;
    if b.len() == 0 {
        assert(s.drop_last() =~= a);
        assert(b =~= Seq::empty());
    } else {
        let front = b.drop_last();
        assert forall|i: int| 0 <= i < front.len() implies #[trigger] front[i] != c by {
            assert(front[i] == b[i]);
        }
        lemma_pieces_push(a, front, c);
        assert(s.drop_last() =~= a + seq![c] + front);
        assert(b[b.len() - 1] != c);
        assert(front.push(b.last()) =~= b);
        assert(fixture::pieces(s, c) =~= fixture::pieces(a, c).push(b));
    }
}

/// Columns are read back, where none holds what stands between them.
pub proof fn law_columns_are_read_back(cols: Seq<Seq<char>>, c: char)
    requires
        cols.len() > 0,
        forall|k: int| 0 <= k < cols.len() ==> without(#[trigger] cols[k], c),
    ensures
        fixture::pieces(set_side_by_side(cols, c), c) == cols,
    decreases cols.len(),
{
    assert(without(cols[cols.len() - 1], c));
    if cols.len() == 1 {
        lemma_pieces_of_one(cols[0], c);
        assert(seq![cols[0]] =~= cols);
    } else {
        let front = cols.drop_last();
        assert forall|k: int| 0 <= k < front.len() implies without(#[trigger] front[k], c) by {
            assert(front[k] == cols[k]);
        }
        law_columns_are_read_back(front, c);
        lemma_pieces_push(set_side_by_side(front, c), cols.last(), c);
        assert(front.push(cols.last()) =~= cols);
    }
}

/// An escaped label stands in one column of one line.
pub proof fn law_escaped_labels_fit_a_column(label: Seq<char>)
    ensures
        without(fixture::escaped(label), '\t'),
        without(fixture::escaped(label), '\n'),
        without(fixture::escaped(label), '\r'),
    decreases label.len(),
{
    if label.len() > 0 {
        law_escaped_labels_fit_a_column(label.drop_last());
    }
}

proof fn lemma_decimal(n: nat)
    ensures
        fixture::digits_value(fixture::decimal(n)) == n,
        fixture::decimal(n).len() > 0,
        forall|i: int|
            0 <= i < fixture::decimal(n).len() ==> fixture::is_digit(
                #[trigger] fixture::decimal(n)[i],
            ),
    decreases n,
{
    let s = fixture::decimal(n);
    if n < 10 {
        assert(s.drop_last() =~= Seq::empty());
        assert(fixture::digits_value(s.drop_last()) == 0);
        assert(s[0] == (0x30 + n) as u8 as char);
    } else {
        lemma_decimal(n / 10);
        let front = fixture::decimal(n / 10);
        assert(s =~= front.push((0x30 + n % 10) as u8 as char));
        assert(s.drop_last() =~= front);
        assert forall|i: int| 0 <= i < s.len() implies fixture::is_digit(#[trigger] s[i]) by {
            if i < front.len() {
                assert(s[i] == front[i]);
            }
        }
    }
}

/// A number is read back from its digits.
pub proof fn law_deadline_is_read_back(n: u64)
    ensures
        fixture::number_of(fixture::decimal(n as nat)) == Some(n),
        without(fixture::decimal(n as nat), '\t'),
{
    lemma_decimal(n as nat);
    let s = fixture::decimal(n as nat);
    assert(fixture::is_digit(s[0]));
    assert(fixture::unsigned(s) == s);
    assert forall|i: int| 0 <= i < s.len() implies #[trigger] s[i] != '\t' by {
        assert(fixture::is_digit(s[i]));
    }
}

/// A row of a schedule.
pub open spec fn row(
    run: Seq<char>,
    scenario: Seq<char>,
    target: Seq<char>,
    boundary: Seq<char>,
    word: Seq<char>,
    note: Seq<char>,
    deadline: u64,
) -> Seq<char> {
    set_side_by_side(
        seq![
            seq!['1'],
            fixture::escaped(run),
            fixture::escaped(scenario),
            target,
            fixture::escaped(boundary),
            word,
            note,
            fixture::decimal(deadline as nat),
        ],
        '\t',
    )
}

proof fn lemma_row(
    run: Seq<char>,
    scenario: Seq<char>,
    target: Seq<char>,
    boundary: Seq<char>,
    word: Seq<char>,
    note: Seq<char>,
    deadline: u64,
)
    requires
        without(target, '\t'),
        without(word, '\t'),
        without(note, '\t'),
    ensures
        ({
            let cols = fixture::pieces(
                row(run, scenario, target, boundary, word, note, deadline),
                '\t',
            );
            &&& cols.len() == 8
            &&& cols[0] == seq!['1']
            &&& fixture::unescaped(cols[1]) == Some(run)
            &&& fixture::unescaped(cols[2]) == Some(scenario)
            &&& cols[3] == target
            &&& fixture::unescaped(cols[4]) == Some(boundary)
            &&& cols[5] == word
            &&& fixture::number_of(cols[7]) == Some(deadline)
        }),
{
    let cols = seq![
        seq!['1'],
        fixture::escaped(run),
        fixture::escaped(scenario),
        target,
        fixture::escaped(boundary),
        word,
        note,
        fixture::decimal(deadline as nat),
    ];
    law_escaped_labels_fit_a_column(run);
    law_escaped_labels_fit_a_column(scenario);
    law_escaped_labels_fit_a_column(boundary);
    fixture::law_escaping_round_trips(run);
    fixture::law_escaping_round_trips(scenario);
    fixture::law_escaping_round_trips(boundary);
    law_deadline_is_read_back(deadline);
    assert forall|k: int| 0 <= k < cols.len() implies without(#[trigger] cols[k], '\t') by {}
    law_columns_are_read_back(cols, '\t');
}

/// The word of an action.
pub open spec fn word_of(action: Action) -> Seq<char> {
    match action {
        Action::Pause => "pause"@,
        Action::DropReply => "drop-reply"@,
        Action::Disconnect => "disconnect"@,
        Action::Kill => "kill"@,
    }
}

proof fn lemma_words()
    ensures
        "kill"@ != "pause"@ && "kill"@ != "drop-reply"@ && "kill"@ != "disconnect"@,
        "pause"@ != "drop-reply"@ && "pause"@ != "disconnect"@ && "drop-reply"@ != "disconnect"@,
        forall|action: Action|
            {
                let word = #[trigger] word_of(action);
                &&& word != "release"@ && word != "stop"@ && word != "restart"@ && word
                    != "clock-set"@
                &&& without(word, '\t')
            },
        "release"@ != "stop"@ && "release"@ != "restart"@ && "release"@ != "clock-set"@,
        without("server"@, '\t'),
        without("release"@, '\t') && without("stop"@, '\t') && without("restart"@, '\t') && without(
            "clock-set"@,
            '\t',
        ),
{
    reveal_strlit("kill");
    reveal_strlit("pause");
    reveal_strlit("drop-reply");
    reveal_strlit("disconnect");
    reveal_strlit("release");
    reveal_strlit("stop");
    reveal_strlit("restart");
    reveal_strlit("clock-set");
    reveal_strlit("server");
    assert("kill"@[0] == 'k');
    assert("stop"@[0] == 's');
    assert("drop-reply"@[1] == 'r' && "disconnect"@[1] == 'i');
    assert("release"@[2] == 'l' && "restart"@[2] == 's');
    assert forall|action: Action|
        {
            let word = #[trigger] word_of(action);
            &&& word != "release"@ && word != "stop"@ && word != "restart"@ && word != "clock-set"@
            &&& without(word, '\t')
        } by {
        match action {
            Action::Pause => {
                assert(word_of(action).len() == 5);
            },
            Action::DropReply => {
                assert(word_of(action).len() == 10);
            },
            Action::Disconnect => {
                assert(word_of(action).len() == 10);
            },
            Action::Kill => {
                assert(word_of(action).len() == 4);
                assert(word_of(action)[0] == 'k');
            },
        }
    }
}

/// The replies that can be held or withheld: those of a created session, a declaration and an
/// admitted input.
pub open spec fn has_reply(boundary: Seq<char>) -> bool {
    ||| boundary == "SESSION_COMMITTED"@
    ||| boundary == "DECLARATION_COMMITTED"@
    ||| boundary == "ADMISSION_COMMITTED"@
}

/// A row for this process arms its boundary with its action and its deadline. A kill may stand at
/// every boundary; the others only where a reply is pending.
pub proof fn law_row_arms_its_boundary(
    run: Seq<char>,
    scenario: Seq<char>,
    boundary: Seq<char>,
    action: Action,
    note: Seq<char>,
    deadline: u64,
)
    requires
        fixture::boundaries().contains(boundary),
        without(note, '\t'),
    ensures
        ({
            let line = row(run, scenario, "server"@, boundary, word_of(action), note, deadline);
            fixture::row_outcome(line, run, scenario) == if action == Action::Kill || has_reply(
                boundary,
            ) {
                Ok::<Option<(Seq<char>, Action, u64)>, ScheduleFault>(
                    Some((boundary, action, deadline)),
                )
            } else {
                Err(ScheduleFault::ReplyPair)
            }
        }),
{
    lemma_words();
    assert(without(word_of(action), '\t'));
    lemma_row(run, scenario, "server"@, boundary, word_of(action), note, deadline);
}

/// A row for another target arms nothing here, whatever it asks for.
pub proof fn law_other_targets_arm_nothing(
    run: Seq<char>,
    scenario: Seq<char>,
    target: Seq<char>,
    boundary: Seq<char>,
    word: Seq<char>,
    note: Seq<char>,
    deadline: u64,
)
    requires
        target != "server"@,
        without(target, '\t'),
        without(word, '\t'),
        without(note, '\t'),
    ensures
        fixture::row_outcome(
            row(run, scenario, target, boundary, word, note, deadline),
            run,
            scenario,
        ) == Ok::<Option<(Seq<char>, Action, u64)>, ScheduleFault>(None),
{
    lemma_row(run, scenario, target, boundary, word, note, deadline);
}

/// A row of another run or scenario is refused.
pub proof fn law_rows_are_of_the_run(
    run: Seq<char>,
    scenario: Seq<char>,
    other_run: Seq<char>,
    other_scenario: Seq<char>,
    target: Seq<char>,
    boundary: Seq<char>,
    word: Seq<char>,
    note: Seq<char>,
    deadline: u64,
)
    requires
        run != other_run || scenario != other_scenario,
        without(target, '\t'),
        without(word, '\t'),
        without(note, '\t'),
    ensures
        fixture::row_outcome(
            row(other_run, other_scenario, target, boundary, word, note, deadline),
            run,
            scenario,
        ) == Err::<Option<(Seq<char>, Action, u64)>, ScheduleFault>(
            if run != other_run {
                ScheduleFault::Run
            } else {
                ScheduleFault::Scenario
            },
        ),
{
    lemma_row(other_run, other_scenario, target, boundary, word, note, deadline);
}

/// What the driver does itself arms nothing: a release is passed over, and a stop, a restart or a new
/// clock is refused, as is a word that names no action, and a boundary that is none.
pub proof fn law_driver_acts_for_itself(
    run: Seq<char>,
    scenario: Seq<char>,
    boundary: Seq<char>,
    word: Seq<char>,
    note: Seq<char>,
    deadline: u64,
)
    requires
        without(word, '\t'),
        without(note, '\t'),
        forall|action: Action| word != #[trigger] word_of(action),
    ensures
        ({
            let outcome = fixture::row_outcome(
                row(run, scenario, "server"@, boundary, word, note, deadline),
                run,
                scenario,
            );
            if !fixture::boundaries().contains(boundary) {
                outcome == Err::<Option<(Seq<char>, Action, u64)>, ScheduleFault>(
                    ScheduleFault::Boundary,
                )
            } else if word == "release"@ {
                outcome == Ok::<Option<(Seq<char>, Action, u64)>, ScheduleFault>(None)
            } else if word == "stop"@ || word == "restart"@ || word == "clock-set"@ {
                outcome == Err::<Option<(Seq<char>, Action, u64)>, ScheduleFault>(
                    ScheduleFault::DriverSide,
                )
            } else {
                outcome == Err::<Option<(Seq<char>, Action, u64)>, ScheduleFault>(
                    ScheduleFault::Action,
                )
            }
        }),
{
    lemma_words();
    lemma_row(run, scenario, "server"@, boundary, word, note, deadline);
    assert(word != word_of(Action::Kill));
    assert(word != word_of(Action::Pause));
    assert(word != word_of(Action::DropReply));
    assert(word != word_of(Action::Disconnect));
}

/// How many lines a schedule has.
pub open spec fn lines(text: Seq<char>) -> int {
    fixture::pieces(text, '\n').len() as int
}

proof fn lemma_same_lines(
    a: Seq<char>,
    b: Seq<char>,
    n: int,
    run: Seq<char>,
    scenario: Seq<char>,
)
    requires
        forall|i: int| 0 <= i < n ==> #[trigger] fixture::line_at(a, i) == fixture::line_at(b, i),
    ensures
        fixture::schedule_outcome(a, n, run, scenario) == fixture::schedule_outcome(
            b,
            n,
            run,
            scenario,
        ),
    decreases n,
{
    if n > 0 {
        assert(fixture::line_at(a, n - 1) == fixture::line_at(b, n - 1));
        lemma_same_lines(a, b, n - 1, run, scenario);
    }
}

/// A schedule goes on line by line. One more line adds what it arms behind what was armed, an empty
/// one adds nothing, and the first line that is wrong is told by its number.
pub proof fn law_schedule_goes_on(
    before: Seq<char>,
    line: Seq<char>,
    run: Seq<char>,
    scenario: Seq<char>,
)
    requires
        without(line, '\n'),
        before.len() == 0 || before.last() != '\r',
    ensures
        ({
            let whole = before + seq!['\n'] + line;
            let had = fixture::schedule_outcome(before, lines(before), run, scenario);
            let has = fixture::schedule_outcome(whole, lines(whole), run, scenario);
            &&& lines(whole) == lines(before) + 1
            &&& had is Err ==> has == had
            &&& had matches Ok(arms) ==> if line.len() == 0 {
                has == had
            } else {
                match fixture::row_outcome(line, run, scenario) {
                    Ok(Some(arm)) => has == Ok::<
                        Seq<(Seq<char>, Action, u64)>,
                        (int, ScheduleFault),
                    >(arms.push(arm)),
                    Ok(None) => has == had,
                    Err(fault) => has == Err::<
                        Seq<(Seq<char>, Action, u64)>,
                        (int, ScheduleFault),
                    >((lines(whole), fault)),
                }
            }
        }),
{
    let whole = before + seq!['\n'] + line;
    lemma_pieces_nonempty(before, '\n');
    lemma_pieces_push(before, line, '\n');
    let parts = fixture::pieces(before, '\n');
    assert forall|i: int| 0 <= i < lines(before) implies #[trigger] fixture::line_at(whole, i)
        == fixture::line_at(before, i) by {
        assert(fixture::pieces(whole, '\n')[i] == parts[i]);
    }
    lemma_same_lines(whole, before, lines(before), run, scenario);
    assert(fixture::line_at(whole, lines(whole) - 1) == line);
}

/// A boundary that is armed is told, each time under the next number, until the run's bound; and the
/// process is killed there where a kill is armed.
pub proof fn law_reached_boundaries_are_numbered(
    f: Fixture,
    first: Seq<char>,
    second: Seq<char>,
    i: int,
    j: int,
    one: Option<Event>,
    two: Option<Event>,
)
    requires
        0 <= i < f.arms@.len(),
        f.arms@[i].boundary@ == first,
        0 <= j < f.arms@.len(),
        f.arms@[j].boundary@ == second,
        f.sequence < 65_535,
        fixture::event_fits(f, first, one),
        fixture::event_fits(fixture::after_event(f, first), second, two),
    ensures
        one matches Some(e) && e.record matches Some(t) && t@ == fixture::record_text(
            f,
            (f.sequence + 1) as u64,
            first,
        ),
        two matches Some(e) && e.record matches Some(t) && t@ == fixture::record_text(
            f,
            (f.sequence + 2) as u64,
            second,
        ),
        f.arms@[i].action == Action::Kill ==> one->0.kill,
        (forall|k: int|
            0 <= k < f.arms@.len() && (#[trigger] f.arms@[k]).boundary@ == first
                ==> f.arms@[k].action != Action::Kill) ==> !one->0.kill,
{
    assert(fixture::is_armed(f.arms@, first));
    assert(fixture::is_armed(f.arms@, second));
    let after = fixture::after_event(f, first);
    assert(after.sequence == f.sequence + 1);
    assert(fixture::record_text(after, (f.sequence + 2) as u64, second) == fixture::record_text(
        f,
        (f.sequence + 2) as u64,
        second,
    ));
}

/// No more than sixty-five thousand five hundred and thirty-six records are told.
pub proof fn law_records_are_bounded(f: Fixture, boundary: Seq<char>, event: Option<Event>)
    requires
        f.sequence >= 65_536,
        fixture::event_fits(f, boundary, event),
    ensures
        event matches Some(e) ==> e.record is None,
{
}

/// The record of a boundary is a line of columns: the run, the scenario, this process and its start,
/// the number and the boundary, each where a reader looks for it.
#[verifier::spinoff_prover]
#[verifier::rlimit(30)]
pub proof fn law_record_has_its_columns(f: Fixture, number: u64, boundary: Seq<char>)
    requires
        without(f.process_start_id@, '\t'),
    ensures
        ({
            let cols = fixture::pieces(fixture::record_text(f, number, boundary), '\t');
            &&& cols.len() == 15
            &&& cols[0] == seq!['1']
            &&& fixture::unescaped(cols[1]) == Some(f.run_id@)
            &&& fixture::unescaped(cols[2]) == Some(f.scenario_id@)
            &&& cols[3] == "rust"@
            &&& cols[4] == "server"@
            &&& cols[5] == f.process_start_id@
            &&& fixture::number_of(cols[6]) == Some(number)
            &&& fixture::unescaped(cols[7]) == Some(boundary)
            &&& cols[14] == seq!['\n']
        }),
{
    let none = Seq::<char>::empty();
    let tab = seq!['\t'];
    let run = fixture::escaped(f.run_id@);
    let scenario = fixture::escaped(f.scenario_id@);
    let start = f.process_start_id@;
    let digits = fixture::decimal(number as nat);
    let label = fixture::escaped(boundary);
    let end = seq!['\n'];
    law_escaped_labels_fit_a_column(f.run_id@);
    law_escaped_labels_fit_a_column(f.scenario_id@);
    law_escaped_labels_fit_a_column(boundary);
    fixture::law_escaping_round_trips(f.run_id@);
    fixture::law_escaping_round_trips(f.scenario_id@);
    fixture::law_escaping_round_trips(boundary);
    law_deadline_is_read_back(number);
    reveal_strlit("1\t");
    reveal_strlit("\t");
    reveal_strlit("\trust\tserver\t");
    reveal_strlit("rust");
    reveal_strlit("server");
    reveal_strlit("\t\t\t\t\t\t\t\n");
    let a0 = seq!['1'];
    let a1 = a0 + tab + run;
    let a2 = a1 + tab + scenario;
    let a3 = a2 + tab + "rust"@;
    let a4 = a3 + tab + "server"@;
    let a5 = a4 + tab + start;
    let a6 = a5 + tab + digits;
    let a7 = a6 + tab + label;
    let a8 = a7 + tab + none;
    let a9 = a8 + tab + none;
    let a10 = a9 + tab + none;
    let a11 = a10 + tab + none;
    let a12 = a11 + tab + none;
    let a13 = a12 + tab + none;
    let a14 = a13 + tab + end;
    assert("1\t"@ =~= a0 + tab);
    assert("\t"@ =~= tab);
    assert("\trust\tserver\t"@ =~= tab + "rust"@ + tab + "server"@ + tab);
    assert("\t\t\t\t\t\t\t\n"@ =~= tab + tab + tab + tab + tab + tab + tab + end);
    assert(a7 =~= "1\t"@ + run + "\t"@ + scenario + "\trust\tserver\t"@ + start + "\t"@ + digits
        + "\t"@ + label);
    assert(a14 =~= a7 + "\t\t\t\t\t\t\t\n"@);
    assert(a14 =~= fixture::record_text(f, number, boundary));
    lemma_pieces_of_one(a0, '\t');
    lemma_pieces_push(a0, run, '\t');
    lemma_pieces_push(a1, scenario, '\t');
    lemma_pieces_push(a2, "rust"@, '\t');
    lemma_pieces_push(a3, "server"@, '\t');
    lemma_pieces_push(a4, start, '\t');
    lemma_pieces_push(a5, digits, '\t');
    lemma_pieces_push(a6, label, '\t');
    lemma_pieces_push(a7, none, '\t');
    lemma_pieces_push(a8, none, '\t');
    lemma_pieces_push(a9, none, '\t');
    lemma_pieces_push(a10, none, '\t');
    lemma_pieces_push(a11, none, '\t');
    lemma_pieces_push(a12, none, '\t');
    lemma_pieces_push(a13, end, '\t');
}

proof fn lemma_first_pause(arms: Seq<Arm>, i: int, boundary: Seq<char>)
    requires
        0 <= i < arms.len(),
        arms[i].boundary@ == boundary,
        arms[i].action == Action::Pause,
        forall|k: int|
            0 <= k < i ==> (#[trigger] arms[k]).boundary@ != boundary || arms[k].action
                != Action::Pause,
    ensures
        fixture::pause_deadline(arms, boundary) == arms[i].deadline,
    decreases i,
{
    if i > 0 {
        assert(arms[0].boundary@ != boundary || arms[0].action != Action::Pause);
        let rest = arms.skip(1);
        assert forall|k: int| 0 <= k < i - 1 implies (#[trigger] rest[k]).boundary@ != boundary
            || rest[k].action != Action::Pause by {
            assert(rest[k] == arms[k + 1]);
        }
        lemma_first_pause(rest, i - 1, boundary);
    }
}

/// The one arm of a boundary decides its reply: a pause holds it for as long as the arm says, a
/// dropped reply or a disconnect withholds it, and a kill leaves it alone.
pub proof fn law_arm_decides_the_reply(f: Fixture, boundary: Seq<char>, i: int, gate: Gate)
    requires
        0 <= i < f.arms@.len(),
        f.arms@[i].boundary@ == boundary,
        forall|k: int|
            0 <= k < f.arms@.len() && k != i ==> (#[trigger] f.arms@[k]).boundary@ != boundary,
        fixture::gate_fits(f, boundary, gate),
    ensures
        match f.arms@[i].action {
            Action::Pause => gate matches Gate::Hold { release, deadline } && deadline
                == f.arms@[i].deadline && release@ == "release-"@ + boundary,
            Action::DropReply => gate == Gate::Drop,
            Action::Disconnect => gate == Gate::Drop,
            Action::Kill => gate == Gate::Pass,
        },
{
    assert(fixture::armed_with(f.arms@, boundary, f.arms@[i].action));
    assert forall|action: Action| action != f.arms@[i].action implies !#[trigger] fixture::armed_with(
        f.arms@,
        boundary,
        action,
    ) by {}
    if f.arms@[i].action == Action::Pause {
        lemma_first_pause(f.arms@, i, boundary);
    }
}

/// A withheld reply is not held: where both are armed, it is withheld. Where nothing is armed, it
/// passes.
pub proof fn law_withholding_comes_first(f: Fixture, boundary: Seq<char>, i: int, gate: Gate)
    requires
        fixture::gate_fits(f, boundary, gate),
    ensures
        0 <= i < f.arms@.len() && f.arms@[i].boundary@ == boundary && (f.arms@[i].action
            == Action::DropReply || f.arms@[i].action == Action::Disconnect) ==> gate == Gate::Drop,
        (forall|k: int|
            0 <= k < f.arms@.len() ==> (#[trigger] f.arms@[k]).boundary@ != boundary) ==> gate
            == Gate::Pass,
{
    if 0 <= i < f.arms@.len() && f.arms@[i].boundary@ == boundary {
        assert(fixture::armed_with(f.arms@, boundary, f.arms@[i].action));
    }
}

/// Every commit and every reply that reaches a boundary reaches one that a schedule can arm.
pub proof fn law_reached_boundaries_can_be_armed(key: Seq<char>, control: Control)
    ensures
        fixture::commit_name(key) matches Some(b) ==> fixture::boundaries().contains(b),
        fixture::sent_name(control) matches Some(b) ==> fixture::boundaries().contains(b),
{
    let all = fixture::boundaries();
    assert(all[2] == "SESSION_COMMITTED"@);
    assert(all[3] == "SESSION_RESPONSE_SENT"@);
    assert(all[4] == "DECLARATION_COMMITTED"@);
    assert(all[5] == "DECLARATION_RESPONSE_SENT"@);
    assert(all[6] == "ADMISSION_COMMITTED"@);
    assert(all[7] == "ADMISSION_RESPONSE_SENT"@);
    assert(all[8] == "EXECUTION_CLAIMED"@);
    assert(all[9] == "PUBLICATION_COMMITTED"@);
    assert(all[10] == "RETRY_COMMITTED"@);
    assert(all[11] == "FENCE_COMMITTED"@);
    assert(all[12] == "CLOSURE_COMMITTED"@);
    assert(all[13] == "COMPLETE_RESPONSE_SENT"@);
    assert(all[14] == "DETACH_ACKNOWLEDGED"@);
    assert(all[15] == "REFUSAL_SENT"@);
}

/// A reply reaches the boundary of what it answers: the binding of a session, a declaration, an
/// admitted input, a completed or a detached drain, or a refusal. No other message reaches one.
pub proof fn law_replies_reach_their_boundary(control: Control, boundary: Seq<char>)
    ensures
        fixture::sent_name(control) is Some <==> (match control {
            Control::Session(s) => s is Binding,
            Control::Scope(s) => s is Declared,
            Control::Work(w) => w is Admitted,
            Control::Drain(d) => d is Completed || d is Detached,
            Control::Refusal(_) => true,
            _ => false,
        }),
        control is Session && fixture::sent_name(control) == Some(boundary) ==> boundary
            == "SESSION_RESPONSE_SENT"@,
        control is Scope && fixture::sent_name(control) == Some(boundary) ==> boundary
            == "DECLARATION_RESPONSE_SENT"@,
        control is Work && fixture::sent_name(control) == Some(boundary) ==> boundary
            == "ADMISSION_RESPONSE_SENT"@,
        control is Refusal && fixture::sent_name(control) == Some(boundary) ==> boundary
            == "REFUSAL_SENT"@,
        control matches Control::Drain(d) ==> (fixture::sent_name(control) == Some(boundary)
            ==> boundary == if d is Completed {
            "COMPLETE_RESPONSE_SENT"@
        } else {
            "DETACH_ACKNOWLEDGED"@
        }),
{
}

} // verus!
