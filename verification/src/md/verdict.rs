//! What a run or a replay amounts to.

use crate::instrument::{self, Instrument, InstrumentTable};
use crate::journal::layout::Kind;
use crate::md::args;
use crate::md::board::{Board, BoardView};
use crate::md::lines;
use crate::md::session::{MdStats, ReplayReport};
use crate::md::show;
use crate::telemetry::histogram::LatencySummary;
use vstd::prelude::*;

verus! {

/// Whether two tables describe the same instruments.
pub open spec fn same(a: Seq<Instrument>, b: Seq<Instrument>) -> bool {
    a.len() == b.len() && forall|i: int|
        0 <= i < a.len() ==> instrument::same_instrument(#[trigger] a[i], b[i])
}

/// Whether two tables describe the same instruments.
pub fn same_instruments(a: &InstrumentTable, b: &InstrumentTable) -> (r: bool)
    ensures
        r == same(a@, b@),
{
    let ours: Vec<Instrument> = a.iter();
    let theirs: Vec<Instrument> = b.iter();
    if ours.len() != theirs.len() {
        return false;
    }
    let mut i: usize = 0;
    while i < ours.len()
        invariant
            i <= ours.len(),
            ours@ == a@,
            theirs@ == b@,
            ours@.len() == theirs@.len(),
            forall|k: int| 0 <= k < i ==> instrument::same_instrument(#[trigger] a@[k], b@[k]),
        decreases ours.len() - i,
    {
        if ours[i] != theirs[i] {
            assert(!instrument::same_instrument(a@[i as int], b@[i as int]));
            return false;
        }
        i = i + 1;
    }
    true
}

/// Whether a record starts a session and describes its instruments.
pub fn starts_session(kind: Kind) -> (r: bool)
    ensures
        r == (kind.0 == 0x0002),
{
    kind == Kind::session_start()
}

/// The sessions of a journal describe different instruments.
#[derive(Clone, Copy, Debug, PartialEq, Eq, Structural)]
pub struct MixedInstruments;

/// Takes the instruments of one more session of a journal, after those of the sessions before
/// it. Every session must describe the same instruments, so one set of labels is right for the
/// whole replay.
///
/// # Errors
/// [`MixedInstruments`] if it describes others.
pub fn admit_session(found: Option<InstrumentTable>, table: InstrumentTable) -> (r: Result<
    InstrumentTable,
    MixedInstruments,
>)
    ensures
        match (found, r) {
            (None, Ok(kept)) => kept@ == table@,
            (Some(first), Ok(kept)) => same(first@, table@) && kept@ == first@,
            (None, Err(_)) => false,
            (Some(first), Err(_)) => !same(first@, table@),
        },
{
    match found {
        None => Ok(table),
        Some(first) => if same_instruments(&first, &table) {
            Ok(first)
        } else {
            Err(MixedInstruments)
        },
    }
}

/// What admitting the sessions of a journal one after the other comes to: the instruments to
/// label it with, if it holds a session at all.
pub open spec fn admitted(tables: Seq<Seq<Instrument>>) -> Result<
    Option<Seq<Instrument>>,
    MixedInstruments,
>
    decreases tables.len(),
{
    if tables.len() == 0 {
        Ok(None)
    } else {
        match admitted(tables.drop_last()) {
            Ok(None) => Ok(Some(tables.last())),
            Ok(Some(first)) => if same(first, tables.last()) {
                Ok(Some(first))
            } else {
                Err(MixedInstruments)
            },
            Err(mixed) => Err(mixed),
        }
    }
}

/// A journal is labelled with the instruments of its first session, and only if every other one
/// describes the same.
pub proof fn law_one_set_of_labels_is_right(tables: Seq<Seq<Instrument>>)
    requires
        tables.len() > 0,
    ensures
        (forall|k: int| 1 <= k < tables.len() ==> same(tables[0], #[trigger] tables[k]))
            ==> admitted(tables) == Ok::<Option<Seq<Instrument>>, MixedInstruments>(
            Some(tables[0]),
        ),
        !(forall|k: int| 1 <= k < tables.len() ==> same(tables[0], #[trigger] tables[k]))
            ==> admitted(tables) is Err,
    decreases tables.len(),
{
    let before = tables.drop_last();
    if tables.len() == 1 {
        assert(admitted(before) == Ok::<Option<Seq<Instrument>>, MixedInstruments>(None));
    } else {
        law_one_set_of_labels_is_right(before);
        assert(before[0] == tables[0]);
        assert forall|k: int| 1 <= k < before.len() implies before[k] == #[trigger] tables[k] by {}
        if forall|k: int| 1 <= k < tables.len() ==> same(tables[0], #[trigger] tables[k]) {
            assert forall|k: int| 1 <= k < before.len() implies same(
                before[0],
                #[trigger] before[k],
            ) by {
                assert(same(tables[0], tables[k]));
            }
            assert(same(tables[0], tables[tables.len() - 1]));
        } else {
            let k = choose|k: int| 1 <= k < tables.len() && !same(tables[0], #[trigger] tables[k]);
            if k < before.len() {
                assert(!same(before[0], before[k]));
            }
        }
    }
}

/// Tables are the same if they list the same instruments in the same order, each with the same
/// ID, venue, symbol, increments and minimum value.
pub proof fn law_sameness_is_of_every_field(a: Seq<Instrument>, b: Seq<Instrument>)
    ensures
        same(a, b) <==> a.len() == b.len() && forall|i: int|
            #![trigger a[i]]
            0 <= i < a.len() ==> a[i].id == b[i].id && a[i].venue == b[i].venue && a[i].symbol@
                == b[i].symbol@ && a[i].tick == b[i].tick && a[i].lot == b[i].lot
                && a[i].min_notional@.same(b[i].min_notional@),
{
}

/// How a run ends.
#[derive(Clone, Copy, Debug, PartialEq, Eq, Structural)]
pub enum Verdict {
    /// Every book went live and matched.
    Success,
    /// A book differed from a fresh venue snapshot.
    Mismatch,
    /// An instrument never went live.
    NeverLive,
}

/// How a run ends in which this many of the instruments were ever live.
pub open spec fn verdict_of(stats: MdStats, ever_live: int, instruments: int) -> Verdict {
    if stats.verification_mismatches > 0 {
        Verdict::Mismatch
    } else if ever_live == instruments {
        Verdict::Success
    } else {
        Verdict::NeverLive
    }
}

/// How a run ends in which this many of the instruments were ever live.
pub fn verdict(stats: &MdStats, ever_live: usize, instruments: usize) -> (r: Verdict)
    ensures
        r == verdict_of(*stats, ever_live as int, instruments as int),
{
    if stats.verification_mismatches > 0 {
        Verdict::Mismatch
    } else if ever_live == instruments {
        Verdict::Success
    } else {
        Verdict::NeverLive
    }
}

/// A run succeeds exactly if no verification mismatched and every instrument was live at some
/// time. One mismatch is enough to say so, whatever else was counted.
pub proof fn law_one_mismatch_is_enough(stats: MdStats, ever_live: int, instruments: int)
    ensures
        verdict_of(stats, ever_live, instruments) == Verdict::Success
            <==> stats.verification_mismatches == 0 && ever_live == instruments,
        verdict_of(stats, ever_live, instruments) == Verdict::Mismatch
            <==> stats.verification_mismatches >= 1,
        verdict_of(stats, ever_live, instruments) == Verdict::NeverLive
            <==> stats.verification_mismatches == 0 && ever_live != instruments,
{
}

/// A run that succeeds ends without a complaint, any other with one of its own.
pub proof fn law_only_success_is_silent(stats: MdStats, ever_live: int, instruments: int)
    ensures
        complaint(verdict_of(stats, ever_live, instruments)) is None
            <==> stats.verification_mismatches == 0 && ever_live == instruments,
        stats.verification_mismatches > 0 ==> complaint(verdict_of(stats, ever_live, instruments))
            == Some(
            "a book differed from a fresh venue snapshot: investigate before trusting this build"@,
        ),
        stats.verification_mismatches == 0 && ever_live != instruments ==> complaint(
            verdict_of(stats, ever_live, instruments),
        ) == Some("some instruments never went live"@),
{
}

/// Whether a replay saw everything that happened: the journal lacks no records.
pub fn is_exact(report: &ReplayReport) -> (r: bool)
    ensures
        r == (report.dropped == 0),
{
    report.dropped == 0
}

/// What the tool prints at its end, and whether it succeeded.
#[derive(Debug)]
pub struct Output {
    /// Lines for the standard output.
    pub out: Vec<String>,
    /// What went wrong, if anything did.
    pub error: Option<String>,
}

/// The lines of some text.
pub open spec fn line_views(lines: Seq<String>) -> Seq<Seq<char>> {
    lines.map_values(|line: String| line@)
}

/// What a verdict says went wrong, if anything did.
pub open spec fn complaint(verdict: Verdict) -> Option<Seq<char>> {
    match verdict {
        Verdict::Success => None,
        Verdict::Mismatch => Some(
            "a book differed from a fresh venue snapshot: investigate before trusting this build"@,
        ),
        Verdict::NeverLive => Some("some instruments never went live"@),
    }
}

/// What is printed at the end of a run in which this many of the instruments were ever live.
pub fn run_output(
    stats: &MdStats,
    latency: &LatencySummary,
    ever_live: usize,
    instruments: usize,
) -> (r: Output)
    ensures
        line_views(r.out@) == seq![
            lines::summary_line(*stats),
            lines::total_latency_line(*latency),
            lines::verification_line(*stats),
        ],
        args::optional(r.error) == complaint(
            verdict_of(*stats, ever_live as int, instruments as int),
        ),
{
    let out: Vec<String> = lines::summary_lines(stats, latency);
    assert(line_views(out@) =~= seq![
        lines::summary_line(*stats),
        lines::total_latency_line(*latency),
        lines::verification_line(*stats),
    ]);
    let error: Option<String> = match verdict(stats, ever_live, instruments) {
        Verdict::Success => None,
        Verdict::Mismatch => Some(
            "a book differed from a fresh venue snapshot: investigate before trusting this build".to_owned(),
        ),
        Verdict::NeverLive => Some("some instruments never went live".to_owned()),
    };
    Output { out, error }
}

/// What is printed at the end of a replay: what was replayed, and the final books if the board
/// can be had.
pub open spec fn replay_lines(
    report: ReplayReport,
    board: Option<BoardView>,
    instruments: Seq<Instrument>,
) -> Seq<Seq<char>> {
    seq![lines::replay_line(report)] + match board {
        Some(board) => instruments.map_values(
            |instrument: Instrument| show::total_line(board, instrument),
        ),
        None => Seq::empty(),
    }
}

/// What is printed at the end of a replay. It is not exact if the journal lacks records.
pub fn replay_output(
    report: &ReplayReport,
    board: Option<&Board>,
    instruments: &InstrumentTable,
) -> (r: Output)
    ensures
        line_views(r.out@) == replay_lines(
            *report,
            match board {
                Some(board) => Some(board@),
                None => None,
            },
            instruments@,
        ),
        args::optional(r.error) == if report.dropped > 0 {
            Some("journal is incomplete: replay is not exact after the first gap"@)
        } else {
            None
        },
{
    let mut out: Vec<String> = Vec::new();
    out.push(lines::replay_text(report));
    match board {
        Some(board) => {
            let mut books: Vec<String> = show::final_lines(board, instruments);
            out.append(&mut books);
            assert(line_views(out@) =~= replay_lines(*report, Some(board@), instruments@));
        },
        None => {
            assert(line_views(out@) =~= replay_lines(*report, None, instruments@));
        },
    }
    let error: Option<String> = if is_exact(report) {
        None
    } else {
        Some("journal is incomplete: replay is not exact after the first gap".to_owned())
    };
    Output { out, error }
}

/// A replay prints what it counted first, and then the final line of every instrument, in order,
/// where there is a board.
pub proof fn law_replays_print_every_book(
    report: ReplayReport,
    board: BoardView,
    instruments: Seq<Instrument>,
    i: int,
)
    requires
        0 <= i < instruments.len(),
    ensures
        replay_lines(report, None, instruments) == seq![lines::replay_line(report)],
        ({
            let printed = replay_lines(report, Some(board), instruments);
            &&& printed.len() == instruments.len() + 1
            &&& printed[0] == lines::replay_line(report)
            &&& printed[i + 1] == show::total_line(board, instruments[i])
        }),
{
    assert(replay_lines(report, None, instruments) =~= seq![lines::replay_line(report)]);
}

} // verus!
