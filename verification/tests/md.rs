//! What the market-data tool decides and prints.

use bowst::book::{Book, Level};
use bowst::fixed::{Dec, Increment};
use bowst::ids::{InstrumentId, VenueId};
use bowst::instrument::{Instrument, InstrumentTable, Symbol};
use bowst::journal::health::JournalHealth;
use bowst::journal::layout::Kind;
use bowst::journal::writer::JournalStats;
use bowst::md::args::{parse_args, parse_symbols, symbol_of, uppercase, Args, ArgsError};
use bowst::md::board::{Board, Top};
use bowst::md::lines::{
    clock_text, health_text, journal_text, latency_text, micros, replay_text, rules_text,
    summary_lines,
};
use bowst::md::session::{MdReport, MdStats, MdStatus, ReplayReport};
use bowst::md::show::{board_line, board_lines, final_lines, Recorder};
use bowst::md::verdict::{
    admit_session, is_exact, replay_output, same_instruments, starts_session, verdict,
    MixedInstruments, Verdict,
};
use bowst::telemetry::histogram::LatencySummary;
use bowst::time::WallTime;
use bowst::units::{Price, Qty};
use std::collections::BTreeMap;
use std::time::Duration;

fn instrument(id: u32, symbol: &str) -> Instrument {
    Instrument {
        id: InstrumentId::new(id),
        venue: VenueId::Binance,
        symbol: Symbol::new(symbol).unwrap(),
        tick: Increment::parse("0.01").unwrap(),
        lot: Increment::parse("0.00001").unwrap(),
        min_notional: Dec::parse("5").unwrap(),
    }
}

fn table(symbols: &[&str]) -> InstrumentTable {
    InstrumentTable::new(
        symbols
            .iter()
            .enumerate()
            .map(|(i, s)| instrument(u32::try_from(i).unwrap(), s))
            .collect(),
    )
    .unwrap()
}

#[test]
fn board_line_shows_decimal_prices_and_quantities() {
    let top = Top {
        bid: Some((Price::new(8_475_800), Qty::new(438_837))),
        ask: Some((Price::new(8_475_801), Qty::new(13_276))),
        depth: (1_185, 943),
        updates: 159,
        event_time: WallTime::from_nanos(0),
    };
    let line = board_line(&instrument(0, "BTCUSDT"), &top, true, "159 updates");
    assert!(
        line.starts_with("BTCUSDT    LIVE  bid 4.38837 @ 84758.00"),
        "{line}"
    );
    assert!(line.contains("ask 0.13276 @ 84758.01"), "{line}");
    assert!(
        line.contains("spread    1 ticks  depth 1185/943  159 updates"),
        "{line}"
    );
}

#[test]
fn latency_is_shown_in_microseconds_without_floats() {
    assert_eq!(micros(0), "0.00 µs");
    assert_eq!(micros(1_234), "1.23 µs");
    assert_eq!(micros(12_005), "12.00 µs");
    assert_eq!(latency_text(&LatencySummary::default()), "no samples");
    let summary = LatencySummary {
        count: 3,
        sum: 76_900,
        min: 900,
        p50: 1_000,
        p90: 2_000,
        p99: 4_990,
        p999: 5_000,
        max: 70_000,
    };
    assert_eq!(
        latency_text(&summary),
        "p50 1.00 µs p99 4.99 µs p99.9 5.00 µs max 70.00 µs"
    );
}

/// The instruments of some sessions, admitted one after the other.
fn admit_all(sessions: Vec<InstrumentTable>) -> Result<Option<InstrumentTable>, MixedInstruments> {
    let mut found = None;
    for session in sessions {
        found = Some(admit_session(found, session)?);
    }
    Ok(found)
}

#[test]
fn replay_labels_come_from_the_journal() {
    assert!(starts_session(Kind::session_start()));
    assert!(!starts_session(Kind::md_message()));
    let found = admit_all(vec![
        table(&["BTCUSDT", "ETHUSDT"]),
        table(&["BTCUSDT", "ETHUSDT"]),
    ])
    .unwrap()
    .unwrap();
    let symbols: Vec<_> = found
        .iter()
        .iter()
        .map(|i| i.symbol.as_str().to_owned())
        .collect();
    assert_eq!(symbols, ["BTCUSDT", "ETHUSDT"]);
}

#[test]
fn a_journal_mixing_instrument_sets_is_rejected() {
    assert!(admit_all(vec![table(&["BTCUSDT"]), table(&["SOLUSDT"])]).is_err());
}

#[test]
fn an_empty_journal_has_no_instruments() {
    assert!(admit_all(vec![]).unwrap().is_none());
}

#[test]
fn tables_are_the_same_by_value() {
    let a = table(&["BTCUSDT"]);
    let mut other = instrument(0, "BTCUSDT");
    other.min_notional = Dec::parse("5.00").unwrap();
    assert!(same_instruments(&a, &InstrumentTable::new(vec![other]).unwrap()));
    other.tick = Increment::parse("0.1").unwrap();
    assert!(!same_instruments(&a, &InstrumentTable::new(vec![other]).unwrap()));
    assert!(!same_instruments(&a, &table(&["BTCUSDT", "ETHUSDT"])));
}

fn level(price: i64, qty: i64) -> Level {
    Level {
        price: Price::new(price),
        qty: Qty::new(qty),
    }
}

#[test]
fn the_board_shows_the_latest_top_of_each_book() {
    let instruments = table(&["BTCUSDT", "ETHUSDT"]);
    let mut board = Board::default();
    let mut book = Book::new(8).unwrap();
    book.load(&[level(99, 5), level(98, 1)], &[level(103, 7)]).unwrap();
    board.on_book(InstrumentId::new(0), &book, WallTime::from_nanos(9));
    board.on_book(InstrumentId::new(0), &book, WallTime::from_nanos(10));
    board.on_status(&MdStatus::InstrumentLive(InstrumentId::new(0)));
    let top = board.top(0);
    assert_eq!(top.bid, Some((Price::new(99), Qty::new(5))));
    assert_eq!(top.depth, (2, 1));
    assert_eq!((top.updates, top.event_time), (2, WallTime::from_nanos(10)));
    let mut previous = BTreeMap::new();
    let lines = board_lines(&board, &instruments, &mut previous);
    assert_eq!(
        lines,
        [
            "BTCUSDT    LIVE  bid 0.00005 @ 0.99               ask 0.00007 @ 1.03               spread    4 ticks  depth 2/1    2 upd/s",
            "ETHUSDT    down  bid -                            ask -                            spread    0 ticks  depth 0/0    0 upd/s",
        ]
    );
    // Rates are per printing.
    assert_eq!(previous, BTreeMap::from([(0, 2), (1, 0)]));
    board.on_book(InstrumentId::new(0), &book, WallTime::from_nanos(11));
    let again = board_lines(&board, &instruments, &mut previous);
    assert!(again[0].ends_with("depth 2/1    1 upd/s"), "{}", again[0]);
    assert!(final_lines(&board, &instruments)[0].ends_with("depth 2/1  3 updates"));
}

#[test]
fn a_lost_connection_takes_every_book_down() {
    let mut board = Board::default();
    board.on_status(&MdStatus::Connecting);
    board.on_status(&MdStatus::Connected);
    board.on_status(&MdStatus::InstrumentLive(InstrumentId::new(0)));
    board.on_status(&MdStatus::InstrumentLive(InstrumentId::new(1)));
    board.on_status(&MdStatus::InstrumentDown {
        instrument: InstrumentId::new(1),
        reason: "gap".to_owned(),
    });
    assert!(board.metrics.connected);
    assert!(board.is_live(0));
    assert!(!board.is_live(1));
    let mut ever_live = BTreeMap::new();
    board.note_live(&mut ever_live);
    board.on_status(&MdStatus::Disconnected {
        reason: "closed".to_owned(),
    });
    assert!(!board.metrics.connected);
    assert!(!board.is_live(0));
    board.note_live(&mut ever_live);
    assert_eq!(ever_live, BTreeMap::from([(0, true)]));
}

#[test]
fn journal_drops_are_kept_when_its_state_changes() {
    let mut board = Board::default();
    board.on_journal(JournalHealth::Degraded { dropped: 7 });
    board.on_journal(JournalHealth::Failed);
    assert_eq!(board.metrics.journal, Some(JournalHealth::Failed));
    assert_eq!(board.metrics.journal_dropped, 7);
}

#[test]
fn statuses_name_their_instrument() {
    let recorder = Recorder::new(vec![Symbol::new("BTCUSDT").unwrap()]);
    assert_eq!(
        recorder.on_status(&MdStatus::InstrumentLive(InstrumentId::new(0))),
        "[status] BTCUSDT live"
    );
    assert_eq!(
        recorder.on_status(&MdStatus::InstrumentDown {
            instrument: InstrumentId::new(4),
            reason: "gap".to_owned()
        }),
        "[status] #4 DOWN: gap"
    );
    assert_eq!(
        recorder.on_status(&MdStatus::SnapshotFailed {
            instrument: InstrumentId::new(0),
            reason: "timeout".to_owned()
        }),
        "[status] BTCUSDT snapshot failed: timeout"
    );
    assert_eq!(recorder.on_status(&MdStatus::Connecting), "[status] connecting");
    assert_eq!(recorder.on_status(&MdStatus::Connected), "[status] connected");
    assert_eq!(
        recorder.on_status(&MdStatus::Disconnected {
            reason: "closed".to_owned()
        }),
        "[status] disconnected: closed"
    );
}

fn stats() -> MdStats {
    MdStats {
        messages: 2_144,
        deltas_applied: 2_092,
        book_invalidations: 1,
        connections: 1,
        snapshots_requested: 4,
        snapshots_applied: 3,
        verifications_passed: 1,
        verification_mismatches: 0,
        verifications_abandoned: 2,
    }
}

#[test]
fn reports_count_messages_since_the_one_before() {
    let mut recorder = Recorder::new(vec![]);
    let mut report = MdReport {
        interval: Duration::from_millis(10_900),
        stats: stats(),
        latency: LatencySummary::default(),
        latency_total: LatencySummary::default(),
    };
    assert_eq!(
        recorder.on_report(&report),
        "[stats] 10s: 2144 msgs, decode+apply no samples; verified 1 ok, 0 mismatched, 2 abandoned"
    );
    report.stats.messages = 2_150;
    assert!(recorder.on_report(&report).starts_with("[stats] 10s: 6 msgs,"));
    let mut board = Board::default();
    board.on_report(&report, WallTime::from_nanos(3));
    let (kept, at) = board.metrics.report.unwrap();
    assert_eq!((kept.stats.messages, at), (2_150, WallTime::from_nanos(3)));
}

#[test]
fn final_lines_sum_a_run_up() {
    assert_eq!(
        summary_lines(&stats(), &LatencySummary::default()),
        [
            "summary: 2144 messages, 2092 deltas applied, 1 book invalidations, 1 connections, 3/4 snapshots applied/requested",
            "latency: decode+apply over 0 messages: no samples",
            "verification: 1 passed, 0 mismatched, 2 abandoned",
        ]
    );
    assert_eq!(health_text(JournalHealth::Healthy), "journal health: Ok");
    assert_eq!(
        health_text(JournalHealth::Degraded { dropped: 7 }),
        "journal health: Degraded { dropped: 7 }"
    );
    assert_eq!(health_text(JournalHealth::Failed), "journal health: Failed");
    let written = JournalStats {
        records: 3,
        bytes: 200,
        segments: 1,
        dropped: 2,
        lost_after_failure: 0,
    };
    assert_eq!(
        journal_text(&written),
        "journal: 3 records, 200 bytes, 1 segment(s), 2 dropped"
    );
    assert_eq!(
        rules_text(&instrument(0, "BTCUSDT")),
        "BTCUSDT: tick 0.01 lot 0.00001 min notional 5"
    );
    assert_eq!(clock_text(Duration::from_millis(7_500)), "---    7s");
}

#[test]
fn an_incomplete_journal_does_not_replay_exactly() {
    let mut report = ReplayReport {
        sessions: 1,
        messages: 20,
        snapshots: 2,
        verifications: 1,
        resets: 0,
        dropped: 0,
        torn_tail: true,
    };
    assert!(is_exact(&report));
    assert_eq!(
        replay_text(&report),
        "replayed 1 session(s): 20 messages, 2 snapshots, 1 verification snapshots, 0 resets, 0 records missing, torn final record (unclean shutdown)"
    );
    report.dropped = 3;
    report.torn_tail = false;
    assert!(!is_exact(&report));
    assert!(replay_text(&report).ends_with(" 0 resets, 3 records missing"));
}

#[test]
fn a_run_succeeds_when_every_book_went_live_and_matched() {
    let mut stats = stats();
    assert_eq!(verdict(&stats, 2, 2), Verdict::Success);
    assert_eq!(verdict(&stats, 1, 2), Verdict::NeverLive);
    stats.verification_mismatches = 1;
    assert_eq!(verdict(&stats, 2, 2), Verdict::Mismatch);
}

fn parse(words: &[&str]) -> Result<Args, ArgsError> {
    let words: Vec<String> = words.iter().map(|w| (*w).to_owned()).collect();
    let addresses: Vec<bool> = words.iter().map(|w| w == "127.0.0.1:9184").collect();
    parse_args(&words, &addresses)
}

fn message(words: &[&str]) -> String {
    parse(words).unwrap_err().message()
}

fn names(args: &Args) -> Vec<&str> {
    args.symbols.iter().map(Symbol::as_str).collect()
}

#[test]
fn arguments_have_defaults() {
    let args = parse(&[]).unwrap();
    assert_eq!(names(&args), ["BTCUSDT"]);
    assert_eq!(args.seconds, 30);
    assert_eq!(args.stream, "wss://data-stream.binance.vision");
    assert_eq!(args.rest, "https://data-api.binance.vision");
    assert_eq!((args.journal, args.replay, args.metrics), (None, None, None));
    assert!(!args.metrics_allow_remote);
}

#[test]
fn arguments_are_taken_in_order() {
    let args = parse(&[
        "--symbols",
        " btcusdt,EthUsdt ",
        "--seconds",
        "60",
        "--stream",
        "wss://a",
        "--rest",
        "https://b",
        "--journal",
        "dir",
        "--metrics",
        "127.0.0.1:9184",
        "--metrics-allow-remote",
        "--seconds",
        "+61",
    ])
    .unwrap();
    assert_eq!(names(&args), ["BTCUSDT", "ETHUSDT"]);
    assert_eq!(args.seconds, 61);
    assert_eq!((args.stream.as_str(), args.rest.as_str()), ("wss://a", "https://b"));
    assert_eq!(args.journal.as_deref(), Some("dir"));
    assert_eq!(args.metrics.as_deref(), Some("127.0.0.1:9184"));
    assert!(args.metrics_allow_remote);
    assert_eq!(parse(&["--replay", "old"]).unwrap().replay.as_deref(), Some("old"));
}

#[test]
fn bad_arguments_are_refused() {
    assert_eq!(message(&["--seconds"]), "--seconds needs a value");
    assert_eq!(message(&["--seconds", "soon"]), "--seconds must be a number");
    assert_eq!(message(&["--symbols", "A,b b,C"]), "bad symbol \"b b\"");
    assert_eq!(
        message(&["--metrics", "nowhere"]),
        "--metrics needs an address such as 127.0.0.1:9184"
    );
    assert_eq!(message(&["--bogus"]), "unknown argument \"--bogus\" (see --help)");
    assert_eq!(
        message(&["--help", "--bogus"]),
        "usage: bowst-md [--symbols A,B] [--seconds N] [--stream URL] [--rest URL] [--journal DIR]\n                [--metrics ADDR [--metrics-allow-remote]]\n       bowst-md --replay DIR"
    );
}

#[test]
fn symbols_are_trimmed_and_written_in_capitals() {
    assert_eq!(uppercase("btcUsdt1"), "BTCUSDT1");
    assert_eq!(symbol_of("ethusdt").unwrap().as_str(), "ETHUSDT");
    assert!(symbol_of("").is_none());
    let symbols = parse_symbols(" a ,\tb\u{2003},C").unwrap();
    let names: Vec<&str> = symbols.iter().map(|symbol| symbol.as_str()).collect();
    assert_eq!(names, ["A", "B", "C"]);
    assert!(matches!(parse_symbols("a,,b"), Err(ArgsError::BadSymbol(text)) if text.is_empty()));
    assert_eq!(
        ArgsError::Unknown("-x".to_string()).message_with("<-x>"),
        "unknown argument <-x> (see --help)"
    );
}

#[test]
fn white_space_around_symbols_is_taken_off() {
    for white in [
        '\t', '\n', '\u{b}', '\u{c}', '\r', ' ', '\u{85}', '\u{a0}', '\u{1680}', '\u{2000}',
        '\u{2005}', '\u{200a}', '\u{2028}', '\u{2029}', '\u{202f}', '\u{205f}', '\u{3000}',
    ] {
        let symbols = parse_symbols(&format!("{white}a{white}{white},{white}b")).unwrap();
        let names: Vec<&str> = symbols.iter().map(|symbol| symbol.as_str()).collect();
        assert_eq!(names, ["A", "B"], "{white:?}");
    }
    for other in ['\u{8}', '\u{e}', '\u{1f}', '\u{180e}', '\u{200b}', '\u{2060}', '\u{feff}'] {
        assert!(parse_symbols(&format!("{other}a")).is_err(), "{other:?}");
    }
}

#[test]
fn a_replay_ends_with_its_books_if_they_can_be_had() {
    let instruments = table(&["BTCUSDT"]);
    let mut report = ReplayReport {
        sessions: 1,
        messages: 2,
        snapshots: 1,
        verifications: 0,
        resets: 0,
        dropped: 0,
        torn_tail: false,
    };
    let board = Board::default();
    let output = replay_output(&report, Some(&board), &instruments);
    assert_eq!(output.out.len(), 2);
    assert!(output.out[1].starts_with("BTCUSDT    down"), "{}", output.out[1]);
    assert_eq!(output.error, None);
    report.dropped = 1;
    let output = replay_output(&report, None, &instruments);
    assert_eq!(output.out.len(), 1);
    assert_eq!(
        output.error.as_deref(),
        Some("journal is incomplete: replay is not exact after the first gap")
    );
}
