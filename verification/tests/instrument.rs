//! Instruments and their table.

use bowst::fixed::{Dec, Increment};
use bowst::ids::{InstrumentId, VenueId};
use bowst::instrument::{Instrument, InstrumentTable, InstrumentTableError, Symbol, MAX_SYMBOL_LEN};

fn instrument(id: u32, symbol: &str) -> Instrument {
    Instrument {
        id: InstrumentId::new(id),
        venue: VenueId::Binance,
        symbol: Symbol::new(symbol).unwrap(),
        tick: Increment::parse("0.01").unwrap(),
        lot: Increment::parse("0.00001").unwrap(),
        min_notional: Dec::parse("5").unwrap(),
    }
}

#[test]
fn symbols_are_validated() {
    assert_eq!(Symbol::new("BTCUSDT").unwrap().as_str(), "BTCUSDT");
    assert!(Symbol::new("").is_none());
    assert!(Symbol::new("BTC USDT").is_none());
    assert!(Symbol::new(&"X".repeat(MAX_SYMBOL_LEN + 1)).is_none());
    assert!(Symbol::new(&"X".repeat(MAX_SYMBOL_LEN)).is_some());
}

#[test]
fn table_looks_up_by_id_and_symbol() {
    let table = InstrumentTable::new(vec![instrument(0, "BTCUSDT"), instrument(1, "DOGEUSDT")])
        .unwrap();
    assert_eq!(
        table.find(VenueId::Binance, "DOGEUSDT").map(|i| i.id),
        Some(InstrumentId::new(1))
    );
    assert!(table.find(VenueId::Bybit, "DOGEUSDT").is_none());
    assert_eq!(
        table.get(InstrumentId::new(0)).map(|i| i.symbol.as_str()),
        Some("BTCUSDT")
    );
    assert!(table.get(InstrumentId::new(2)).is_none());
}

#[test]
fn table_rejects_bad_configuration() {
    assert_eq!(
        InstrumentTable::new(vec![instrument(1, "BTCUSDT")]).unwrap_err(),
        InstrumentTableError::NonSequentialId(InstrumentId::new(1))
    );
    assert!(matches!(
        InstrumentTable::new(vec![instrument(0, "BTCUSDT"), instrument(1, "BTCUSDT")]),
        Err(InstrumentTableError::DuplicateSymbol(..))
    ));
}
