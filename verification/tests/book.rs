//! Both sides of a book.

use bowst::book::{Book, Level, LevelUpdate};
use bowst::units::{Price, Qty, Side};

fn lvl(price: i64, qty: i64) -> Level {
    Level {
        price: Price::new(price),
        qty: Qty::new(qty),
    }
}

#[test]
fn detects_crossed_and_locked_books() {
    let mut book = Book::new(4).unwrap();
    book.load(&[lvl(99, 1)], &[lvl(101, 1)]).unwrap();
    assert!(!book.is_crossed());
    book.apply(LevelUpdate {
        side: Side::Buy,
        price: Price::new(101),
        qty: Qty::new(1),
    })
    .unwrap();
    assert!(book.is_crossed());
}

#[test]
fn failed_load_empties_both_sides() {
    let mut book = Book::new(4).unwrap();
    book.load(&[lvl(99, 1)], &[lvl(101, 1)]).unwrap();
    assert!(book.load(&[lvl(98, 1)], &[lvl(0, 1)]).is_err());
    assert!(book.side(Side::Buy).is_empty());
    assert!(book.side(Side::Sell).is_empty());
}
