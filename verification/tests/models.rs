//! Long runs of generated operations against simple reference models.

use bowst::book::{BookSync, Ladder, Level, LevelUpdate, SeqRange, SyncConfig};
use bowst::bytes_ring::{self, WriteError};
use bowst::fixed::{Dec, Increment, Rounding};
use bowst::ids::ClientOrderId;
use bowst::ring::{self, Full};
use bowst::telemetry::buckets::{bucket_of, upper_bound, SUB_BUCKETS};
use bowst::telemetry::histogram::{rank_for, LatencyHistogram};
use bowst::units::{Price, Qty, Side};
use std::collections::{BTreeMap, VecDeque};

/// A generator of numbers that look random and are the same on every run.
struct Numbers(u64);

impl Numbers {
    fn next(&mut self) -> u64 {
        self.0 ^= self.0 << 13;
        self.0 ^= self.0 >> 7;
        self.0 ^= self.0 << 17;
        self.0
    }

    /// A number from `low` up to but not including `high`.
    fn between(&mut self, low: i64, high: i64) -> i64 {
        let span = u64::try_from(high - low).unwrap();
        low + i64::try_from(self.next() % span).unwrap()
    }

    fn index(&mut self, len: usize) -> usize {
        usize::try_from(self.next() % u64::try_from(len).unwrap()).unwrap()
    }
}

/// Every level ever reported, best-first order computed on demand.
#[derive(Default)]
struct Model {
    levels: BTreeMap<i64, i64>,
}

impl Model {
    fn apply(&mut self, price: i64, qty: i64) {
        if qty == 0 {
            self.levels.remove(&price);
        } else {
            self.levels.insert(price, qty);
        }
    }

    fn best_first(&self, side: Side) -> Vec<(i64, i64)> {
        let mut levels: Vec<_> = self.levels.iter().map(|(p, q)| (*p, *q)).collect();
        if side == Side::Buy {
            levels.reverse();
        }
        levels
    }

    fn to_levels(&self) -> Vec<Level> {
        self.levels.iter().map(|(&p, &q)| level(p, q)).collect()
    }
}

fn level(price: i64, qty: i64) -> Level {
    Level {
        price: Price::new(price),
        qty: Qty::new(qty),
    }
}

fn held(ladder: &Ladder) -> Vec<(i64, i64)> {
    ladder
        .iter()
        .iter()
        .map(|l| (l.price.get(), l.qty.get()))
        .collect()
}

fn update(numbers: &mut Numbers) -> (i64, i64) {
    let price = numbers.between(1, 40);
    let qty = if numbers.next() % 2 == 0 {
        0
    } else {
        numbers.between(1, 100)
    };
    (price, qty)
}

#[test]
fn ladder_with_room_matches_model() {
    for side in [Side::Buy, Side::Sell] {
        let mut numbers = Numbers(0x1234_5678);
        let mut ladder = Ladder::new(side, 64).unwrap();
        let mut model = Model::default();
        for _ in 0..2_000 {
            let (price, qty) = update(&mut numbers);
            ladder.apply(Price::new(price), Qty::new(qty)).unwrap();
            model.apply(price, qty);
            assert_eq!(held(&ladder), model.best_first(side));
        }
        assert_eq!(ladder.horizon(), None);
    }
}

#[test]
fn truncated_ladder_is_exact_up_to_its_horizon() {
    for side in [Side::Buy, Side::Sell] {
        for capacity in 1..8 {
            let mut numbers = Numbers(0x9e37_79b9 + u64::try_from(capacity).unwrap());
            let mut ladder = Ladder::new(side, capacity).unwrap();
            let mut model = Model::default();
            for _ in 0..300 {
                let (price, qty) = update(&mut numbers);
                ladder.apply(Price::new(price), Qty::new(qty)).unwrap();
                model.apply(price, qty);
                let levels = held(&ladder);
                assert!(levels.len() <= capacity);
                // Everything the model has at or better than the horizon is held exactly.
                let expected: Vec<_> = model
                    .best_first(side)
                    .into_iter()
                    .filter(|&(p, _)| match ladder.horizon() {
                        None => true,
                        Some(h) => !side.is_more_aggressive(h, Price::new(p)),
                    })
                    .collect();
                assert_eq!(levels, expected);
            }
        }
    }
}

#[test]
fn load_matches_model_regardless_of_input_order() {
    let mut numbers = Numbers(0xabcd_ef01);
    for capacity in 1..12 {
        for side in [Side::Buy, Side::Sell] {
            let mut model = Model::default();
            for _ in 0..20 {
                let price = numbers.between(1, 1_000);
                model.apply(price, price % 7 + 1);
            }
            let mut input = model.to_levels();
            for i in (1..input.len()).rev() {
                let j = numbers.index(i + 1);
                input.swap(i, j);
            }
            let mut ladder = Ladder::new(side, capacity).unwrap();
            ladder.load(&input).unwrap();
            let expected: Vec<_> = model.best_first(side).into_iter().take(capacity).collect();
            assert_eq!(held(&ladder), expected);
        }
    }
}

#[test]
fn sync_reproduces_the_full_stream() {
    for (chunk, snapshot_after) in [(1, 0), (1, 17), (2, 40), (3, 5), (5, 12), (4, 1_000)] {
        let mut numbers = Numbers(0x5555_0001 + snapshot_after as u64);
        // Bids below 20 and asks above 20 can never cross.
        let all: Vec<LevelUpdate> = (0..120)
            .map(|i| {
                let buy = i % 2 == 0;
                let price = numbers.between(1, 20);
                LevelUpdate {
                    side: if buy { Side::Buy } else { Side::Sell },
                    price: Price::new(if buy { price } else { price + 20 }),
                    qty: Qty::new(numbers.between(1, 50) % 3 * 10),
                }
            })
            .collect();
        let messages: Vec<&[LevelUpdate]> = all.chunks(chunk).collect();
        let config = SyncConfig {
            levels_per_side: 64,
            buffered_messages: 256,
            buffered_updates: 1024,
        };
        let mut sync = BookSync::new(config).unwrap();
        let snapshot_at = snapshot_after.min(messages.len());
        let mut before = (Model::default(), Model::default());
        let mut full = (Model::default(), Model::default());
        let mut seq = 0;
        let mut snapshot_seq = 0;
        for (index, message) in messages.iter().enumerate() {
            let first = seq + 1;
            seq += u64::try_from(message.len()).unwrap();
            sync.on_delta(SeqRange::new(first, seq).unwrap(), message).unwrap();
            for u in *message {
                let sides = [&mut full.0, &mut full.1];
                for (model, side) in sides.into_iter().zip([Side::Buy, Side::Sell]) {
                    if u.side == side {
                        model.apply(u.price.get(), u.qty.get());
                    }
                }
                if index < snapshot_at {
                    let sides = [&mut before.0, &mut before.1];
                    for (model, side) in sides.into_iter().zip([Side::Buy, Side::Sell]) {
                        if u.side == side {
                            model.apply(u.price.get(), u.qty.get());
                        }
                    }
                }
            }
            if index < snapshot_at {
                snapshot_seq = seq;
            }
        }
        sync.on_snapshot(snapshot_seq, &before.0.to_levels(), &before.1.to_levels())
            .unwrap();
        let book = sync.book().unwrap();
        assert_eq!(held(book.side(Side::Buy)), full.0.best_first(Side::Buy));
        assert_eq!(held(book.side(Side::Sell)), full.1.best_first(Side::Sell));
        assert_eq!(sync.last_seq(), Some(seq));
    }
}

#[test]
fn long_runs_of_deltas_keep_the_book_live() {
    let mut sync = BookSync::new(SyncConfig {
        levels_per_side: 64,
        buffered_messages: 16,
        buffered_updates: 64,
    })
    .unwrap();
    let bids: Vec<_> = (1..=100).map(|p| level(p, 1)).collect();
    let asks: Vec<_> = (101..=200).map(|p| level(p, 1)).collect();
    // A snapshot larger than the capacity is cut down to its best levels.
    sync.on_snapshot(0, &bids, &asks).unwrap();
    let rounds = 20_000;
    for seq in 1..=rounds {
        let offset = i64::try_from(seq % 8).unwrap();
        let updates = [
            LevelUpdate {
                side: Side::Buy,
                price: Price::new(90 + offset),
                qty: Qty::new(i64::try_from(seq % 3).unwrap()),
            },
            LevelUpdate {
                side: Side::Sell,
                price: Price::new(105 + offset),
                qty: Qty::new(2),
            },
        ];
        sync.on_delta(SeqRange::single(seq), &updates).unwrap();
    }
    assert!(sync.on_delta(SeqRange::single(rounds + 5), &[]).is_err());
    let buffered = [LevelUpdate {
        side: Side::Buy,
        price: Price::new(50),
        qty: Qty::new(1),
    }];
    sync.on_delta(SeqRange::single(rounds + 6), &buffered).unwrap();
    sync.on_snapshot(rounds + 5, &bids, &asks).unwrap();
    assert!(sync.is_live());
}

#[test]
fn behaves_like_a_bounded_queue() {
    for capacity_log2 in 1..6 {
        let capacity = 1_usize << capacity_log2;
        let mut numbers = Numbers(0x0f0f_0f0f + capacity_log2);
        let (mut tx, mut rx) = ring::channel::<u16>(capacity).unwrap();
        let mut model = VecDeque::new();
        for _ in 0..2_000 {
            if numbers.next() % 2 == 0 {
                let value = u16::try_from(numbers.next() % 65_536).unwrap();
                let result = tx.push(value);
                if model.len() < capacity {
                    assert_eq!(result, Ok(()));
                    model.push_back(value);
                } else {
                    assert_eq!(result, Err(Full(value)));
                }
            } else {
                assert_eq!(rx.pop(), model.pop_front());
            }
            assert_eq!(rx.is_empty(), model.is_empty());
        }
    }
}

#[test]
fn behaves_like_a_bounded_record_queue() {
    for capacity_log2 in 6..10 {
        let capacity = 1_usize << capacity_log2;
        let mut numbers = Numbers(0x7777_1111 + capacity_log2);
        let (mut tx, mut rx) = bytes_ring::channel(capacity).unwrap();
        let max = tx.max_record();
        let mut model: VecDeque<Vec<u8>> = VecDeque::new();
        for _ in 0..3_000 {
            if numbers.next() % 2 == 0 {
                let len = numbers.index(200);
                let byte = u8::try_from(numbers.next() % 256).unwrap();
                let record = vec![byte; len];
                match tx.push(&record) {
                    Ok(()) => model.push_back(record),
                    Err(WriteError::TooLarge { .. }) => assert!(record.len() > max),
                    Err(WriteError::Full) => {
                        // A ring is only full when it holds a lot of data.
                        let used: usize = model.iter().map(|r| 8 + r.len().div_ceil(8) * 8).sum();
                        assert!(used + 8 + record.len().div_ceil(8) * 8 > capacity / 2);
                    }
                }
            } else {
                let popped = rx.read_with(|record: &[u8]| record.to_vec());
                assert_eq!(popped, model.pop_front());
            }
        }
    }
}

#[test]
fn text_round_trips() {
    let mut numbers = Numbers(0x2468_ace0);
    for _ in 0..2_000 {
        let mantissa = i128::from(numbers.between(-1_000_000_000_000, 1_000_000_000_000))
            * i128::from(numbers.between(1, 100_000_000));
        let scale = u8::try_from(numbers.between(0, 19)).unwrap();
        let value = Dec::new(mantissa, scale).unwrap();
        let parsed = Dec::parse(&value.to_string()).unwrap();
        assert_eq!((parsed.mantissa(), parsed.scale()), (mantissa, scale));
    }
}

#[test]
fn rounding_brackets_the_exact_value() {
    let mut numbers = Numbers(0x1357_9bdf);
    for _ in 0..2_000 {
        let mantissa = i128::from(numbers.between(-1_000_000_000_000, 1_000_000_000_000))
            * i128::from(numbers.between(1, 100_000_000))
            + i128::from(numbers.between(0, 100_000_000));
        let value = Dec::new(mantissa, u8::try_from(numbers.between(0, 19)).unwrap()).unwrap();
        let scale = u8::try_from(numbers.between(0, 13)).unwrap();
        let increment = Increment::new(numbers.between(1, 1_000_000), scale).unwrap();
        let (Ok(down), Ok(up)) = (
            increment.to_units(value, Rounding::Down),
            increment.to_units(value, Rounding::Up),
        ) else {
            continue;
        };
        assert!(increment.from_units(down) <= value);
        assert!(increment.from_units(up) >= value);
        assert!(up - down <= 1);
        assert_eq!(
            up == down,
            increment.to_units(value, Rounding::Exact).is_ok()
        );
        assert_eq!(
            increment.to_units(increment.from_units(down), Rounding::Exact),
            Ok(down)
        );
    }
}

#[test]
fn ordering_matches_integer_ordering() {
    let mut numbers = Numbers(0xfeed_beef);
    for _ in 0..2_000 {
        let (a, b) = (
            numbers.between(-1_000_000, 1_000_000),
            numbers.between(-1_000_000, 1_000_000),
        );
        let (sa, sb) = (numbers.between(0, 9), numbers.between(0, 9));
        let lhs = i128::from(a) * 10_i128.pow(u32::try_from(sb).unwrap());
        let rhs = i128::from(b) * 10_i128.pow(u32::try_from(sa).unwrap());
        let left = Dec::new(a.into(), u8::try_from(sa).unwrap()).unwrap();
        let right = Dec::new(b.into(), u8::try_from(sb).unwrap()).unwrap();
        assert_eq!(left.cmp(&right), lhs.cmp(&rhs));
        assert_eq!(left < right, lhs < rhs);
        assert_eq!(left == right, lhs == rhs);
    }
}

#[test]
fn ids_round_trip() {
    let mut numbers = Numbers(0xc0de_c0de);
    for _ in 0..1_000 {
        let session = u32::try_from(numbers.next() % (1 << 32)).unwrap();
        let sequence = u32::try_from(numbers.next() % (1 << 32)).unwrap();
        let id = ClientOrderId::new(session, sequence);
        assert_eq!(ClientOrderId::decode(id.encode().as_str()), Some(id));
    }
}

#[test]
fn relative_error_is_bounded() {
    let mut numbers = Numbers(0x3141_5926);
    for _ in 0..20_000 {
        let shift = numbers.next() % 64;
        let value = numbers.next() >> shift;
        let high = upper_bound(bucket_of(value));
        assert!(high >= value);
        assert!(high - value <= value / SUB_BUCKETS);
    }
}

#[test]
fn percentiles_bracket_the_exact_value() {
    let mut numbers = Numbers(0x2718_2818);
    for len in [1, 2, 7, 100, 399] {
        let mut values: Vec<u64> = (0..len).map(|_| numbers.next() % 10_000_000_000).collect();
        let mut histogram = LatencyHistogram::new();
        for &value in &values {
            histogram.record(value);
        }
        values.sort_unstable();
        for ppm in [0, 1, 250_000, 500_000, 900_000, 999_000, 1_000_000] {
            let rank = rank_for(u64::try_from(values.len()).unwrap(), ppm);
            let exact = values[usize::try_from(rank).unwrap() - 1];
            let got = histogram.value_at_ppm(ppm);
            assert!(got >= exact, "{got} < exact {exact}");
            assert!(got - exact <= exact / SUB_BUCKETS, "{got} too far above {exact}");
            assert!(got <= *values.last().unwrap());
        }
        assert_eq!(histogram.summary().sum, values.iter().sum::<u64>());
    }
}

#[test]
fn recording_counts_every_value() {
    let mut histogram = LatencyHistogram::new();
    let mut value: u64 = 1;
    for _ in 0..100_000 {
        histogram.record(value);
        value = value
            .wrapping_mul(6_364_136_223_846_793_005)
            .wrapping_add(1)
            >> 20;
    }
    assert_eq!(histogram.count(), 100_000);
}
