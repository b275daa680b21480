//! Tradable instruments and their venue rules.

use crate::fixed::{Dec, Increment};
use crate::ids::{InstrumentId, VenueId};
use crate::text;
use vstd::prelude::*;
use vstd::string::StringSliceAdditionalSpecFns;

verus! {

/// Longest venue symbol a [`Symbol`] can hold.
pub const MAX_SYMBOL_LEN: usize = 24;

/// First printable ASCII character that is not a space.
const FIRST_GRAPHIC: u8 = 33;

/// Last printable ASCII character.
const LAST_GRAPHIC: u8 = 126;

/// A venue's symbol for an instrument (for example `BTCUSDT`), stored inline so it is `Copy`
/// and never allocates.
#[derive(Clone, Copy, Debug, Hash)]
pub struct Symbol {
    bytes: [u8; 24],
    len: u8,
}

/// Whether `text` can be a symbol: not empty, not too long, printable ASCII without spaces.
pub open spec fn is_symbol(text: Seq<u8>) -> bool {
    &&& 0 < text.len() <= MAX_SYMBOL_LEN
    &&& forall|i: int| 0 <= i < text.len() ==> 33 <= #[trigger] text[i] <= 126
}

impl View for Symbol {
    type V = Seq<u8>;

    closed spec fn view(&self) -> Seq<u8> {
        self.bytes@.take(self.len as int)
    }
}

impl Symbol {
    #[verifier::type_invariant]
    spec fn valid(self) -> bool {
        self.len <= MAX_SYMBOL_LEN && is_symbol(self@)
    }

    /// Wraps `text`. `None` if it is empty, longer than [`MAX_SYMBOL_LEN`] or not printable
    /// ASCII.
    pub fn new(text: &str) -> (r: Option<Self>)
        ensures
            match r {
                Some(symbol) => is_symbol(text.spec_bytes()) && symbol@ == text.spec_bytes(),
                None => !is_symbol(text.spec_bytes()),
            },
    {
        let from: &[u8] = text.as_bytes();
        if from.len() == 0 || from.len() > MAX_SYMBOL_LEN {
            return None;
        }
        let mut bytes: [u8; 24] = [0;24];
        let mut i: usize = 0;
        while i < from.len()
            invariant
                i <= from.len() <= MAX_SYMBOL_LEN,
                from@ == text.spec_bytes(),
                forall|k: int| 0 <= k < i ==> 33 <= #[trigger] from@[k] <= 126,
                forall|k: int| 0 <= k < i ==> #[trigger] bytes@[k] == from@[k],
            decreases from.len() - i,
        {
            let byte: u8 = from[i];
            if byte < FIRST_GRAPHIC || byte > LAST_GRAPHIC {
                return None;
            }
            bytes[i] = byte;
            i = i + 1;
        }
        assert(bytes@.take(from.len() as int) =~= from@);
        Some(Symbol { bytes, len: from.len() as u8 })
    }

    /// The bytes of the text.
    fn as_bytes(&self) -> (r: &[u8])
        ensures
            r@ == self@,
            is_symbol(self@),
    {
        proof {
            use_type_invariant(self);
        }
        vstd::slice::slice_subrange(self.bytes.as_slice(), 0, self.len as usize)
    }

    /// The symbol text.
    pub fn as_str(&self) -> (r: &str)
        ensures
            is_symbol(self@),
            r@ == text::chars_of(self@),
            r.spec_bytes() == self@,
    {
        let bytes: &[u8] = self.as_bytes();
        text::ascii_str(bytes)
    }

    /// The symbol text.
    pub fn to_string(&self) -> (r: String)
        ensures
            r@ == text::chars_of(self@),
    {
        let mut out: String = String::new();
        out.append(self.as_str());
        assert(out@ =~= text::chars_of(self@));
        out
    }
}

impl PartialEq for Symbol {
    fn eq(&self, other: &Self) -> (r: bool) {
        text::same_bytes(self.as_bytes(), other.as_bytes())
    }
}

impl vstd::std_specs::cmp::PartialEqSpecImpl for Symbol {
    open spec fn obeys_eq_spec() -> bool {
        true
    }

    open spec fn eq_spec(&self, other: &Self) -> bool {
        self@ == other@
    }
}

impl Eq for Symbol {

}

/// One instrument on one venue, with the rules its orders must satisfy.
#[derive(Clone, Copy, Debug)]
pub struct Instrument {
    /// Process-local ID.
    pub id: InstrumentId,
    /// Venue it trades on.
    pub venue: VenueId,
    /// Venue symbol.
    pub symbol: Symbol,
    /// Price increment.
    pub tick: Increment,
    /// Quantity increment.
    pub lot: Increment,
    /// Smallest order value (price × quantity) the venue accepts, in the quote asset.
    pub min_notional: Dec,
}

/// Whether two instruments are the same: their smallest order values compare by value.
pub open spec fn same_instrument(a: Instrument, b: Instrument) -> bool {
    &&& a.id == b.id
    &&& a.venue == b.venue
    &&& a.symbol@ == b.symbol@
    &&& a.tick == b.tick
    &&& a.lot == b.lot
    &&& a.min_notional@.same(b.min_notional@)
}

impl PartialEq for Instrument {
    fn eq(&self, other: &Self) -> (r: bool) {
        self.id == other.id && self.venue == other.venue && self.symbol == other.symbol && self.tick
            == other.tick && self.lot == other.lot && self.min_notional == other.min_notional
    }
}

impl vstd::std_specs::cmp::PartialEqSpecImpl for Instrument {
    open spec fn obeys_eq_spec() -> bool {
        true
    }

    open spec fn eq_spec(&self, other: &Self) -> bool {
        same_instrument(*self, *other)
    }
}

impl Eq for Instrument {

}

/// Invalid instrument table.
#[derive(Clone, Copy, Debug, PartialEq, Eq)]
pub enum InstrumentTableError {
    /// IDs must be `0..n` in order.
    NonSequentialId(InstrumentId),
    /// The same venue symbol is listed twice.
    DuplicateSymbol(VenueId, Symbol),
}

/// Whether both instruments are the same symbol on the same venue.
pub open spec fn same_listing(a: Instrument, b: Instrument) -> bool {
    a.venue == b.venue && a.symbol@ == b.symbol@
}

/// Why the instrument at `i` is refused, if it is.
pub open spec fn entry_fault(instruments: Seq<Instrument>, i: int) -> Option<InstrumentTableError> {
    if instruments[i].id.0 != i {
        Some(InstrumentTableError::NonSequentialId(instruments[i].id))
    } else if exists|k: int| 0 <= k < i && same_listing(#[trigger] instruments[k], instruments[i]) {
        Some(InstrumentTableError::DuplicateSymbol(instruments[i].venue, instruments[i].symbol))
    } else {
        None
    }
}

/// Whether `instruments` can be a table: IDs `0..n` in order, no listing twice.
pub open spec fn is_table(instruments: Seq<Instrument>) -> bool {
    forall|i: int| 0 <= i < instruments.len() ==> #[trigger] entry_fault(instruments, i) is None
}

/// All configured instruments, looked up without allocating.
#[derive(Debug)]
pub struct InstrumentTable {
    instruments: Vec<Instrument>,
}

impl View for InstrumentTable {
    type V = Seq<Instrument>;

    closed spec fn view(&self) -> Seq<Instrument> {
        self.instruments@
    }
}

impl Clone for InstrumentTable {
    fn clone(&self) -> (r: Self)
        ensures
            r@ == self@,
    {
        InstrumentTable { instruments: self.iter() }
    }
}

impl Default for InstrumentTable {
    fn default() -> (r: Self)
        ensures
            r@.len() == 0,
    {
        InstrumentTable { instruments: Vec::new() }
    }
}

impl InstrumentTable {
    #[verifier::type_invariant]
    spec fn valid(self) -> bool {
        is_table(self.instruments@)
    }

    /// Builds a table. IDs must be `0..n` in order, so an ID is also an index.
    ///
    /// # Errors
    /// [`InstrumentTableError`] if IDs are not sequential or a venue symbol repeats: the first
    /// instrument that breaks a rule decides.
    pub fn new(instruments: Vec<Instrument>) -> (r: Result<Self, InstrumentTableError>)
        ensures
            match r {
                Ok(table) => is_table(instruments@) && table@ == instruments@,
                Err(error) => exists|i: int|
                    0 <= i < instruments@.len() && #[trigger] entry_fault(instruments@, i) == Some(
                        error,
                    ) && forall|k: int|
                        0 <= k < i ==> #[trigger] entry_fault(instruments@, k) is None,
            },
    {
        let mut index: usize = 0;
        while index < instruments.len()
            invariant
                index <= instruments.len(),
                forall|k: int| 0 <= k < index ==> #[trigger] entry_fault(instruments@, k) is None,
            decreases instruments.len() - index,
        {
            let instrument: Instrument = instruments[index];
            assert(instrument == instruments@[index as int]);
            if instrument.id.get() as usize != index {
                assert(entry_fault(instruments@, index as int) is Some);
                return Err(InstrumentTableError::NonSequentialId(instrument.id));
            }
            let mut other: usize = 0;
            while other < index
                invariant
                    other <= index < instruments.len(),
                    instrument == instruments@[index as int],
                    instrument.id.0 == index,
                    forall|k: int|
                        0 <= k < index ==> #[trigger] entry_fault(instruments@, k) is None,
                    forall|k: int|
                        0 <= k < other ==> !same_listing(#[trigger] instruments@[k], instrument),
                decreases index - other,
            {
                let earlier: Instrument = instruments[other];
                assert(earlier == instruments@[other as int]);
                if earlier.venue == instrument.venue && earlier.symbol == instrument.symbol {
                    assert(same_listing(instruments@[other as int], instrument));
                    assert(entry_fault(instruments@, index as int) is Some);
                    return Err(
                        InstrumentTableError::DuplicateSymbol(instrument.venue, instrument.symbol),
                    );
                }
                other = other + 1;
            }
            index = index + 1;
        }
        Ok(InstrumentTable { instruments })
    }

    /// Number of instruments.
    pub fn len(&self) -> (r: usize)
        ensures
            r == self@.len(),
            is_table(self@),
    {
        proof {
            use_type_invariant(self);
        }
        self.instruments.len()
    }

    /// Instrument by ID.
    pub fn get(&self, id: InstrumentId) -> (r: Option<&Instrument>)
        ensures
            is_table(self@),
            match r {
                Some(instrument) => id.0 < self@.len() && *instrument == self@[id.0 as int],
                None => id.0 >= self@.len(),
            },
    {
        proof {
            use_type_invariant(self);
        }
        let index: usize = id.get() as usize;
        if index < self.instruments.len() {
            Some(&self.instruments[index])
        } else {
            None
        }
    }

    /// Instrument by venue symbol. A linear scan: tables hold a handful of instruments.
    pub fn find(&self, venue: VenueId, symbol: &str) -> (r: Option<&Instrument>)
        ensures
            is_table(self@),
            match r {
                Some(instrument) => self@.contains(*instrument) && instrument.venue == venue
                    && instrument.symbol@ == symbol.spec_bytes(),
                None => forall|i: int|
                    0 <= i < self@.len() ==> !((#[trigger] self@[i]).venue == venue
                        && self@[i].symbol@ == symbol.spec_bytes()),
            },
    {
        proof {
            use_type_invariant(self);
        }
        let mut i: usize = 0;
        while i < self.instruments.len()
            invariant
                i <= self.instruments.len(),
                is_table(self@),
                forall|k: int|
                    0 <= k < i ==> !((#[trigger] self@[k]).venue == venue && self@[k].symbol@
                        == symbol.spec_bytes()),
            decreases self.instruments.len() - i,
        {
            let instrument: &Instrument = &self.instruments[i];
            assert(*instrument == self@[i as int]);
            if instrument.venue == venue && text::same_bytes(
                instrument.symbol.as_bytes(),
                symbol.as_bytes(),
            ) {
                return Some(instrument);
            }
            i = i + 1;
        }
        None
    }

    /// Every instrument, in ID order.
    pub fn iter(&self) -> (r: Vec<Instrument>)
        ensures
            r@ == self@,
            is_table(self@),
    {
        proof {
            use_type_invariant(self);
        }
        let mut all: Vec<Instrument> = Vec::with_capacity(self.instruments.len());
        let mut i: usize = 0;
        while i < self.instruments.len()
            invariant
                i <= self.instruments.len(),
                all@ == self@.take(i as int),
            decreases self.instruments.len() - i,
        {
            all.push(self.instruments[i]);
            assert(all@ =~= self@.take(i + 1));
            i = i + 1;
        }
        assert(self@.take(i as int) =~= self@);
        all
    }
}

/// In a table an ID is an index, and a listing names one instrument: looking up what an
/// instrument says of itself gives that instrument.
pub proof fn law_lookups_find_the_instrument(table: Seq<Instrument>, i: int, k: int)
    requires
        is_table(table),
        0 <= i < table.len(),
        0 <= k < table.len(),
    ensures
        table[i].id.0 == i,
        same_listing(table[i], table[k]) ==> i == k,
{
    assert(entry_fault(table, i) is None);
    assert(entry_fault(table, k) is None);
    if same_listing(table[i], table[k]) && i != k {
        if i < k {
            assert(same_listing(table[i], table[k]));
        } else {
            assert(same_listing(table[k], table[i]));
        }
    }
}

/// A symbol is one to twenty-four printable ASCII characters without a space among them.
pub proof fn law_symbols_are_short_printable_text(text: Seq<u8>)
    ensures
        is_symbol(text) <==> 1 <= text.len() <= 24 && forall|i: int|
            0 <= i < text.len() ==> 0x20 < #[trigger] text[i] < 0x7f,
{
}

/// Instruments make a table exactly when each is numbered by its place and no symbol of a venue is
/// listed twice. The error names the first that breaks a rule: its number where that is not its
/// place, and otherwise its venue and symbol.
pub proof fn law_tables_are_numbered_lists(instruments: Seq<Instrument>, i: int)
    requires
        0 <= i < instruments.len(),
    ensures
        is_table(instruments) <==> {
            &&& forall|k: int|
                0 <= k < instruments.len() ==> (#[trigger] instruments[k]).id.0 == k
            &&& forall|k: int, n: int|
                0 <= k < n < instruments.len() ==> (#[trigger] instruments[k]).venue != (
                #[trigger] instruments[n]).venue || instruments[k].symbol@
                    != instruments[n].symbol@
        },
        instruments[i].id.0 != i ==> entry_fault(instruments, i) == Some(
            InstrumentTableError::NonSequentialId(instruments[i].id),
        ),
        entry_fault(instruments, i) is Some && instruments[i].id.0 == i ==> entry_fault(
            instruments,
            i,
        ) == Some(
            InstrumentTableError::DuplicateSymbol(instruments[i].venue, instruments[i].symbol),
        ),
{
    if is_table(instruments) {
        assert forall|k: int| 0 <= k < instruments.len() implies (#[trigger] instruments[k]).id.0
            == k by {
            assert(entry_fault(instruments, k) is None);
        }
        assert forall|k: int, n: int| 0 <= k < n < instruments.len() implies (
        #[trigger] instruments[k]).venue != (#[trigger] instruments[n]).venue
            || instruments[k].symbol@ != instruments[n].symbol@ by {
            law_lookups_find_the_instrument(instruments, k, n);
        }
    }
}

/// Symbols are equal when their text is, and instruments when all that is known of them is: the
/// smallest order by its value.
pub proof fn law_instruments_are_equal_in_every_field(a: Instrument, b: Instrument)
    ensures
        vstd::std_specs::cmp::PartialEqSpec::eq_spec(&a.symbol, &b.symbol) <==> a.symbol@
            == b.symbol@,
        vstd::std_specs::cmp::PartialEqSpec::eq_spec(&a, &b) <==> {
            &&& a.id == b.id
            &&& a.venue == b.venue
            &&& a.symbol@ == b.symbol@
            &&& a.tick == b.tick
            &&& a.lot == b.lot
            &&& a.min_notional@.same(b.min_notional@)
        },
{
}

} // verus!
