//! Venue, instrument and client-order identifiers.

use crate::ascii;
use crate::text;
use vstd::prelude::*;
use vstd::string::StringSliceAdditionalSpecFns;

verus! {

/// A supported trading venue.
#[derive(Clone, Copy, Debug, PartialEq, Eq, PartialOrd, Ord, Hash, Structural)]
pub enum VenueId {
    /// Binance Spot.
    Binance,
    /// Bybit Spot.
    Bybit,
}

/// Stable lowercase name of a venue.
pub open spec fn venue_name(venue: VenueId) -> Seq<char> {
    match venue {
        VenueId::Binance => "binance"@,
        VenueId::Bybit => "bybit"@,
    }
}

/// Stable numeric code of a venue.
pub open spec fn venue_code(venue: VenueId) -> u16 {
    match venue {
        VenueId::Binance => 1,
        VenueId::Bybit => 2,
    }
}

/// No two venues share a name or a code.
pub proof fn law_venues_are_distinct(a: VenueId, b: VenueId)
    ensures
        venue_name(a) == venue_name(b) ==> a == b,
        venue_code(a) == venue_code(b) ==> a == b,
{
    reveal_strlit("binance");
    reveal_strlit("bybit");
    assert("binance"@.len() != "bybit"@.len());
}

impl VenueId {
    /// Every supported venue.
    pub fn all() -> (r: [Self; 2])
        ensures
            r@ == seq![VenueId::Binance, VenueId::Bybit],
            forall|venue: VenueId| #[trigger] r@.contains(venue),
    {
        let all: [VenueId; 2] = [VenueId::Binance, VenueId::Bybit];
        assert(all@ =~= seq![VenueId::Binance, VenueId::Bybit]);
        assert forall|venue: VenueId| #[trigger] all@.contains(venue) by {
            match venue {
                VenueId::Binance => assert(all@[0] == venue),
                VenueId::Bybit => assert(all@[1] == venue),
            }
        }
        all
    }

    /// Stable lowercase name used in config, logs and metrics.
    pub fn as_str(self) -> (r: &'static str)
        ensures
            r@ == venue_name(self),
    {
        match self {
            VenueId::Binance => "binance",
            VenueId::Bybit => "bybit",
        }
    }

    /// Stable numeric code, used as the source field of journal records. Never reuse a code.
    pub fn code(self) -> (r: u16)
        ensures
            r == venue_code(self),
    {
        match self {
            VenueId::Binance => 1,
            VenueId::Bybit => 2,
        }
    }

    /// Looks a venue up by its [`as_str`](Self::as_str) name.
    pub fn from_name(name: &str) -> (r: Option<Self>)
        ensures
            match r {
                Some(venue) => venue_name(venue) == name@,
                None => forall|venue: VenueId| #[trigger] venue_name(venue) != name@,
            },
    {
        let all: [VenueId; 2] = VenueId::all();
        let mut i: usize = 0;
        while i < 2
            invariant
                i <= 2,
                all@.len() == 2,
                forall|k: int| 0 <= k < i ==> venue_name(#[trigger] all@[k]) != name@,
            decreases 2 - i,
        {
            let venue: VenueId = all[i];
            if text::same_text(venue.as_str(), name) {
                return Some(venue);
            }
            i = i + 1;
        }
        assert forall|venue: VenueId| #[trigger] venue_name(venue) != name@ by {
            assert(all@.contains(venue));
        }
        None
    }
}

/// Dense process-local index of an instrument (one venue + one symbol), assigned at startup.
#[derive(Clone, Copy, Debug, PartialEq, Eq, PartialOrd, Ord, Hash, Structural)]
pub struct InstrumentId(pub u32);

impl InstrumentId {
    /// Wraps an index.
    pub fn new(index: u32) -> (r: Self)
        ensures
            r.0 == index,
    {
        InstrumentId(index)
    }

    /// The index.
    pub fn get(self) -> (r: u32)
        ensures
            r == self.0,
    {
        self.0
    }
}

/// Length of an encoded client order ID: a two-letter prefix, so our orders are recognizable on
/// the venue, and 16 hex digits. Fits every supported venue's limit (36 characters on both
/// Binance and Bybit).
pub const CLIENT_ORDER_ID_LEN: usize = 18;

/// Our identifier for an order: a 32-bit session number and a 32-bit sequence within it.
///
/// The session is chosen at startup (normally the start time in Unix seconds), so IDs stay
/// unique across restarts as long as one engine owns a venue account at a time.
#[derive(Clone, Copy, Debug, PartialEq, Eq, PartialOrd, Ord, Hash, Structural)]
pub struct ClientOrderId {
    pub session: u32,
    pub sequence: u32,
}

/// The lowercase hex digit of a value below 16.
pub open spec fn hex_digit(value: int) -> u8 {
    if value < 10 {
        (ascii::ZERO + value) as u8
    } else {
        (ascii::LOWER_A + value - 10) as u8
    }
}

/// The last `width` hex digits of `value`, most significant first.
pub open spec fn hex_digits(value: nat, width: nat) -> Seq<u8>
    decreases width,
{
    if width == 0 {
        Seq::empty()
    } else {
        hex_digits(value / 16, (width - 1) as nat).push(hex_digit((value % 16) as int))
    }
}

/// The text of an ID: `bw`, then session and sequence as eight hex digits each.
pub open spec fn id_text(id: ClientOrderId) -> Seq<u8> {
    seq![ascii::LOWER_B, ascii::LOWER_W] + hex_digits(id.session as nat, 8) + hex_digits(
        id.sequence as nat,
        8,
    )
}

/// Whether a byte is a lowercase hex digit.
pub open spec fn is_hex(byte: u8) -> bool {
    ascii::ZERO <= byte <= ascii::NINE || ascii::LOWER_A <= byte <= ascii::LOWER_F
}

/// The value of a lowercase hex digit.
pub open spec fn hex_value(byte: u8) -> nat {
    if byte <= ascii::NINE {
        (byte - ascii::ZERO) as nat
    } else {
        (byte - ascii::LOWER_A + 10) as nat
    }
}

/// The number that hex digits spell.
pub open spec fn spelled(digits: Seq<u8>) -> nat
    decreases digits.len(),
{
    if digits.len() == 0 {
        0
    } else {
        spelled(digits.drop_last()) * 16 + hex_value(digits.last())
    }
}

/// Sixteen to the power of `n`.
spec fn pow16(n: nat) -> nat
    decreases n,
{
    if n == 0 {
        1
    } else {
        16 * pow16((n - 1) as nat)
    }
}

/// Hex digits are hex digits, as many as asked, and spell the number they came from.
proof fn lemma_hex_digits(value: nat, width: nat)
    requires
        value < pow16(width),
    ensures
        hex_digits(value, width).len() == width,
        forall|i: int| 0 <= i < width ==> is_hex(#[trigger] hex_digits(value, width)[i]),
        spelled(hex_digits(value, width)) == value,
    decreases width,
{
    if width > 0 {
        lemma_hex_digits(value / 16, (width - 1) as nat);
        let head = hex_digits(value / 16, (width - 1) as nat);
        let whole = hex_digits(value, width);
        assert(whole.drop_last() =~= head);
    }
}

/// Hex digits are those of the number they spell.
proof fn lemma_spelled(digits: Seq<u8>)
    requires
        forall|i: int| 0 <= i < digits.len() ==> is_hex(#[trigger] digits[i]),
    ensures
        hex_digits(spelled(digits), digits.len()) == digits,
        spelled(digits) < pow16(digits.len()),
    decreases digits.len(),
{
    if digits.len() > 0 {
        let head = digits.drop_last();
        assert forall|i: int| 0 <= i < head.len() implies is_hex(#[trigger] head[i]) by {
            assert(head[i] == digits[i]);
        }
        lemma_spelled(head);
        assert(is_hex(digits[digits.len() - 1]));
        assert(head.push(digits.last()) =~= digits);
    }
}

/// Eight hex digits hold any 32-bit number.
proof fn lemma_pow16_8()
    ensures
        pow16(8) == 0x1_0000_0000,
{
    reveal_with_fuel(pow16, 9);
}

/// Every ID has its own text, of [`CLIENT_ORDER_ID_LEN`] ASCII characters.
pub proof fn law_ids_have_distinct_texts(a: ClientOrderId, b: ClientOrderId)
    ensures
        id_text(a) == id_text(b) ==> a == b,
        id_text(a).len() == CLIENT_ORDER_ID_LEN,
        text::all_ascii(id_text(a)),
{
    lemma_pow16_8();
    lemma_hex_digits(a.session as nat, 8);
    lemma_hex_digits(a.sequence as nat, 8);
    lemma_hex_digits(b.session as nat, 8);
    lemma_hex_digits(b.sequence as nat, 8);
    if id_text(a) == id_text(b) {
        assert(id_text(a).subrange(2, 10) =~= hex_digits(a.session as nat, 8));
        assert(id_text(b).subrange(2, 10) =~= hex_digits(b.session as nat, 8));
        assert(id_text(a).subrange(10, 18) =~= hex_digits(a.sequence as nat, 8));
        assert(id_text(b).subrange(10, 18) =~= hex_digits(b.sequence as nat, 8));
    }
}

impl ClientOrderId {
    /// Builds an ID from its parts.
    pub fn new(session: u32, sequence: u32) -> (r: Self)
        ensures
            r == (ClientOrderId { session, sequence }),
    {
        ClientOrderId { session, sequence }
    }

    /// The session part.
    pub fn session(self) -> (r: u32)
        ensures
            r == self.session,
    {
        self.session
    }

    /// The sequence part.
    pub fn sequence(self) -> (r: u32)
        ensures
            r == self.sequence,
    {
        self.sequence
    }

    /// Encodes as venue text, for example `bw65f1a2c000000001`. Never allocates.
    pub fn encode(self) -> (r: ClientOrderIdText)
        ensures
            r@ == id_text(self),
    {
        let mut bytes: [u8; 18] = [0;18];
        bytes[0] = ascii::LOWER_B;
        bytes[1] = ascii::LOWER_W;
        write_hex(self.session, &mut bytes, 2);
        write_hex(self.sequence, &mut bytes, 10);
        proof {
            law_ids_have_distinct_texts(self, self);
            lemma_pow16_8();
            lemma_hex_digits(self.session as nat, 8);
            lemma_hex_digits(self.sequence as nat, 8);
            assert(bytes@ =~= id_text(self)) by {
                assert forall|i: int| 0 <= i < 18 implies bytes@[i] == id_text(self)[i] by {
                    if 2 <= i < 10 {
                        assert(bytes@.subrange(2, 10)[i - 2] == bytes@[i]);
                    } else if 10 <= i {
                        assert(bytes@.subrange(10, 18)[i - 10] == bytes@[i]);
                    }
                }
            }
        }
        ClientOrderIdText(bytes)
    }

    /// The ID as venue text.
    pub fn to_string(&self) -> (r: String)
        ensures
            r@ == text::chars_of(id_text(*self)),
    {
        let encoded: ClientOrderIdText = self.encode();
        let mut out: String = String::new();
        out.append(encoded.as_str());
        assert(out@ =~= text::chars_of(id_text(*self)));
        out
    }

    /// Decodes venue text produced by [`encode`](Self::encode). Returns `None` for IDs we did
    /// not generate, which lets reconciliation spot foreign orders on the account.
    pub fn decode(text: &str) -> (r: Option<Self>)
        ensures
            match r {
                Some(id) => id_text(id) == text.spec_bytes(),
                None => forall|id: ClientOrderId| #[trigger] id_text(id) != text.spec_bytes(),
            },
    {
        let bytes: &[u8] = text.as_bytes();
        if bytes.len() != CLIENT_ORDER_ID_LEN {
            proof {
                assert forall|id: ClientOrderId| #[trigger] id_text(id) != bytes@ by {
                    law_ids_have_distinct_texts(id, id);
                }
            }
            return None;
        }
        if bytes[0] != ascii::LOWER_B || bytes[1] != ascii::LOWER_W {
            proof {
                assert forall|id: ClientOrderId| #[trigger] id_text(id) != bytes@ by {
                    assert(id_text(id)[0] == ascii::LOWER_B && id_text(id)[1] == ascii::LOWER_W);
                }
            }
            return None;
        }
        match (read_hex(bytes, 2), read_hex(bytes, 10)) {
            (Some(session), Some(sequence)) => {
                let id: ClientOrderId = ClientOrderId { session, sequence };
                proof {
                    assert(id_text(id) =~= bytes@) by {
                        assert(bytes@ =~= bytes@.subrange(0, 2) + bytes@.subrange(2, 10)
                            + bytes@.subrange(10, 18));
                        assert(bytes@.subrange(0, 2) =~= seq![ascii::LOWER_B, ascii::LOWER_W]);
                    }
                }
                Some(id)
            },
            _ => {
                proof {
                    assert forall|id: ClientOrderId| #[trigger] id_text(id) != bytes@ by {
                        lemma_pow16_8();
                        lemma_hex_digits(id.session as nat, 8);
                        lemma_hex_digits(id.sequence as nat, 8);
                        let t = id_text(id);
                        assert(t.subrange(2, 10) =~= hex_digits(id.session as nat, 8));
                        assert(t.subrange(10, 18) =~= hex_digits(id.sequence as nat, 8));
                    }
                }
                None
            },
        }
    }
}

/// Writes `value` as eight lowercase hex digits at `at`, most significant nibble first.
fn write_hex(value: u32, out: &mut [u8; 18], at: usize)
    requires
        at <= 10,
    ensures
        final(out)@.subrange(at as int, at + 8) == hex_digits(value as nat, 8),
        forall|k: int|
            0 <= k < 18 && !(at <= k < at + 8) ==> #[trigger] final(out)@[k] == old(out)@[k],
{
    let mut rest: u32 = value;
    let mut left: usize = 8;
    while left > 0
        invariant
            left <= 8,
            at <= 10,
            hex_digits(value as nat, 8) == hex_digits(rest as nat, left as nat) + out@.subrange(
                at + left,
                at + 8,
            ),
            forall|k: int|
                0 <= k < 18 && !(at <= k < at + 8) ==> #[trigger] out@[k] == old(out)@[k],
        decreases left,
    {
        let nibble: u8 = (rest % 16) as u8;
        let digit: u8 = if nibble < 10 {
            ascii::ZERO + nibble
        } else {
            ascii::LOWER_A + (nibble - 10)
        };
        let ghost done = out@.subrange(at + left, at + 8);
        out[at + left - 1] = digit;
        proof {
            let head = hex_digits((rest / 16) as nat, (left - 1) as nat);
            assert(out@.subrange(at + left - 1, at + 8) =~= seq![digit] + done);
            assert(head.push(digit) + done =~= head + (seq![digit] + done));
        }
        rest = rest / 16;
        left = left - 1;
    }
    assert(hex_digits(rest as nat, 0) + out@.subrange(at as int, at + 8) =~= out@.subrange(
        at as int,
        at + 8,
    ));
}

/// Reads eight lowercase hex digits at `at`. `None` if a byte is anything else.
fn read_hex(bytes: &[u8], at: usize) -> (r: Option<u32>)
    requires
        at + 8 <= bytes@.len(),
    ensures
        match r {
            Some(value) => bytes@.subrange(at as int, at + 8) == hex_digits(value as nat, 8),
            None => exists|i: int|
                0 <= i < 8 && !is_hex(#[trigger] bytes@.subrange(at as int, at + 8)[i]),
        },
{
    let ghost digits = bytes@.subrange(at as int, at + 8);
    let mut value: u32 = 0;
    let mut i: usize = 0;
    proof {
        lemma_pow16_8();
    }
    while i < 8
        invariant
            i <= 8,
            at + 8 <= bytes.len(),
            digits == bytes@.subrange(at as int, at + 8),
            forall|k: int| 0 <= k < i ==> is_hex(#[trigger] digits[k]),
            value == spelled(digits.take(i as int)),
            value < pow16(i as nat),
            pow16(8) == 0x1_0000_0000,
        decreases 8 - i,
    {
        let byte: u8 = bytes[at + i];
        assert(byte == digits[i as int]);
        let nibble: u32 = if ascii::ZERO <= byte && byte <= ascii::NINE {
            (byte - ascii::ZERO) as u32
        } else if ascii::LOWER_A <= byte && byte <= ascii::LOWER_F {
            (byte - ascii::LOWER_A) as u32 + 10
        } else {
            return None;
        };
        proof {
            assert(digits.take(i + 1).drop_last() =~= digits.take(i as int));
            lemma_pow16_grows((i + 1) as nat, 8);
        }
        value = value * 16 + nibble;
        i = i + 1;
    }
    proof {
        assert(digits.take(8) =~= digits);
        lemma_spelled(digits);
    }
    Some(value)
}

proof fn lemma_pow16_grows(a: nat, b: nat)
    requires
        a <= b,
    ensures
        pow16(a) <= pow16(b),
    decreases b,
{
    if a < b {
        lemma_pow16_grows(a, (b - 1) as nat);
    }
}

/// Stack-allocated text form of a [`ClientOrderId`].
#[derive(Clone, Copy, Debug, PartialEq, Eq)]
pub struct ClientOrderIdText([u8; 18]);

impl View for ClientOrderIdText {
    type V = Seq<u8>;

    closed spec fn view(&self) -> Seq<u8> {
        self.0@
    }
}

impl ClientOrderIdText {
    /// Only ASCII is ever written.
    #[verifier::type_invariant]
    spec fn ascii(self) -> bool {
        text::all_ascii(self.0@)
    }

    /// The encoded text.
    pub fn as_str(&self) -> (r: &str)
        ensures
            r@ == text::chars_of(self@),
            r.spec_bytes() == self@,
    {
        proof {
            use_type_invariant(self);
        }
        text::ascii_str(self.0.as_slice())
    }
}

/// The text of an ID is `bw`, its session and its sequence, each as eight lower-case hex digits,
/// most significant first.
pub proof fn law_id_texts_spell_session_and_sequence(id: ClientOrderId)
    ensures
        id_text(id).len() == 18,
        id_text(id)[0] == 0x62,
        id_text(id)[1] == 0x77,
        forall|i: int|
            2 <= i < 18 ==> 0x30 <= #[trigger] id_text(id)[i] <= 0x39 || 0x61 <= id_text(id)[i]
                <= 0x66,
        spelled(id_text(id).subrange(2, 10)) == id.session,
        spelled(id_text(id).subrange(10, 18)) == id.sequence,
{
    lemma_pow16_8();
    lemma_hex_digits(id.session as nat, 8);
    lemma_hex_digits(id.sequence as nat, 8);
    let session = hex_digits(id.session as nat, 8);
    let sequence = hex_digits(id.sequence as nat, 8);
    let whole = id_text(id);
    assert(whole.subrange(2, 10) =~= session);
    assert(whole.subrange(10, 18) =~= sequence);
    assert forall|i: int| 2 <= i < 18 implies 0x30 <= #[trigger] whole[i] <= 0x39 || 0x61 <= whole[i]
        <= 0x66 by {
        if i < 10 {
            assert(whole[i] == session[i - 2]);
        } else {
            assert(whole[i] == sequence[i - 10]);
        }
    }
}

/// A hex digit put behind others adds its value to sixteen times theirs.
pub proof fn law_hex_digits_count_by_sixteens(head: Seq<u8>, digit: u8)
    ensures
        0x30 <= digit <= 0x39 ==> spelled(head.push(digit)) == 16 * spelled(head) + (digit - 0x30),
        0x61 <= digit <= 0x66 ==> spelled(head.push(digit)) == 16 * spelled(head) + 10 + (digit
            - 0x61),
        spelled(Seq::empty()) == 0,
{
    assert(head.push(digit).drop_last() =~= head);
}

/// Hands out sequential [`ClientOrderId`]s for one session.
#[derive(Debug)]
pub struct ClientOrderIdGen {
    session: u32,
    next: Option<u32>,
}

/// The sequence number that follows `next`: none once the last one is used up.
pub open spec fn following(next: Option<u32>) -> Option<u32> {
    match next {
        Some(sequence) => if sequence == u32::MAX {
            None
        } else {
            Some((sequence + 1) as u32)
        },
        None => None,
    }
}

/// The sequence number that the call after `calls` other calls hands out.
pub open spec fn handed_out(next: Option<u32>, calls: nat) -> Option<u32>
    decreases calls,
{
    if calls == 0 {
        next
    } else {
        handed_out(following(next), (calls - 1) as nat)
    }
}

impl ClientOrderIdGen {
    /// The session whose IDs it hands out.
    pub closed spec fn of_session(self) -> u32 {
        self.session
    }

    /// The sequence number it hands out next, if any is left.
    pub closed spec fn upcoming(self) -> Option<u32> {
        self.next
    }

    /// Starts a session at sequence 0.
    pub fn new(session: u32) -> (r: Self)
        ensures
            r.of_session() == session,
            r.upcoming() == Some(0u32),
    {
        ClientOrderIdGen { session, next: Some(0) }
    }

    /// Goes on with a session whose next sequence number is known; `None` if it is exhausted.
    pub fn resume(session: u32, next: Option<u32>) -> (r: Self)
        ensures
            r.of_session() == session,
            r.upcoming() == next,
    {
        ClientOrderIdGen { session, next }
    }

    /// The next ID, or `None` once the 2^32 sequence numbers of this session are used up.
    /// IDs are never reused: an exhausted generator stays exhausted and the caller must stop
    /// sending orders.
    pub fn next(&mut self) -> (r: Option<ClientOrderId>)
        ensures
            final(self).of_session() == old(self).of_session(),
            final(self).upcoming() == following(old(self).upcoming()),
            r == (match old(self).upcoming() {
                Some(sequence) => Some(
                    ClientOrderId { session: old(self).of_session(), sequence },
                ),
                None => None,
            }),
    {
        let sequence: u32 = match self.next {
            Some(sequence) => sequence,
            None => {
                return None;
            },
        };
        self.next = sequence.checked_add(1);
        Some(ClientOrderId::new(self.session, sequence))
    }
}

/// However many IDs a session has handed out, a later one is different, and an exhausted
/// session stays exhausted.
pub proof fn law_ids_are_never_reused(next: Option<u32>, earlier: nat, later: nat)
    requires
        earlier < later,
    ensures
        handed_out(next, earlier) is None ==> handed_out(next, later) is None,
        handed_out(next, later) matches Some(b) ==> handed_out(next, earlier) matches Some(a) && a
            < b,
    decreases later,
{
    law_ids_count_up(next, earlier);
    law_ids_count_up(next, later);
}

/// The call after `calls` others hands out the number that many after the first, while there
/// are any.
pub proof fn law_ids_count_up(next: Option<u32>, calls: nat)
    ensures
        handed_out(next, calls) == (match next {
            Some(sequence) => if sequence + calls <= u32::MAX {
                Some((sequence + calls) as u32)
            } else {
                None
            },
            None => None,
        }),
    decreases calls,
{
    if calls > 0 {
        law_ids_count_up(following(next), (calls - 1) as nat);
    }
}

} // verus!
