//! The tool's command line.

use crate::instrument::Symbol;
use crate::text;
use vstd::prelude::*;
use vstd::string::StringSliceAdditionalSpecFns;

verus! {

/// Where market data is streamed from unless told otherwise.
pub const DEFAULT_STREAM: &'static str = "wss://data-stream.binance.vision";

/// Where snapshots and instruments are requested unless told otherwise.
pub const DEFAULT_REST: &'static str = "https://data-api.binance.vision";

/// The text of `-h` and `--help`.
pub const USAGE: &'static str = "usage: bowst-md [--symbols A,B] [--seconds N] [--stream URL] [--rest URL] [--journal DIR]\n                [--metrics ADDR [--metrics-allow-remote]]\n       bowst-md --replay DIR";

/// The characters with the Unicode property White_Space.
pub open spec fn is_white(c: char) -> bool {
    let code = c as u32;
    ||| 0x9 <= code <= 0xd
    ||| code == 0x20
    ||| code == 0x85
    ||| code == 0xa0
    ||| code == 0x1680
    ||| 0x2000 <= code <= 0x200a
    ||| 0x2028 <= code <= 0x2029
    ||| code == 0x202f
    ||| code == 0x205f
    ||| code == 0x3000
}

/// Some text without the white space at both of its ends.
pub open spec fn trimmed(chars: Seq<char>) -> Seq<char>
    decreases chars.len(),
{
    if chars.len() == 0 {
        chars
    } else if is_white(chars.first()) {
        trimmed(chars.skip(1))
    } else if is_white(chars.last()) {
        trimmed(chars.drop_last())
    } else {
        chars
    }
}

/// `str::trim` of std: the text without the characters at both of its ends that have the Unicode
/// property White_Space.
#[verifier::external_body]
fn trim(text: &str) -> (r: &str)
    ensures
        r@ == trimmed(text@),
{
    text.trim()
}

/// How `Debug` writes some text.
pub uninterp spec fn quoted(chars: Seq<char>) -> Seq<char>;

/// `Debug` of `str` of std: the text in quotes, with escapes, which is what [`quoted`] names.
#[verifier::external_body]
fn quote(text: &str) -> (r: String)
    ensures
        r@ == quoted(text@),
{
    format!("{text:?}")
}

/// A character with lower-case ASCII letters made upper-case.
pub open spec fn upper_char(c: char) -> char {
    if 'a' <= c <= 'z' {
        (c as u32 - 32) as char
    } else {
        c
    }
}

/// Text with lower-case ASCII letters made upper-case.
pub open spec fn upper(chars: Seq<char>) -> Seq<char> {
    chars.map_values(|c: char| upper_char(c))
}

/// Text with lower-case ASCII letters made upper-case.
pub fn uppercase(text: &str) -> (r: String)
    ensures
        r@ == upper(text@),
{
    let chars: Vec<char> = text::to_chars(text);
    let mut out: String = String::new();
    let mut i: usize = 0;
    assert(out@ =~= upper(text@.take(0)));
    while i < chars.len()
        invariant
            i <= chars.len(),
            chars@ == text@,
            out@ == upper(text@.take(i as int)),
        decreases chars.len() - i,
    {
        let c: char = chars[i];
        if 'a' <= c && c <= 'z' {
            out.push((c as u8 - 32) as char);
        } else {
            out.push(c);
        }
        assert(out@ =~= upper(text@.take(i + 1)));
        i = i + 1;
    }
    assert(text@.take(i as int) =~= text@);
    out
}

/// What the command line asks for.
#[derive(Debug)]
pub struct Args {
    /// Instruments to stream.
    pub symbols: Vec<Symbol>,
    /// How long to stream.
    pub seconds: u64,
    /// Where market data is streamed from.
    pub stream: String,
    /// Where snapshots and instruments are requested.
    pub rest: String,
    /// Directory to record the session in.
    pub journal: Option<String>,
    /// Directory of a recorded session to replay instead.
    pub replay: Option<String>,
    /// Address to serve metrics on.
    pub metrics: Option<String>,
    /// Whether that address may be reachable from other machines.
    pub metrics_allow_remote: bool,
}

/// What the command line asks for, as values.
#[verifier::ext_equal]
pub struct ArgsView {
    pub symbols: Seq<Seq<u8>>,
    pub seconds: u64,
    pub stream: Seq<char>,
    pub rest: Seq<char>,
    pub journal: Option<Seq<char>>,
    pub replay: Option<Seq<char>>,
    pub metrics: Option<Seq<char>>,
    pub metrics_allow_remote: bool,
}

/// The characters of optional text.
pub open spec fn optional(value: Option<String>) -> Option<Seq<char>> {
    match value {
        Some(value) => Some(value@),
        None => None,
    }
}

impl View for Args {
    type V = ArgsView;

    open spec fn view(&self) -> ArgsView {
        ArgsView {
            symbols: self.symbols@.map_values(|symbol: Symbol| symbol@),
            seconds: self.seconds,
            stream: self.stream@,
            rest: self.rest@,
            journal: optional(self.journal),
            replay: optional(self.replay),
            metrics: optional(self.metrics),
            metrics_allow_remote: self.metrics_allow_remote,
        }
    }
}

/// Why a command line is refused.
#[derive(Debug)]
pub enum ArgsError {
    /// This flag stands last but takes a value.
    NeedsValue(String),
    /// This is not a symbol.
    BadSymbol(String),
    /// The duration is not a number.
    BadSeconds,
    /// The metrics address is not an address.
    BadAddress,
    /// Help was asked for.
    Help,
    /// This is not a flag.
    Unknown(String),
}

/// Why a command line is refused, as values.
pub enum Refusal {
    NeedsValue(Seq<char>),
    BadSymbol(Seq<char>),
    BadSeconds,
    BadAddress,
    Help,
    Unknown(Seq<char>),
}

impl View for ArgsError {
    type V = Refusal;

    open spec fn view(&self) -> Refusal {
        match self {
            ArgsError::NeedsValue(flag) => Refusal::NeedsValue(flag@),
            ArgsError::BadSymbol(text) => Refusal::BadSymbol(text@),
            ArgsError::BadSeconds => Refusal::BadSeconds,
            ArgsError::BadAddress => Refusal::BadAddress,
            ArgsError::Help => Refusal::Help,
            ArgsError::Unknown(text) => Refusal::Unknown(text@),
        }
    }
}

/// The message for a refusal, given how `Debug` writes the text in it.
pub open spec fn message_for(refusal: Refusal, quoted: Seq<char>) -> Seq<char> {
    match refusal {
        Refusal::NeedsValue(flag) => flag + " needs a value"@,
        Refusal::BadSymbol(_) => "bad symbol "@ + quoted,
        Refusal::BadSeconds => "--seconds must be a number"@,
        Refusal::BadAddress => "--metrics needs an address such as 127.0.0.1:9184"@,
        Refusal::Help => USAGE@,
        Refusal::Unknown(_) => "unknown argument "@ + quoted + " (see --help)"@,
    }
}

/// The message for a refusal.
pub open spec fn message_of(refusal: Refusal) -> Seq<char> {
    match refusal {
        Refusal::BadSymbol(text) => message_for(refusal, quoted(text)),
        Refusal::Unknown(text) => message_for(refusal, quoted(text)),
        _ => message_for(refusal, Seq::empty()),
    }
}

impl ArgsError {
    /// The message to print, given how `Debug` writes the text in it.
    pub fn message_with(&self, quoted: &str) -> (r: String)
        ensures
            r@ == message_for(self@, quoted@),
    {
        let mut out: String = String::new();
        match self {
            ArgsError::NeedsValue(flag) => {
                out.append(flag.as_str());
                out.append(" needs a value");
            },
            ArgsError::BadSymbol(_) => {
                out.append("bad symbol ");
                out.append(quoted);
            },
            ArgsError::BadSeconds => {
                out.append("--seconds must be a number");
            },
            ArgsError::BadAddress => {
                out.append("--metrics needs an address such as 127.0.0.1:9184");
            },
            ArgsError::Help => {
                out.append(USAGE);
            },
            ArgsError::Unknown(_) => {
                out.append("unknown argument ");
                out.append(quoted);
                out.append(" (see --help)");
            },
        }
        assert(out@ =~= message_for(self@, quoted@));
        out
    }

    /// The message to print.
    pub fn message(&self) -> (r: String)
        ensures
            r@ == message_of(self@),
    {
        match self {
            ArgsError::BadSymbol(text) => self.message_with(quote(text.as_str()).as_str()),
            ArgsError::Unknown(text) => self.message_with(quote(text.as_str()).as_str()),
            _ => {
                let none: String = String::new();
                assert(none@ =~= Seq::<char>::empty());
                self.message_with(none.as_str())
            },
        }
    }
}

/// The symbol that text without white space around it names, if it names one: symbols are
/// upper-case.
pub open spec fn symbol_named(trimmed: Seq<char>) -> Option<Seq<u8>> {
    let bytes = vstd::utf8::encode_utf8(upper(trimmed));
    if crate::instrument::is_symbol(bytes) {
        Some(bytes)
    } else {
        None
    }
}

/// The symbol that text without white space around it names, if it names one.
pub fn symbol_of(trimmed: &str) -> (r: Option<Symbol>)
    ensures
        match r {
            Some(symbol) => symbol_named(trimmed@) == Some(symbol@),
            None => symbol_named(trimmed@) is None,
        },
{
    Symbol::new(uppercase(trimmed).as_str())
}

/// The symbols that some pieces of text name, or the first piece that names none.
pub open spec fn symbols_named(pieces: Seq<Seq<char>>) -> Result<Seq<Seq<u8>>, Refusal>
    decreases pieces.len(),
{
    if pieces.len() == 0 {
        Ok(Seq::empty())
    } else {
        match symbols_named(pieces.drop_last()) {
            Ok(symbols) => match symbol_named(trimmed(pieces.last())) {
                Some(symbol) => Ok(symbols.push(symbol)),
                None => Err(Refusal::BadSymbol(pieces.last())),
            },
            Err(refusal) => Err(refusal),
        }
    }
}

/// A bad piece stays the first one whatever follows it.
proof fn lemma_first_bad(pieces: Seq<Seq<char>>, n: int)
    requires
        0 <= n <= pieces.len(),
        symbols_named(pieces.take(n)) is Err,
    ensures
        symbols_named(pieces) == symbols_named(pieces.take(n)),
    decreases pieces.len() - n,
{
    if n < pieces.len() {
        assert(pieces.take(n + 1).drop_last() =~= pieces.take(n));
        lemma_first_bad(pieces, n + 1);
    } else {
        assert(pieces.take(n) =~= pieces);
    }
}

/// The symbols of a list separated by commas.
pub fn parse_symbols(list: &str) -> (r: Result<Vec<Symbol>, ArgsError>)
    ensures
        match r {
            Ok(symbols) => symbols_named(text::pieces(list@, ',')) == Ok::<Seq<Seq<u8>>, Refusal>(
                symbols@.map_values(|symbol: Symbol| symbol@),
            ),
            Err(error) => symbols_named(text::pieces(list@, ',')) == Err::<Seq<Seq<u8>>, Refusal>(
                error@,
            ),
        },
{
    let parts: Vec<String> = text::split_text(list, ',');
    let ghost pieces = text::pieces(list@, ',');
    let mut symbols: Vec<Symbol> = Vec::new();
    let mut i: usize = 0;
    assert(pieces.take(0) =~= Seq::<Seq<char>>::empty());
    assert(symbols@.map_values(|symbol: Symbol| symbol@) =~= Seq::<Seq<u8>>::empty());
    while i < parts.len()
        invariant
            i <= parts.len(),
            pieces == text::pieces(list@, ','),
            parts@.len() == pieces.len(),
            forall|k: int| 0 <= k < parts@.len() ==> (#[trigger] parts@[k])@ == pieces[k],
            symbols_named(pieces.take(i as int)) == Ok::<Seq<Seq<u8>>, Refusal>(
                symbols@.map_values(|symbol: Symbol| symbol@),
            ),
        decreases parts.len() - i,
    {
        assert(pieces.take(i + 1).drop_last() =~= pieces.take(i as int));
        let part: &String = &parts[i];
        match symbol_of(trim(part.as_str())) {
            Some(symbol) => {
                let ghost before = symbols@.map_values(|symbol: Symbol| symbol@);
                symbols.push(symbol);
                assert(symbols@.map_values(|symbol: Symbol| symbol@) =~= before.push(symbol@));
            },
            None => {
                proof {
                    lemma_first_bad(pieces, i + 1);
                }
                return Err(ArgsError::BadSymbol(part.clone()));
            },
        }
        i = i + 1;
    }
    assert(pieces.take(i as int) =~= pieces);
    Ok(symbols)
}

/// What is asked for where the command line says nothing.
pub open spec fn defaults() -> ArgsView {
    ArgsView {
        symbols: seq!["BTCUSDT".spec_bytes()],
        seconds: 30,
        stream: DEFAULT_STREAM@,
        rest: DEFAULT_REST@,
        journal: None,
        replay: None,
        metrics: None,
        metrics_allow_remote: false,
    }
}

/// Whether this flag takes a value.
pub open spec fn takes_value(flag: Seq<char>) -> bool {
    ||| flag == "--symbols"@
    ||| flag == "--seconds"@
    ||| flag == "--stream"@
    ||| flag == "--rest"@
    ||| flag == "--journal"@
    ||| flag == "--replay"@
    ||| flag == "--metrics"@
}

/// What is asked for with a flag and its value. `is_address` is whether the value is a socket
/// address.
pub open spec fn with_value(
    args: ArgsView,
    flag: Seq<char>,
    value: Seq<char>,
    is_address: bool,
) -> Result<ArgsView, Refusal> {
    if flag == "--symbols"@ {
        match symbols_named(text::pieces(value, ',')) {
            Ok(symbols) => Ok(ArgsView { symbols, ..args }),
            Err(refusal) => Err(refusal),
        }
    } else if flag == "--seconds"@ {
        match text::number(vstd::utf8::encode_utf8(value), u64::MAX as nat) {
            Some(seconds) => Ok(ArgsView { seconds: seconds as u64, ..args }),
            None => Err(Refusal::BadSeconds),
        }
    } else if flag == "--stream"@ {
        Ok(ArgsView { stream: value, ..args })
    } else if flag == "--rest"@ {
        Ok(ArgsView { rest: value, ..args })
    } else if flag == "--journal"@ {
        Ok(ArgsView { journal: Some(value), ..args })
    } else if flag == "--replay"@ {
        Ok(ArgsView { replay: Some(value), ..args })
    } else if is_address {
        Ok(ArgsView { metrics: Some(value), ..args })
    } else {
        Err(Refusal::BadAddress)
    }
}

/// What the words from the `i`-th on ask for, in addition to `so_far`. Later flags replace
/// earlier ones, and the first word that cannot be taken is refused.
pub open spec fn asked(
    words: Seq<Seq<char>>,
    addresses: Seq<bool>,
    i: nat,
    so_far: ArgsView,
) -> Result<ArgsView, Refusal>
    decreases words.len() - i,
{
    let flag = words[i as int];
    if i >= words.len() {
        Ok(so_far)
    } else if flag == "--metrics-allow-remote"@ {
        asked(words, addresses, i + 1, ArgsView { metrics_allow_remote: true, ..so_far })
    } else if flag == "-h"@ || flag == "--help"@ {
        Err(Refusal::Help)
    } else if !takes_value(flag) {
        Err(Refusal::Unknown(flag))
    } else if i + 1 >= words.len() {
        Err(Refusal::NeedsValue(flag))
    } else {
        match with_value(so_far, flag, words[i + 1int], addresses[i + 1int]) {
            Ok(next) => asked(words, addresses, i + 2, next),
            Err(refusal) => Err(refusal),
        }
    }
}

/// The words of a command line.
pub open spec fn words_of(args: Seq<String>) -> Seq<Seq<char>> {
    args.map_values(|arg: String| arg@)
}

/// Whether this flag takes a value.
fn needs_value(flag: &str) -> (r: bool)
    ensures
        r == takes_value(flag@),
{
    text::same_text(flag, "--symbols") || text::same_text(flag, "--seconds") || text::same_text(
        flag,
        "--stream",
    ) || text::same_text(flag, "--rest") || text::same_text(flag, "--journal")
        || text::same_text(flag, "--replay") || text::same_text(flag, "--metrics")
}

impl Args {
    /// What is asked for where the command line says nothing.
    pub fn defaults() -> (r: Self)
        ensures
            r@ == defaults(),
    {
        let mut symbols: Vec<Symbol> = Vec::new();
        proof {
            reveal_strlit("BTCUSDT");
            vstd::utf8::is_ascii_chars_encode_utf8("BTCUSDT"@);
        }
        if let Some(symbol) = Symbol::new("BTCUSDT") {
            symbols.push(symbol);
        }
        let args: Args = Args {
            symbols,
            seconds: 30,
            stream: DEFAULT_STREAM.to_owned(),
            rest: DEFAULT_REST.to_owned(),
            journal: None,
            replay: None,
            metrics: None,
            metrics_allow_remote: false,
        };
        assert(args@.symbols =~= defaults().symbols);
        args
    }

    /// Takes a flag and its value.
    fn take(&mut self, flag: &str, value: &String, is_address: bool) -> (r: Result<(), ArgsError>)
        requires
            takes_value(flag@),
        ensures
            match r {
                Ok(_) => with_value(old(self)@, flag@, value@, is_address) == Ok::<
                    ArgsView,
                    Refusal,
                >(final(self)@),
                Err(error) => with_value(old(self)@, flag@, value@, is_address) == Err::<
                    ArgsView,
                    Refusal,
                >(error@),
            },
    {
        if text::same_text(flag, "--symbols") {
            match parse_symbols(value.as_str()) {
                Ok(symbols) => {
                    self.symbols = symbols;
                },
                Err(error) => {
                    return Err(error);
                },
            }
        } else if text::same_text(flag, "--seconds") {
            match text::parse_number(value.as_str().as_bytes(), u64::MAX) {
                Some(seconds) => {
                    self.seconds = seconds;
                },
                None => {
                    return Err(ArgsError::BadSeconds);
                },
            }
        } else if text::same_text(flag, "--stream") {
            self.stream = value.clone();
        } else if text::same_text(flag, "--rest") {
            self.rest = value.clone();
        } else if text::same_text(flag, "--journal") {
            self.journal = Some(value.clone());
        } else if text::same_text(flag, "--replay") {
            self.replay = Some(value.clone());
        } else if is_address {
            self.metrics = Some(value.clone());
        } else {
            return Err(ArgsError::BadAddress);
        }
        Ok(())
    }
}

/// Reads the command line, given its words without the program's name and which of them are
/// socket addresses.
///
/// # Errors
/// [`ArgsError`] for the first word that cannot be taken.
pub fn parse_args(args: &[String], addresses: &[bool]) -> (r: Result<Args, ArgsError>)
    requires
        addresses@.len() == args@.len(),
    ensures
        match r {
            Ok(parsed) => asked(words_of(args@), addresses@, 0, defaults()) == Ok::<
                ArgsView,
                Refusal,
            >(parsed@),
            Err(error) => asked(words_of(args@), addresses@, 0, defaults()) == Err::<
                ArgsView,
                Refusal,
            >(error@),
        },
{
    let mut parsed: Args = Args::defaults();
    let ghost words = words_of(args@);
    let mut i: usize = 0;
    while i < args.len()
        invariant
            i <= args.len(),
            words == words_of(args@),
            addresses@.len() == args@.len(),
            asked(words, addresses@, 0, defaults()) == asked(
                words,
                addresses@,
                i as nat,
                parsed@,
            ),
        decreases args.len() - i,
    {
        let flag: &str = args[i].as_str();
        assert(words[i as int] == flag@);
        if text::same_text(flag, "--metrics-allow-remote") {
            let ghost before = parsed@;
            parsed.metrics_allow_remote = true;
            assert(parsed@ =~= (ArgsView { metrics_allow_remote: true, ..before }));
            i = i + 1;
        } else if text::same_text(flag, "-h") || text::same_text(flag, "--help") {
            return Err(ArgsError::Help);
        } else if !needs_value(flag) {
            return Err(ArgsError::Unknown(args[i].clone()));
        } else if i + 1 >= args.len() {
            return Err(ArgsError::NeedsValue(args[i].clone()));
        } else {
            assert(words[i + 1] == args@[i + 1]@);
            match parsed.take(flag, &args[i + 1], addresses[i + 1]) {
                Ok(_) => {},
                Err(error) => {
                    return Err(error);
                },
            }
            i = i + 2;
        }
    }
    Ok(parsed)
}

/// Making text upper-case changes its lower-case ASCII letters and nothing else, and doing so again
/// changes nothing.
pub proof fn law_only_lower_case_letters_change(chars: Seq<char>, i: int)
    requires
        0 <= i < chars.len(),
    ensures
        upper(chars).len() == chars.len(),
        'a' <= chars[i] <= 'z' ==> 'A' <= upper(chars)[i] <= 'Z' && chars[i] as u32 - upper(
            chars,
        )[i] as u32 == 32,
        !('a' <= chars[i] <= 'z') ==> upper(chars)[i] == chars[i],
        upper(upper(chars)) == upper(chars),
{
    assert(upper(upper(chars)) =~= upper(chars));
}

/// A list of symbols gives one for each of its pieces, in order: the piece without the white space
/// around it, in upper case. It is refused for the first piece that is none.
pub proof fn law_every_piece_names_a_symbol(pieces: Seq<Seq<char>>)
    ensures
        match symbols_named(pieces) {
            Ok(symbols) => symbols.len() == pieces.len() && forall|i: int|
                0 <= i < pieces.len() ==> {
                    &&& (#[trigger] symbols[i]) == vstd::utf8::encode_utf8(
                        upper(trimmed(pieces[i])),
                    )
                    &&& crate::instrument::is_symbol(symbols[i])
                },
            Err(refusal) => exists|i: int|
                {
                    &&& 0 <= i < pieces.len()
                    &&& refusal == Refusal::BadSymbol(#[trigger] pieces[i])
                    &&& !crate::instrument::is_symbol(
                        vstd::utf8::encode_utf8(upper(trimmed(pieces[i]))),
                    )
                    &&& forall|k: int|
                        0 <= k < i ==> crate::instrument::is_symbol(
                            vstd::utf8::encode_utf8(upper(trimmed(#[trigger] pieces[k]))),
                        )
                },
        },
    decreases pieces.len(),
{
    if pieces.len() > 0 {
        let head = pieces.drop_last();
        law_every_piece_names_a_symbol(head);
        assert forall|k: int| 0 <= k < head.len() implies head[k] == #[trigger] pieces[k] by {
        }
        match symbols_named(head) {
            Ok(before) => {
                if symbol_named(trimmed(pieces.last())) is None {
                    let last = pieces.len() - 1;
                    assert(pieces[last] == pieces.last());
                    assert forall|k: int| 0 <= k < last implies crate::instrument::is_symbol(
                        vstd::utf8::encode_utf8(upper(trimmed(#[trigger] pieces[k]))),
                    ) by {
                        assert(head[k] == pieces[k]);
                        assert(crate::instrument::is_symbol(before[k]));
                    }
                } else {
                    let symbols = symbols_named(pieces)->Ok_0;
                    assert forall|i: int| 0 <= i < pieces.len() implies {
                        &&& (#[trigger] symbols[i]) == vstd::utf8::encode_utf8(
                            upper(trimmed(pieces[i])),
                        )
                        &&& crate::instrument::is_symbol(symbols[i])
                    } by {
                        if i < head.len() {
                            assert(symbols[i] == before[i]);
                            assert(head[i] == pieces[i]);
                        }
                    }
                }
            },
            Err(refusal) => {
                let i = choose|i: int|
                    {
                        &&& 0 <= i < head.len()
                        &&& refusal == Refusal::BadSymbol(#[trigger] head[i])
                        &&& !crate::instrument::is_symbol(
                            vstd::utf8::encode_utf8(upper(trimmed(head[i]))),
                        )
                        &&& forall|k: int|
                            0 <= k < i ==> crate::instrument::is_symbol(
                                vstd::utf8::encode_utf8(upper(trimmed(#[trigger] head[k]))),
                            )
                    };
                assert(refusal == Refusal::BadSymbol(pieces[i]));
                assert forall|k: int| 0 <= k < i implies crate::instrument::is_symbol(
                    vstd::utf8::encode_utf8(upper(trimmed(#[trigger] pieces[k]))),
                ) by {
                    assert(head[k] == pieces[k]);
                }
            },
        }
    }
}

/// No two flags that take a value are the same word, and none of them is one that takes none.
proof fn lemma_flags_differ()
    ensures
        "--symbols"@ != "--seconds"@,
        "--symbols"@ != "--journal"@,
        "--symbols"@ != "--metrics"@,
        "--seconds"@ != "--journal"@,
        "--seconds"@ != "--metrics"@,
        "--journal"@ != "--metrics"@,
        "--stream"@ != "--replay"@,
        "--symbols"@.len() == 9,
        "--seconds"@.len() == 9,
        "--journal"@.len() == 9,
        "--metrics"@.len() == 9,
        "--stream"@.len() == 8,
        "--replay"@.len() == 8,
        "--rest"@.len() == 6,
        "-h"@.len() == 2,
        "--help"@ != "--rest"@,
        "--help"@.len() == 6,
        "--metrics-allow-remote"@.len() == 22,
{
    reveal_strlit("--symbols");
    reveal_strlit("--seconds");
    reveal_strlit("--journal");
    reveal_strlit("--metrics");
    reveal_strlit("--stream");
    reveal_strlit("--replay");
    reveal_strlit("--rest");
    reveal_strlit("-h");
    reveal_strlit("--help");
    reveal_strlit("--metrics-allow-remote");
    assert("--symbols"@[3] == 'y' && "--seconds"@[3] == 'e' && "--journal"@[3] == 'o'
        && "--metrics"@[3] == 'e');
    assert("--seconds"@[2] == 's' && "--metrics"@[2] == 'm');
    assert("--stream"@[2] == 's' && "--replay"@[2] == 'r');
    assert("--help"@[2] == 'h' && "--rest"@[2] == 'r');
}

/// Each flag sets what it is named after to its value and leaves everything else as it was.
pub proof fn law_flags_set_what_they_name(
    args: ArgsView,
    value: Seq<char>,
    is_address: bool,
    symbols: Seq<Seq<u8>>,
)
    ensures
        with_value(args, "--stream"@, value, is_address) == Ok::<ArgsView, Refusal>(
            ArgsView { stream: value, ..args },
        ),
        with_value(args, "--rest"@, value, is_address) == Ok::<ArgsView, Refusal>(
            ArgsView { rest: value, ..args },
        ),
        with_value(args, "--journal"@, value, is_address) == Ok::<ArgsView, Refusal>(
            ArgsView { journal: Some(value), ..args },
        ),
        with_value(args, "--replay"@, value, is_address) == Ok::<ArgsView, Refusal>(
            ArgsView { replay: Some(value), ..args },
        ),
        is_address ==> with_value(args, "--metrics"@, value, is_address) == Ok::<
            ArgsView,
            Refusal,
        >(ArgsView { metrics: Some(value), ..args }),
        !is_address ==> with_value(args, "--metrics"@, value, is_address) == Err::<
            ArgsView,
            Refusal,
        >(Refusal::BadAddress),
        ({
            let number = text::number(vstd::utf8::encode_utf8(value), 0xffff_ffff_ffff_ffff);
            let taken = with_value(args, "--seconds"@, value, is_address);
            &&& number is None ==> taken == Err::<ArgsView, Refusal>(Refusal::BadSeconds)
            &&& number is Some ==> taken == Ok::<ArgsView, Refusal>(
                ArgsView { seconds: number->0 as u64, ..args },
            )
        }),
        symbols_named(text::pieces(value, ',')) == Ok::<Seq<Seq<u8>>, Refusal>(symbols)
            ==> with_value(args, "--symbols"@, value, is_address) == Ok::<ArgsView, Refusal>(
            ArgsView { symbols, ..args },
        ),
        symbols_named(text::pieces(value, ',')) is Err ==> with_value(
            args,
            "--symbols"@,
            value,
            is_address,
        ) == Err::<ArgsView, Refusal>(symbols_named(text::pieces(value, ','))->Err_0),
{
    lemma_flags_differ();
}

/// A command line is read from left to right. A flag and its value set something and the rest is
/// read after that, remote metrics are allowed by a word alone, and the first word that asks for
/// help, is unknown, or lacks its value ends the reading.
pub proof fn law_command_lines_are_read_in_order(
    words: Seq<Seq<char>>,
    addresses: Seq<bool>,
    i: nat,
    so_far: ArgsView,
)
    requires
        i < words.len(),
    ensures
        ({
            let word = words[i as int];
            let read = asked(words, addresses, i, so_far);
            let known = word == "--symbols"@ || word == "--seconds"@ || word == "--stream"@ || word
                == "--rest"@ || word == "--journal"@ || word == "--replay"@ || word
                == "--metrics"@;
            let alone = word == "--metrics-allow-remote"@;
            let help = word == "-h"@ || word == "--help"@;
            &&& alone ==> read == asked(
                words,
                addresses,
                i + 1,
                ArgsView { metrics_allow_remote: true, ..so_far },
            )
            &&& help ==> read == Err::<ArgsView, Refusal>(Refusal::Help)
            &&& !known && !alone && !help ==> read == Err::<ArgsView, Refusal>(
                Refusal::Unknown(word),
            )
            &&& known && i + 1 == words.len() ==> read == Err::<ArgsView, Refusal>(
                Refusal::NeedsValue(word),
            )
            &&& known && i + 1 < words.len() ==> {
                let taken = with_value(so_far, word, words[i + 1int], addresses[i + 1int]);
                &&& taken is Ok ==> read == asked(words, addresses, i + 2, taken->Ok_0)
                &&& taken is Err ==> read == taken
            }
        }),
        asked(words, addresses, words.len(), so_far) == Ok::<ArgsView, Refusal>(so_far),
{
    lemma_flags_differ();
}

/// The messages for what is refused name it.
pub proof fn law_refusals_name_what_is_wrong(flag: Seq<char>, quoted: Seq<char>)
    ensures
        text::holds(message_for(Refusal::NeedsValue(flag), quoted), flag + " needs a value"@),
        text::holds(message_for(Refusal::BadSymbol(flag), quoted), "bad symbol "@ + quoted),
        text::holds(message_for(Refusal::Unknown(flag), quoted), "unknown argument "@ + quoted),
        message_of(Refusal::BadSymbol(flag)) == message_for(
            Refusal::BadSymbol(flag),
            self::quoted(flag),
        ),
        message_of(Refusal::Unknown(flag)) == message_for(
            Refusal::Unknown(flag),
            self::quoted(flag),
        ),
{
    broadcast use {text::lemma_holds_its_end, text::lemma_holds_more, text::lemma_holds_itself};

}

/// Trimming leaves no white space at either end, and gives a part of the text that is all of it
/// where there was none.
pub proof fn law_trimming_takes_the_white_space_at_the_ends(chars: Seq<char>)
    ensures
        trimmed(chars).len() > 0 ==> !is_white(trimmed(chars).first()) && !is_white(
            trimmed(chars).last(),
        ),
        text::holds(chars, trimmed(chars)),
        chars.len() > 0 && !is_white(chars.first()) && !is_white(chars.last()) ==> trimmed(chars)
            == chars,
    decreases chars.len(),
{
    if chars.len() == 0 {
        text::lemma_holds_itself(chars);
    } else if is_white(chars.first()) {
        let rest = chars.skip(1);
        law_trimming_takes_the_white_space_at_the_ends(rest);
        let part = trimmed(rest);
        let at = choose|at: int|
            0 <= at <= at + part.len() <= rest.len() && #[trigger] rest.subrange(
                at,
                at + part.len(),
            ) == part;
        let from = at + 1;
        assert(chars.subrange(from, from + part.len()) =~= rest.subrange(at, at + part.len()));
    } else if is_white(chars.last()) {
        let rest = chars.drop_last();
        law_trimming_takes_the_white_space_at_the_ends(rest);
        text::lemma_holds_more(rest, trimmed(rest), seq![chars.last()]);
        assert(rest + seq![chars.last()] =~= chars);
    } else {
        text::lemma_holds_itself(chars);
    }
}

/// The words of a command line are its arguments as they stand.
pub proof fn law_words_are_the_arguments(args: Seq<String>, i: int)
    requires
        0 <= i < args.len(),
    ensures
        words_of(args).len() == args.len(),
        words_of(args)[i] == args[i]@,
{
}

} // verus!
