//! Writing metrics in the Prometheus text exposition format (version 0.0.4).
//!
//! Integer values only: counts are written as integers and durations as exact decimal
//! seconds derived from integer nanoseconds, so no floating point is involved.
//!
//! Metric and label names are checked when they are written. An invalid name is a
//! programming error: it is left out of the output and counted in
//! [`Exposition::rejected`], and tests assert that count is zero.

use crate::telemetry::histogram::LatencySummary;
use crate::text;
use vstd::prelude::*;

verus! {

/// The content type of the text this module writes.
pub const CONTENT_TYPE: &'static str = "text/plain; version=0.0.4; charset=utf-8";

/// Prometheus metric types used here.
#[derive(Clone, Copy, Debug, PartialEq, Eq, Structural)]
pub enum MetricType {
    /// Only ever increases (resets when the process restarts).
    Counter,
    /// Can go up and down.
    Gauge,
    /// Quantiles over a recent window, plus a cumulative sum and count.
    Summary,
}

impl MetricType {
    /// How the type is written.
    pub open spec fn name(self) -> Seq<char> {
        match self {
            MetricType::Counter => "counter"@,
            MetricType::Gauge => "gauge"@,
            MetricType::Summary => "summary"@,
        }
    }

    fn as_str(self) -> (r: &'static str)
        ensures
            r@ == self.name(),
    {
        match self {
            MetricType::Counter => "counter",
            MetricType::Gauge => "gauge",
            MetricType::Summary => "summary",
        }
    }
}

/// A sample value.
#[derive(Clone, Copy, Debug, PartialEq, Eq, Structural)]
pub enum Value {
    /// A plain count or level.
    Int(u64),
    /// A duration in nanoseconds, written as seconds.
    Nanos(u64),
}

/// How a value is written.
pub open spec fn value_text(value: Value) -> Seq<char> {
    match value {
        Value::Int(v) => text::number_text(v as nat, 1),
        Value::Nanos(nanos) => text::number_text(nanos as nat / 1_000_000_000, 1) + "."@
            + text::number_text(nanos as nat % 1_000_000_000, 9),
    }
}

/// An ASCII letter.
pub open spec fn is_letter(c: char) -> bool {
    'a' <= c <= 'z' || 'A' <= c <= 'Z'
}

/// Whether a name may start with this character.
pub open spec fn may_start(c: char, colons: bool) -> bool {
    is_letter(c) || c == '_' || (colons && c == ':')
}

/// Whether a name may go on with this character.
pub open spec fn may_go_on(c: char, colons: bool) -> bool {
    may_start(c, colons) || '0' <= c <= '9'
}

/// Letters, digits and underscores, not starting with a digit; with colons too in the names of
/// metrics.
pub open spec fn is_name(name: Seq<char>, colons: bool) -> bool {
    &&& name.len() > 0
    &&& may_start(name[0], colons)
    &&& forall|i: int| 1 <= i < name.len() ==> may_go_on(#[trigger] name[i], colons)
}

/// Whether this is the name of a metric.
pub open spec fn is_metric_name(name: Seq<char>) -> bool {
    is_name(name, true)
}

/// Whether this is the name of a label. Names that start with two underscores are reserved.
pub open spec fn is_label_name(name: Seq<char>) -> bool {
    is_name(name, false) && !(name.len() >= 2 && name[0] == '_' && name[1] == '_')
}

/// How a character is written in help text, or in a label value, where quotes are escaped too.
pub open spec fn escaped_char(c: char, quotes: bool) -> Seq<char> {
    if c == '\\' {
        seq!['\\', '\\']
    } else if c == '\n' {
        seq!['\\', 'n']
    } else if c == '"' && quotes {
        seq!['\\', '"']
    } else {
        seq![c]
    }
}

/// How text is written in help text, or in a label value.
pub open spec fn escaped(chars: Seq<char>, quotes: bool) -> Seq<char>
    decreases chars.len(),
{
    if chars.len() == 0 {
        Seq::empty()
    } else {
        escaped(chars.drop_last(), quotes) + escaped_char(chars.last(), quotes)
    }
}

/// The lines that start a metric family.
pub open spec fn family_text(name: Seq<char>, kind: MetricType, help: Seq<char>) -> Seq<char> {
    "# HELP "@ + name + " "@ + escaped(help, false) + "\n"@ + "# TYPE "@ + name + " "@
        + kind.name() + "\n"@
}

/// A label's name and value.
pub type Label = (Seq<char>, Seq<char>);

/// The labels that these strings stand for.
pub open spec fn label_views(labels: Seq<(&str, &str)>) -> Seq<Label> {
    labels.map_values(|label: (&str, &str)| (label.0@, label.1@))
}

/// How a label is written.
pub open spec fn label_text(label: Label) -> Seq<char> {
    label.0 + "=\""@ + escaped(label.1, true) + "\""@
}

/// Labels, separated by commas.
pub open spec fn labels_text(labels: Seq<Label>) -> Seq<char>
    decreases labels.len(),
{
    if labels.len() == 0 {
        Seq::empty()
    } else if labels.len() == 1 {
        label_text(labels[0])
    } else {
        labels_text(labels.drop_last()) + ","@ + label_text(labels.last())
    }
}

/// The line of a sample.
pub open spec fn sample_text(name: Seq<char>, labels: Seq<Label>, value: Value) -> Seq<char> {
    name + (if labels.len() == 0 {
        Seq::empty()
    } else {
        "{"@ + labels_text(labels) + "}"@
    }) + " "@ + value_text(value) + "\n"@
}

/// Whether a sample may be written.
pub open spec fn is_valid_sample(name: Seq<char>, labels: Seq<Label>) -> bool {
    is_metric_name(name) && forall|i: int|
        0 <= i < labels.len() ==> is_label_name((#[trigger] labels[i]).0)
}

/// What an exposition holds.
#[verifier::ext_equal]
pub struct ExpositionView {
    /// The text so far.
    pub text: Seq<char>,
    /// Metrics and samples left out.
    pub rejected: usize,
}

impl ExpositionView {
    /// Nothing written.
    pub open spec fn empty() -> ExpositionView {
        ExpositionView { text: Seq::empty(), rejected: 0 }
    }

    /// With something left out.
    pub open spec fn without(self) -> ExpositionView {
        ExpositionView { rejected: self.rejected.saturating_add(1), ..self }
    }

    /// With a metric family started.
    pub open spec fn family(
        self,
        name: Seq<char>,
        kind: MetricType,
        help: Seq<char>,
    ) -> ExpositionView {
        if is_metric_name(name) {
            ExpositionView { text: self.text + family_text(name, kind, help), ..self }
        } else {
            self.without()
        }
    }

    /// With a sample.
    pub open spec fn sample(
        self,
        name: Seq<char>,
        labels: Seq<Label>,
        value: Value,
    ) -> ExpositionView {
        if is_valid_sample(name, labels) {
            ExpositionView { text: self.text + sample_text(name, labels, value), ..self }
        } else {
            self.without()
        }
    }

    /// With a sample of one quantile.
    pub open spec fn quantile(
        self,
        name: Seq<char>,
        labels: Seq<Label>,
        quantile: Seq<char>,
        nanos: u64,
    ) -> ExpositionView {
        self.sample(name, labels.push(("quantile"@, quantile)), Value::Nanos(nanos))
    }

    /// With a summary's samples.
    pub open spec fn summary(
        self,
        name: Seq<char>,
        labels: Seq<Label>,
        window: LatencySummary,
        total: LatencySummary,
    ) -> ExpositionView {
        self.quantile(name, labels, "0.5"@, window.p50).quantile(
            name,
            labels,
            "0.9"@,
            window.p90,
        ).quantile(name, labels, "0.99"@, window.p99).quantile(
            name,
            labels,
            "0.999"@,
            window.p999,
        ).sample(name + "_sum"@, labels, Value::Nanos(total.sum)).sample(
            name + "_count"@,
            labels,
            Value::Int(total.count),
        )
    }
}

/// Whether this is a name.
fn valid_name(name: &str, colons: bool) -> (r: bool)
    ensures
        r == is_name(name@, colons),
{
    let chars: Vec<char> = text::to_chars(name);
    if chars.len() == 0 {
        return false;
    }
    if !starts(chars[0], colons) {
        return false;
    }
    let mut i: usize = 1;
    while i < chars.len()
        invariant
            1 <= i <= chars.len(),
            chars@ == name@,
            forall|k: int| 1 <= k < i ==> may_go_on(#[trigger] name@[k], colons),
        decreases chars.len() - i,
    {
        let c: char = chars[i];
        if !(starts(c, colons) || ('0' <= c && c <= '9')) {
            assert(!may_go_on(name@[i as int], colons));
            return false;
        }
        i = i + 1;
    }
    true
}

/// Whether a name may start with this character.
fn starts(c: char, colons: bool) -> (r: bool)
    ensures
        r == may_start(c, colons),
{
    ('a' <= c && c <= 'z') || ('A' <= c && c <= 'Z') || c == '_' || (colons && c == ':')
}

/// Whether this is the name of a metric.
pub fn valid_metric_name(name: &str) -> (r: bool)
    ensures
        r == is_metric_name(name@),
{
    valid_name(name, true)
}

/// Whether this is the name of a label.
pub fn valid_label_name(name: &str) -> (r: bool)
    ensures
        r == is_label_name(name@),
{
    if !valid_name(name, false) {
        return false;
    }
    let chars: Vec<char> = text::to_chars(name);
    !(chars.len() >= 2 && chars[0] == '_' && chars[1] == '_')
}

/// Appends text as it is written in help text, or in a label value.
pub fn push_escaped(out: &mut String, value: &str, quotes: bool)
    ensures
        final(out)@ == old(out)@ + escaped(value@, quotes),
{
    let chars: Vec<char> = text::to_chars(value);
    let mut i: usize = 0;
    assert(value@.take(0) =~= Seq::<char>::empty());
    while i < chars.len()
        invariant
            i <= chars.len(),
            chars@ == value@,
            out@ == old(out)@ + escaped(value@.take(i as int), quotes),
        decreases chars.len() - i,
    {
        let c: char = chars[i];
        assert(value@.take(i + 1).drop_last() =~= value@.take(i as int));
        if c == '\\' {
            out.push('\\');
            out.push('\\');
        } else if c == '\n' {
            out.push('\\');
            out.push('n');
        } else if c == '"' && quotes {
            out.push('\\');
            out.push('"');
        } else {
            out.push(c);
        }
        assert(out@ =~= old(out)@ + escaped(value@.take(i + 1), quotes));
        i = i + 1;
    }
    assert(value@.take(i as int) =~= value@);
}

/// Appends a value.
pub fn push_value(out: &mut String, value: Value)
    ensures
        final(out)@ == old(out)@ + value_text(value),
{
    match value {
        Value::Int(v) => {
            text::push_number(out, v, 1);
        },
        Value::Nanos(nanos) => {
            text::push_number(out, nanos / 1_000_000_000, 1);
            out.append(".");
            text::push_number(out, nanos % 1_000_000_000, 9);
            assert(out@ =~= old(out)@ + value_text(value));
        },
    }
}

/// Builds one exposition text. See the module docs.
#[derive(Debug)]
pub struct Exposition {
    out: String,
    rejected: usize,
}

impl View for Exposition {
    type V = ExpositionView;

    closed spec fn view(&self) -> ExpositionView {
        ExpositionView { text: self.out@, rejected: self.rejected }
    }
}

impl Default for Exposition {
    fn default() -> (r: Self)
        ensures
            r@ == ExpositionView::empty(),
    {
        Exposition::new()
    }
}

impl Exposition {
    /// An empty exposition.
    pub fn new() -> (r: Self)
        ensures
            r@ == ExpositionView::empty(),
    {
        let out: String = String::new();
        assert(out@ =~= Seq::<char>::empty());
        Exposition { out, rejected: 0 }
    }

    /// Starts a metric family: its `# HELP` and `# TYPE` lines. Write each family once, then
    /// its samples.
    pub fn family(&mut self, name: &str, kind: MetricType, help: &str)
        ensures
            final(self)@ == old(self)@.family(name@, kind, help@),
    {
        if !valid_metric_name(name) {
            self.rejected = self.rejected.saturating_add(1);
            return;
        }
        self.out.append("# HELP ");
        self.out.append(name);
        self.out.append(" ");
        push_escaped(&mut self.out, help, false);
        self.out.append("\n");
        self.out.append("# TYPE ");
        self.out.append(name);
        self.out.append(" ");
        self.out.append(kind.as_str());
        self.out.append("\n");
        assert(self.out@ =~= old(self)@.text + family_text(name@, kind, help@));
    }

    /// Writes one sample.
    pub fn sample(&mut self, name: &str, labels: &[(&str, &str)], value: Value)
        ensures
            final(self)@ == old(self)@.sample(name@, label_views(labels@), value),
    {
        if !valid_metric_name(name) || !valid_labels(labels) {
            self.rejected = self.rejected.saturating_add(1);
            return;
        }
        self.out.append(name);
        if labels.len() > 0 {
            self.out.append("{");
            push_labels(&mut self.out, labels);
            self.out.append("}");
        }
        self.out.append(" ");
        push_value(&mut self.out, value);
        self.out.append("\n");
        assert(self.out@ =~= old(self)@.text + sample_text(name@, label_views(labels@), value));
    }

    /// Writes a sample of one quantile.
    fn quantile(&mut self, name: &str, labels: &[(&str, &str)], quantile: &str, nanos: u64)
        ensures
            final(self)@ == old(self)@.quantile(name@, label_views(labels@), quantile@, nanos),
    {
        let mut with_quantile: Vec<(&str, &str)> = Vec::new();
        let mut i: usize = 0;
        while i < labels.len()
            invariant
                i <= labels.len(),
                with_quantile@ == labels@.take(i as int),
            decreases labels.len() - i,
        {
            with_quantile.push(labels[i]);
            assert(with_quantile@ =~= labels@.take(i + 1));
            i = i + 1;
        }
        with_quantile.push(("quantile", quantile));
        assert(label_views(with_quantile@) =~= label_views(labels@).push(("quantile"@, quantile@)));
        self.sample(name, with_quantile.as_slice(), Value::Nanos(nanos));
    }

    /// Writes a summary's samples: quantiles from `window` (recent values), and `_sum` and
    /// `_count` from `total` (every value since start). Durations are in nanoseconds.
    pub fn summary(
        &mut self,
        name: &str,
        labels: &[(&str, &str)],
        window: &LatencySummary,
        total: &LatencySummary,
    )
        ensures
            final(self)@ == old(self)@.summary(name@, label_views(labels@), *window, *total),
    {
        self.quantile(name, labels, "0.5", window.p50);
        self.quantile(name, labels, "0.9", window.p90);
        self.quantile(name, labels, "0.99", window.p99);
        self.quantile(name, labels, "0.999", window.p999);
        let mut sum: String = name.to_owned();
        sum.append("_sum");
        let mut count: String = name.to_owned();
        count.append("_count");
        self.sample(sum.as_str(), labels, Value::Nanos(total.sum));
        self.sample(count.as_str(), labels, Value::Int(total.count));
    }

    /// Metrics or samples left out because a name was invalid. Always zero in correct code.
    pub fn rejected(&self) -> (r: usize)
        ensures
            r == self@.rejected,
    {
        self.rejected
    }

    /// The finished text.
    pub fn finish(self) -> (r: String)
        ensures
            r@ == self@.text,
    {
        self.out
    }
}

/// Whether every label has a valid name.
fn valid_labels(labels: &[(&str, &str)]) -> (r: bool)
    ensures
        r == (forall|i: int|
            0 <= i < labels@.len() ==> is_label_name((#[trigger] label_views(labels@)[i]).0)),
{
    let mut i: usize = 0;
    while i < labels.len()
        invariant
            i <= labels.len(),
            forall|k: int| 0 <= k < i ==> is_label_name((#[trigger] label_views(labels@)[k]).0),
        decreases labels.len() - i,
    {
        if !valid_label_name(labels[i].0) {
            assert(!is_label_name(label_views(labels@)[i as int].0));
            return false;
        }
        i = i + 1;
    }
    true
}

/// Appends labels, separated by commas.
fn push_labels(out: &mut String, labels: &[(&str, &str)])
    ensures
        final(out)@ == old(out)@ + labels_text(label_views(labels@)),
{
    let ghost views = label_views(labels@);
    let mut i: usize = 0;
    assert(views.take(0) =~= Seq::<Label>::empty());
    assert(out@ =~= old(out)@ + labels_text(views.take(0)));
    while i < labels.len()
        invariant
            i <= labels.len(),
            views == label_views(labels@),
            out@ == old(out)@ + labels_text(views.take(i as int)),
        decreases labels.len() - i,
    {
        let (key, value) = labels[i];
        if i > 0 {
            out.append(",");
        }
        out.append(key);
        out.append("=\"");
        push_escaped(out, value, true);
        out.append("\"");
        assert(views.take(i + 1).drop_last() =~= views.take(i as int));
        assert(out@ =~= old(out)@ + labels_text(views.take(i + 1)));
        i = i + 1;
    }
    assert(views.take(i as int) =~= views);
}

/// Reads escaped text back.
pub open spec fn unescaped(chars: Seq<char>) -> Seq<char>
    decreases chars.len(),
{
    if chars.len() == 0 {
        Seq::empty()
    } else if chars[0] == '\\' && chars.len() >= 2 {
        seq![
            if chars[1] == 'n' {
                '\n'
            } else {
                chars[1]
            },
        ] + unescaped(chars.skip(2))
    } else {
        seq![chars[0]] + unescaped(chars.skip(1))
    }
}

/// Escaped text is the escaped first character and the rest escaped.
proof fn lemma_escaped_front(chars: Seq<char>, quotes: bool)
    requires
        chars.len() > 0,
    ensures
        escaped(chars, quotes) == escaped_char(chars[0], quotes) + escaped(chars.skip(1), quotes),
    decreases chars.len(),
{
    if chars.len() == 1 {
        assert(chars.drop_last() =~= Seq::<char>::empty());
        assert(chars.skip(1) =~= Seq::<char>::empty());
        assert(escaped(chars, quotes) =~= escaped_char(chars[0], quotes) + escaped(
            chars.skip(1),
            quotes,
        ));
    } else {
        lemma_escaped_front(chars.drop_last(), quotes);
        assert(chars.drop_last().skip(1) =~= chars.skip(1).drop_last());
        assert(escaped(chars, quotes) =~= escaped_char(chars[0], quotes) + escaped(
            chars.skip(1),
            quotes,
        ));
    }
}

/// Escaped text stays on its line and reads back as what it was.
pub proof fn law_escaped_text_reads_back(chars: Seq<char>, quotes: bool)
    ensures
        unescaped(escaped(chars, quotes)) == chars,
        !escaped(chars, quotes).contains('\n'),
    decreases chars.len(),
{
    if chars.len() > 0 {
        let first = escaped_char(chars[0], quotes);
        let rest = escaped(chars.skip(1), quotes);
        let all = escaped(chars, quotes);
        lemma_escaped_front(chars, quotes);
        law_escaped_text_reads_back(chars.skip(1), quotes);
        assert(all.skip(first.len() as int) =~= rest);
        assert(seq![chars[0]] + chars.skip(1) =~= chars);
        assert forall|i: int| 0 <= i < all.len() implies all[i] != '\n' by {
            if i >= first.len() {
                assert(rest[i - first.len()] == all[i]);
            }
        }
    }
}

/// A quote in an escaped label value is never one that ends it: it stands behind a backslash.
pub proof fn law_quotes_are_escaped_in_labels(chars: Seq<char>, i: int)
    requires
        0 <= i < escaped(chars, true).len(),
        escaped(chars, true)[i] == '"',
    ensures
        i > 0,
        escaped(chars, true)[i - 1] == '\\',
    decreases chars.len(),
{
    let head = escaped(chars.drop_last(), true);
    if i < head.len() {
        law_quotes_are_escaped_in_labels(chars.drop_last(), i);
    }
}

/// The names of metrics are letters, digits, underscores and colons that do not start with a
/// digit. Those of labels have no colons and do not start with two underscores.
pub proof fn law_names_are_plain_words(name: Seq<char>)
    ensures
        is_metric_name(name) <==> {
            &&& name.len() > 0
            &&& forall|i: int|
                0 <= i < name.len() ==> 'a' <= #[trigger] name[i] <= 'z' || 'A' <= name[i] <= 'Z'
                    || '0' <= name[i] <= '9' || name[i] == '_' || name[i] == ':'
            &&& !('0' <= name[0] <= '9')
        },
        is_label_name(name) <==> {
            &&& is_metric_name(name)
            &&& !name.contains(':')
            &&& !(name.len() >= 2 && name[0] == '_' && name[1] == '_')
        },
{
    if is_metric_name(name) {
        assert forall|i: int| 0 <= i < name.len() implies 'a' <= #[trigger] name[i] <= 'z' || 'A'
            <= name[i] <= 'Z' || '0' <= name[i] <= '9' || name[i] == '_' || name[i] == ':' by {
            if i > 0 {
                assert(may_go_on(name[i], true));
            }
        }
    }
    if is_label_name(name) {
        assert forall|i: int| 1 <= i < name.len() implies may_go_on(#[trigger] name[i], true) by {
            assert(may_go_on(name[i], false));
        }
        assert forall|i: int| 0 <= i < name.len() implies name[i] != ':' by {
            if i > 0 {
                assert(may_go_on(name[i], false));
            }
        }
    }
    if is_metric_name(name) && !name.contains(':') {
        assert(name[0] != ':');
        assert forall|i: int| 1 <= i < name.len() implies may_go_on(#[trigger] name[i], false) by {
            assert(may_go_on(name[i], true));
            assert(name.contains(name[i]));
        }
    }
}

/// What has a bad name is left out and counted, and adds nothing to the text. What has good names
/// is added behind what is there, and is not counted.
pub proof fn law_bad_names_are_left_out_and_counted(
    e: ExpositionView,
    name: Seq<char>,
    labels: Seq<Label>,
    kind: MetricType,
    help: Seq<char>,
    value: Value,
)
    requires
        e.rejected < usize::MAX,
    ensures
        ({
            let good = is_metric_name(name) && forall|i: int|
                0 <= i < labels.len() ==> is_label_name((#[trigger] labels[i]).0);
            let family = e.family(name, kind, help);
            let sample = e.sample(name, labels, value);
            &&& !is_metric_name(name) ==> family.text == e.text && family.rejected == e.rejected + 1
            &&& is_metric_name(name) ==> family.rejected == e.rejected && e.text.is_prefix_of(
                family.text,
            ) && family.text.len() > e.text.len()
            &&& !good ==> sample.text == e.text && sample.rejected == e.rejected + 1
            &&& good ==> sample.rejected == e.rejected && e.text.is_prefix_of(sample.text)
                && sample.text.len() > e.text.len()
        }),
{
    let family = e.family(name, kind, help);
    let sample = e.sample(name, labels, value);
    if is_metric_name(name) {
        assert(e.text =~= family.text.take(e.text.len() as int));
    }
    if is_valid_sample(name, labels) {
        assert(e.text =~= sample.text.take(e.text.len() as int));
    }
}

/// A span is written in seconds, to the nanosecond: the digits of its nanoseconds, at least ten of
/// them, with a point before the last nine.
pub proof fn law_seconds_are_written_to_the_nanosecond(nanos: u64)
    ensures
        ({
            let digits = text::digits(nanos as nat, 10);
            let point = digits.len() - 9;
            &&& point >= 1
            &&& value_text(Value::Nanos(nanos)) == text::chars_of(digits.take(point)) + "."@
                + text::chars_of(digits.skip(point))
        }),
{
    let digits = text::digits(nanos as nat, 10);
    let point = digits.len() - 9;
    text::lemma_digits_split(nanos as nat, 1, 9);
    reveal_with_fuel(text::tens, 10);
    let front = text::digits(nanos as nat / 1_000_000_000, 1);
    let back = text::digits(nanos as nat % 1_000_000_000, 9);
    text::lemma_digits_spell(nanos as nat % 1_000_000_000, 9);
    text::law_numbers_have_no_needless_zeros(nanos as nat % 1_000_000_000, 9);
    text::law_numbers_have_no_needless_zeros(nanos as nat / 1_000_000_000, 1);
    text::lemma_digits_fit(nanos as nat % 1_000_000_000, 9);
    assert(digits == front + back);
    assert(digits.take(point) =~= front);
    assert(digits.skip(point) =~= back);
}

/// Every label is written with its name and its escaped value in quotes.
pub proof fn law_every_label_is_written(labels: Seq<Label>, i: int)
    requires
        0 <= i < labels.len(),
    ensures
        text::holds(
            labels_text(labels),
            labels[i].0 + "=\""@ + escaped(labels[i].1, true) + "\""@,
        ),
    decreases labels.len(),
{
    let label = label_text(labels[i]);
    let all = labels_text(labels);
    if labels.len() == 1 {
        text::lemma_holds_itself(all);
    } else if i == labels.len() - 1 {
        let at = all.len() - label.len();
        assert(all.subrange(at, at + label.len()) =~= label);
    } else {
        let head = labels.drop_last();
        law_every_label_is_written(head, i);
        text::lemma_holds_more(labels_text(head), label, ","@);
        text::lemma_holds_more(labels_text(head) + ","@, label, label_text(labels.last()));
    }
}

/// Two labels have one comma between them and nothing else.
pub proof fn law_labels_are_separated_by_commas(labels: Seq<Label>, label: Label)
    requires
        labels.len() > 0,
    ensures
        labels_text(labels.push(label)).len() == labels_text(labels).len() + 1 + labels_text(
            seq![label],
        ).len(),
        labels_text(labels.push(label))[labels_text(labels).len() as int] == ',',
{
    reveal_strlit(",");
    assert(labels.push(label).drop_last() =~= labels);
}

/// A sample is one line: the name of its metric, its labels in braces where it has any, and its
/// value behind a space.
pub proof fn law_samples_are_name_labels_and_value(
    name: Seq<char>,
    labels: Seq<Label>,
    value: Value,
)
    ensures
        ({
            let line = sample_text(name, labels, value);
            let start = name.len() as int;
            let braced = if labels.len() == 0 {
                0int
            } else {
                labels_text(labels).len() as int + 2
            };
            &&& line.len() == start + braced + 1 + value_text(value).len() + 1
            &&& line.take(start) == name
            &&& line.last() == '\n'
            &&& line[start + braced] == ' '
            &&& line.subrange(start + braced + 1, line.len() - 1) == value_text(value)
            &&& labels.len() > 0 ==> {
                &&& line[start] == '{'
                &&& line.subrange(start + 1, start + braced - 1) == labels_text(labels)
                &&& line[start + braced - 1] == '}'
            }
        }),
{
    reveal_strlit(" ");
    reveal_strlit("\n");
    reveal_strlit("{");
    reveal_strlit("}");
    let line = sample_text(name, labels, value);
    let braced: int = if labels.len() == 0 {
        0
    } else {
        labels_text(labels).len() as int + 2
    };
    let start = name.len() as int;
    assert(line.take(start) =~= name);
    assert(line.subrange(start + braced + 1, line.len() - 1) =~= value_text(value));
    if labels.len() > 0 {
        assert(line.subrange(start + 1, start + braced - 1) =~= labels_text(labels));
    }
}

/// The types of metrics are declared by the words of the text format, and no two share one.
pub proof fn law_types_are_declared_by_name(a: MetricType, b: MetricType)
    ensures
        MetricType::Counter.name() == "counter"@,
        MetricType::Gauge.name() == "gauge"@,
        MetricType::Summary.name() == "summary"@,
        a.name() == b.name() ==> a == b,
{
    reveal_strlit("counter");
    reveal_strlit("gauge");
    reveal_strlit("summary");
    assert("counter"@[0] == 'c' && "gauge"@[0] == 'g' && "summary"@[0] == 's');
}

} // verus!
