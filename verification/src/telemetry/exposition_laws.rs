//! The lines of an exposition: which there are, and in what order they may stand.

use crate::telemetry::exposition::{self, ExpositionView, Label, MetricType, Value};
use crate::text;
use vstd::prelude::*;

verus! {

/// A line of the text format.
#[verifier::ext_equal]
pub enum Line {
    /// What a metric family is about.
    Help { name: Seq<char>, help: Seq<char> },
    /// The type of a metric family, which declares it.
    Type { name: Seq<char>, kind: MetricType },
    /// One sample of a metric family.
    Sample { name: Seq<char>, labels: Seq<Label>, value: Value },
}

/// How a line is written, without its end.
pub open spec fn line_text(line: Line) -> Seq<char> {
    match line {
        Line::Help { name, help } => "# HELP "@ + name + " "@ + exposition::escaped(help, false),
        Line::Type { name, kind } => "# TYPE "@ + name + " "@ + kind.name(),
        Line::Sample { name, labels, value } => name + (if labels.len() == 0 {
            Seq::empty()
        } else {
            "{"@ + exposition::labels_text(labels) + "}"@
        }) + " "@ + exposition::value_text(value),
    }
}

/// Lines, each with its end.
pub open spec fn lines_text(lines: Seq<Line>) -> Seq<char>
    decreases lines.len(),
{
    if lines.len() == 0 {
        Seq::empty()
    } else {
        lines_text(lines.drop_last()) + line_text(lines.last()) + "\n"@
    }
}

/// Whether a line declares this family.
pub open spec fn declares(line: Line, family: Seq<char>) -> bool {
    line matches Line::Type { name, .. } && name == family
}

/// Whether some line declares this family.
pub open spec fn declared(lines: Seq<Line>, family: Seq<char>) -> bool {
    exists|j: int| 0 <= j < lines.len() && declares(#[trigger] lines[j], family)
}

/// Whether a line declares the family that a sample of this name belongs to: the family has the
/// name itself, or is a summary of which this is the sum or the count.
pub open spec fn covers(line: Line, sample: Seq<char>) -> bool {
    line matches Line::Type { name, kind } && (sample == name || (kind == MetricType::Summary && (
    sample == name + "_sum"@ || sample == name + "_count"@)))
}

/// Whether some line declares the family that a sample of this name belongs to.
pub open spec fn admits(lines: Seq<Line>, sample: Seq<char>) -> bool {
    exists|j: int| 0 <= j < lines.len() && covers(#[trigger] lines[j], sample)
}

/// Whether line `i` may stand where it does: help right before the type of its family, no
/// family declared twice, and no sample before its family. All names are valid.
pub open spec fn is_placed(lines: Seq<Line>, i: int) -> bool {
    match lines[i] {
        Line::Help { name, .. } => exposition::is_metric_name(name) && i + 1 < lines.len()
            && declares(lines[i + 1], name),
        Line::Type { name, .. } => exposition::is_metric_name(name) && !declared(
            lines.take(i),
            name,
        ),
        Line::Sample { name, labels, .. } => exposition::is_valid_sample(name, labels) && admits(
            lines.take(i),
            name,
        ),
    }
}

/// Whether every line may stand where it does.
pub open spec fn well_formed(lines: Seq<Line>) -> bool {
    forall|i: int| 0 <= i < lines.len() ==> #[trigger] is_placed(lines, i)
}

/// Whether an exposition holds these lines and they are well formed.
pub open spec fn laid_out(e: ExpositionView, lines: Seq<Line>) -> bool {
    e.text == lines_text(lines) && well_formed(lines)
}

/// Lines may stand where they do whatever follows them.
proof fn lemma_still_placed(lines: Seq<Line>, more: Seq<Line>, i: int)
    requires
        0 <= i < lines.len(),
        is_placed(lines, i),
    ensures
        is_placed(lines + more, i),
{
    assert((lines + more).take(i) =~= lines.take(i));
}

/// Lines stay whatever follows them.
proof fn lemma_lines_stay(lines: Seq<Line>, more: Seq<Line>)
    ensures
        forall|line: Line| lines.contains(line) ==> #[trigger] (lines + more).contains(line),
{
    assert forall|line: Line| lines.contains(line) implies #[trigger] (lines + more).contains(
        line,
    ) by {
        let i = choose|i: int| 0 <= i < lines.len() && lines[i] == line;
        assert((lines + more)[i] == line);
    }
}

/// With a family that was not declared before.
pub proof fn lemma_add_family(
    e: ExpositionView,
    lines: Seq<Line>,
    name: Seq<char>,
    kind: MetricType,
    help: Seq<char>,
) -> (r: Seq<Line>)
    requires
        laid_out(e, lines),
        exposition::is_metric_name(name),
        !declared(lines, name),
    ensures
        laid_out(e.family(name, kind, help), r),
        forall|family: Seq<char>| #[trigger]
            declared(r, family) ==> declared(lines, family) || family == name,
        admits(r, name),
        kind == MetricType::Summary ==> admits(r, name + "_sum"@) && admits(r, name + "_count"@),
        forall|line: Line| lines.contains(line) ==> #[trigger] r.contains(line),
        r.contains(Line::Help { name, help }),
        r.contains(Line::Type { name, kind }),
{
    let first = Line::Help { name, help };
    let second = Line::Type { name, kind };
    let more = seq![first, second];
    let r = lines + more;
    let n = lines.len() as int;
    assert(r.drop_last() =~= lines.push(first));
    assert(lines.push(first).drop_last() =~= lines);
    assert(lines_text(lines.push(first)) == lines_text(lines) + line_text(first) + "\n"@);
    assert(lines_text(r) == lines_text(lines) + line_text(first) + "\n"@ + line_text(second)
        + "\n"@);
    assert(e.family(name, kind, help).text =~= lines_text(r));
    assert forall|i: int| 0 <= i < r.len() implies #[trigger] is_placed(r, i) by {
        if i < n {
            lemma_still_placed(lines, more, i);
        } else if i == n + 1 {
            assert(!declared(r.take(i), name)) by {
                assert forall|j: int| 0 <= j < i implies !declares(
                    #[trigger] r.take(i)[j],
                    name,
                ) by {
                    if j < n {
                        assert(r.take(i)[j] == lines[j]);
                    }
                }
            }
        }
    }
    assert forall|family: Seq<char>| #[trigger] declared(r, family) implies declared(lines, family)
        || family == name by {
        let j = choose|j: int| 0 <= j < r.len() && declares(#[trigger] r[j], family);
        if j < n {
            assert(declares(lines[j], family));
        }
    }
    lemma_lines_stay(lines, more);
    assert(r[n] == first && r[n + 1] == second);
    assert(covers(r[n + 1], name));
    if kind == MetricType::Summary {
        assert(covers(r[n + 1], name + "_sum"@));
        assert(covers(r[n + 1], name + "_count"@));
    }
    r
}

/// With a sample of a family that was declared before.
pub proof fn lemma_add_sample(
    e: ExpositionView,
    lines: Seq<Line>,
    name: Seq<char>,
    labels: Seq<Label>,
    value: Value,
) -> (r: Seq<Line>)
    requires
        laid_out(e, lines),
        exposition::is_valid_sample(name, labels),
        admits(lines, name),
    ensures
        laid_out(e.sample(name, labels, value), r),
        forall|family: Seq<char>| #[trigger] declared(r, family) ==> declared(lines, family),
        forall|sample: Seq<char>| admits(lines, sample) ==> #[trigger] admits(r, sample),
        forall|line: Line| lines.contains(line) ==> #[trigger] r.contains(line),
        r.contains(Line::Sample { name, labels, value }),
{
    let line = Line::Sample { name, labels, value };
    let r = lines + seq![line];
    let n = lines.len() as int;
    lemma_lines_stay(lines, seq![line]);
    assert(r[n] == line);
    assert(r.drop_last() =~= lines);
    assert(e.sample(name, labels, value).text =~= lines_text(r));
    assert forall|i: int| 0 <= i < r.len() implies #[trigger] is_placed(r, i) by {
        if i < n {
            lemma_still_placed(lines, seq![line], i);
        } else {
            assert(r.take(i) =~= lines);
        }
    }
    assert forall|family: Seq<char>| #[trigger] declared(r, family) implies declared(
        lines,
        family,
    ) by {
        let j = choose|j: int| 0 <= j < r.len() && declares(#[trigger] r[j], family);
        assert(j < n);
        assert(declares(lines[j], family));
    }
    assert forall|sample: Seq<char>| admits(lines, sample) implies #[trigger] admits(
        r,
        sample,
    ) by {
        let j = choose|j: int| 0 <= j < lines.len() && covers(#[trigger] lines[j], sample);
        assert(covers(r[j], sample));
    }
    r
}

/// What two texts without a break make together has none.
proof fn lemma_no_break(a: Seq<char>, b: Seq<char>)
    requires
        !a.contains('\n'),
        !b.contains('\n'),
    ensures
        !(a + b).contains('\n'),
{
    assert forall|i: int| 0 <= i < (a + b).len() implies (a + b)[i] != '\n' by {
        if i < a.len() {
            assert((a + b)[i] == a[i]);
        } else {
            assert((a + b)[i] == b[i - a.len()]);
        }
    }
}

/// Names have no break.
proof fn lemma_name_no_break(name: Seq<char>, colons: bool)
    requires
        exposition::is_name(name, colons),
    ensures
        !name.contains('\n'),
{
    assert forall|i: int| 0 <= i < name.len() implies name[i] != '\n' by {
        if i > 0 {
            assert(exposition::may_go_on(name[i], colons));
        }
    }
}

/// Numbers have no break.
proof fn lemma_number_no_break(n: nat, width: nat)
    ensures
        !text::number_text(n, width).contains('\n'),
{
    text::lemma_digits_spell(n, width);
    let chars = text::number_text(n, width);
    assert forall|i: int| 0 <= i < chars.len() implies chars[i] != '\n' by {
        assert(chars[i] == text::digits(n, width)[i] as char);
    }
}

/// Values have no break.
proof fn lemma_value_no_break(value: Value)
    ensures
        !exposition::value_text(value).contains('\n'),
{
    match value {
        Value::Int(v) => {
            lemma_number_no_break(v as nat, 1);
        },
        Value::Nanos(nanos) => {
            let (whole, part) = (
                text::number_text(nanos as nat / 1_000_000_000, 1),
                text::number_text(nanos as nat % 1_000_000_000, 9),
            );
            lemma_number_no_break(nanos as nat / 1_000_000_000, 1);
            lemma_number_no_break(nanos as nat % 1_000_000_000, 9);
            reveal_strlit(".");
            lemma_no_break(whole, "."@);
            lemma_no_break(whole + "."@, part);
        },
    }
}

/// A label has no break.
proof fn lemma_label_no_break(label: Label)
    requires
        exposition::is_label_name(label.0),
    ensures
        !exposition::label_text(label).contains('\n'),
{
    let value = exposition::escaped(label.1, true);
    lemma_name_no_break(label.0, false);
    exposition::law_escaped_text_reads_back(label.1, true);
    reveal_strlit("=\"");
    reveal_strlit("\"");
    lemma_no_break(label.0, "=\""@);
    lemma_no_break(label.0 + "=\""@, value);
    lemma_no_break(label.0 + "=\""@ + value, "\""@);
}

/// Labels have no break.
proof fn lemma_labels_no_break(labels: Seq<Label>)
    requires
        forall|i: int|
            0 <= i < labels.len() ==> exposition::is_label_name((#[trigger] labels[i]).0),
    ensures
        !exposition::labels_text(labels).contains('\n'),
    decreases labels.len(),
{
    if labels.len() > 0 {
        let before = labels.drop_last();
        assert(labels[labels.len() - 1] == labels.last());
        lemma_label_no_break(labels.last());
        assert forall|i: int| 0 <= i < before.len() implies exposition::is_label_name(
            (#[trigger] before[i]).0,
        ) by {
            assert(before[i] == labels[i]);
        }
        lemma_labels_no_break(before);
        reveal_strlit(",");
        lemma_no_break(exposition::labels_text(before), ","@);
        lemma_no_break(
            exposition::labels_text(before) + ","@,
            exposition::label_text(labels.last()),
        );
    }
}

/// A line that may stand where it does has no break in it.
proof fn lemma_line_no_break(lines: Seq<Line>, i: int)
    requires
        0 <= i < lines.len(),
        is_placed(lines, i),
    ensures
        !line_text(lines[i]).contains('\n'),
{
    reveal_strlit(" ");
    match lines[i] {
        Line::Help { name, help } => {
            lemma_name_no_break(name, true);
            exposition::law_escaped_text_reads_back(help, false);
            reveal_strlit("# HELP ");
            lemma_no_break("# HELP "@, name);
            lemma_no_break("# HELP "@ + name, " "@);
            lemma_no_break("# HELP "@ + name + " "@, exposition::escaped(help, false));
        },
        Line::Type { name, kind } => {
            lemma_name_no_break(name, true);
            reveal_strlit("# TYPE ");
            reveal_strlit("counter");
            reveal_strlit("gauge");
            reveal_strlit("summary");
            lemma_no_break("# TYPE "@, name);
            lemma_no_break("# TYPE "@ + name, " "@);
            lemma_no_break("# TYPE "@ + name + " "@, kind.name());
        },
        Line::Sample { name, labels, value } => {
            let listed = exposition::labels_text(labels);
            let series = if labels.len() == 0 {
                Seq::empty()
            } else {
                "{"@ + listed + "}"@
            };
            lemma_name_no_break(name, true);
            lemma_labels_no_break(labels);
            lemma_value_no_break(value);
            reveal_strlit("{");
            reveal_strlit("}");
            lemma_no_break("{"@, listed);
            lemma_no_break("{"@ + listed, "}"@);
            lemma_no_break(name, series);
            lemma_no_break(name + series, " "@);
            lemma_no_break(name + series + " "@, exposition::value_text(value));
        },
    }
}

/// Splitting after a break splits what is before it on its own.
proof fn lemma_pieces_end(before: Seq<char>, last: Seq<char>)
    requires
        !last.contains('\n'),
        text::pieces(before, '\n').last().len() == 0,
    ensures
        text::pieces((before + last).push('\n'), '\n') == text::pieces(
            before,
            '\n',
        ).drop_last().push(last).push(Seq::empty()),
{
    lemma_pieces_go_on(before, last);
    let all = (before + last).push('\n');
    assert(all.drop_last() =~= before + last);
}

/// Text without a break goes on with the last piece.
proof fn lemma_pieces_go_on(before: Seq<char>, last: Seq<char>)
    requires
        !last.contains('\n'),
        text::pieces(before, '\n').last().len() == 0,
    ensures
        text::pieces(before + last, '\n') == text::pieces(before, '\n').drop_last().push(last),
    decreases last.len(),
{
    let split = text::pieces(before, '\n');
    text::lemma_pieces_len(before, '\n');
    if last.len() == 0 {
        assert(before + last =~= before);
        assert(split.last() =~= last);
        assert(split =~= split.drop_last().push(last));
    } else {
        let shorter = last.drop_last();
        assert forall|i: int| 0 <= i < shorter.len() implies shorter[i] != '\n' by {
            assert(shorter[i] == last[i]);
        }
        lemma_pieces_go_on(before, shorter);
        assert((before + last).drop_last() =~= before + shorter);
        assert(last[last.len() - 1] == last.last());
        assert(shorter.push(last.last()) =~= last);
        let now = split.drop_last().push(shorter);
        assert(now.drop_last() =~= split.drop_last());
        assert(now.last() == shorter);
    }
}

/// Cut at its line ends, the text of well-formed lines is those lines, each on its own, and
/// nothing after the last of them.
pub proof fn law_text_is_its_lines(lines: Seq<Line>)
    requires
        well_formed(lines),
    ensures
        text::pieces(lines_text(lines), '\n') == lines.map_values(
            |line: Line| line_text(line),
        ).push(Seq::empty()),
{
    lemma_first_lines(lines, lines.len() as int);
    assert(lines.take(lines.len() as int) =~= lines);
}

proof fn lemma_first_lines(lines: Seq<Line>, n: int)
    requires
        well_formed(lines),
        0 <= n <= lines.len(),
    ensures
        text::pieces(lines_text(lines.take(n)), '\n') == lines.take(n).map_values(
            |line: Line| line_text(line),
        ).push(Seq::empty()),
    decreases n,
{
    let written = |line: Line| line_text(line);
    if n == 0 {
        assert(text::pieces(Seq::<char>::empty(), '\n') =~= lines.take(0).map_values(written).push(
            Seq::empty(),
        ));
    } else {
        let before = lines.take(n - 1);
        let line = lines[n - 1];
        lemma_first_lines(lines, n - 1);
        assert(is_placed(lines, n - 1));
        lemma_line_no_break(lines, n - 1);
        assert(lines.take(n).drop_last() =~= before);
        reveal_strlit("\n");
        let all = lines_text(before) + line_text(line);
        assert(all + "\n"@ =~= all.push('\n'));
        lemma_pieces_end(lines_text(before), line_text(line));
        assert(before.map_values(written).push(Seq::empty()).drop_last() =~= before.map_values(
            written,
        ));
        assert(lines.take(n).map_values(written) =~= before.map_values(written).push(
            line_text(line),
        ));
    }
}

} // verus!
