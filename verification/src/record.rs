//! Rewriting the chosen fields of delimited lines.

use crate::config::{lemma_text_chars, rendering_char, Config, ConfigView};
use crate::decimal::{magnitude_of, parse};
use crate::diagnostic::{reports, Diagnostic, DiagnosticView};
use crate::text::{
    chars_of, field_closes, fields_of, join, law_join_undoes_split, law_split_undoes_join,
    lemma_fields_from_nonempty, lemma_fields_from_separable, lemma_next_match_found,
    lemma_next_match_none, line_of, occurs_at, push_all, separable, split, string_of, texts,
};
use vstd::prelude::*;

verus! {

/// A line after rewriting, with what was reported on the way.
#[derive(Debug, Clone, PartialEq, Eq)]
pub struct Rewritten {
    /// The line with its chosen fields rewritten.
    pub text: String,
    /// One report for each chosen field that was left as it was, in order.
    pub diagnostics: Vec<Diagnostic>,
}

/// What a source of lines yields for one record.
#[derive(Debug, Clone, PartialEq, Eq)]
pub enum Input {
    /// A line, without its line ending.
    Line(String),
    /// A failure to read or decode a line, with the source's message.
    Unreadable(String),
}

/// What becomes of one input.
#[derive(Debug, Clone, PartialEq, Eq)]
pub enum Outcome {
    /// The rewritten line is to be written out.
    Emit(Rewritten),
    /// Nothing is written for this input.
    Skip(Diagnostic),
}

/// The text of a field after rewriting. A chosen field that holds a
/// magnitude becomes the rendered magnitude; any other field stays.
pub open spec fn rewritten_field(field: Seq<char>, position: int, config: ConfigView) -> Seq<char> {
    if config.selects(position) {
        match magnitude_of(field) {
            Ok(magnitude) => config.format.text(magnitude as nat),
            Err(_) => field,
        }
    } else {
        field
    }
}

/// What is reported for a field: a chosen field that holds no magnitude is
/// reported with its position, its text and why it holds none.
pub open spec fn field_report(field: Seq<char>, position: int, config: ConfigView) -> Option<
    DiagnosticView,
> {
    if config.selects(position) {
        match magnitude_of(field) {
            Ok(_) => None,
            Err(failure) => Some(
                DiagnosticView::UnparsedField { position: position as nat, text: field, failure },
            ),
        }
    } else {
        None
    }
}

/// Each field rewritten by its 1-based position.
pub open spec fn rewritten_fields(fields: Seq<Seq<char>>, config: ConfigView) -> Seq<Seq<char>> {
    Seq::new(fields.len(), |i: int| rewritten_field(fields[i], i + 1, config))
}

/// The reports for the fields of a line, in the order of the fields.
pub open spec fn field_reports(fields: Seq<Seq<char>>, config: ConfigView) -> Seq<DiagnosticView>
    decreases fields.len(),
{
    if fields.len() == 0 {
        Seq::empty()
    } else {
        let before = field_reports(fields.drop_last(), config);
        match field_report(fields.last(), fields.len() as int, config) {
            Some(report) => before.push(report),
            None => before,
        }
    }
}

/// The line with its chosen fields rewritten: split on the delimiter,
/// rewritten field by field, and joined with the same delimiter.
pub open spec fn rewritten_line(line: Seq<char>, config: ConfigView) -> Seq<char> {
    line_of(rewritten_fields(fields_of(line, config.delimiter), config), config.delimiter)
}

/// The reports for a line.
pub open spec fn line_reports(line: Seq<char>, config: ConfigView) -> Seq<DiagnosticView> {
    field_reports(fields_of(line, config.delimiter), config)
}

/// A rewritten line and its reports as sequences.
pub struct RewrittenView {
    pub text: Seq<char>,
    pub diagnostics: Seq<DiagnosticView>,
}

impl View for Rewritten {
    type V = RewrittenView;

    open spec fn view(&self) -> RewrittenView {
        RewrittenView { text: self.text@, diagnostics: reports(self.diagnostics@) }
    }
}

/// A line rewritten, with its reports.
pub open spec fn rewritten(line: Seq<char>, config: ConfigView) -> RewrittenView {
    RewrittenView { text: rewritten_line(line, config), diagnostics: line_reports(line, config) }
}

/// No rewritten field of the line brings in a delimiter of its own. With an
/// empty delimiter, which stands between any two characters, that is so only
/// where no field changes.
pub open spec fn keeps_fields_apart(line: Seq<char>, config: ConfigView) -> bool {
    let fields = fields_of(line, config.delimiter);
    if config.delimiter.len() == 0 {
        rewritten_fields(fields, config) == fields
    } else {
        separable(rewritten_fields(fields, config), config.delimiter)
    }
}

/// Rewrites one field, given its 1-based position.
pub fn rewrite_field(field: &Vec<char>, position: usize, config: &Config) -> (out: (
    Vec<char>,
    Option<Diagnostic>,
))
    ensures
        out.0@ == rewritten_field(field@, position as int, config@),
        match out.1 {
            Some(report) => field_report(field@, position as int, config@) == Some(report@),
            None => field_report(field@, position as int, config@) is None,
        },
{
    let mut text: Vec<char> = Vec::new();
    if config.selects(position) {
        match parse(field) {
            Ok(magnitude) => {
                config.format.push_text(&mut text, magnitude);
                (text, None)
            },
            Err(failure) => {
                push_all(&mut text, field);
                let report = Diagnostic::UnparsedField {
                    position,
                    text: string_of(field),
                    failure,
                };
                (text, Some(report))
            },
        }
    } else {
        push_all(&mut text, field);
        (text, None)
    }
}

/// Rewrites the chosen fields of one line.
pub fn transform_line(line: &str, config: &Config) -> (out: Rewritten)
    ensures
        out@ == rewritten(line@, config@),
{
    let chars = chars_of(line);
    let delimiter = chars_of(config.delimiter.as_str());
    let fields = split(&chars, &delimiter);
    let ghost given = texts(fields@);
    let mut rewritten: Vec<Vec<char>> = Vec::new();
    let mut diagnostics: Vec<Diagnostic> = Vec::new();
    let mut i: usize = 0;
    while i < fields.len()
        invariant
            i <= fields.len(),
            given == texts(fields@),
            texts(rewritten@) == rewritten_fields(given, config@).take(i as int),
            reports(diagnostics@) == field_reports(given.take(i as int), config@),
        decreases fields.len() - i,
    {
        let (text, report) = rewrite_field(&fields[i], i + 1, config);
        proof {
            assert(given.take(i + 1).drop_last() =~= given.take(i as int));
            assert(given.take(i + 1).last() == fields@[i as int]@);
            assert(given[i as int] == fields@[i as int]@);
            let all = rewritten_fields(given, config@);
            assert(all[i as int] == text@);
            assert(all.take(i + 1) =~= all.take(i as int).push(all[i as int]));
            assert(texts(rewritten@.push(text)) =~= texts(rewritten@).push(text@));
        }
        rewritten.push(text);
        match report {
            Some(report) => {
                proof {
                    assert(reports(diagnostics@.push(report)) =~= reports(diagnostics@).push(
                        report@,
                    ));
                }
                diagnostics.push(report);
            },
            None => {},
        }
        i = i + 1;
    }
    proof {
        assert(given.take(fields.len() as int) =~= given);
        assert(rewritten_fields(given, config@).take(fields.len() as int) =~= rewritten_fields(
            given,
            config@,
        ));
    }
    let joined = join(&rewritten, &delimiter);
    Rewritten { text: string_of(&joined), diagnostics }
}

/// Decides what becomes of one input: a line is rewritten and emitted; a
/// failure of the source is reported and nothing is emitted for it.
pub fn process(input: &Input, config: &Config) -> (outcome: Outcome)
    ensures
        match (input, outcome) {
            (Input::Line(line), Outcome::Emit(out)) => out@ == rewritten(line@, config@),
            (Input::Unreadable(reason), Outcome::Skip(report)) => report@
                == (DiagnosticView::UnreadableLine { reason: reason@ }),
            _ => false,
        },
{
    match input {
        Input::Line(line) => Outcome::Emit(transform_line(line.as_str(), config)),
        Input::Unreadable(reason) => Outcome::Skip(
            Diagnostic::UnreadableLine { reason: reason.clone() },
        ),
    }
}

/// Rewrites a sequence of lines: one result for each line, in the same order.
pub fn transform(lines: &Vec<String>, config: &Config) -> (out: Vec<Rewritten>)
    ensures
        out.len() == lines.len(),
        forall|i: int| 0 <= i < lines.len() ==> (#[trigger] out[i])@ == rewritten(lines[i]@, config@),
{
    let mut out: Vec<Rewritten> = Vec::new();
    let mut i: usize = 0;
    while i < lines.len()
        invariant
            i <= lines.len(),
            out.len() == i,
            forall|k: int| 0 <= k < i ==> (#[trigger] out[k])@ == rewritten(lines[k]@, config@),
        decreases lines.len() - i,
    {
        out.push(transform_line(lines[i].as_str(), config));
        i = i + 1;
    }
    out
}

/// Rewriting changes no field count, and leaves each field that is not
/// chosen as it is.
pub proof fn law_rewriting_keeps_other_fields(fields: Seq<Seq<char>>, config: ConfigView)
    ensures
        rewritten_fields(fields, config).len() == fields.len(),
        forall|i: int|
            0 <= i < fields.len() && !config.selects(i + 1) ==> #[trigger] rewritten_fields(
                fields,
                config,
            )[i] == fields[i],
{
}

/// A line in which no chosen field holds a magnitude comes out as it went in.
pub proof fn law_line_without_magnitudes_is_kept(line: Seq<char>, config: ConfigView)
    requires
        forall|i: int|
            0 <= i < fields_of(line, config.delimiter).len() && config.selects(i + 1)
                ==> magnitude_of(#[trigger] fields_of(line, config.delimiter)[i]) is Err,
    ensures
        rewritten_line(line, config) == line,
{
    let fields = fields_of(line, config.delimiter);
    assert(rewritten_fields(fields, config) =~= fields);
    law_join_undoes_split(line, config.delimiter);
}

/// The rewritten line splits into the rewritten fields of the line exactly
/// where those bring in no delimiter of their own.
pub proof fn law_output_splits_into_rewritten_fields(line: Seq<char>, config: ConfigView)
    ensures
        keeps_fields_apart(line, config) <==> fields_of(
            rewritten_line(line, config),
            config.delimiter,
        ) == rewritten_fields(fields_of(line, config.delimiter), config),
{
    let delimiter = config.delimiter;
    let fields = fields_of(line, delimiter);
    let out = rewritten_fields(fields, config);
    let again = fields_of(rewritten_line(line, config), delimiter);
    if delimiter.len() == 0 {
        if out == fields {
            law_join_undoes_split(line, delimiter);
        }
        if again == out {
            assert forall|i: int| 0 <= i < fields.len() implies out[i] == fields[i] by {
                if out[i] != fields[i] {
                    lemma_text_chars(config.format, magnitude_of(fields[i])->Ok_0 as nat);
                    assert(again[i].len() <= 1);
                }
            }
            assert(out =~= fields);
        }
    } else {
        lemma_fields_from_nonempty(line, delimiter, 0);
        if keeps_fields_apart(line, config) {
            law_split_undoes_join(out, delimiter);
        }
        lemma_fields_from_separable(rewritten_line(line, config), delimiter, 0);
    }
}

/// Splitting the rewritten line on the delimiter gives as many fields as
/// splitting the line, where the rewritten fields bring in no delimiter of
/// their own.
pub proof fn law_field_count_is_kept(line: Seq<char>, config: ConfigView)
    requires
        keeps_fields_apart(line, config),
    ensures
        fields_of(rewritten_line(line, config), config.delimiter).len() == fields_of(
            line,
            config.delimiter,
        ).len(),
{
    law_output_splits_into_rewritten_fields(line, config);
}

/// A field that is not chosen is the same in the rewritten line as in the
/// line, where the rewritten fields bring in no delimiter of their own.
pub proof fn law_other_fields_pass_through(line: Seq<char>, config: ConfigView, i: int)
    requires
        keeps_fields_apart(line, config),
        0 <= i < fields_of(line, config.delimiter).len(),
        !config.selects(i + 1),
    ensures
        fields_of(rewritten_line(line, config), config.delimiter)[i] == fields_of(
            line,
            config.delimiter,
        )[i],
{
    law_output_splits_into_rewritten_fields(line, config);
}

/// Rendered text followed by a delimiter that holds a character foreign to
/// rendered text has no delimiter standing before that one.
proof fn lemma_foreign_character_blocks(
    text: Seq<char>,
    delimiter: Seq<char>,
    follows: bool,
    p: int,
    j: int,
)
    requires
        forall|i: int| 0 <= i < text.len() ==> rendering_char(#[trigger] text[i]),
        0 <= j < delimiter.len(),
        !rendering_char(delimiter[j]),
        0 <= p < text.len(),
    ensures
        !occurs_at(
            if follows {
                text + delimiter
            } else {
                text
            },
            delimiter,
            p,
        ),
    decreases j,
{
    let whole = if follows {
        text + delimiter
    } else {
        text
    };
    if occurs_at(whole, delimiter, p) {
        assert(whole.subrange(p, p + delimiter.len())[j] == delimiter[j]);
        if p + j < text.len() {
            assert(whole[p + j] == text[p + j]);
        } else {
            assert(whole[p + j] == delimiter[p + j - text.len()]);
            lemma_foreign_character_blocks(text, delimiter, follows, p, p + j - text.len());
        }
    }
}

/// A delimiter that holds a character foreign to rendered text, such as a
/// tab, a comma or a space, keeps the fields of every line apart.
pub proof fn law_foreign_delimiter_keeps_fields_apart(
    line: Seq<char>,
    config: ConfigView,
    j: int,
)
    requires
        0 <= j < config.delimiter.len(),
        !rendering_char(config.delimiter[j]),
    ensures
        keeps_fields_apart(line, config),
{
    let delimiter = config.delimiter;
    let fields = fields_of(line, delimiter);
    let out = rewritten_fields(fields, config);
    lemma_fields_from_separable(line, delimiter, 0);
    assert forall|i: int| 0 <= i < out.len() implies #[trigger] field_closes(out, delimiter, i) by {
        assert(field_closes(fields, delimiter, i));
        if out[i] != fields[i] {
            let text = out[i];
            let magnitude = magnitude_of(fields[i])->Ok_0;
            lemma_text_chars(config.format, magnitude as nat);
            if i == out.len() - 1 {
                assert forall|p: int| 0 <= p implies !occurs_at(text, delimiter, p) by {
                    if p < text.len() {
                        lemma_foreign_character_blocks(text, delimiter, false, p, j);
                    }
                }
                lemma_next_match_none(text, delimiter, 0);
            } else {
                assert forall|p: int| 0 <= p < text.len() implies !occurs_at(
                    text + delimiter,
                    delimiter,
                    p,
                ) by {
                    lemma_foreign_character_blocks(text, delimiter, true, p, j);
                }
                assert((text + delimiter).subrange(
                    text.len() as int,
                    (text.len() + delimiter.len()) as int,
                ) =~= delimiter);
                lemma_next_match_found(text + delimiter, delimiter, 0, text.len() as int);
            }
        }
    }
}

} // verus!
