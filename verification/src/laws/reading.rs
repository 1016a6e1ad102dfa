//! What stands in a source file, and what reading it gives.

use vstd::prelude::*;
use crate::error::{error_at, FailureView, Span};
use crate::expr::Expression;
use crate::laws::values::says;
use crate::parser::{
    expression_read,
    file_start,
    identifier_read,
    line_end_read,
    operator_read,
    string_read,
};
use crate::source::{IncludedFiles, ParsedExpression, Source};
use crate::text::quoted;
use crate::token::TokenKind;

verus! {

/// The given identifier stands at a position.
pub open spec fn word_stands(source: Source, pos: int, name: Seq<char>) -> bool {
    0 <= pos < source.tokens@.len() && (source.tokens@[pos].kind matches TokenKind::Identifier(
        found,
    ) && found@ == name)
}

/// The given operator stands at a position.
pub open spec fn operator_stands(source: Source, pos: int, op: Seq<char>) -> bool {
    0 <= pos < source.tokens@.len() && (source.tokens@[pos].kind matches TokenKind::Operator(
        found,
    ) && found@ == op)
}

/// A string literal with the given contents stands at a position.
pub open spec fn text_stands(source: Source, pos: int, text: Seq<char>) -> bool {
    0 <= pos < source.tokens@.len() && (source.tokens@[pos].kind matches TokenKind::Text(found)
        && found@ == text)
}

/// The given expression stands at a position, and another position is the one behind it.
pub open spec fn expression_stands(
    source: Source,
    pos: int,
    expr: Expression,
    next: int,
) -> bool {
    0 <= pos < source.expressions@.len() && (source.expressions@[pos] matches
        ParsedExpression::Parsed { expr: found, length } && found == expr && next == pos + length)
}

/// The line ends at a position, and another position is the start of the next line that holds
/// anything: what is between the two are line breaks, at least one of them, and what stands behind
/// them is none.
pub open spec fn line_ends(source: Source, pos: int, next: int) -> bool {
    let count = source.tokens@.len();
    &&& 0 <= pos <= next <= count
    &&& pos < count ==> pos < next
    &&& forall|i: int|
        pos <= i < next ==> (#[trigger] source.tokens@[i]).kind is LineBreak
    &&& next < count ==> !(source.tokens@[next].kind is LineBreak)
}

/// The place of the token at a position, or of the end of the file.
pub open spec fn place_at(source: Source, pos: int) -> Span {
    if 0 <= pos < source.tokens@.len() {
        source.tokens@[pos].span
    } else {
        source.end.span
    }
}

/// What messages are made of.
pub proof fn messages_are_put_together(message: Seq<char>, name: Seq<char>, span: Span)
    ensures
        quoted(message, name) == message + name + "`"@,
        error_at(message, span) == says(message, span),
{
}

/// The token at a position is the one in the file, or the one that stands for the end.
pub proof fn tokens_stand_in_order(source: Source, pos: int)
    requires
        0 <= pos,
    ensures
        pos < source.tokens@.len() ==> source.token_at(pos) == source.tokens@[pos],
        pos >= source.tokens@.len() ==> source.token_at(pos) == source.end,
{
}

/// An identifier is read where it stands, and only there.
pub proof fn identifiers_are_read_where_they_stand(source: Source, pos: int, name: Seq<char>)
    requires
        source.wf(),
        0 <= pos,
    ensures
        source.token_at(pos).spec_identifier() == Some(name) <==> word_stands(source, pos, name),
        word_stands(source, pos, name) ==> identifier_read(source, pos) == Ok::<
            (Seq<char>, Span, int),
            FailureView,
        >((name, source.tokens@[pos].span, pos + 1)),
        (forall|other: Seq<char>| !#[trigger] word_stands(source, pos, other)) ==> {
            &&& source.token_at(pos).spec_identifier() is None
            &&& identifier_read(source, pos) == Err::<(Seq<char>, Span, int), FailureView>(
                says("expected identifier"@, place_at(source, pos)),
            )
        },
{
    if source.token_at(pos).spec_identifier() is Some {
        assert(word_stands(source, pos, source.token_at(pos).spec_identifier().unwrap()));
    }
}

/// A string literal is read where it stands, and only there.
pub proof fn strings_are_read_where_they_stand(source: Source, pos: int, text: Seq<char>)
    requires
        source.wf(),
        0 <= pos,
    ensures
        text_stands(source, pos, text) ==> string_read(source, pos) == Ok::<
            (Seq<char>, int),
            FailureView,
        >((text, pos + 1)),
        (forall|other: Seq<char>| !#[trigger] text_stands(source, pos, other)) ==> string_read(
            source,
            pos,
        ) == Err::<(Seq<char>, int), FailureView>(
            says("expected string"@, place_at(source, pos)),
        ),
{
    if source.token_at(pos).spec_text() is Some {
        assert(text_stands(source, pos, source.token_at(pos).spec_text().unwrap()));
    }
}

/// An operator is read where it stands, and only there.
pub proof fn operators_are_read_where_they_stand(source: Source, pos: int, op: Seq<char>)
    requires
        source.wf(),
        0 <= pos,
    ensures
        source.token_at(pos).spec_is_operator(op) <==> operator_stands(source, pos, op),
        operator_read(source, pos, op) == (if operator_stands(source, pos, op) {
            Ok(pos + 1)
        } else {
            Err(says("expected `"@ + op + "`"@, place_at(source, pos)))
        }),
{
}

/// An expression is read where it stands; where none stands, reading fails as it does there.
pub proof fn expressions_are_read_where_they_stand(
    source: Source,
    pos: int,
    expr: Expression,
    next: int,
)
    requires
        source.wf(),
        0 <= pos <= source.tokens@.len(),
    ensures
        expression_read(source, pos) == Ok::<(Expression, int), FailureView>((expr, next)) <==>
            expression_stands(source, pos, expr, next),
        source.expressions@[pos] matches ParsedExpression::Failed(error) ==> expression_read(
            source,
            pos,
        ) == Err::<(Expression, int), FailureView>(says(error.message@, error.span)),
{
}

/// Line breaks are gone past, all of them and nothing else.
pub proof fn line_breaks_are_skipped(source: Source, pos: int)
    requires
        0 <= pos <= source.tokens@.len(),
    ensures
        pos <= source.after_linebreaks(pos) <= source.tokens@.len(),
        forall|i: int|
            pos <= i < source.after_linebreaks(pos) ==> (
            #[trigger] source.tokens@[i]).kind is LineBreak,
        source.after_linebreaks(pos) < source.tokens@.len() ==> !(
        source.tokens@[source.after_linebreaks(pos)].kind is LineBreak),
    decreases source.tokens@.len() - pos,
{
    if pos < source.tokens@.len() && source.token_at(pos).kind is LineBreak {
        line_breaks_are_skipped(source, pos + 1);
    }
}

/// A line ends with line breaks or with the file, and nowhere else.
pub proof fn lines_end_where_line_breaks_stand(source: Source, pos: int, next: int)
    requires
        0 <= pos <= source.tokens@.len(),
    ensures
        line_end_read(source, pos) == Ok::<int, FailureView>(next) <==> line_ends(
            source,
            pos,
            next,
        ),
        pos < source.tokens@.len() && !(source.tokens@[pos].kind is LineBreak) ==> line_end_read(
            source,
            pos,
        ) == Err::<int, FailureView>(says("expected line break"@, source.tokens@[pos].span)),
{
    line_breaks_are_skipped(source, pos);
    let end = source.after_linebreaks(pos);
    if line_ends(source, pos, next) && pos < source.tokens@.len() {
        assert(source.tokens@[pos].kind is LineBreak);
        if next < end {
            assert(source.tokens@[next].kind is LineBreak);
        }
        if end < next {
            assert(source.tokens@[end].kind is LineBreak);
        }
    }
}

/// The reading of a file starts at its first token that is no line break.
pub proof fn files_start_behind_line_breaks(source: Source, i: int)
    ensures
        0 <= file_start(source) <= source.tokens@.len(),
        0 <= i < file_start(source) ==> source.tokens@[i].kind is LineBreak,
        file_start(source) < source.tokens@.len() ==> !(
        source.tokens@[file_start(source)].kind is LineBreak),
{
    line_breaks_are_skipped(source, 0);
}

/// The file that is found is the first one that was supplied for the asking file under the name
/// that it asks for.
pub proof fn first_supplied_file_is_found(files: IncludedFiles, from: Seq<char>, name: Seq<char>)
    ensures
        match files.found(from, name, 0) {
            Some(source) => exists|k: int|
                {
                    &&& 0 <= k < files.files@.len()
                    &&& #[trigger] files.files@[k].source == source
                    &&& files.files@[k].from@ == from && files.files@[k].name@ == name
                    &&& forall|j: int|
                        0 <= j < k ==> !((#[trigger] files.files@[j]).from@ == from
                            && files.files@[j].name@ == name)
                },
            None => forall|j: int|
                0 <= j < files.files@.len() ==> !((#[trigger] files.files@[j]).from@ == from
                    && files.files@[j].name@ == name),
        },
{
    lemma_first_found(files, from, name, 0);
}

proof fn lemma_first_found(files: IncludedFiles, from: Seq<char>, name: Seq<char>, i: int)
    requires
        0 <= i <= files.files@.len(),
    ensures
        match files.found(from, name, i) {
            Some(source) => exists|k: int|
                {
                    &&& i <= k < files.files@.len()
                    &&& #[trigger] files.files@[k].source == source
                    &&& files.files@[k].from@ == from && files.files@[k].name@ == name
                    &&& forall|j: int|
                        i <= j < k ==> !((#[trigger] files.files@[j]).from@ == from
                            && files.files@[j].name@ == name)
                },
            None => forall|j: int|
                i <= j < files.files@.len() ==> !((#[trigger] files.files@[j]).from@ == from
                    && files.files@[j].name@ == name),
        },
    decreases files.files@.len() - i,
{
    if i < files.files@.len() {
        if files.files@[i].from@ == from && files.files@[i].name@ == name {
            assert(files.files@[i].source == files.files@[i].source);
        } else {
            lemma_first_found(files, from, name, i + 1);
            if files.found(from, name, i) is Some {
                let source = files.found(from, name, i).unwrap();
                let k = choose|k: int|
                    {
                        &&& i + 1 <= k < files.files@.len()
                        &&& #[trigger] files.files@[k].source == source
                        &&& files.files@[k].from@ == from && files.files@[k].name@ == name
                        &&& forall|j: int|
                            i + 1 <= j < k ==> !((#[trigger] files.files@[j]).from@ == from
                                && files.files@[j].name@ == name)
                    };
                assert(files.files@[k].source == source);
            }
        }
    }
}

} // verus!
