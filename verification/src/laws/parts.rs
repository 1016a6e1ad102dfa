//! Files that are made up of parts: a file is read as its parts are, one after the other, and a
//! nested file as its text in place would be. Places in the source play no part in this.

use vstd::prelude::*;
use crate::assembler::instructions_wf;
use crate::definition::Definition;
use crate::error::{FailureView, Span};
use crate::laws::files::lacks_files;
use crate::laws::lines::{
    lemma_after_linebreaks,
    lemma_asking_directive,
    lemma_found,
    line_keeps_state,
    lines_keep_state,
};
use crate::laws::spans::{
    asked_alike,
    asks_for_nothing,
    closing_stretch,
    files_alike,
    found_alike,
    lemma_alike_breaks,
    lemma_alike_line,
    lemma_alike_lines,
    lemma_whole_is_stretch,
    linked,
    same_parsed,
    same_state,
    same_state_is_reflexive,
    same_state_is_transitive,
    same_step,
    same_text,
    same_token,
    same_up_to_spans,
    second_pass_ignores_spans,
    source_is_like_itself,
    stretch,
};
use crate::model::{
    assembled,
    directive_name_read,
    directive_parsed,
    first_pass,
    initial_state,
    line_parsed,
    lines_parsed,
    State,
    Step,
};
use crate::parser::{file_start, line_end_read, string_read};
use crate::source::{IncludedFiles, ParsedExpression, Source};

verus! {

/// The text of `part` stands in `whole` from position `d` on, up to spans.
pub open spec fn stands_at(whole: Source, part: Source, d: int) -> bool {
    &&& 0 <= d
    &&& d + part.tokens@.len() <= whole.tokens@.len()
    &&& forall|i: int|
        0 <= i < part.tokens@.len() ==> same_token(
            #[trigger] part.tokens@[i],
            whole.tokens@[d + i],
        ) && same_parsed(part.expressions@[i], whole.expressions@[d + i])
}

/// The text of `part` is the rest of `whole` from position `d` on, up to spans.
pub open spec fn stands_last(whole: Source, part: Source, d: int) -> bool {
    &&& stands_at(whole, part, d)
    &&& d + part.tokens@.len() == whole.tokens@.len()
    &&& same_token(part.end, whole.end)
    &&& same_parsed(
        part.expressions@[part.tokens@.len() as int],
        whole.expressions@[whole.tokens@.len() as int],
    )
}

/// The text of `whole` is that of `first` and then that of `second`, up to spans and under the same
/// file name.
pub open spec fn joins(whole: Source, first: Source, second: Source) -> bool {
    &&& whole.filename@ == first.filename@
    &&& whole.filename@ == second.filename@
    &&& stands_at(whole, first, 0)
    &&& stands_last(whole, second, first.tokens@.len() as int)
}

/// The text of `whole` is that of three parts, up to spans and under the same file name.
pub open spec fn joins_three(whole: Source, head: Source, body: Source, tail: Source) -> bool {
    &&& whole.filename@ == head.filename@
    &&& whole.filename@ == body.filename@
    &&& whole.filename@ == tail.filename@
    &&& stands_at(whole, head, 0)
    &&& stands_at(whole, body, head.tokens@.len() as int)
    &&& stands_last(whole, tail, (head.tokens@.len() + body.tokens@.len()) as int)
}

/// The last line of the text is ended by a line break, which no expression takes up.
pub open spec fn ends_its_lines(source: Source) -> bool {
    &&& source.tokens@.len() > 0 ==> source.tokens@.last().kind is LineBreak
    &&& forall|i: int|
        0 <= i < source.tokens@.len() ==> (#[trigger] source.expressions@[i] matches
            ParsedExpression::Parsed { length, .. } ==> i + length < source.tokens@.len())
}

// ---- A part of a file ----

proof fn lemma_part_is_stretch(whole: Source, part: Source, d: int)
    requires
        part.wf(),
        stands_at(whole, part, d),
        ends_its_lines(part),
        part.tokens@.len() > 0,
    ensures
        stretch(part, whole, d, part.tokens@.len() - 1),
{
    let hi = part.tokens@.len() - 1;
    assert forall|p: int| 0 <= p <= hi implies {
        &&& same_token(#[trigger] part.token_at(p), whole.token_at(p + d))
        &&& same_parsed(part.expressions@[p], whole.expressions@[p + d])
        &&& p >= part.tokens@.len() <==> p + d >= whole.tokens@.len()
        &&& part.expressions@[p] matches ParsedExpression::Parsed { length, .. } ==> p + length
            <= hi
    } by {
        assert(same_token(part.tokens@[p], whole.tokens@[d + p]));
        assert(d + p == p + d);
    }
}

proof fn lemma_last_is_stretch(whole: Source, part: Source, d: int)
    requires
        part.wf(),
        stands_last(whole, part, d),
    ensures
        closing_stretch(part, whole, d),
{
    let hi = part.tokens@.len() as int;
    assert forall|p: int| 0 <= p <= hi implies {
        &&& same_token(#[trigger] part.token_at(p), whole.token_at(p + d))
        &&& same_parsed(part.expressions@[p], whole.expressions@[p + d])
        &&& p >= part.tokens@.len() <==> p + d >= whole.tokens@.len()
        &&& part.expressions@[p] matches ParsedExpression::Parsed { length, .. } ==> p + length
            <= hi
    } by {
        assert(d + p == p + d);
        if p < hi {
            assert(same_token(part.tokens@[p], whole.tokens@[d + p]));
        }
    }
}

/// The position of `whole` at which reading goes on where a line of a part ends.
spec fn going_on(whole: Source, part: Source, d: int, pos: int) -> int {
    if pos < part.tokens@.len() {
        pos + d
    } else {
        whole.after_linebreaks(d + part.tokens@.len())
    }
}

proof fn lemma_breaks_in_part(whole: Source, part: Source, d: int, pos: int)
    requires
        stands_at(whole, part, d),
        0 <= pos <= part.tokens@.len(),
    ensures
        whole.after_linebreaks(pos + d) == going_on(
            whole,
            part,
            d,
            part.after_linebreaks(pos),
        ),
        part.after_linebreaks(pos) <= part.tokens@.len(),
    decreases part.tokens@.len() - pos,
{
    assert(pos + d == d + pos);
    if pos < part.tokens@.len() {
        assert(same_token(part.tokens@[pos], whole.tokens@[d + pos]));
        if part.token_at(pos).kind is LineBreak {
            lemma_breaks_in_part(whole, part, d, pos + 1);
            assert(pos + 1 + d == (pos + d) + 1);
        }
    }
}

/// Where a part of a file is read well, the file goes on behind it from a state that differs in
/// spans only; where it fails, so does the file.
spec fn read_in_place(part: Step, mid: State, whole: Step, rest: Step) -> bool {
    &&& part.1 is Ok ==> same_state(part.0, mid) && whole == rest
    &&& part.1 is Err ==> same_step(part, whole)
}

proof fn lemma_part_in_place(
    def: Definition,
    fx: IncludedFiles,
    fy: IncludedFiles,
    s: State,
    t: State,
    whole: Source,
    part: Source,
    d: int,
    pos: int,
    dx: nat,
    dy: nat,
    lax: bool,
) -> (mid: State)
    requires
        def.wf(),
        whole.wf(),
        part.wf(),
        fx.wf(),
        fy.wf(),
        same_state(s, t),
        instructions_wf(def, s),
        s.labels.has_context(),
        stands_at(whole, part, d),
        ends_its_lines(part),
        0 <= pos <= part.tokens@.len(),
        linked(fx, fy, part, whole, dx, dy, lax),
        lax ==> !lacks_files(lines_parsed(def, fx, s, part, pos, dx).1),
    ensures
        instructions_wf(def, lines_parsed(def, fx, s, part, pos, dx).0),
        read_in_place(
            lines_parsed(def, fx, s, part, pos, dx),
            mid,
            lines_parsed(def, fy, t, whole, going_on(whole, part, d, pos), dy),
            lines_parsed(
                def,
                fy,
                mid,
                whole,
                whole.after_linebreaks(d + part.tokens@.len()),
                dy,
            ),
        ),
    decreases part.tokens@.len() - pos,
{
    let n = part.tokens@.len() as int;
    if pos < n {
        lemma_part_is_stretch(whole, part, d);
        lemma_alike_line(def, fx, fy, s, t, part, whole, d, n - 1, pos, dx, dy, lax);
        line_keeps_state(def, fx, s, part, pos, dx);
        line_keeps_state(def, fy, t, whole, pos + d, dy);
        let a = line_parsed(def, fx, s, part, pos, dx);
        let b = line_parsed(def, fy, t, whole, pos + d, dy);
        if a.result is Ok {
            let q = choose|q: int|
                0 <= q <= n - 1 && #[trigger] line_end_read(part, q) == Ok::<int, FailureView>(
                    a.pos,
                ) && line_end_read(whole, q + d) == Ok::<int, FailureView>(b.pos);
            lemma_breaks_in_part(whole, part, d, q);
            lemma_after_linebreaks(whole, d + n);
            lemma_part_in_place(def, fx, fy, a.st, b.st, whole, part, d, a.pos, dx, dy, lax)
        } else {
            t
        }
    } else {
        t
    }
}

/// The first line of a part, where the file is read up to it.
proof fn lemma_part_from_its_start(
    def: Definition,
    fx: IncludedFiles,
    fy: IncludedFiles,
    s: State,
    t: State,
    whole: Source,
    part: Source,
    d: int,
    dx: nat,
    dy: nat,
    lax: bool,
) -> (mid: State)
    requires
        def.wf(),
        whole.wf(),
        part.wf(),
        fx.wf(),
        fy.wf(),
        same_state(s, t),
        instructions_wf(def, s),
        s.labels.has_context(),
        stands_at(whole, part, d),
        ends_its_lines(part),
        linked(fx, fy, part, whole, dx, dy, lax),
        lax ==> !lacks_files(lines_parsed(def, fx, s, part, file_start(part), dx).1),
    ensures
        instructions_wf(def, lines_parsed(def, fx, s, part, file_start(part), dx).0),
        lines_parsed(def, fx, s, part, file_start(part), dx).0.labels.has_context(),
        read_in_place(
            lines_parsed(def, fx, s, part, file_start(part), dx),
            mid,
            lines_parsed(def, fy, t, whole, whole.after_linebreaks(d), dy),
            lines_parsed(
                def,
                fy,
                mid,
                whole,
                whole.after_linebreaks(d + part.tokens@.len()),
                dy,
            ),
        ),
{
    lemma_after_linebreaks(part, 0);
    lemma_breaks_in_part(whole, part, d, 0);
    lines_keep_state(def, fx, s, part, file_start(part), dx);
    lemma_part_in_place(def, fx, fy, s, t, whole, part, d, file_start(part), dx, dy, lax)
}

proof fn lemma_last_from_its_start(
    def: Definition,
    fx: IncludedFiles,
    fy: IncludedFiles,
    s: State,
    t: State,
    whole: Source,
    part: Source,
    d: int,
    dx: nat,
    dy: nat,
    lax: bool,
)
    requires
        def.wf(),
        part.wf(),
        fx.wf(),
        same_state(s, t),
        instructions_wf(def, s),
        s.labels.has_context(),
        stands_last(whole, part, d),
        linked(fx, fy, part, whole, dx, dy, lax),
        lax ==> !lacks_files(lines_parsed(def, fx, s, part, file_start(part), dx).1),
    ensures
        instructions_wf(def, lines_parsed(def, fx, s, part, file_start(part), dx).0),
        same_step(
            lines_parsed(def, fx, s, part, file_start(part), dx),
            lines_parsed(def, fy, t, whole, whole.after_linebreaks(d), dy),
        ),
{
    lemma_last_is_stretch(whole, part, d);
    lemma_after_linebreaks(part, 0);
    lemma_alike_breaks(part, whole, d, 0);
    lemma_alike_lines(def, fx, fy, s, t, part, whole, d, file_start(part), dx, dy, lax);
}

/// Files differ from themselves in nothing.
pub proof fn files_are_like_themselves(files: IncludedFiles, more: bool)
    ensures
        files_alike(files, files, more),
{
    assert forall|from: Seq<char>| #[trigger] asked_alike(files, files, from, more) by {
        assert forall|name: Seq<char>|
            files.found(from, name, 0) is Some implies same_up_to_spans(
            (#[trigger] files.found(from, name, 0))->Some_0,
            files.found(from, name, 0)->Some_0,
        ) by {
            source_is_like_itself(files.found(from, name, 0)->Some_0);
        }
    }
}

// ---- Two parts ----

/// What reading two runs of lines gives, the second one from the state that the first one leads to.
/// If the first run fails, that is the end.
pub open spec fn read_in_turn(
    def: Definition,
    files: IncludedFiles,
    st: State,
    first: Source,
    second: Source,
    depth: nat,
) -> Step {
    match lines_parsed(def, files, st, first, file_start(first), depth) {
        (mid, Ok(_)) => lines_parsed(def, files, mid, second, file_start(second), depth),
        (mid, Err(failure)) => (mid, Err(failure)),
    }
}

/// A file that is made up of two runs of lines is read as the first run, and then as the second one
/// from the state that the first one leads to.
pub proof fn runs_of_lines_follow_one_another(
    def: Definition,
    files: IncludedFiles,
    st: State,
    whole: Source,
    first: Source,
    second: Source,
    depth: nat,
)
    requires
        def.wf(),
        whole.wf(),
        first.wf(),
        second.wf(),
        files.wf(),
        joins(whole, first, second),
        ends_its_lines(first),
        st.labels.has_context(),
        instructions_wf(def, st),
    ensures
        same_step(
            read_in_turn(def, files, st, first, second, depth),
            lines_parsed(def, files, st, whole, file_start(whole), depth),
        ),
        instructions_wf(def, read_in_turn(def, files, st, first, second, depth).0),
{
    files_are_like_themselves(files, false);
    assert(asked_alike(files, files, whole.filename@, false));
    same_state_is_reflexive(st);
    let mid = lemma_part_from_its_start(
        def,
        files,
        files,
        st,
        st,
        whole,
        first,
        0,
        depth,
        depth,
        false,
    );
    let (one, result) = lines_parsed(def, files, st, first, file_start(first), depth);
    if result is Ok {
        lemma_last_from_its_start(
            def,
            files,
            files,
            one,
            mid,
            whole,
            second,
            first.tokens@.len() as int,
            depth,
            depth,
            false,
        );
    }
}

// ---- Nested files ----

/// The text of `line` is one line that asks for a file.
pub open spec fn asks_for(line: Source, name: Seq<char>) -> bool {
    &&& line.tokens@.len() == 4
    &&& line.tokens@[0].spec_is_operator("."@)
    &&& line.tokens@[1].spec_identifier() == Some("include"@)
    &&& line.tokens@[2].spec_text() == Some(name)
    &&& line.tokens@[3].kind is LineBreak
}

/// A line that asks for a file is read as the lines of that file.
pub proof fn nested_file_is_read(
    def: Definition,
    files: IncludedFiles,
    st: State,
    line: Source,
    name: Seq<char>,
    nested: Source,
    depth: nat,
)
    requires
        line.wf(),
        asks_for(line, name),
        files.found(line.filename@, name, 0) == Some(nested),
        depth > 0,
    ensures
        lines_parsed(def, files, st, line, file_start(line), depth) == lines_parsed(
            def,
            files,
            st,
            nested,
            file_start(nested),
            (depth - 1) as nat,
        ),
{
    lemma_asking_directive();
    assert(line.after_linebreaks(0) == 0);
    assert(line.token_at(0).spec_is_operator("."@));
    assert(directive_name_read(line, 0) == (
        2int,
        Ok::<(Seq<char>, Span), FailureView>(("include"@, line.tokens@[1].span)),
    ));
    assert(string_read(line, 2) == Ok::<(Seq<char>, int), FailureView>((name, 3)));
    let (inner, result) = lines_parsed(
        def,
        files,
        st,
        nested,
        file_start(nested),
        (depth - 1) as nat,
    );
    reveal_with_fuel(Source::after_linebreaks, 3);
    assert(line.after_linebreaks(3) == 4);
    assert(line_end_read(line, 3) == Ok::<int, FailureView>(4));
    let read = line_parsed(def, files, st, line, 0, depth);
    assert(read == directive_parsed(def, files, st, line, 0, depth));
    assert(result is Ok ==> result->Ok_0 == ());
    assert(read.st == inner && read.result == result);
    assert(result is Ok ==> read.pos == 4);
    assert(lines_parsed(def, files, inner, line, 4, depth) == (
        inner,
        Ok::<(), FailureView>(()),
    ));
}

/// A program that asks for a file stands for the bits that it stands for with the text of that file
/// in place of the line that asks for it, whatever the spans are. The text has to end its lines. If
/// it asks for files itself, they have to be found from the nested file, too, which is one level
/// deeper.
pub proof fn nested_file_is_its_text(
    def: Definition,
    asking_files: IncludedFiles,
    plain_files: IncludedFiles,
    asking: Source,
    plain: Source,
    head: Source,
    line: Source,
    name: Seq<char>,
    nested: Source,
    text: Source,
    tail: Source,
)
    requires
        def.wf(),
        asking_files.wf(),
        plain_files.wf(),
        asking.wf(),
        plain.wf(),
        head.wf(),
        line.wf(),
        text.wf(),
        tail.wf(),
        joins_three(asking, head, line, tail),
        joins_three(plain, head, text, tail),
        ends_its_lines(head),
        ends_its_lines(line),
        ends_its_lines(text),
        asks_for(line, name),
        asking_files.found(line.filename@, name, 0) == Some(nested),
        same_text(text, nested),
        files_alike(plain_files, asking_files, true),
        plain_files.max_depth <= asking_files.max_depth,
        asking_files.max_depth > 0,
        asks_for_nothing(text) || (plain_files.max_depth < asking_files.max_depth && found_alike(
            plain_files,
            asking_files,
            text.filename@,
            nested.filename@,
            true,
        )),
        assembled(def, plain, plain_files) is Ok,
    ensures
        assembled(def, asking, asking_files) == assembled(def, plain, plain_files),
{
    let fp = plain_files;
    let fa = asking_files;
    let dp = plain_files.max_depth as nat;
    let da = asking_files.max_depth as nat;
    let inner = (da - 1) as nat;
    let start = initial_state();
    let h = head.tokens@.len() as int;
    let b = text.tokens@.len() as int;
    let l = line.tokens@.len() as int;
    files_are_like_themselves(fp, false);
    files_are_like_themselves(fa, false);
    assert(asked_alike(fp, fp, plain.filename@, false));
    assert(asked_alike(fa, fa, plain.filename@, false));
    assert(asked_alike(fp, fa, plain.filename@, true));
    same_state_is_reflexive(start);

    // With the text in place, every part is read well.
    let plain_mid = lemma_part_from_its_start(
        def,
        fp,
        fp,
        start,
        start,
        plain,
        head,
        0,
        dp,
        dp,
        false,
    );
    let headed = lines_parsed(def, fp, start, head, file_start(head), dp);
    let plain_late = lemma_part_from_its_start(
        def,
        fp,
        fp,
        headed.0,
        plain_mid,
        plain,
        text,
        h,
        dp,
        dp,
        false,
    );
    let bodied = lines_parsed(def, fp, headed.0, text, file_start(text), dp);
    lemma_last_from_its_start(
        def,
        fp,
        fp,
        bodied.0,
        plain_late,
        plain,
        tail,
        h + b,
        dp,
        dp,
        false,
    );
    let tailed = lines_parsed(def, fp, bodied.0, tail, file_start(tail), dp);
    assert(same_step(tailed, first_pass(def, plain, fp)));

    // So it is where the line asks for the file.
    let asking_mid = lemma_part_from_its_start(
        def,
        fp,
        fa,
        start,
        start,
        asking,
        head,
        0,
        dp,
        da,
        true,
    );
    same_state_is_reflexive(headed.0);
    lemma_found(fa, line.filename@, name, 0);
    lemma_whole_is_stretch(text, nested);
    lemma_after_linebreaks(text, 0);
    lemma_alike_breaks(text, nested, 0, 0);
    lemma_alike_lines(
        def,
        fp,
        fa,
        headed.0,
        headed.0,
        text,
        nested,
        0,
        file_start(text),
        dp,
        inner,
        true,
    );
    nested_file_is_read(def, fa, headed.0, line, name, nested, da);
    let asked = lines_parsed(def, fa, headed.0, line, file_start(line), da);
    let asking_late = lemma_part_from_its_start(
        def,
        fa,
        fa,
        headed.0,
        asking_mid,
        asking,
        line,
        h,
        da,
        da,
        false,
    );
    same_state_is_transitive(bodied.0, asked.0, asking_late);
    lemma_last_from_its_start(
        def,
        fp,
        fa,
        bodied.0,
        asking_late,
        asking,
        tail,
        h + l,
        dp,
        da,
        true,
    );
    assert(same_step(tailed, first_pass(def, asking, fa)));
    second_pass_ignores_spans(def, tailed.0, first_pass(def, plain, fp).0);
    second_pass_ignores_spans(def, tailed.0, first_pass(def, asking, fa).0);
}

/// In particular, a file that asks for no other one may be asked for or stand in place, as one
/// likes.
pub proof fn nested_file_that_asks_for_nothing_is_its_text(
    def: Definition,
    files: IncludedFiles,
    asking: Source,
    plain: Source,
    head: Source,
    line: Source,
    name: Seq<char>,
    nested: Source,
    text: Source,
    tail: Source,
)
    requires
        def.wf(),
        files.wf(),
        files.max_depth > 0,
        asking.wf(),
        plain.wf(),
        head.wf(),
        line.wf(),
        text.wf(),
        tail.wf(),
        joins_three(asking, head, line, tail),
        joins_three(plain, head, text, tail),
        ends_its_lines(head),
        ends_its_lines(line),
        ends_its_lines(text),
        asks_for(line, name),
        files.found(line.filename@, name, 0) == Some(nested),
        same_text(text, nested),
        asks_for_nothing(text),
        assembled(def, plain, files) is Ok,
    ensures
        assembled(def, asking, files) == assembled(def, plain, files),
{
    files_are_like_themselves(files, true);
    nested_file_is_its_text(
        def,
        files,
        files,
        asking,
        plain,
        head,
        line,
        name,
        nested,
        text,
        tail,
    );
}

} // verus!
