//! Mathematical model of the streaming context engine: the abstract state,
//! one transition per input line, and the output of a whole pass.
use vstd::prelude::*;

verus! {

/// Abstract view of one input line: its 0-based position and its text.
#[verifier::ext_equal]
pub struct LineModel {
    pub index: int,
    pub text: Seq<char>,
}

/// Abstract view of one output record: a group separator, or an emitted line.
#[verifier::ext_equal]
pub enum RecModel {
    Separator,
    MatchedLine { index: int, text: Seq<char> },
}

/// Abstract state of the engine: context size, pending lines (oldest first),
/// whether we are still inside the trailing window of the latest match,
/// whether any group has been emitted yet, and whether a separator is owed.
#[verifier::ext_equal]
pub struct EngineModel {
    pub n: nat,
    pub buf: Seq<LineModel>,
    pub trailing: bool,
    pub first_emitted: bool,
    pub sep_owed: bool,
}

/// The output record that emits a given line.
pub open spec fn line_rec(l: LineModel) -> RecModel {
    RecModel::MatchedLine { index: l.index, text: l.text }
}

/// The records that emit a run of lines, in order.
pub open spec fn recs_of_lines(ls: Seq<LineModel>) -> Seq<RecModel> {
    ls.map_values(|l: LineModel| line_rec(l))
}

/// The engine's state before any line has been processed.
pub open spec fn init_state(n: nat) -> EngineModel {
    EngineModel { n, buf: Seq::empty(), trailing: false, first_emitted: false, sep_owed: false }
}

/// Buffering a non-matching line: ring-buffer push with eviction. With
/// capacity 0 the line is dropped outright; either kind of loss records
/// that a gap now separates the previous group from whatever comes next.
pub open spec fn spec_push(st: EngineModel, line: LineModel) -> EngineModel {
    if st.n == 0 {
        EngineModel { sep_owed: true, ..st }
    } else if st.buf.len() >= st.n {
        EngineModel { buf: st.buf.drop_first().push(line), sep_owed: true, ..st }
    } else {
        EngineModel { buf: st.buf.push(line), ..st }
    }
}

/// One step of the pass: the state after consuming `line`, and the records
/// emitted for it. A match first pays any owed separator (never when the
/// context size is 0, where no grouping exists), then drains the pending
/// leading context and emits the line itself. A non-match either completes
/// a full trailing window (drained without separator, the line starting the
/// next leading context) or is simply buffered.
pub open spec fn spec_step(st: EngineModel, line: LineModel, is_match: bool) -> (EngineModel,
    Seq<RecModel>) {
    if is_match {
        let sep: Seq<RecModel> = if st.first_emitted && st.sep_owed && st.n > 0 {
            seq![RecModel::Separator]
        } else {
            Seq::empty()
        };
        (
            EngineModel {
                buf: Seq::empty(),
                trailing: true,
                first_emitted: true,
                sep_owed: false,
                ..st
            },
            sep + recs_of_lines(st.buf) + seq![line_rec(line)],
        )
    } else if st.trailing && st.buf.len() == st.n {
        let flushed = EngineModel { buf: Seq::empty(), trailing: false, sep_owed: false, ..st };
        (spec_push(flushed, line), recs_of_lines(st.buf))
    } else {
        (spec_push(st, line), Seq::empty())
    }
}

/// End of input: a still-pending trailing window is flushed, nothing else.
pub open spec fn spec_finish(st: EngineModel) -> Seq<RecModel> {
    if st.trailing {
        recs_of_lines(st.buf)
    } else {
        Seq::empty()
    }
}

/// The records emitted by running the engine from `st` over `lines`,
/// finishing at end of input.
pub open spec fn spec_run_from(
    st: EngineModel,
    lines: Seq<LineModel>,
    p: spec_fn(Seq<char>) -> bool,
) -> Seq<RecModel>
    decreases lines.len(),
{
    if lines.len() == 0 {
        spec_finish(st)
    } else {
        let stepped = spec_step(st, lines[0], p(lines[0].text));
        stepped.1 + spec_run_from(stepped.0, lines.drop_first(), p)
    }
}

/// The input texts paired with their 0-based positions.
pub open spec fn indexed(texts: Seq<Seq<char>>) -> Seq<LineModel> {
    Seq::new(texts.len(), |i: int| LineModel { index: i, text: texts[i] })
}

/// The whole pass: context size `n`, input `texts`, match predicate `p`.
pub open spec fn spec_run(n: nat, texts: Seq<Seq<char>>, p: spec_fn(Seq<char>) -> bool) -> Seq<
    RecModel,
> {
    spec_run_from(init_state(n), indexed(texts), p)
}

} // verus!
