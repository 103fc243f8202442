//! The single-pass engine: output records, ordered emission of buffered
//! lines, and the per-line state machine, each proved to implement the
//! mathematical model in `model`.
use crate::matcher::{accepts_fn, Matcher, MatcherModel};
use crate::model::{
    init_state, indexed, line_rec, recs_of_lines, spec_finish, spec_run, spec_run_from, spec_step,
    EngineModel, LineModel, RecModel,
};
use crate::window::{ContextWindow, Line};
use vstd::prelude::*;

verus! {

/// One output record: a group separator, or an emitted line. Emitted lines
/// carry their 0-based input position for the caller to render.
pub enum OutputRecord {
    Separator,
    MatchedLine { index: usize, text: String },
}

impl View for OutputRecord {
    type V = RecModel;

    open spec fn view(&self) -> RecModel {
        match self {
            OutputRecord::Separator => RecModel::Separator,
            OutputRecord::MatchedLine { index, text } => RecModel::MatchedLine {
                index: *index as int,
                text: text@,
            },
        }
    }
}

/// The abstract records behind a run of output records.
pub open spec fn recs_view(s: Seq<OutputRecord>) -> Seq<RecModel> {
    s.map_values(|r: OutputRecord| r@)
}

pub proof fn lemma_recs_view_concat(a: Seq<OutputRecord>, b: Seq<OutputRecord>)
    ensures
        recs_view(a + b) == recs_view(a) + recs_view(b),
{
    assert(recs_view(a + b) =~= recs_view(a) + recs_view(b));
}

/// Whether the engine is between groups or still within the trailing
/// window of the latest match.
#[derive(Clone, Copy, PartialEq, Eq, Structural, Debug)]
pub enum Phase {
    Idle,
    Trailing,
}

/// Drains the window, appending one record per buffered line to `out`,
/// oldest first, and leaves the window empty.
pub fn print_ctx(ctx_buffer: &mut ContextWindow, out: &mut Vec<OutputRecord>)
    requires
        old(ctx_buffer).wf(),
    ensures
        final(ctx_buffer).wf(),
        final(ctx_buffer)@ == Seq::<LineModel>::empty(),
        final(ctx_buffer).cap() == old(ctx_buffer).cap(),
        final(out)@.len() == old(out)@.len() + old(ctx_buffer)@.len(),
        final(out)@.subrange(0, old(out)@.len() as int) == old(out)@,
        recs_view(final(out)@.skip(old(out)@.len() as int)) == recs_of_lines(old(ctx_buffer)@),
{
    let ghost out0 = out@;
    let ghost win0 = ctx_buffer@;
    let ghost mut k: int = 0;
    while ctx_buffer.len() > 0
        invariant
            ctx_buffer.wf(),
            ctx_buffer.cap() == old(ctx_buffer).cap(),
            0 <= k <= win0.len(),
            ctx_buffer@ == win0.skip(k),
            out@.len() == out0.len() + k,
            out@.subrange(0, out0.len() as int) == out0,
            recs_view(out@.skip(out0.len() as int)) == recs_of_lines(win0.take(k)),
        decreases ctx_buffer@.len(),
    {
        let l = ctx_buffer.pop_front();
        proof {
            assert(l@ == win0.skip(k)[0]);
            assert(win0.skip(k)[0] == win0[k]);
        }
        let ghost out_before = out@;
        out.push(OutputRecord::MatchedLine { index: l.index, text: l.text });
        proof {
            assert(ctx_buffer@ =~= win0.skip(k + 1));
            assert(out@.subrange(0, out0.len() as int) =~= out0);
            assert(out@.skip(out0.len() as int) =~= out_before.skip(out0.len() as int).push(
                OutputRecord::MatchedLine { index: l.index, text: l.text },
            ));
            assert(recs_view(out@.skip(out0.len() as int)) =~= recs_of_lines(win0.take(k)).push(
                line_rec(win0[k]),
            ));
            assert(recs_of_lines(win0.take(k + 1)) =~= recs_of_lines(win0.take(k)).push(
                line_rec(win0[k]),
            ));
            k = k + 1;
        }
    }
    proof {
        assert(win0.skip(k).len() == 0);
        assert(k == win0.len());
        assert(ctx_buffer@ =~= Seq::<LineModel>::empty());
        assert(win0.take(k) =~= win0);
    }
}

/// Drives the single pass: for each incoming line it consults the matcher,
/// updates the window and the group flags, and appends the records the
/// model prescribes.
pub struct ContextEngine {
    pub matcher: Matcher,
    pub window: ContextWindow,
    pub phase: Phase,
    pub first_emitted: bool,
    pub sep_owed: bool,
}

impl ContextEngine {
    /// The engine's mathematical state.
    pub open spec fn st(&self) -> EngineModel {
        EngineModel {
            n: self.window.cap(),
            buf: self.window@,
            trailing: self.phase is Trailing,
            first_emitted: self.first_emitted,
            sep_owed: self.sep_owed,
        }
    }

    /// The matcher's abstract view.
    pub open spec fn m(&self) -> MatcherModel {
        self.matcher@
    }

    pub open spec fn wf(&self) -> bool {
        self.window.wf() && self.matcher.wf()
    }

    /// A fresh engine for one pass with the given matcher and context size.
    pub fn new(matcher: Matcher, context_size: usize) -> (r: ContextEngine)
        requires
            matcher.wf(),
        ensures
            r.wf(),
            r.st() == init_state(context_size as nat),
            r.m() == matcher@,
    {
        let r = ContextEngine {
            matcher,
            window: ContextWindow::new(context_size),
            phase: Phase::Idle,
            first_emitted: false,
            sep_owed: false,
        };
        proof {
            assert(r.st() =~= init_state(context_size as nat));
        }
        r
    }

    /// Consumes one input line and appends exactly the records that one
    /// step of the model emits for it.
    pub fn process_line(&mut self, line: Line, out: &mut Vec<OutputRecord>)
        requires
            old(self).wf(),
        ensures
            final(self).wf(),
            final(self).m() == old(self).m(),
            final(out)@.len() >= old(out)@.len(),
            final(out)@.subrange(0, old(out)@.len() as int) == old(out)@,
            final(self).st() == spec_step(
                old(self).st(),
                line@,
                old(self).m().accepts(line@.text),
            ).0,
            recs_view(final(out)@.skip(old(out)@.len() as int)) == spec_step(
                old(self).st(),
                line@,
                old(self).m().accepts(line@.text),
            ).1,
    {
        let ghost st0 = self.st();
        let ghost out0 = out@;
        let ghost lm = line@;
        let is_match = self.matcher.test(line.text.as_str());
        if is_match {
            if self.first_emitted && self.sep_owed && self.window.capacity() > 0 {
                out.push(OutputRecord::Separator);
            }
            let ghost out_sep = out@;
            print_ctx(&mut self.window, out);
            let ghost out_ctx = out@;
            out.push(OutputRecord::MatchedLine { index: line.index, text: line.text });
            self.first_emitted = true;
            self.sep_owed = false;
            self.phase = Phase::Trailing;
            proof {
                assert(self.st() =~= spec_step(st0, lm, true).0);
                let a = out_sep.skip(out0.len() as int);
                let b = out_ctx.skip(out_sep.len() as int);
                let c = out@.skip(out_ctx.len() as int);
                assert(forall|i: int| 0 <= i < out0.len() ==> #[trigger] out_sep[i] == out0[i]);
                assert(forall|i: int|
                    0 <= i < out_sep.len() ==> #[trigger] out_ctx[i] == out_sep[i]) by {
                    assert(out_ctx.subrange(0, out_sep.len() as int) == out_sep);
                    assert(forall|i: int|
                        0 <= i < out_sep.len() ==> out_ctx.subrange(0, out_sep.len() as int)[i]
                            == #[trigger] out_ctx[i]);
                };
                assert(out@.subrange(0, out0.len() as int) =~= out0);
                assert(out@.skip(out0.len() as int) =~= a + b + c);
                lemma_recs_view_concat(a + b, c);
                lemma_recs_view_concat(a, b);
                let sep: Seq<RecModel> = if st0.first_emitted && st0.sep_owed && st0.n > 0 {
                    seq![RecModel::Separator]
                } else {
                    Seq::empty()
                };
                assert(recs_view(a) =~= sep);
                assert(recs_view(c) =~= seq![line_rec(lm)]);
                assert(recs_view(out@.skip(out0.len() as int)) =~= spec_step(st0, lm, true).1);
            }
        } else {
            let full = self.window.is_full();
            if self.phase == Phase::Trailing && full {
                print_ctx(&mut self.window, out);
                self.phase = Phase::Idle;
                self.sep_owed = false;
                let evicted = self.window.push(line);
                if evicted {
                    self.sep_owed = true;
                }
                proof {
                    assert(self.st() =~= spec_step(st0, lm, false).0);
                    assert(recs_view(out@.skip(out0.len() as int)) =~= spec_step(
                        st0,
                        lm,
                        false,
                    ).1);
                }
            } else {
                let evicted = self.window.push(line);
                if evicted {
                    self.sep_owed = true;
                }
                proof {
                    assert(self.st() =~= spec_step(st0, lm, false).0);
                    assert(out@.skip(out0.len() as int) =~= Seq::<OutputRecord>::empty());
                    assert(recs_view(out@.skip(out0.len() as int)) =~= Seq::<RecModel>::empty());
                }
            }
        }
    }

    /// End of input: flushes a still-pending trailing window, appending
    /// exactly the records the model's finish emits.
    pub fn finish(&mut self, out: &mut Vec<OutputRecord>)
        requires
            old(self).wf(),
        ensures
            final(self).wf(),
            final(self).m() == old(self).m(),
            final(out)@.len() >= old(out)@.len(),
            final(out)@.subrange(0, old(out)@.len() as int) == old(out)@,
            recs_view(final(out)@.skip(old(out)@.len() as int)) == spec_finish(old(self).st()),
    {
        if self.phase == Phase::Trailing {
            print_ctx(&mut self.window, out);
            self.phase = Phase::Idle;
        } else {
            proof {
                assert(out@.subrange(0, out@.len() as int) =~= out@);
                assert(out@.skip(out@.len() as int) =~= Seq::<OutputRecord>::empty());
                assert(recs_view(Seq::<OutputRecord>::empty()) =~= Seq::<RecModel>::empty());
            }
        }
    }
}

/// Runs one whole pass over `texts` with the given matcher and context
/// size and returns every output record, exactly as the model prescribes.
pub fn run_engine(matcher: Matcher, context_size: usize, texts: Vec<String>) -> (out: Vec<
    OutputRecord,
>)
    requires
        matcher.wf(),
    ensures
        recs_view(out@) == spec_run(
            context_size as nat,
            texts@.map_values(|t: String| t@),
            accepts_fn(matcher@),
        ),
{
    let ghost m0 = matcher@;
    let ghost texts_v: Seq<Seq<char>> = texts@.map_values(|t: String| t@);
    let ghost p = accepts_fn(m0);
    let ghost all = indexed(texts_v);
    let mut engine = ContextEngine::new(matcher, context_size);
    let mut out: Vec<OutputRecord> = Vec::new();
    let n = texts.len();
    proof {
        assert(recs_view(out@) =~= Seq::<RecModel>::empty());
        assert(all.skip(0) =~= all);
    }
    let mut i: usize = 0;
    while i < n
        invariant
            engine.wf(),
            engine.m() == m0,
            i <= n,
            n == texts@.len(),
            texts_v == texts@.map_values(|t: String| t@),
            p == accepts_fn(m0),
            all == indexed(texts_v),
            recs_view(out@) + spec_run_from(engine.st(), all.skip(i as int), p) == spec_run(
                context_size as nat,
                texts_v,
                p,
            ),
        decreases n - i,
    {
        let text = texts[i].clone();
        let line = Line { index: i, text };
        let ghost st_before = engine.st();
        let ghost out_before = out@;
        let ghost rest = all.skip(i as int);
        proof {
            assert(rest.len() == n - i);
            assert(rest[0] == all[i as int]);
            assert(line@ == (LineModel { index: i as int, text: texts_v[i as int] }));
            assert(rest[0] == line@);
            assert(rest.drop_first() =~= all.skip(i as int + 1));
            assert(p(line@.text) == m0.accepts(line@.text));
        }
        engine.process_line(line, &mut out);
        proof {
            let stepped = spec_step(st_before, line@, m0.accepts(line@.text));
            assert(spec_run_from(st_before, rest, p) == stepped.1 + spec_run_from(
                stepped.0,
                rest.drop_first(),
                p,
            ));
            assert(out@ =~= out@.subrange(0, out_before.len() as int) + out@.skip(
                out_before.len() as int,
            ));
            lemma_recs_view_concat(
                out@.subrange(0, out_before.len() as int),
                out@.skip(out_before.len() as int),
            );
        }
        i += 1;
    }
    proof {
        assert(all.skip(n as int) =~= Seq::<LineModel>::empty());
        assert(spec_run_from(engine.st(), all.skip(n as int), p) == spec_finish(engine.st()));
    }
    let ghost out_before = out@;
    engine.finish(&mut out);
    proof {
        assert(out@ =~= out@.subrange(0, out_before.len() as int) + out@.skip(
            out_before.len() as int,
        ));
        lemma_recs_view_concat(
            out@.subrange(0, out_before.len() as int),
            out@.skip(out_before.len() as int),
        );
    }
    out
}

} // verus!
