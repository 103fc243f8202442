//! The engine's laws: properties of a whole pass, proved once about the
//! model in `model` and thereby holding of the verified engine, whose
//! contracts pin its output to that model.
use crate::model::{
    indexed, init_state, line_rec, recs_of_lines, spec_finish, spec_push, spec_run, spec_run_from,
    spec_step, EngineModel, LineModel, RecModel,
};
use vstd::prelude::*;

verus! {

/// Whether a record emits a line (as opposed to separating groups).
pub open spec fn is_line(r: RecModel) -> bool {
    r is MatchedLine
}

/// The input position a line record emits (meaningless for a separator).
pub open spec fn rec_index(r: RecModel) -> int {
    match r {
        RecModel::MatchedLine { index, .. } => index,
        RecModel::Separator => -1,
    }
}

/// Every line record reproduces an input line: its position is in range and
/// its text is that line's text.
pub open spec fn out_faithful(out: Seq<RecModel>, texts: Seq<Seq<char>>) -> bool {
    forall|i: int|
        0 <= i < out.len() && is_line(#[trigger] out[i]) ==> 0 <= rec_index(out[i]) < texts.len()
            && out[i] == line_rec(indexed(texts)[rec_index(out[i])])
}

/// Line records appear in strictly increasing input order.
pub open spec fn out_ordered(out: Seq<RecModel>) -> bool {
    forall|i: int, j: int|
        0 <= i < j < out.len() && is_line(#[trigger] out[i]) && is_line(#[trigger] out[j])
            ==> rec_index(out[i]) < rec_index(out[j])
}

/// Every line record's position is at least `lo`.
pub open spec fn out_at_least(out: Seq<RecModel>, lo: int) -> bool {
    forall|i: int| 0 <= i < out.len() && is_line(#[trigger] out[i]) ==> rec_index(out[i]) >= lo
}

/// Every line record's position is strictly below `hi`.
pub open spec fn out_below(out: Seq<RecModel>, hi: int) -> bool {
    forall|i: int| 0 <= i < out.len() && is_line(#[trigger] out[i]) ==> rec_index(out[i]) < hi
}

/// Every matching input line at or after `pos` is emitted.
pub open spec fn out_covers(
    out: Seq<RecModel>,
    texts: Seq<Seq<char>>,
    pos: int,
    p: spec_fn(Seq<char>) -> bool,
) -> bool {
    forall|k: int|
        pos <= k < texts.len() && p(#[trigger] texts[k]) ==> out.contains(
            line_rec(indexed(texts)[k]),
        )
}

/// What holds of a running engine's pending lines, measured against the
/// input: strictly increasing positions, all before `pos`, none matching,
/// each holding the text of the input line at its position.
pub open spec fn buf_ok(
    st: EngineModel,
    texts: Seq<Seq<char>>,
    pos: int,
    p: spec_fn(Seq<char>) -> bool,
) -> bool {
    &&& forall|k: int, l: int|
        0 <= k < l < st.buf.len() ==> #[trigger] st.buf[k].index < #[trigger] st.buf[l].index
    &&& forall|k: int| 0 <= k < st.buf.len() ==> 0 <= #[trigger] st.buf[k].index < pos
    &&& forall|k: int| 0 <= k < st.buf.len() ==> !p(#[trigger] st.buf[k].text)
    &&& forall|k: int|
        0 <= k < st.buf.len() ==> #[trigger] st.buf[k].text == texts[st.buf[k].index]
}

/// The smallest position the rest of the pass may still emit: the oldest
/// pending line, or the next input position.
pub open spec fn low_bound(st: EngineModel, pos: int) -> int {
    if st.buf.len() > 0 {
        st.buf[0].index
    } else {
        pos
    }
}

proof fn lemma_add_contains(a: Seq<RecModel>, b: Seq<RecModel>)
    ensures
        forall|x: RecModel| a.contains(x) ==> #[trigger] (a + b).contains(x),
        forall|x: RecModel| b.contains(x) ==> #[trigger] (a + b).contains(x),
{
    assert forall|x: RecModel| a.contains(x) implies #[trigger] (a + b).contains(x) by {
        let i = choose|i: int| 0 <= i < a.len() && a[i] == x;
        assert((a + b)[i] == x);
    };
    assert forall|x: RecModel| b.contains(x) implies #[trigger] (a + b).contains(x) by {
        let j = choose|j: int| 0 <= j < b.len() && b[j] == x;
        assert((a + b)[a.len() + j] == x);
    };
}

proof fn lemma_glue(a: Seq<RecModel>, b: Seq<RecModel>, texts: Seq<Seq<char>>, cut: int)
    requires
        out_ordered(a),
        out_ordered(b),
        out_faithful(a, texts),
        out_faithful(b, texts),
        out_below(a, cut),
        out_at_least(b, cut),
    ensures
        out_ordered(a + b),
        out_faithful(a + b, texts),
{
    assert forall|i: int, j: int|
        0 <= i < j < (a + b).len() && is_line(#[trigger] (a + b)[i]) && is_line(
            #[trigger] (a + b)[j],
        ) implies rec_index((a + b)[i]) < rec_index((a + b)[j]) by {
        if j < a.len() {
            assert((a + b)[i] == a[i] && (a + b)[j] == a[j]);
        } else if i >= a.len() {
            assert((a + b)[i] == b[i - a.len()] && (a + b)[j] == b[j - a.len()]);
        } else {
            assert((a + b)[i] == a[i] && (a + b)[j] == b[j - a.len()]);
        }
    };
    assert forall|i: int|
        0 <= i < (a + b).len() && is_line(#[trigger] (a + b)[i]) implies 0 <= rec_index(
        (a + b)[i],
    ) < texts.len() && (a + b)[i] == line_rec(indexed(texts)[rec_index((a + b)[i])]) by {
        if i < a.len() {
            assert((a + b)[i] == a[i]);
        } else {
            assert((a + b)[i] == b[i - a.len()]);
        }
    };
}

proof fn lemma_run_from_props(
    st: EngineModel,
    texts: Seq<Seq<char>>,
    pos: int,
    p: spec_fn(Seq<char>) -> bool,
)
    requires
        0 <= pos <= texts.len(),
        buf_ok(st, texts, pos, p),
    ensures
        out_ordered(spec_run_from(st, indexed(texts).skip(pos), p)),
        out_faithful(spec_run_from(st, indexed(texts).skip(pos), p), texts),
        out_at_least(spec_run_from(st, indexed(texts).skip(pos), p), low_bound(st, pos)),
        out_covers(spec_run_from(st, indexed(texts).skip(pos), p), texts, pos, p),
    decreases texts.len() - pos,
{
    let all = indexed(texts);
    let rest = all.skip(pos);
    let out = spec_run_from(st, rest, p);
    assert(forall|k: int|
        0 < k < st.buf.len() ==> low_bound(st, pos) <= #[trigger] st.buf[k].index);
    if pos == texts.len() {
        assert(rest.len() == 0);
        assert(out == spec_finish(st));
        if st.trailing {
            assert(out == recs_of_lines(st.buf));
            assert(forall|i: int| 0 <= i < out.len() ==> out[i] == line_rec(st.buf[i]));
            assert(out_ordered(out));
            assert(out_faithful(out, texts));
            assert(out_at_least(out, low_bound(st, pos)));
        } else {
            assert(out.len() == 0);
        }
    } else {
        let line = all[pos];
        assert(rest[0] == line);
        assert(rest.drop_first() =~= all.skip(pos + 1));
        assert(line.text == texts[pos]);
        let m = p(line.text);
        let stepped = spec_step(st, line, m);
        let st2 = stepped.0;
        let emitted = stepped.1;
        let out2 = spec_run_from(st2, all.skip(pos + 1), p);
        assert(out == emitted + out2);
        if m {
            let sep: Seq<RecModel> = if st.first_emitted && st.sep_owed && st.n > 0 {
                seq![RecModel::Separator]
            } else {
                Seq::empty()
            };
            let sepn = sep.len() as int;
            assert(emitted == sep + recs_of_lines(st.buf) + seq![line_rec(line)]);
            assert(forall|i: int| 0 <= i < sepn ==> !is_line(#[trigger] emitted[i]));
            assert(forall|i: int|
                0 <= i < st.buf.len() ==> #[trigger] emitted[sepn + i] == line_rec(st.buf[i]));
            assert(emitted[sepn + st.buf.len()] == line_rec(line));
            assert(emitted.len() == sepn + st.buf.len() + 1);
            assert forall|i: int|
                0 <= i < emitted.len() && is_line(#[trigger] emitted[i]) implies low_bound(st, pos)
                <= rec_index(emitted[i]) < pos + 1 && 0 <= rec_index(emitted[i]) < texts.len()
                && emitted[i] == line_rec(indexed(texts)[rec_index(emitted[i])]) by {
                if i < sepn {
                } else if i < sepn + st.buf.len() {
                    assert(emitted[i] == line_rec(st.buf[i - sepn]));
                } else {
                    assert(emitted[i] == line_rec(line));
                }
            };
            assert forall|i: int, j: int|
                0 <= i < j < emitted.len() && is_line(#[trigger] emitted[i]) && is_line(
                    #[trigger] emitted[j],
                ) implies rec_index(emitted[i]) < rec_index(emitted[j]) by {
                assert(sepn <= i);
                if j < sepn + st.buf.len() {
                    assert(emitted[i] == line_rec(st.buf[i - sepn]));
                    assert(emitted[j] == line_rec(st.buf[j - sepn]));
                } else {
                    assert(emitted[i] == line_rec(st.buf[i - sepn]));
                    assert(emitted[j] == line_rec(line));
                }
            };
            assert(buf_ok(st2, texts, pos + 1, p));
            lemma_run_from_props(st2, texts, pos + 1, p);
            assert(low_bound(st2, pos + 1) == pos + 1);
            lemma_glue(emitted, out2, texts, pos + 1);
            lemma_add_contains(emitted, out2);
            assert(out_at_least(out, low_bound(st, pos)));
            assert forall|k: int|
                pos <= k < texts.len() && p(#[trigger] texts[k]) implies out.contains(
                line_rec(indexed(texts)[k]),
            ) by {
                if k == pos {
                    assert(emitted[sepn + st.buf.len()] == line_rec(all[pos]));
                    assert(emitted.contains(line_rec(all[pos])));
                } else {
                    assert(out2.contains(line_rec(all[k])));
                }
            };
        } else {
            if st.trailing && st.buf.len() == st.n {
                let flushed = EngineModel {
                    buf: Seq::empty(),
                    trailing: false,
                    sep_owed: false,
                    ..st
                };
                assert(st2 == spec_push(flushed, line));
                assert(emitted == recs_of_lines(st.buf));
                assert(forall|i: int|
                    0 <= i < emitted.len() ==> #[trigger] emitted[i] == line_rec(st.buf[i]));
                assert(out_ordered(emitted));
                assert(out_faithful(emitted, texts));
                assert(out_at_least(emitted, low_bound(st, pos)));
                assert(out_below(emitted, pos));
                if st.n == 0 {
                    assert(st2.buf.len() == 0);
                } else {
                    assert(st2.buf =~= Seq::empty().push(line));
                    assert(st2.buf.len() == 1 && st2.buf[0] == line);
                }
                assert(buf_ok(st2, texts, pos + 1, p));
                lemma_run_from_props(st2, texts, pos + 1, p);
                assert(low_bound(st2, pos + 1) >= pos);
                lemma_glue(emitted, out2, texts, pos);
                lemma_add_contains(emitted, out2);
                assert(out_at_least(out, low_bound(st, pos)));
                assert forall|k: int|
                    pos <= k < texts.len() && p(#[trigger] texts[k]) implies out.contains(
                    line_rec(indexed(texts)[k]),
                ) by {
                    assert(k != pos);
                    assert(out2.contains(line_rec(all[k])));
                };
            } else {
                assert(st2 == spec_push(st, line));
                assert(emitted.len() == 0);
                if st.n == 0 {
                    assert(st2.buf == st.buf);
                } else if st.buf.len() >= st.n {
                    assert(st2.buf == st.buf.drop_first().push(line));
                    assert(st2.buf.len() == st.buf.len());
                    assert(forall|k: int|
                        0 <= k < st.buf.len() - 1 ==> #[trigger] st2.buf[k] == st.buf[k + 1]);
                    assert(st2.buf[st.buf.len() - 1] == line);
                } else {
                    assert(st2.buf == st.buf.push(line));
                }
                assert(buf_ok(st2, texts, pos + 1, p));
                lemma_run_from_props(st2, texts, pos + 1, p);
                assert(low_bound(st2, pos + 1) >= low_bound(st, pos));
                assert(out =~= out2);
                assert(out_at_least(out, low_bound(st, pos)));
                assert forall|k: int|
                    pos <= k < texts.len() && p(#[trigger] texts[k]) implies out.contains(
                    line_rec(indexed(texts)[k]),
                ) by {
                    assert(k != pos);
                    assert(out2.contains(line_rec(all[k])));
                };
            }
        }
    }
}

/// Law: over a whole pass, every matching input line is emitted, every
/// emitted line is an input line, and emitted lines come in strictly
/// increasing input order — so each matching line appears exactly once, in
/// original order, and no line is ever duplicated (in particular, merged
/// groups never repeat a line).
pub proof fn lemma_matching_lines_exactly_once(
    n: nat,
    texts: Seq<Seq<char>>,
    p: spec_fn(Seq<char>) -> bool,
)
    ensures
        out_ordered(spec_run(n, texts, p)),
        out_faithful(spec_run(n, texts, p), texts),
        out_covers(spec_run(n, texts, p), texts, 0, p),
        forall|i: int, j: int|
            0 <= i < j < spec_run(n, texts, p).len() && is_line(#[trigger] spec_run(n, texts, p)[i])
                ==> spec_run(n, texts, p)[i] != #[trigger] spec_run(n, texts, p)[j],
{
    lemma_run_from_props(init_state(n), texts, 0, p);
    assert(indexed(texts).skip(0) =~= indexed(texts));
    let out = spec_run(n, texts, p);
    assert forall|i: int, j: int|
        0 <= i < j < out.len() && is_line(#[trigger] out[i]) implies out[i] != #[trigger] out[j] by {
        if out[i] == out[j] {
            assert(is_line(out[j]));
            assert(rec_index(out[i]) < rec_index(out[j]));
        }
    };
}

/// The matching lines at or after `pos`, each as its output record, in
/// input order.
pub open spec fn matched_recs_from(
    texts: Seq<Seq<char>>,
    pos: int,
    p: spec_fn(Seq<char>) -> bool,
) -> Seq<RecModel>
    decreases texts.len() - pos,
{
    if 0 <= pos < texts.len() {
        let rest = matched_recs_from(texts, pos + 1, p);
        if p(texts[pos]) {
            seq![line_rec(indexed(texts)[pos])] + rest
        } else {
            rest
        }
    } else {
        Seq::empty()
    }
}

proof fn lemma_zero_context_from(
    st: EngineModel,
    texts: Seq<Seq<char>>,
    pos: int,
    p: spec_fn(Seq<char>) -> bool,
)
    requires
        0 <= pos <= texts.len(),
        st.n == 0,
        st.buf.len() == 0,
    ensures
        spec_run_from(st, indexed(texts).skip(pos), p) == matched_recs_from(texts, pos, p),
    decreases texts.len() - pos,
{
    let all = indexed(texts);
    let rest = all.skip(pos);
    if pos == texts.len() {
        assert(rest.len() == 0);
        assert(recs_of_lines(st.buf) =~= Seq::<RecModel>::empty());
        assert(spec_finish(st) =~= Seq::<RecModel>::empty());
    } else {
        let line = all[pos];
        assert(rest[0] == line);
        assert(rest.drop_first() =~= all.skip(pos + 1));
        let m = p(line.text);
        let stepped = spec_step(st, line, m);
        assert(stepped.0.n == 0 && stepped.0.buf.len() == 0);
        lemma_zero_context_from(stepped.0, texts, pos + 1, p);
        if m {
            assert(stepped.1 =~= seq![line_rec(line)]);
        } else {
            assert(stepped.1 =~= Seq::<RecModel>::empty());
            assert(stepped.1 + matched_recs_from(texts, pos + 1, p) =~= matched_recs_from(
                texts,
                pos + 1,
                p,
            ));
        }
    }
}

proof fn lemma_matched_recs_all_lines(texts: Seq<Seq<char>>, pos: int, p: spec_fn(Seq<char>) -> bool)
    ensures
        forall|i: int|
            0 <= i < matched_recs_from(texts, pos, p).len() ==> is_line(
                #[trigger] matched_recs_from(texts, pos, p)[i],
            ),
    decreases texts.len() - pos,
{
    if 0 <= pos < texts.len() {
        lemma_matched_recs_all_lines(texts, pos + 1, p);
        let cur = matched_recs_from(texts, pos, p);
        let rest = matched_recs_from(texts, pos + 1, p);
        assert forall|i: int| 0 <= i < cur.len() implies is_line(#[trigger] cur[i]) by {
            if p(texts[pos]) {
                if i == 0 {
                    assert(cur[0] == line_rec(indexed(texts)[pos]));
                } else {
                    assert(cur[i] == rest[i - 1]);
                }
            } else {
                assert(cur[i] == rest[i]);
            }
        };
    }
}

/// Law: with context size 0 the pass prints exactly the matching lines, in
/// order, and never prints a separator.
pub proof fn lemma_zero_context(texts: Seq<Seq<char>>, p: spec_fn(Seq<char>) -> bool)
    ensures
        spec_run(0, texts, p) == matched_recs_from(texts, 0, p),
        forall|i: int|
            0 <= i < spec_run(0, texts, p).len() ==> is_line(#[trigger] spec_run(0, texts, p)[i]),
{
    lemma_zero_context_from(init_state(0), texts, 0, p);
    assert(indexed(texts).skip(0) =~= indexed(texts));
    lemma_matched_recs_all_lines(texts, 0, p);
}

#[verifier::rlimit(60)]
proof fn lemma_trailing_all(
    st: EngineModel,
    texts: Seq<Seq<char>>,
    pos: int,
    p: spec_fn(Seq<char>) -> bool,
)
    requires
        0 <= pos <= texts.len(),
        st.trailing,
        !st.sep_owed,
        st.n >= st.buf.len() + (texts.len() - pos),
    ensures
        spec_run_from(st, indexed(texts).skip(pos), p) == recs_of_lines(st.buf) + recs_of_lines(
            indexed(texts).skip(pos),
        ),
    decreases texts.len() - pos,
{
    let all = indexed(texts);
    let rest = all.skip(pos);
    if pos == texts.len() {
        assert(rest.len() == 0);
        assert(recs_of_lines(rest) =~= Seq::<RecModel>::empty());
        assert(spec_finish(st) =~= recs_of_lines(st.buf) + recs_of_lines(rest));
    } else {
        let line = all[pos];
        assert(rest[0] == line);
        assert(rest.drop_first() =~= all.skip(pos + 1));
        let m = p(line.text);
        let stepped = spec_step(st, line, m);
        let st2 = stepped.0;
        let out2 = spec_run_from(st2, all.skip(pos + 1), p);
        if m {
            assert(stepped.1 =~= recs_of_lines(st.buf) + seq![line_rec(line)]);
            assert(st2.trailing && !st2.sep_owed && st2.buf.len() == 0);
            lemma_trailing_all(st2, texts, pos + 1, p);
            assert(out2 =~= recs_of_lines(all.skip(pos + 1)));
            assert(recs_of_lines(rest) =~= seq![line_rec(line)] + recs_of_lines(
                all.skip(pos + 1),
            ));
            assert(stepped.1 + out2 =~= recs_of_lines(st.buf) + recs_of_lines(rest));
        } else {
            assert(st.buf.len() < st.n);
            assert(st2 == spec_push(st, line));
            assert(st2.buf == st.buf.push(line));
            assert(st2.trailing && !st2.sep_owed);
            lemma_trailing_all(st2, texts, pos + 1, p);
            assert(stepped.1 =~= Seq::<RecModel>::empty());
            assert(recs_of_lines(st.buf.push(line)) =~= recs_of_lines(st.buf).push(
                line_rec(line),
            ));
            assert(recs_of_lines(rest) =~= seq![line_rec(line)] + recs_of_lines(
                all.skip(pos + 1),
            ));
            assert(stepped.1 + out2 =~= recs_of_lines(st.buf) + recs_of_lines(rest));
        }
    }
}

#[verifier::rlimit(60)]
proof fn lemma_idle_prefix(
    st: EngineModel,
    texts: Seq<Seq<char>>,
    pos: int,
    p: spec_fn(Seq<char>) -> bool,
)
    requires
        0 <= pos <= texts.len(),
        !st.trailing,
        !st.sep_owed,
        st.n >= st.buf.len() + (texts.len() - pos),
        exists|k: int| pos <= k < texts.len() && p(#[trigger] texts[k]),
    ensures
        spec_run_from(st, indexed(texts).skip(pos), p) == recs_of_lines(st.buf) + recs_of_lines(
            indexed(texts).skip(pos),
        ),
    decreases texts.len() - pos,
{
    let all = indexed(texts);
    let rest = all.skip(pos);
    assert(pos < texts.len());
    let line = all[pos];
    assert(rest[0] == line);
    assert(rest.drop_first() =~= all.skip(pos + 1));
    let m = p(line.text);
    let stepped = spec_step(st, line, m);
    let st2 = stepped.0;
    let out2 = spec_run_from(st2, all.skip(pos + 1), p);
    if m {
        assert(stepped.1 =~= recs_of_lines(st.buf) + seq![line_rec(line)]);
        assert(st2.trailing && !st2.sep_owed && st2.buf.len() == 0);
        lemma_trailing_all(st2, texts, pos + 1, p);
        assert(out2 =~= recs_of_lines(all.skip(pos + 1)));
        assert(recs_of_lines(rest) =~= seq![line_rec(line)] + recs_of_lines(all.skip(pos + 1)));
        assert(stepped.1 + out2 =~= recs_of_lines(st.buf) + recs_of_lines(rest));
    } else {
        assert(st.buf.len() < st.n);
        assert(st2 == spec_push(st, line));
        assert(st2.buf == st.buf.push(line));
        assert(!st2.trailing && !st2.sep_owed);
        let k = choose|k: int| pos <= k < texts.len() && p(#[trigger] texts[k]);
        assert(line.text == texts[pos]);
        assert(k != pos);
        assert(pos + 1 <= k < texts.len() && p(texts[k]));
        lemma_idle_prefix(st2, texts, pos + 1, p);
        assert(stepped.1 =~= Seq::<RecModel>::empty());
        assert(recs_of_lines(st.buf.push(line)) =~= recs_of_lines(st.buf).push(line_rec(line)));
        assert(recs_of_lines(rest) =~= seq![line_rec(line)] + recs_of_lines(all.skip(pos + 1)));
        assert(stepped.1 + out2 =~= recs_of_lines(st.buf) + recs_of_lines(rest));
    }
}

/// Law: with a context size at least the number of input lines and at
/// least one matching line, the output is the entire input, in order, as a
/// single group with no separator.
pub proof fn lemma_full_window_round_trip(
    n: nat,
    texts: Seq<Seq<char>>,
    p: spec_fn(Seq<char>) -> bool,
)
    requires
        n >= texts.len(),
        exists|k: int| 0 <= k < texts.len() && p(#[trigger] texts[k]),
    ensures
        spec_run(n, texts, p) == recs_of_lines(indexed(texts)),
{
    lemma_idle_prefix(init_state(n), texts, 0, p);
    assert(indexed(texts).skip(0) =~= indexed(texts));
    assert(recs_of_lines(init_state(n).buf) + recs_of_lines(indexed(texts)) =~= recs_of_lines(
        indexed(texts),
    ));
}

/// Law: the pass is a pure function of the configuration, the input lines
/// and the match predicate; running it again on equal inputs yields equal
/// output, record for record.
pub proof fn lemma_rerun_identical(
    n1: nat,
    texts1: Seq<Seq<char>>,
    p1: spec_fn(Seq<char>) -> bool,
    n2: nat,
    texts2: Seq<Seq<char>>,
    p2: spec_fn(Seq<char>) -> bool,
)
    requires
        n1 == n2,
        texts1 == texts2,
        p1 == p2,
    ensures
        spec_run(n1, texts1, p1) == spec_run(n2, texts2, p2),
{
}

/// The engine's state just before the line at `pos` is consumed.
pub open spec fn state_at(n: nat, texts: Seq<Seq<char>>, p: spec_fn(Seq<char>) -> bool, pos: int) -> EngineModel
    decreases pos,
{
    if pos <= 0 {
        init_state(n)
    } else {
        spec_step(state_at(n, texts, p, pos - 1), indexed(texts)[pos - 1], p(texts[pos - 1])).0
    }
}

/// The greatest matching position strictly before `pos`, or -1 if none.
pub open spec fn last_match(texts: Seq<Seq<char>>, p: spec_fn(Seq<char>) -> bool, pos: int) -> int
    decreases pos,
{
    if pos <= 0 {
        -1
    } else if p(texts[pos - 1]) {
        pos - 1
    } else {
        last_match(texts, p, pos - 1)
    }
}

proof fn lemma_state_n(n: nat, texts: Seq<Seq<char>>, p: spec_fn(Seq<char>) -> bool, pos: int)
    ensures
        state_at(n, texts, p, pos).n == n,
    decreases pos,
{
    if pos > 0 {
        lemma_state_n(n, texts, p, pos - 1);
    }
}

/// How a state that has already emitted a group relates to the position of
/// the latest match `lm`: inside the trailing window the pending lines are
/// exactly those since the match and no separator is owed; after it, the
/// pending count follows the distance from the match, and a separator is
/// owed precisely when the match lies at least `2n + 2` lines back.
spec fn gap_inv(st: EngineModel, n: nat, lm: int, pos: int) -> bool {
    &&& st.n == n
    &&& st.first_emitted
    &&& (st.trailing ==> st.buf.len() == pos - 1 - lm && !st.sep_owed && pos - 1 - lm <= n)
    &&& (!st.trailing ==> pos >= lm + n + 2 && st.buf.len() == (if pos - 1 - lm - n < n {
        pos - 1 - lm - n
    } else {
        n as int
    }) && (st.sep_owed <==> pos >= lm + 2 * (n as int) + 2))
}

proof fn lemma_gap_inv(n: nat, texts: Seq<Seq<char>>, p: spec_fn(Seq<char>) -> bool, pos: int)
    requires
        1 <= pos <= texts.len(),
        last_match(texts, p, pos) >= 0,
    ensures
        gap_inv(state_at(n, texts, p, pos), n, last_match(texts, p, pos), pos),
    decreases pos,
{
    let lm = last_match(texts, p, pos);
    let prev = state_at(n, texts, p, pos - 1);
    lemma_state_n(n, texts, p, pos - 1);
    if p(texts[pos - 1]) {
        assert(lm == pos - 1);
        assert(state_at(n, texts, p, pos) == spec_step(prev, indexed(texts)[pos - 1], true).0);
    } else {
        assert(lm == last_match(texts, p, pos - 1));
        assert(pos - 1 >= 1) by {
            if pos - 1 == 0 {
                assert(last_match(texts, p, 0) == -1);
            }
        };
        lemma_gap_inv(n, texts, p, pos - 1);
        assert(state_at(n, texts, p, pos) == spec_step(prev, indexed(texts)[pos - 1], false).0);
    }
}

proof fn lemma_recs_no_separator(ls: Seq<LineModel>)
    ensures
        !recs_of_lines(ls).contains(RecModel::Separator),
{
    if recs_of_lines(ls).contains(RecModel::Separator) {
        let i = choose|i: int|
            0 <= i < recs_of_lines(ls).len() && recs_of_lines(ls)[i] == RecModel::Separator;
        assert(recs_of_lines(ls)[i] == line_rec(ls[i]));
    }
}

/// Law: a non-matching line never causes a separator (it emits at most a
/// flushed trailing window), and neither does end of input; a separator can
/// only enter the output immediately before a matching line.
pub proof fn lemma_no_separator_without_match(st: EngineModel, line: LineModel)
    ensures
        !spec_step(st, line, false).1.contains(RecModel::Separator),
        !spec_finish(st).contains(RecModel::Separator),
{
    lemma_recs_no_separator(st.buf);
    assert(spec_step(st, line, false).1 =~= if st.trailing && st.buf.len() == st.n {
        recs_of_lines(st.buf)
    } else {
        Seq::<RecModel>::empty()
    });
}

/// Law: one step never emits two separators, and an emitted separator
/// stands before the step's lines: it is the first record of the step.
pub proof fn lemma_separator_only_first(st: EngineModel, line: LineModel, is_match: bool)
    ensures
        forall|i: int|
            0 < i < spec_step(st, line, is_match).1.len() ==> #[trigger] spec_step(
                st,
                line,
                is_match,
            ).1[i] != RecModel::Separator,
{
    let emitted = spec_step(st, line, is_match).1;
    if is_match {
        let sep: Seq<RecModel> = if st.first_emitted && st.sep_owed && st.n > 0 {
            seq![RecModel::Separator]
        } else {
            Seq::empty()
        };
        let sepn = sep.len() as int;
        assert forall|i: int| 0 < i < emitted.len() implies #[trigger] emitted[i]
            != RecModel::Separator by {
            if i < sepn + st.buf.len() {
                assert(emitted[i] == line_rec(st.buf[i - sepn]));
            } else {
                assert(emitted[i] == line_rec(line));
            }
        };
    } else {
        lemma_recs_no_separator(st.buf);
        assert forall|i: int| 0 < i < emitted.len() implies #[trigger] emitted[i]
            != RecModel::Separator by {
            assert(emitted == recs_of_lines(st.buf));
            assert(emitted[i] == line_rec(st.buf[i]));
        };
    }
}

/// Law: when a match falls within `2n + 1` lines of the previous match (so
/// their context windows overlap or touch), its step emits no separator:
/// the two groups merge. Together with `lemma_no_separator_without_match`
/// (separators come only from match steps) and `lemma_run_decomposition`
/// (each step's records stand contiguously in the whole output), nothing
/// between the two matched lines' records is a separator.
pub proof fn lemma_close_matches_merge(
    n: nat,
    texts: Seq<Seq<char>>,
    p: spec_fn(Seq<char>) -> bool,
    j: int,
)
    requires
        0 <= j < texts.len(),
        p(texts[j]),
        last_match(texts, p, j) >= 0,
        j - last_match(texts, p, j) <= 2 * (n as int) + 1,
    ensures
        !spec_step(state_at(n, texts, p, j), indexed(texts)[j], true).1.contains(
            RecModel::Separator,
        ),
{
    let st = state_at(n, texts, p, j);
    lemma_gap_inv(n, texts, p, j);
    assert(!(st.first_emitted && st.sep_owed && st.n > 0));
    lemma_recs_no_separator(st.buf);
    let emitted = spec_step(st, indexed(texts)[j], true).1;
    assert(emitted =~= recs_of_lines(st.buf) + seq![line_rec(indexed(texts)[j])]);
    if emitted.contains(RecModel::Separator) {
        let i = choose|i: int| 0 <= i < emitted.len() && emitted[i] == RecModel::Separator;
        if i < st.buf.len() {
            assert(emitted[i] == recs_of_lines(st.buf)[i]);
        } else {
            assert(emitted[i] == line_rec(indexed(texts)[j]));
        }
    }
}

/// Law: when a match's step does emit a separator, the previous match lies
/// at least `2n + 2` lines back — a genuine gap, wider than the two
/// adjacent context windows together.
pub proof fn lemma_separator_needs_gap(
    n: nat,
    texts: Seq<Seq<char>>,
    p: spec_fn(Seq<char>) -> bool,
    j: int,
)
    requires
        0 <= j < texts.len(),
        p(texts[j]),
        last_match(texts, p, j) >= 0,
        spec_step(state_at(n, texts, p, j), indexed(texts)[j], true).1.contains(
            RecModel::Separator,
        ),
    ensures
        j - last_match(texts, p, j) >= 2 * (n as int) + 2,
{
    if j - last_match(texts, p, j) <= 2 * (n as int) + 1 {
        lemma_close_matches_merge(n, texts, p, j);
    }
}

/// Some matching line lies within `n` of position `idx`.
pub open spec fn near_match(texts: Seq<Seq<char>>, p: spec_fn(Seq<char>) -> bool, idx: int, n: nat) -> bool {
    exists|j: int|
        0 <= j < texts.len() && p(#[trigger] texts[j]) && idx - n <= j <= idx + n
}

/// The shape a running buffer always has: at most `n` lines, the most
/// recent ones, contiguous up to the current position; inside a trailing
/// window, the line just before the buffer's start is the latest match.
spec fn ctx_inv(st: EngineModel, texts: Seq<Seq<char>>, p: spec_fn(Seq<char>) -> bool, pos: int) -> bool {
    &&& st.buf.len() <= st.n
    &&& st.buf.len() <= pos
    &&& forall|k: int|
        0 <= k < st.buf.len() ==> #[trigger] st.buf[k].index == pos - st.buf.len() + k
    &&& forall|k: int|
        0 <= k < st.buf.len() ==> #[trigger] st.buf[k].text == texts[st.buf[k].index]
    &&& (st.trailing ==> pos - st.buf.len() - 1 >= 0 && p(texts[pos - st.buf.len() - 1]))
}

#[verifier::rlimit(60)]
proof fn lemma_context_near(
    st: EngineModel,
    texts: Seq<Seq<char>>,
    pos: int,
    p: spec_fn(Seq<char>) -> bool,
)
    requires
        0 <= pos <= texts.len(),
        ctx_inv(st, texts, p, pos),
    ensures
        forall|i: int|
            0 <= i < spec_run_from(st, indexed(texts).skip(pos), p).len() && is_line(
                #[trigger] spec_run_from(st, indexed(texts).skip(pos), p)[i],
            ) ==> {
                let idx = rec_index(spec_run_from(st, indexed(texts).skip(pos), p)[i]);
                0 <= idx < texts.len() && (p(texts[idx]) || near_match(texts, p, idx, st.n))
            },
    decreases texts.len() - pos,
{
    let all = indexed(texts);
    let rest = all.skip(pos);
    let out = spec_run_from(st, rest, p);
    let n = st.n;
    if pos == texts.len() {
        assert(rest.len() == 0);
        if st.trailing {
            assert(out == recs_of_lines(st.buf));
            let lm = pos - st.buf.len() - 1;
            assert forall|i: int| 0 <= i < out.len() && is_line(#[trigger] out[i]) implies {
                let idx = rec_index(out[i]);
                0 <= idx < texts.len() && (p(texts[idx]) || near_match(texts, p, idx, n))
            } by {
                assert(out[i] == line_rec(st.buf[i]));
                let idx = st.buf[i].index;
                assert(lm <= idx + n && idx - n <= lm);
                assert(near_match(texts, p, idx, n));
            };
        } else {
            assert(out.len() == 0);
        }
    } else {
        let line = all[pos];
        assert(rest[0] == line);
        assert(rest.drop_first() =~= all.skip(pos + 1));
        let m = p(line.text);
        assert(line.text == texts[pos]);
        let stepped = spec_step(st, line, m);
        let st2 = stepped.0;
        let emitted = stepped.1;
        let out2 = spec_run_from(st2, all.skip(pos + 1), p);
        assert(out == emitted + out2);
        assert(st2.n == n);
        if m {
            let sep: Seq<RecModel> = if st.first_emitted && st.sep_owed && st.n > 0 {
                seq![RecModel::Separator]
            } else {
                Seq::empty()
            };
            let sepn = sep.len() as int;
            assert(emitted == sep + recs_of_lines(st.buf) + seq![line_rec(line)]);
            assert(ctx_inv(st2, texts, p, pos + 1));
            lemma_context_near(st2, texts, pos + 1, p);
            assert forall|i: int| 0 <= i < emitted.len() && is_line(#[trigger] emitted[i]) implies {
                let idx = rec_index(emitted[i]);
                0 <= idx < texts.len() && (p(texts[idx]) || near_match(texts, p, idx, n))
            } by {
                if i < sepn {
                } else if i < sepn + st.buf.len() {
                    assert(emitted[i] == line_rec(st.buf[i - sepn]));
                    let idx = st.buf[i - sepn].index;
                    assert(idx - n <= pos <= idx + n);
                    assert(near_match(texts, p, idx, n));
                } else {
                    assert(emitted[i] == line_rec(line));
                }
            };
            assert forall|i: int| 0 <= i < out.len() && is_line(#[trigger] out[i]) implies {
                let idx = rec_index(out[i]);
                0 <= idx < texts.len() && (p(texts[idx]) || near_match(texts, p, idx, n))
            } by {
                if i < emitted.len() {
                    assert(out[i] == emitted[i]);
                } else {
                    assert(out[i] == out2[i - emitted.len()]);
                }
            };
        } else {
            if st.trailing && st.buf.len() == st.n {
                assert(emitted == recs_of_lines(st.buf));
                let lm = pos - st.buf.len() - 1;
                assert(ctx_inv(st2, texts, p, pos + 1));
                lemma_context_near(st2, texts, pos + 1, p);
                assert forall|i: int|
                    0 <= i < emitted.len() && is_line(#[trigger] emitted[i]) implies {
                    let idx = rec_index(emitted[i]);
                    0 <= idx < texts.len() && (p(texts[idx]) || near_match(texts, p, idx, n))
                } by {
                    assert(emitted[i] == line_rec(st.buf[i]));
                    let idx = st.buf[i].index;
                    assert(lm <= idx + n && idx - n <= lm);
                    assert(near_match(texts, p, idx, n));
                };
                assert forall|i: int| 0 <= i < out.len() && is_line(#[trigger] out[i]) implies {
                    let idx = rec_index(out[i]);
                    0 <= idx < texts.len() && (p(texts[idx]) || near_match(texts, p, idx, n))
                } by {
                    if i < emitted.len() {
                        assert(out[i] == emitted[i]);
                    } else {
                        assert(out[i] == out2[i - emitted.len()]);
                    }
                };
            } else {
                assert(emitted.len() == 0);
                assert(st2 == spec_push(st, line));
                if st.n == 0 {
                    assert(st2.buf == st.buf);
                } else if st.buf.len() >= st.n {
                    assert(st2.buf == st.buf.drop_first().push(line));
                    assert(forall|k: int|
                        0 <= k < st.buf.len() - 1 ==> #[trigger] st2.buf[k] == st.buf[k + 1]);
                    assert(st2.buf[st.buf.len() - 1] == line);
                } else {
                    assert(st2.buf == st.buf.push(line));
                }
                assert(ctx_inv(st2, texts, p, pos + 1));
                lemma_context_near(st2, texts, pos + 1, p);
                assert forall|i: int| 0 <= i < out.len() && is_line(#[trigger] out[i]) implies {
                    let idx = rec_index(out[i]);
                    0 <= idx < texts.len() && (p(texts[idx]) || near_match(texts, p, idx, n))
                } by {
                    assert(out[i] == out2[i]);
                };
            }
        }
    }
}

/// Law: the output never strays from the matches. Every emitted line is
/// either itself a match or lies within `n` lines of one, so no more
/// context than the window allows is ever printed around a group.
pub proof fn lemma_context_stays_within_window(
    n: nat,
    texts: Seq<Seq<char>>,
    p: spec_fn(Seq<char>) -> bool,
)
    ensures
        forall|i: int|
            0 <= i < spec_run(n, texts, p).len() && is_line(#[trigger] spec_run(n, texts, p)[i])
                ==> {
                let idx = rec_index(spec_run(n, texts, p)[i]);
                0 <= idx < texts.len() && (p(texts[idx]) || near_match(texts, p, idx, n))
            },
{
    lemma_context_near(init_state(n), texts, 0, p);
    assert(indexed(texts).skip(0) =~= indexed(texts));
}

#[verifier::rlimit(80)]
proof fn lemma_leading_printed(
    st: EngineModel,
    texts: Seq<Seq<char>>,
    pos: int,
    p: spec_fn(Seq<char>) -> bool,
)
    requires
        0 <= pos <= texts.len(),
        ctx_inv(st, texts, p, pos),
    ensures
        forall|k: int, j: int|
            pos - st.buf.len() <= k < j < texts.len() && pos <= j && j <= k + st.n && !p(
                #[trigger] texts[k],
            ) && p(#[trigger] texts[j]) ==> spec_run_from(st, indexed(texts).skip(pos), p).contains(
                line_rec(indexed(texts)[k]),
            ),
    decreases texts.len() - pos,
{
    let all = indexed(texts);
    let rest = all.skip(pos);
    let out = spec_run_from(st, rest, p);
    let n = st.n;
    if pos == texts.len() {
    } else {
        let line = all[pos];
        assert(rest[0] == line);
        assert(rest.drop_first() =~= all.skip(pos + 1));
        let m = p(line.text);
        assert(line.text == texts[pos]);
        let stepped = spec_step(st, line, m);
        let st2 = stepped.0;
        let emitted = stepped.1;
        let out2 = spec_run_from(st2, all.skip(pos + 1), p);
        assert(out == emitted + out2);
        lemma_add_contains(emitted, out2);
        if m {
            let sep: Seq<RecModel> = if st.first_emitted && st.sep_owed && st.n > 0 {
                seq![RecModel::Separator]
            } else {
                Seq::empty()
            };
            let sepn = sep.len() as int;
            assert(emitted == sep + recs_of_lines(st.buf) + seq![line_rec(line)]);
            assert(ctx_inv(st2, texts, p, pos + 1));
            lemma_leading_printed(st2, texts, pos + 1, p);
            assert forall|k: int, j: int|
                pos - st.buf.len() <= k < j < texts.len() && pos <= j && j <= k + n && !p(
                    #[trigger] texts[k],
                ) && p(#[trigger] texts[j]) implies out.contains(line_rec(all[k])) by {
                if k < pos {
                    let i = k - (pos - st.buf.len());
                    assert(st.buf[i].index == k);
                    assert(st.buf[i].text == texts[k]);
                    assert(emitted[sepn + i] == line_rec(st.buf[i]));
                    assert(emitted[sepn + i] == line_rec(all[k]));
                    assert(emitted.contains(line_rec(all[k])));
                } else {
                    assert(k > pos || k == pos);
                    assert(k != pos);
                    assert(out2.contains(line_rec(all[k])));
                }
            };
        } else {
            if st.trailing && st.buf.len() == st.n {
                assert(emitted == recs_of_lines(st.buf));
                assert(ctx_inv(st2, texts, p, pos + 1));
                lemma_leading_printed(st2, texts, pos + 1, p);
                assert forall|k: int, j: int|
                    pos - st.buf.len() <= k < j < texts.len() && pos <= j && j <= k + n && !p(
                        #[trigger] texts[k],
                    ) && p(#[trigger] texts[j]) implies out.contains(line_rec(all[k])) by {
                    if k < pos {
                        let i = k - (pos - st.buf.len());
                        assert(st.buf[i].index == k);
                        assert(emitted[i] == line_rec(st.buf[i]));
                        assert(emitted.contains(line_rec(all[k])));
                    } else {
                        if st.n == 0 {
                            assert(j <= k && k < j);
                        } else {
                            assert(k >= pos + 1 - st2.buf.len());
                            assert(j >= pos + 1);
                            assert(out2.contains(line_rec(all[k])));
                        }
                    }
                };
            } else {
                assert(emitted.len() == 0);
                assert(st2 == spec_push(st, line));
                if st.n == 0 {
                    assert(st2.buf == st.buf);
                } else if st.buf.len() >= st.n {
                    assert(st2.buf == st.buf.drop_first().push(line));
                    assert(forall|k: int|
                        0 <= k < st.buf.len() - 1 ==> #[trigger] st2.buf[k] == st.buf[k + 1]);
                    assert(st2.buf[st.buf.len() - 1] == line);
                } else {
                    assert(st2.buf == st.buf.push(line));
                }
                assert(ctx_inv(st2, texts, p, pos + 1));
                lemma_leading_printed(st2, texts, pos + 1, p);
                assert forall|k: int, j: int|
                    pos - st.buf.len() <= k < j < texts.len() && pos <= j && j <= k + n && !p(
                        #[trigger] texts[k],
                    ) && p(#[trigger] texts[j]) implies out.contains(line_rec(all[k])) by {
                    assert(j != pos);
                    if st.n == 0 {
                        assert(j <= k && k < j);
                    } else if st.buf.len() >= st.n && k == pos - st.buf.len() {
                        assert(j >= pos + 1 && j <= k + n);
                        assert(j - k >= pos + 1 - (pos - st.n));
                    } else {
                        assert(k >= pos + 1 - st2.buf.len());
                        assert(out2.contains(line_rec(all[k])));
                    }
                };
            }
        }
    }
}

/// Either no group has been emitted yet (and the engine is idle), or the
/// state relates to the latest match as `gap_inv` describes.
spec fn phase_inv(
    st: EngineModel,
    texts: Seq<Seq<char>>,
    p: spec_fn(Seq<char>) -> bool,
    pos: int,
    n: nat,
) -> bool {
    if last_match(texts, p, pos) >= 0 {
        gap_inv(st, n, last_match(texts, p, pos), pos)
    } else {
        !st.trailing && st.n == n
    }
}

#[verifier::rlimit(80)]
proof fn lemma_trailing_printed(
    st: EngineModel,
    texts: Seq<Seq<char>>,
    pos: int,
    p: spec_fn(Seq<char>) -> bool,
)
    requires
        0 <= pos <= texts.len(),
        phase_inv(st, texts, p, pos, st.n),
    ensures
        st.trailing ==> forall|i: int|
            0 <= i < st.buf.len() ==> spec_run_from(st, indexed(texts).skip(pos), p).contains(
                line_rec(#[trigger] st.buf[i]),
            ),
        forall|k: int|
            pos <= k < texts.len() && !p(#[trigger] texts[k]) && last_match(texts, p, k) >= 0 && k
                - last_match(texts, p, k) <= st.n ==> spec_run_from(
                st,
                indexed(texts).skip(pos),
                p,
            ).contains(line_rec(indexed(texts)[k])),
    decreases texts.len() - pos,
{
    let all = indexed(texts);
    let rest = all.skip(pos);
    let out = spec_run_from(st, rest, p);
    let n = st.n;
    let lm = last_match(texts, p, pos);
    if pos == texts.len() {
        if st.trailing {
            assert(out == recs_of_lines(st.buf));
            assert forall|i: int| 0 <= i < st.buf.len() implies out.contains(
                line_rec(#[trigger] st.buf[i]),
            ) by {
                assert(out[i] == line_rec(st.buf[i]));
            };
        }
    } else {
        let line = all[pos];
        assert(rest[0] == line);
        assert(rest.drop_first() =~= all.skip(pos + 1));
        let m = p(line.text);
        assert(line.text == texts[pos]);
        let stepped = spec_step(st, line, m);
        let st2 = stepped.0;
        let emitted = stepped.1;
        let out2 = spec_run_from(st2, all.skip(pos + 1), p);
        assert(out == emitted + out2);
        lemma_add_contains(emitted, out2);
        if m {
            assert(last_match(texts, p, pos + 1) == pos);
            assert(phase_inv(st2, texts, p, pos + 1, n));
            lemma_trailing_printed(st2, texts, pos + 1, p);
            let sep: Seq<RecModel> = if st.first_emitted && st.sep_owed && st.n > 0 {
                seq![RecModel::Separator]
            } else {
                Seq::empty()
            };
            let sepn = sep.len() as int;
            assert(emitted == sep + recs_of_lines(st.buf) + seq![line_rec(line)]);
            if st.trailing {
                assert forall|i: int| 0 <= i < st.buf.len() implies out.contains(
                    line_rec(#[trigger] st.buf[i]),
                ) by {
                    assert(emitted[sepn + i] == line_rec(st.buf[i]));
                    assert(emitted.contains(line_rec(st.buf[i])));
                };
            }
            assert forall|k: int|
                pos <= k < texts.len() && !p(#[trigger] texts[k]) && last_match(texts, p, k) >= 0
                    && k - last_match(texts, p, k) <= n implies out.contains(
                line_rec(all[k]),
            ) by {
                assert(k != pos);
                assert(out2.contains(line_rec(all[k])));
            };
        } else {
            assert(last_match(texts, p, pos + 1) == lm);
            assert(phase_inv(st2, texts, p, pos + 1, n));
            lemma_trailing_printed(st2, texts, pos + 1, p);
            if st.trailing && st.buf.len() == st.n {
                assert(emitted == recs_of_lines(st.buf));
                assert forall|i: int| 0 <= i < st.buf.len() implies out.contains(
                    line_rec(#[trigger] st.buf[i]),
                ) by {
                    assert(emitted[i] == line_rec(st.buf[i]));
                    assert(emitted.contains(line_rec(st.buf[i])));
                };
                assert forall|k: int|
                    pos <= k < texts.len() && !p(#[trigger] texts[k]) && last_match(texts, p, k)
                        >= 0 && k - last_match(texts, p, k) <= n implies out.contains(
                    line_rec(all[k]),
                ) by {
                    if k == pos {
                        assert(last_match(texts, p, pos) == lm);
                        assert(pos - 1 - lm == st.n);
                        assert(k - lm == n + 1);
                        assert(false);
                    } else {
                        assert(out2.contains(line_rec(all[k])));
                    }
                };
            } else {
                assert(emitted.len() == 0);
                assert forall|k: int|
                    pos <= k < texts.len() && !p(#[trigger] texts[k]) && last_match(texts, p, k)
                        >= 0 && k - last_match(texts, p, k) <= n implies out.contains(
                    line_rec(all[k]),
                ) by {
                    if k == pos {
                        assert(lm >= 0 && pos - lm <= n);
                        assert(st.trailing) by {
                            if !st.trailing {
                                assert(pos >= lm + n + 2);
                            }
                        };
                        assert(st.buf.len() == pos - 1 - lm < n);
                        assert(st2.buf == st.buf.push(line));
                        assert(st2.trailing);
                        assert(st2.buf[st2.buf.len() - 1] == line);
                        assert(out2.contains(line_rec(line)));
                    } else {
                        assert(out2.contains(line_rec(all[k])));
                    }
                };
                if st.trailing {
                    assert(st.buf.len() < st.n);
                    assert(st2.buf == st.buf.push(line));
                    assert forall|i: int| 0 <= i < st.buf.len() implies out.contains(
                        line_rec(#[trigger] st.buf[i]),
                    ) by {
                        assert(st2.buf[i] == st.buf[i]);
                        assert(out2.contains(line_rec(st2.buf[i])));
                    };
                }
            }
        }
    }
}

/// Law: nothing within reach of a match is dropped. A non-matching line
/// preceded by a match at most `n` lines back, or followed by a match at
/// most `n` lines ahead, appears in the output. With
/// `lemma_context_stays_within_window` and
/// `lemma_matching_lines_exactly_once`, the printed lines are exactly the
/// matches and the lines within `n` of one.
pub proof fn lemma_nearby_context_printed(
    n: nat,
    texts: Seq<Seq<char>>,
    p: spec_fn(Seq<char>) -> bool,
)
    ensures
        forall|k: int, j: int|
            0 <= k < j < texts.len() && j <= k + n && !p(#[trigger] texts[k]) && p(
                #[trigger] texts[j],
            ) ==> spec_run(n, texts, p).contains(line_rec(indexed(texts)[k])),
        forall|k: int, j: int|
            0 <= j < k < texts.len() && k <= j + n && !p(#[trigger] texts[k]) && p(
                #[trigger] texts[j],
            ) ==> spec_run(n, texts, p).contains(line_rec(indexed(texts)[k])),
{
    lemma_leading_printed(init_state(n), texts, 0, p);
    lemma_trailing_printed(init_state(n), texts, 0, p);
    assert(indexed(texts).skip(0) =~= indexed(texts));
    assert forall|k: int, j: int|
        0 <= j < k < texts.len() && k <= j + n && !p(#[trigger] texts[k]) && p(
            #[trigger] texts[j],
        ) implies spec_run(n, texts, p).contains(line_rec(indexed(texts)[k])) by {
        lemma_last_match_at_least(texts, p, k, j);
    };
}

proof fn lemma_last_match_at_least(
    texts: Seq<Seq<char>>,
    p: spec_fn(Seq<char>) -> bool,
    k: int,
    j: int,
)
    requires
        0 <= j < k,
        p(texts[j]),
    ensures
        j <= last_match(texts, p, k),
    decreases k,
{
    if j < k - 1 {
        lemma_last_match_at_least(texts, p, k - 1, j);
    }
}

proof fn lemma_last_match_is_match(texts: Seq<Seq<char>>, p: spec_fn(Seq<char>) -> bool, j: int)
    requires
        j <= texts.len(),
        last_match(texts, p, j) >= 0,
    ensures
        last_match(texts, p, j) < j,
        p(texts[last_match(texts, p, j)]),
    decreases j,
{
    if j > 0 && !p(texts[j - 1]) {
        lemma_last_match_is_match(texts, p, j - 1);
    }
}

proof fn lemma_no_match_between(
    texts: Seq<Seq<char>>,
    p: spec_fn(Seq<char>) -> bool,
    j: int,
    q: int,
)
    requires
        0 <= q < j,
        last_match(texts, p, j) < q,
    ensures
        !p(texts[q]),
{
    if p(texts[q]) {
        lemma_last_match_at_least(texts, p, j, q);
    }
}

/// Law: for a match and its predecessor match (`n >= 1`), the step of the
/// later match emits a separator iff some line strictly between the two is
/// never printed in the whole pass. Only match steps emit separators
/// (`lemma_no_separator_without_match`), at most one each and always ahead
/// of the step's lines, and each step's records stand contiguously in the
/// output (`lemma_run_decomposition`): so exactly one separator stands
/// between two groups when a line between them was dropped, none otherwise.
/// With a context size of 0 no separator is ever printed
/// (`lemma_zero_context`), so this law asks `n >= 1`.
pub proof fn lemma_separator_iff_unprinted_line(
    n: nat,
    texts: Seq<Seq<char>>,
    p: spec_fn(Seq<char>) -> bool,
    j: int,
)
    requires
        n >= 1,
        0 <= j < texts.len(),
        p(texts[j]),
        last_match(texts, p, j) >= 0,
    ensures
        spec_step(state_at(n, texts, p, j), indexed(texts)[j], true).1.contains(
            RecModel::Separator,
        ) <==> exists|q: int|
            last_match(texts, p, j) < q < j && !spec_run(n, texts, p).contains(
                line_rec(#[trigger] indexed(texts)[q]),
            ),
{
    let lm = last_match(texts, p, j);
    let out = spec_run(n, texts, p);
    let all = indexed(texts);
    let emitted = spec_step(state_at(n, texts, p, j), all[j], true).1;
    lemma_last_match_is_match(texts, p, j);
    lemma_context_stays_within_window(n, texts, p);
    lemma_nearby_context_printed(n, texts, p);
    if emitted.contains(RecModel::Separator) {
        lemma_separator_needs_gap(n, texts, p, j);
        let q = lm + n + 1;
        assert(lm < q < j);
        lemma_no_match_between(texts, p, j, q);
        if out.contains(line_rec(all[q])) {
            let i = choose|i: int| 0 <= i < out.len() && out[i] == line_rec(all[q]);
            assert(is_line(out[i]) && rec_index(out[i]) == q);
            assert(near_match(texts, p, q, n));
            let w = choose|w: int|
                0 <= w < texts.len() && p(#[trigger] texts[w]) && q - n <= w <= q + n;
            if lm < w < j {
                lemma_no_match_between(texts, p, j, w);
            } else if w <= lm {
                assert(q - w >= q - lm == n + 1);
            } else {
                assert(w - q >= j - q && j - q >= n + 1);
            }
        }
        assert(exists|q: int|
            lm < q < j && !out.contains(line_rec(#[trigger] indexed(texts)[q])));
    } else {
        lemma_gap_inv(n, texts, p, j);
        let st = state_at(n, texts, p, j);
        assert(st.first_emitted);
        if st.sep_owed {
            assert(emitted == seq![RecModel::Separator] + recs_of_lines(st.buf) + seq![
                line_rec(all[j]),
            ]);
            assert(emitted[0] == RecModel::Separator);
            assert(emitted.contains(RecModel::Separator));
        }
        assert(!st.sep_owed);
        assert(j <= lm + 2 * (n as int) + 1) by {
            if !st.trailing {
                assert(st.sep_owed <==> j >= lm + 2 * (n as int) + 2);
            }
        };
        assert forall|q: int| lm < q < j implies out.contains(
            line_rec(#[trigger] indexed(texts)[q]),
        ) by {
            lemma_no_match_between(texts, p, j, q);
            if q - lm <= n {
                assert(0 <= lm < q < texts.len() && q <= lm + n && !p(texts[q]) && p(texts[lm]));
            } else {
                assert(j - q <= n);
                assert(0 <= q < j < texts.len() && j <= q + n && !p(texts[q]) && p(texts[j]));
            }
        };
    }
}

/// The records emitted for the first `pos` input lines, in order.
pub open spec fn run_prefix(
    n: nat,
    texts: Seq<Seq<char>>,
    p: spec_fn(Seq<char>) -> bool,
    pos: int,
) -> Seq<RecModel>
    decreases pos,
{
    if pos <= 0 {
        Seq::empty()
    } else {
        run_prefix(n, texts, p, pos - 1) + spec_step(
            state_at(n, texts, p, pos - 1),
            indexed(texts)[pos - 1],
            p(texts[pos - 1]),
        ).1
    }
}

/// Law: the whole output decomposes at any position into the records
/// already emitted, followed by the records of the rest of the pass from
/// the state reached there. In particular the records of the step that
/// consumes line `pos` stand contiguously in the output, after
/// `run_prefix(.., pos)`.
pub proof fn lemma_run_decomposition(
    n: nat,
    texts: Seq<Seq<char>>,
    p: spec_fn(Seq<char>) -> bool,
    pos: int,
)
    requires
        0 <= pos <= texts.len(),
    ensures
        spec_run(n, texts, p) == run_prefix(n, texts, p, pos) + spec_run_from(
            state_at(n, texts, p, pos),
            indexed(texts).skip(pos),
            p,
        ),
    decreases pos,
{
    let all = indexed(texts);
    if pos == 0 {
        assert(all.skip(0) =~= all);
        assert(run_prefix(n, texts, p, 0) + spec_run_from(init_state(n), all, p) =~= spec_run(
            n,
            texts,
            p,
        ));
    } else {
        lemma_run_decomposition(n, texts, p, pos - 1);
        let st = state_at(n, texts, p, pos - 1);
        let rest = all.skip(pos - 1);
        assert(rest[0] == all[pos - 1]);
        assert(rest.drop_first() =~= all.skip(pos));
        let stepped = spec_step(st, all[pos - 1], p(texts[pos - 1]));
        assert(spec_run_from(st, rest, p) == stepped.1 + spec_run_from(
            state_at(n, texts, p, pos),
            all.skip(pos),
            p,
        ));
        assert(run_prefix(n, texts, p, pos - 1) + (stepped.1 + spec_run_from(
            state_at(n, texts, p, pos),
            all.skip(pos),
            p,
        )) =~= run_prefix(n, texts, p, pos) + spec_run_from(
            state_at(n, texts, p, pos),
            all.skip(pos),
            p,
        ));
    }
}

} // verus!
