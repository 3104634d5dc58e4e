//! Laws of the line: properties of the height computation and of rendering
//! that hold for every line, stated over the same spec functions the
//! contracts use.

use crate::line::{
    height_of, height_rec, item_chars, lemma_vis_concat, lemma_ws_offsets_bounds,
    lemma_ws_offsets_concat, vis_of, ws_offsets, Item,
};
use crate::render::{init_state, render_of, render_rec, render_step, Cell, RenderEnv, RenderState};
use crate::style::is_ws_char;
use vstd::prelude::*;

verus! {

/// A valid split list: offsets are non-negative and strictly increasing.
pub open spec fn splits_ok(splits: Seq<int>) -> bool {
    &&& forall|k: int| 0 <= k < splits.len() ==> 0 <= #[trigger] splits[k]
    &&& forall|j: int, k: int|
        0 <= j < k < splits.len() ==> #[trigger] splits[j] < #[trigger] splits[k]
}

/// Text without whitespace has no split points.
pub proof fn lemma_ws_offsets_none(s: Seq<char>)
    requires
        forall|k: int| 0 <= k < s.len() ==> !is_ws_char(#[trigger] s[k]),
    ensures
        ws_offsets(s).len() == 0,
    decreases s.len(),
{
    if s.len() > 0 {
        assert(forall|k: int|
            0 <= k < s.drop_last().len() ==> !is_ws_char(#[trigger] s.drop_last()[k]));
        lemma_ws_offsets_none(s.drop_last());
        assert(!is_ws_char(s.last()));
    }
}

/// A line occupies at least one row, and at most one more row than it has
/// split points from `i` on: only split-induced wraps add rows; clipped
/// overflow adds none.
pub proof fn lemma_height_rec_bounds(splits: Seq<int>, len: int, width: int, start: int, i: int)
    ensures
        1 <= height_rec(splits, len, width, start, i),
        0 <= i <= splits.len() ==> height_rec(splits, len, width, start, i) <= 1 + splits.len()
            - i,
    decreases splits.len() - i,
{
    if 0 <= i < splits.len() {
        let s = splits[i];
        lemma_height_rec_bounds(splits, len, width, s + 1, i + 1);
        lemma_height_rec_bounds(splits, len, width, start, i + 1);
    }
}

/// Text with no whitespace occupies a single row at every width: with no
/// split points there is nowhere to wrap.
pub proof fn lemma_height_one_without_whitespace(s: Seq<char>, len: int, width: int)
    requires
        forall|k: int| 0 <= k < s.len() ==> !is_ws_char(#[trigger] s[k]),
    ensures
        height_of(ws_offsets(s), len, width) == 1,
{
    lemma_ws_offsets_none(s);
}

/// The height never exceeds one more than the number of split points.
pub proof fn lemma_height_at_most_splits(splits: Seq<int>, len: int, width: int)
    ensures
        1 <= height_of(splits, len, width) <= splits.len() + 1,
{
    lemma_height_rec_bounds(splits, len, width, 0, 0);
}

/// A wider region never needs more rows, from split `i` on: `wa >= wb` and a
/// current row that started no earlier (`sta >= stb`) give at most as many
/// rows.
proof fn lemma_height_mono_rec(
    splits: Seq<int>,
    len: int,
    wa: int,
    wb: int,
    sta: int,
    stb: int,
    i: int,
)
    requires
        splits_ok(splits),
        wa >= wb,
        sta >= stb,
        0 <= i,
        i < splits.len() ==> sta <= splits[i] + 1,
        i < splits.len() ==> stb <= splits[i] + 1,
    ensures
        height_rec(splits, len, wa, sta, i) <= height_rec(splits, len, wb, stb, i),
    decreases splits.len() - i,
{
    if i < splits.len() {
        let s = splits[i];
        let next = if i + 1 < splits.len() {
            splits[i + 1]
        } else {
            len
        };
        let chars = next - 1 - s;
        let wrap_a = chars > wa - (s - sta) - 1;
        let wrap_b = chars > wb - (s - stb) - 1;
        if wrap_a {
            assert(wrap_b);
            lemma_height_mono_rec(splits, len, wa, wb, s + 1, s + 1, i + 1);
        } else if wrap_b {
            lemma_height_start_slack(splits, len, wa, sta, s + 1, i + 1);
            lemma_height_mono_rec(splits, len, wa, wb, s + 1, s + 1, i + 1);
        } else {
            lemma_height_mono_rec(splits, len, wa, wb, sta, stb, i + 1);
        }
    }
}

/// Starting the current row later (at `st2 >= st1`) saves at most one row.
proof fn lemma_height_start_slack(splits: Seq<int>, len: int, w: int, st1: int, st2: int, i: int)
    requires
        splits_ok(splits),
        st1 <= st2,
        0 <= i,
        i < splits.len() ==> st2 <= splits[i] + 1,
    ensures
        height_rec(splits, len, w, st1, i) <= 1 + height_rec(splits, len, w, st2, i),
    decreases splits.len() - i,
{
    if i < splits.len() {
        let s = splits[i];
        let next = if i + 1 < splits.len() {
            splits[i + 1]
        } else {
            len
        };
        let chars = next - 1 - s;
        let wrap_1 = chars > w - (s - st1) - 1;
        let wrap_2 = chars > w - (s - st2) - 1;
        if wrap_1 {
            if !wrap_2 {
                lemma_height_mono_rec(splits, len, w, w, s + 1, st2, i + 1);
            }
        } else {
            assert(!wrap_2);
            lemma_height_start_slack(splits, len, w, st1, st2, i + 1);
        }
    } else {
        lemma_height_rec_bounds(splits, len, w, st2, i);
    }
}

/// The wrapped height is non-increasing as the width increases, for fixed
/// content.
pub proof fn lemma_height_non_increasing(splits: Seq<int>, len: int, w1: int, w2: int)
    requires
        splits_ok(splits),
        w1 <= w2,
    ensures
        height_of(splits, len, w2) <= height_of(splits, len, w1),
{
    lemma_height_mono_rec(splits, len, w2, w1, 0, 0, 0);
}

/// The wrapped height of any text is non-increasing as the width increases.
pub proof fn lemma_height_non_increasing_text(s: Seq<char>, len: int, w1: int, w2: int)
    requires
        w1 <= w2,
    ensures
        height_of(ws_offsets(s), len, w2) <= height_of(ws_offsets(s), len, w1),
{
    lemma_ws_offsets_ok(s);
    lemma_height_non_increasing(ws_offsets(s), len, w1, w2);
}

/// The split offsets of any text form a valid split list.
pub proof fn lemma_ws_offsets_ok(s: Seq<char>)
    ensures
        splits_ok(ws_offsets(s)),
        ws_offsets(s).len() <= s.len(),
        forall|k: int| 0 <= k < ws_offsets(s).len() ==> 0 <= #[trigger] ws_offsets(s)[k] < s.len(),
{
    lemma_ws_offsets_bounds(s);
}

/// A well-formed rendering environment: a valid split list within the
/// visible length, a region on the grid.
pub open spec fn env_ok(env: RenderEnv) -> bool {
    &&& splits_ok(env.splits)
    &&& forall|k: int| 0 <= k < env.splits.len() ==> #[trigger] env.splits[k] < env.len
    &&& env.splits.len() <= env.len
    &&& 0 <= env.pos_x
    &&& 0 <= env.pos_y
    &&& 0 <= env.width
    &&& env.pos_x + env.width <= usize::MAX
    &&& env.pos_y + env.len <= usize::MAX
}

/// The environment that belongs to `items`: its split offsets and visible
/// length, and a region on the grid.
pub open spec fn env_for(items: Seq<Item>, env: RenderEnv) -> bool {
    &&& env.splits == ws_offsets(vis_of(items))
    &&& env.len == vis_of(items).len()
    &&& 0 <= env.pos_x
    &&& 0 <= env.pos_y
    &&& 0 <= env.width
    &&& env.pos_x + env.width <= usize::MAX
    &&& env.pos_y + env.len <= usize::MAX
}

/// The scan state agrees with the items that remain: counts consumed so far,
/// and the split offsets ahead are the whitespace offsets of the remaining
/// visible text, shifted by what was consumed.
pub open spec fn st_coherent(env: RenderEnv, items: Seq<Item>, st: RenderState) -> bool {
    &&& 0 <= st.char_idx
    &&& 0 <= st.split_idx
    &&& st.char_idx + vis_of(items).len() == env.len
    &&& st.split_idx + ws_offsets(vis_of(items)).len() == env.splits.len()
    &&& forall|k: int|
        0 <= k < ws_offsets(vis_of(items)).len() ==> env.splits[st.split_idx + k] == st.char_idx
            + #[trigger] ws_offsets(vis_of(items))[k]
}

/// One step of the scan keeps the state coherent, and at a visible character
/// the upcoming split offsets sit strictly ahead of the scan.
proof fn lemma_step_coherent(env: RenderEnv, items: Seq<Item>, st: RenderState)
    requires
        st_coherent(env, items, st),
        items.len() > 0,
    ensures
        st_coherent(env, items.skip(1), render_step(env, items[0], st).0),
        items[0] is Chr ==> st.char_idx < env.len,
        (match items[0] {
            Item::Chr(c) => if is_ws_char(c) {
                &&& st.split_idx < env.splits.len()
                &&& env.splits[st.split_idx] == st.char_idx
                &&& (if st.split_idx + 1 < env.splits.len() {
                    env.splits[st.split_idx + 1]
                } else {
                    env.len
                }) > st.char_idx
            } else {
                (if st.split_idx < env.splits.len() {
                    env.splits[st.split_idx]
                } else {
                    env.len
                }) > st.char_idx
            },
            _ => true,
        }),
{
    let it = items[0];
    let rest = items.skip(1);
    assert(items =~= seq![it] + rest);
    lemma_vis_concat(seq![it], rest);
    assert(seq![it].drop_last() =~= Seq::<Item>::empty());
    assert(vis_of(Seq::<Item>::empty()) =~= Seq::<char>::empty());
    assert(ws_offsets(Seq::<char>::empty()) =~= Seq::<int>::empty());
    assert(vis_of(seq![it]) == vis_of(seq![it].drop_last()) + item_chars(seq![it].last()));
    assert(vis_of(seq![it]) =~= item_chars(it));
    let vis = vis_of(items);
    let vis_r = vis_of(rest);
    match it {
        Item::Chr(c) => {
            assert(vis =~= seq![c] + vis_r);
            lemma_ws_offsets_concat(seq![c], vis_r);
            assert(seq![c].drop_last() =~= Seq::<char>::empty());
            assert(ws_offsets(seq![c]) == if is_ws_char(seq![c].last()) {
                ws_offsets(seq![c].drop_last()).push(0int)
            } else {
                ws_offsets(seq![c].drop_last())
            });
            lemma_ws_offsets_bounds(vis_r);
            if is_ws_char(c) {
                assert(ws_offsets(seq![c]) =~= seq![0int]);
                assert(ws_offsets(vis) =~= seq![0int] + ws_offsets(vis_r).map_values(
                    |o: int| o + 1,
                ));
                assert(ws_offsets(vis)[0] == 0);
                assert(env.splits[st.split_idx + 0] == st.char_idx + ws_offsets(vis)[0]);
                assert forall|k: int| 0 <= k < ws_offsets(vis_r).len() implies env.splits[(
                st.split_idx + 1) + k] == (st.char_idx + 1) + #[trigger] ws_offsets(vis_r)[k] by {
                    assert(ws_offsets(vis)[k + 1] == 1 + ws_offsets(vis_r)[k]);
                    assert(env.splits[st.split_idx + (k + 1)] == st.char_idx + ws_offsets(vis)[k
                        + 1]);
                }
                if st.split_idx + 1 < env.splits.len() {
                    assert(ws_offsets(vis)[1] == 1 + ws_offsets(vis_r)[0]);
                    assert(env.splits[st.split_idx + 1] == st.char_idx + ws_offsets(vis)[1]);
                }
            } else {
                assert(ws_offsets(seq![c]) =~= Seq::<int>::empty());
                assert(ws_offsets(vis) =~= ws_offsets(vis_r).map_values(|o: int| o + 1));
                assert forall|k: int| 0 <= k < ws_offsets(vis_r).len() implies env.splits[st.split_idx
                    + k] == (st.char_idx + 1) + #[trigger] ws_offsets(vis_r)[k] by {
                    assert(ws_offsets(vis)[k] == 1 + ws_offsets(vis_r)[k]);
                    assert(env.splits[st.split_idx + k] == st.char_idx + ws_offsets(vis)[k]);
                }
                if st.split_idx < env.splits.len() {
                    assert(env.splits[st.split_idx + 0] == st.char_idx + ws_offsets(vis)[0]);
                    assert(ws_offsets(vis)[0] == 1 + ws_offsets(vis_r)[0]);
                }
            }
        },
        _ => {
            assert(vis =~= vis_r);
        },
    }
}

/// The whitespace cells among `cells`.
pub open spec fn ws_cell_count(cells: Seq<Cell>) -> int
    decreases cells.len(),
{
    if cells.len() == 0 {
        0
    } else {
        (if is_ws_char(cells[0].ch) {
            1int
        } else {
            0int
        }) + ws_cell_count(cells.skip(1))
    }
}

/// The full walk of the scan: every emitted cell stays inside the region's
/// columns, at or below the scroll offset, and above the wrapped height; and
/// with no rows scrolled off, every split point either emits its whitespace
/// or wraps, exclusively.
proof fn lemma_render_walk(env: RenderEnv, items: Seq<Item>, st: RenderState, ls: int)
    requires
        env_ok(env),
        st_coherent(env, items, st),
        0 <= ls <= st.char_idx,
        st.split_idx < env.splits.len() ==> ls <= env.splits[st.split_idx],
        st.col - env.pos_x == (if st.char_idx - ls <= env.width {
            st.char_idx - ls
        } else {
            env.width
        }),
        0 <= st.row <= st.split_idx,
    ensures
        ({
            let out = render_rec(env, items, st);
            let h = height_rec(env.splits, env.len, env.width, ls, st.split_idx);
            &&& forall|k: int|
                0 <= k < out.1.len() ==> {
                    let c = #[trigger] out.1[k];
                    &&& env.pos_x <= c.x
                    &&& (c.x as int) < env.pos_x + env.width
                    &&& env.pos_y + env.first_line <= c.y
                    &&& (c.y as int) < env.pos_y + st.row + h
                }
            &&& (env.first_line <= 0 ==> ws_cell_count(out.1) == (env.splits.len() - st.split_idx)
                - (h - 1))
        }),
    decreases items.len(),
{
    let h = height_rec(env.splits, env.len, env.width, ls, st.split_idx);
    lemma_height_rec_bounds(env.splits, env.len, env.width, ls, st.split_idx);
    if items.len() == 0 {
        assert(vis_of(items).len() == 0);
        assert(st.split_idx == env.splits.len());
        assert(h == 1);
    } else {
        lemma_step_coherent(env, items, st);
        let it = items[0];
        let stepped = render_step(env, it, st);
        let st1 = stepped.0;
        let rest = items.skip(1);
        let out = render_rec(env, items, st);
        let out_rest = render_rec(env, rest, st1);
        assert(out.1 == stepped.1 + out_rest.1);
        match it {
            Item::Chr(c) => {
                if is_ws_char(c) {
                    let s = env.splits[st.split_idx];
                    let nxt = if st.split_idx + 1 < env.splits.len() {
                        env.splits[st.split_idx + 1]
                    } else {
                        env.len
                    };
                    let slots = env.width - (st.col - env.pos_x);
                    let chars = nxt - st.char_idx;
                    assert(s == st.char_idx);
                    assert(chars >= 1);
                    if chars <= slots {
                        // the word ahead fits: no wrap, in the scan or in the
                        // height computation
                        assert(st.char_idx - ls <= env.width - 1);
                        assert(st.col - env.pos_x == st.char_idx - ls);
                        assert(!(nxt - 1 - s > env.width - (s - ls) - 1));
                        assert(height_rec(env.splits, env.len, env.width, ls, st.split_idx)
                            == height_rec(env.splits, env.len, env.width, ls, st.split_idx + 1));
                        lemma_render_walk(env, rest, st1, ls);
                        let h1 = height_rec(env.splits, env.len, env.width, ls, st1.split_idx);
                        assert(h1 == h);
                        if st.row >= env.first_line {
                            assert(stepped.1.len() == 1);
                            assert((stepped.1 + out_rest.1).skip(1) =~= out_rest.1);
                        } else {
                            assert(stepped.1.len() == 0);
                            assert(stepped.1 + out_rest.1 =~= out_rest.1);
                        }
                    } else {
                        // forced wrap: the whitespace is elided
                        if st.char_idx - ls <= env.width {
                            assert(st.col - env.pos_x == st.char_idx - ls);
                            assert(nxt - 1 - s > env.width - (s - ls) - 1);
                        } else {
                            assert(nxt - 1 - s >= 0);
                            assert(env.width - (s - ls) - 1 < 0);
                        }
                        assert(height_rec(env.splits, env.len, env.width, ls, st.split_idx) == 1
                            + height_rec(env.splits, env.len, env.width, s + 1, st.split_idx + 1));
                        assert(st1.char_idx == s + 1);
                        if st.split_idx + 1 < env.splits.len() {
                            assert(env.splits[st.split_idx] < env.splits[st.split_idx + 1]);
                        }
                        lemma_render_walk(env, rest, st1, s + 1);
                        let h1 = height_rec(env.splits, env.len, env.width, s + 1, st1.split_idx);
                        assert(h == 1 + h1);
                        assert(stepped.1.len() == 0);
                        assert(stepped.1 + out_rest.1 =~= out_rest.1);
                    }
                } else {
                    // an ordinary visible character: emitted while the row
                    // has room, clipped once it is full
                    lemma_render_walk(env, rest, st1, ls);
                    let h1 = height_rec(env.splits, env.len, env.width, ls, st1.split_idx);
                    assert(h1 == h);
                    if st.col - env.pos_x < env.width && st.row >= env.first_line {
                        assert(stepped.1.len() == 1);
                        assert(!is_ws_char(stepped.1[0].ch));
                        assert((stepped.1 + out_rest.1).skip(1) =~= out_rest.1);
                    } else {
                        assert(stepped.1.len() == 0);
                        assert(stepped.1 + out_rest.1 =~= out_rest.1);
                    }
                }
            },
            _ => {
                lemma_render_walk(env, rest, st1, ls);
                assert(stepped.1.len() == 0);
                assert(stepped.1 + out_rest.1 =~= out_rest.1);
            },
        }
    }
}

/// Rendering never writes outside the region's columns `[pos_x, pos_x +
/// width)`, never above row `pos_y + first_line`, and never at or below row
/// `pos_y + height`: clipped overflow is dropped, not written elsewhere.
pub proof fn lemma_render_bounds(items: Seq<Item>, env: RenderEnv)
    requires
        env_for(items, env),
    ensures
        forall|k: int|
            0 <= k < render_of(items, env).len() ==> {
                let c = #[trigger] render_of(items, env)[k];
                &&& env.pos_x <= c.x
                &&& (c.x as int) < env.pos_x + env.width
                &&& env.pos_y + env.first_line <= c.y
                &&& (c.y as int) < env.pos_y + height_of(env.splits, env.len, env.width)
            },
{
    lemma_ws_offsets_ok(vis_of(items));
    lemma_render_walk(env, items, init_state(env.pos_x), 0);
}

/// A scroll offset at or past the wrapped height renders nothing.
pub proof fn lemma_scrolled_out_empty(items: Seq<Item>, env: RenderEnv)
    requires
        env_for(items, env),
        env.first_line >= height_of(env.splits, env.len, env.width),
    ensures
        render_of(items, env).len() == 0,
{
    lemma_render_bounds(items, env);
    if render_of(items, env).len() > 0 {
        let c = render_of(items, env)[0];
        assert(env.pos_y + env.first_line <= c.y);
        assert((c.y as int) < env.pos_y + height_of(env.splits, env.len, env.width));
    }
}

/// Forced-wrap elision: each forced wrap elides exactly the whitespace it
/// breaks at, and every other whitespace is emitted. With no rows scrolled
/// off, the whitespace cells written are the split points minus the wraps.
pub proof fn lemma_forced_wrap_elision(items: Seq<Item>, env: RenderEnv)
    requires
        env_for(items, env),
        env.first_line <= 0,
    ensures
        ws_cell_count(render_of(items, env)) == env.splits.len() - (height_of(
            env.splits,
            env.len,
            env.width,
        ) - 1),
{
    lemma_ws_offsets_ok(vis_of(items));
    lemma_render_walk(env, items, init_state(env.pos_x), 0);
}

/// Rendering a concatenation scans the first part, then the second from the
/// state the first left behind.
proof fn lemma_render_concat(env: RenderEnv, a: Seq<Item>, b: Seq<Item>, st: RenderState)
    ensures
        render_rec(env, a + b, st).0 == render_rec(env, b, render_rec(env, a, st).0).0,
        render_rec(env, a + b, st).1 == render_rec(env, a, st).1 + render_rec(
            env,
            b,
            render_rec(env, a, st).0,
        ).1,
    decreases a.len(),
{
    if a.len() == 0 {
        assert(a + b =~= b);
        assert(render_rec(env, a, st).1 + render_rec(env, b, st).1 =~= render_rec(env, b, st).1);
    } else {
        let st1 = render_step(env, a[0], st).0;
        assert((a + b)[0] == a[0]);
        assert((a + b).skip(1) =~= a.skip(1) + b);
        lemma_render_concat(env, a.skip(1), b, st1);
        assert(render_rec(env, a + b, st).1 =~= render_rec(env, a, st).1 + render_rec(
            env,
            b,
            render_rec(env, a, st).0,
        ).1);
    }
}

/// Scanning visible characters alone never changes the style: from a zero
/// style, every cell comes out with the zero style.
proof fn lemma_render_plain_zero(env: RenderEnv, items: Seq<Item>, st: RenderState)
    requires
        st.fg == 0,
        st.bg == 0,
        forall|k: int| 0 <= k < items.len() ==> (#[trigger] items[k]) is Chr,
    ensures
        render_rec(env, items, st).0.fg == 0,
        render_rec(env, items, st).0.bg == 0,
        forall|k: int|
            0 <= k < render_rec(env, items, st).1.len() ==> (#[trigger] render_rec(
                env,
                items,
                st,
            ).1[k]).fg == 0 && render_rec(env, items, st).1[k].bg == 0,
    decreases items.len(),
{
    if items.len() > 0 {
        let stepped = render_step(env, items[0], st);
        assert(items[0] is Chr);
        assert(stepped.0.fg == 0 && stepped.0.bg == 0);
        assert(forall|k: int|
            0 <= k < items.skip(1).len() ==> (#[trigger] items.skip(1)[k]) is Chr);
        lemma_render_plain_zero(env, items.skip(1), stepped.0);
    }
}

/// After a reset directive, plain text that follows is rendered with the
/// default (zero) foreground and background: every cell beyond those of the
/// prefix carries the zero style.
pub proof fn lemma_reset_then_plain(prefix: Seq<Item>, tail: Seq<Item>, env: RenderEnv)
    requires
        forall|k: int| 0 <= k < tail.len() ==> (#[trigger] tail[k]) is Chr,
    ensures
        ({
            let pre_cells = render_rec(env, prefix, init_state(env.pos_x)).1;
            let all_cells = render_of(prefix + seq![Item::Reset] + tail, env);
            &&& pre_cells.len() <= all_cells.len()
            &&& forall|k: int|
                pre_cells.len() <= k < all_cells.len() ==> (#[trigger] all_cells[k]).fg == 0
                    && all_cells[k].bg == 0
        }),
{
    let st0 = init_state(env.pos_x);
    let suffix = seq![Item::Reset] + tail;
    assert(prefix + seq![Item::Reset] + tail =~= prefix + suffix);
    lemma_render_concat(env, prefix, suffix, st0);
    let st1 = render_rec(env, prefix, st0).0;
    assert(suffix[0] == Item::Reset);
    let st2 = render_step(env, Item::Reset, st1).0;
    assert(st2.fg == 0 && st2.bg == 0);
    assert(suffix.skip(1) =~= tail);
    lemma_render_plain_zero(env, tail, st2);
    assert(render_rec(env, suffix, st1).1 =~= render_rec(env, tail, st2).1);
}

/// The characters of cells, in emission order.
pub open spec fn cell_chars(cells: Seq<Cell>) -> Seq<char> {
    cells.map_values(|c: Cell| c.ch)
}

/// The text with its whitespace removed: what must survive wrapping intact.
pub open spec fn keep_solid(s: Seq<char>) -> Seq<char>
    decreases s.len(),
{
    if s.len() == 0 {
        Seq::empty()
    } else if is_ws_char(s[0]) {
        keep_solid(s.skip(1))
    } else {
        seq![s[0]] + keep_solid(s.skip(1))
    }
}

/// Removing whitespace distributes over concatenation.
proof fn lemma_keep_solid_concat(a: Seq<char>, b: Seq<char>)
    ensures
        keep_solid(a + b) == keep_solid(a) + keep_solid(b),
    decreases a.len(),
{
    if a.len() == 0 {
        assert(a + b =~= b);
        assert(keep_solid(a) + keep_solid(b) =~= keep_solid(b));
    } else {
        assert((a + b)[0] == a[0]);
        assert((a + b).skip(1) =~= a.skip(1) + b);
        lemma_keep_solid_concat(a.skip(1), b);
        if !is_ws_char(a[0]) {
            assert(keep_solid(a + b) =~= keep_solid(a) + keep_solid(b));
        }
    }
}

/// Word `k` (the visible run before split `k`, after split `k - 1`) fits
/// into `width` columns.
pub open spec fn word_fits(splits: Seq<int>, len: int, width: int, k: int) -> bool {
    (if k < splits.len() {
        splits[k]
    } else {
        len
    }) - (if k == 0 {
        0
    } else {
        splits[k - 1] + 1
    }) <= width
}

/// Every whitespace-delimited run of the text fits into `width` columns:
/// nothing is ever clipped.
pub open spec fn words_fit(splits: Seq<int>, len: int, width: int) -> bool {
    forall|k: int| 0 <= k <= splits.len() ==> word_fits(splits, len, width, k)
}

/// The walk behind the round trip: when every word fits and no rows are
/// scrolled off, each visible character is emitted except the whitespace a
/// forced wrap elides, so the text survives with its whitespace removed.
proof fn lemma_render_chars_walk(env: RenderEnv, items: Seq<Item>, st: RenderState)
    requires
        env_ok(env),
        st_coherent(env, items, st),
        env.first_line <= 0,
        0 <= st.row,
        words_fit(env.splits, env.len, env.width),
        env.pos_x <= st.col,
        (if st.split_idx < env.splits.len() {
            env.splits[st.split_idx]
        } else {
            env.len
        }) - st.char_idx + (st.col - env.pos_x) <= env.width,
    ensures
        keep_solid(cell_chars(render_rec(env, items, st).1)) == keep_solid(vis_of(items)),
    decreases items.len(),
{
    if items.len() == 0 {
        assert(cell_chars(render_rec(env, items, st).1) =~= Seq::<char>::empty());
    } else {
        lemma_step_coherent(env, items, st);
        let it = items[0];
        let rest = items.skip(1);
        assert(items =~= seq![it] + rest);
        lemma_vis_concat(seq![it], rest);
        assert(seq![it].drop_last() =~= Seq::<Item>::empty());
        assert(vis_of(Seq::<Item>::empty()) =~= Seq::<char>::empty());
        assert(vis_of(seq![it]) == vis_of(seq![it].drop_last()) + item_chars(seq![it].last()));
        assert(vis_of(seq![it]) =~= item_chars(it));
        let stepped = render_step(env, it, st);
        let st1 = stepped.0;
        let out_rest = render_rec(env, rest, st1);
        assert(render_rec(env, items, st).1 == stepped.1 + out_rest.1);
        assert(cell_chars(stepped.1 + out_rest.1) =~= cell_chars(stepped.1) + cell_chars(
            out_rest.1,
        ));
        match it {
            Item::Chr(c) => {
                assert(vis_of(items) =~= seq![c] + vis_of(rest));
                lemma_keep_solid_concat(seq![c], vis_of(rest));
                assert(seq![c].skip(1) =~= Seq::<char>::empty());
                assert(keep_solid(Seq::<char>::empty()) =~= Seq::<char>::empty());
                if is_ws_char(c) {
                    assert(keep_solid(seq![c]) =~= Seq::<char>::empty());
                    let nxt = if st.split_idx + 1 < env.splits.len() {
                        env.splits[st.split_idx + 1]
                    } else {
                        env.len
                    };
                    let slots = env.width - (st.col - env.pos_x);
                    let chars = nxt - st.char_idx;
                    if chars <= slots {
                        assert(stepped.1.len() == 1);
                        assert(cell_chars(stepped.1) =~= seq![c]);
                        lemma_keep_solid_concat(seq![c], cell_chars(out_rest.1));
                        lemma_render_chars_walk(env, rest, st1);
                    } else {
                        assert(stepped.1.len() == 0);
                        assert(word_fits(env.splits, env.len, env.width, st.split_idx + 1));
                        assert(nxt - (st.char_idx + 1) <= env.width);
                        lemma_render_chars_walk(env, rest, st1);
                        assert(cell_chars(stepped.1) + cell_chars(out_rest.1) =~= cell_chars(
                            out_rest.1,
                        ));
                    }
                } else {
                    assert(keep_solid(seq![c]) =~= seq![c]);
                    let cur = if st.split_idx < env.splits.len() {
                        env.splits[st.split_idx]
                    } else {
                        env.len
                    };
                    assert(cur > st.char_idx);
                    assert(st.col - env.pos_x < env.width);
                    assert(stepped.1.len() == 1);
                    assert(cell_chars(stepped.1) =~= seq![c]);
                    lemma_keep_solid_concat(seq![c], cell_chars(out_rest.1));
                    lemma_render_chars_walk(env, rest, st1);
                }
            },
            _ => {
                assert(vis_of(items) =~= vis_of(rest));
                assert(stepped.1.len() == 0);
                assert(cell_chars(stepped.1) + cell_chars(out_rest.1) =~= cell_chars(out_rest.1));
                lemma_render_chars_walk(env, rest, st1);
            },
        }
    }
}

/// Round trip: with every word no wider than the region and no rows scrolled
/// off, the rendered cells reproduce the visible characters of the line in
/// order, whitespace aside: removing whitespace from the emitted characters
/// gives exactly the visible text with its whitespace removed.
pub proof fn lemma_render_round_trip(items: Seq<Item>, env: RenderEnv)
    requires
        env_for(items, env),
        env.first_line <= 0,
        words_fit(env.splits, env.len, env.width),
    ensures
        keep_solid(cell_chars(render_of(items, env))) == keep_solid(vis_of(items)),
{
    lemma_ws_offsets_ok(vis_of(items));
    assert(word_fits(env.splits, env.len, env.width, 0));
    lemma_render_chars_walk(env, items, init_state(env.pos_x));
}

} // verus!
