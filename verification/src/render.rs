//! Rendering a line into terminal cells: the same greedy wrap decision as
//! the height computation, but emitting cells instead of counting rows.

use crate::line::{vis_of, ws_offsets, Item, Line};
use crate::style::{is_ws_char, palette_spec, TB_BOLD};
use vstd::prelude::*;

verus! {

/// One cell write: character and style at a grid position. The cell grid
/// itself is an external collaborator; rendering returns the writes it would
/// make.
#[derive(Clone, Copy, PartialEq, Eq, Structural, Debug)]
pub struct Cell {
    /// Grid column.
    pub x: usize,
    /// Grid row.
    pub y: usize,
    /// The character.
    pub ch: char,
    /// Foreground attribute (palette index, possibly with the bold bit).
    pub fg: u16,
    /// Background attribute (palette index).
    pub bg: u16,
}

/// The fixed inputs of one rendering pass.
pub struct RenderEnv {
    /// The line's split offsets (visible-character coordinates).
    pub splits: Seq<int>,
    /// The line's visible length.
    pub len: int,
    /// Leftmost grid column of the region.
    pub pos_x: int,
    /// Topmost grid row of the region.
    pub pos_y: int,
    /// Rows of the wrapped line above this index are computed but not
    /// emitted (vertical scrolling within the line).
    pub first_line: int,
    /// Width of the region in columns.
    pub width: int,
}

/// The state the rendering scan carries across items.
pub struct RenderState {
    /// Current output column.
    pub col: int,
    /// Current row of the wrapped line, counted from 0.
    pub row: int,
    /// Visible characters consumed so far.
    pub char_idx: int,
    /// Split points consumed so far.
    pub split_idx: int,
    /// Active foreground attribute.
    pub fg: u16,
    /// Active background attribute.
    pub bg: u16,
}

/// The scan's initial state: at the region's left edge, on row 0, with the
/// default (zero) style.
pub open spec fn init_state(pos_x: int) -> RenderState {
    RenderState { col: pos_x, row: 0, char_idx: 0, split_idx: 0, fg: 0, bg: 0 }
}

/// What one item does to the scan state, and the cells it emits.
///
/// Directives update the style and emit nothing: a color directive sets the
/// foreground from the palette-mapped code (keeping a bold bit already in
/// force) and sets or zeroes the background, the bold directive ORs the bold
/// bit in, and reset zeroes both. A whitespace character
/// advances to the next split point; if the characters up to that point fit
/// into the columns that remain, the whitespace is emitted, otherwise the
/// row is full: the scan wraps and the whitespace is elided. Any other
/// visible character is emitted while the row has room and silently clipped
/// once it is full. Cells are only emitted on rows at or below `first_line`.
pub open spec fn render_step(env: RenderEnv, it: Item, st: RenderState) -> (RenderState, Seq<
    Cell,
>) {
    match it {
        Item::Color { fg, bg } => {
            let nbg = match bg {
                Some(b) => palette_spec(b),
                None => 0u16,
            };
            ((RenderState { fg: (st.fg & TB_BOLD) | palette_spec(fg), bg: nbg, ..st }), Seq::empty())
        },
        Item::Native { fg, bg } => ((RenderState { fg, bg, ..st }), Seq::empty()),
        Item::Bold => ((RenderState { fg: st.fg | TB_BOLD, ..st }), Seq::empty()),
        Item::Reset => ((RenderState { fg: 0, bg: 0, ..st }), Seq::empty()),
        Item::Chr(c) => {
            if is_ws_char(c) {
                let sidx = st.split_idx + 1;
                let next = if sidx < env.splits.len() {
                    env.splits[sidx]
                } else {
                    env.len
                };
                let slots_in_line = env.width - (st.col - env.pos_x);
                let chars_until_next = next - st.char_idx;
                if chars_until_next <= slots_in_line {
                    let cells = if st.row >= env.first_line {
                        seq![
                            (Cell {
                                x: st.col as usize,
                                y: (env.pos_y + st.row) as usize,
                                ch: c,
                                fg: st.fg,
                                bg: st.bg,
                            }),
                        ]
                    } else {
                        Seq::empty()
                    };
                    (
                        (RenderState {
                            col: st.col + 1,
                            char_idx: st.char_idx + 1,
                            split_idx: sidx,
                            ..st
                        }),
                        cells,
                    )
                } else {
                    (
                        (RenderState {
                            col: env.pos_x,
                            row: st.row + 1,
                            char_idx: st.char_idx + 1,
                            split_idx: sidx,
                            ..st
                        }),
                        Seq::empty(),
                    )
                }
            } else {
                if st.col - env.pos_x < env.width {
                    let cells = if st.row >= env.first_line {
                        seq![
                            (Cell {
                                x: st.col as usize,
                                y: (env.pos_y + st.row) as usize,
                                ch: c,
                                fg: st.fg,
                                bg: st.bg,
                            }),
                        ]
                    } else {
                        Seq::empty()
                    };
                    ((RenderState { col: st.col + 1, char_idx: st.char_idx + 1, ..st }), cells)
                } else {
                    ((RenderState { char_idx: st.char_idx + 1, ..st }), Seq::empty())
                }
            }
        },
    }
}

/// The state and cells after scanning `items` from state `st`.
pub open spec fn render_rec(env: RenderEnv, items: Seq<Item>, st: RenderState) -> (RenderState, Seq<
    Cell,
>)
    decreases items.len(),
{
    if items.len() == 0 {
        (st, Seq::empty())
    } else {
        let stepped = render_step(env, items[0], st);
        let rest = render_rec(env, items.skip(1), stepped.0);
        (rest.0, stepped.1 + rest.1)
    }
}

/// The cells that rendering `items` in `env` writes.
pub open spec fn render_of(items: Seq<Item>, env: RenderEnv) -> Seq<Cell> {
    render_rec(env, items, init_state(env.pos_x)).1
}

impl Line {
    /// The rendering environment of this line for the given region and
    /// scroll offset.
    pub open spec fn env_spec(
        &self,
        pos_x: usize,
        pos_y: usize,
        first_line: usize,
        width: usize,
    ) -> RenderEnv {
        RenderEnv {
            splits: ws_offsets(self.vis()),
            len: self.vis().len() as int,
            pos_x: pos_x as int,
            pos_y: pos_y as int,
            first_line: first_line as int,
            width: width as int,
        }
    }
}

} // verus!
