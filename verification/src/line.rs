//! The line itself: ingestion of raw text with embedded style directives,
//! and the word-wrap height computation.

use crate::render::{init_state, render_of, render_rec, render_step, Cell, RenderState};
use crate::style::{
    dec_val, irc_color_to_termbox, is_digit_char, is_ws_char, is_whitespace_char, to_dec,
    BOLD_PREFIX, COLOR_PREFIX, CONTROL_THRESHOLD, RESET_PREFIX, TB_BOLD, TERMBOX_COLOR_PREFIX,
};
use vstd::prelude::*;
use vstd::string::StrSliceExecFns;

verus! {

/// One decoded element of a line: a visible character or a style directive.
#[derive(Clone, Copy, Debug)]
#[allow(inconsistent_fields)]
pub enum Item {
    /// A visible character, occupying one column.
    Chr(char),
    /// A color directive: a palette foreground code and, when the directive
    /// carried one, a palette background code.
    Color { fg: u16, bg: Option<u16> },
    /// A native-palette color directive: raw foreground and background
    /// indices, applied without palette mapping.
    Native { fg: u16, bg: u16 },
    /// The bold directive.
    Bold,
    /// The reset directive.
    Reset,
}

/// The visible characters an item contributes: one for `Chr`, none for a
/// directive.
pub open spec fn item_chars(it: Item) -> Seq<char> {
    match it {
        Item::Chr(c) => seq![c],
        _ => Seq::empty(),
    }
}

/// The visible characters of a sequence of items, in order.
pub open spec fn vis_of(items: Seq<Item>) -> Seq<char>
    decreases items.len(),
{
    if items.len() == 0 {
        Seq::empty()
    } else {
        vis_of(items.drop_last()) + item_chars(items.last())
    }
}

/// The offsets (visible-character coordinates) of the whitespace characters
/// of `s`, in increasing order: the candidate split points.
pub open spec fn ws_offsets(s: Seq<char>) -> Seq<int>
    decreases s.len(),
{
    if s.len() == 0 {
        Seq::empty()
    } else if is_ws_char(s.last()) {
        ws_offsets(s.drop_last()).push(s.len() - 1)
    } else {
        ws_offsets(s.drop_last())
    }
}

/// The foreground or background code carried by a color directive whose two
/// decimal digits are `d1` and `d2`.
pub open spec fn color_code(d1: char, d2: char) -> u16 {
    if is_digit_char(d1) && is_digit_char(d2) {
        (dec_val(d1) * 10 + dec_val(d2)) as u16
    } else {
        0
    }
}

/// The raw palette index carried by one operand of a native-palette
/// directive: the character's code, truncated to the index width.
pub open spec fn native_code(c: char) -> u16 {
    ((c as int) % 0x10000) as u16
}

/// Raw input is well formed when every color directive that supplies digit
/// operands supplies decimal digits. Directives truncated by the end of the
/// input are allowed: ingestion stops cleanly at a truncation boundary.
pub open spec fn valid_input(s: Seq<char>) -> bool
    decreases s.len(),
{
    if s.len() == 0 {
        true
    } else if s[0] == COLOR_PREFIX {
        if s.len() < 3 {
            true
        } else if !(is_digit_char(s[1]) && is_digit_char(s[2])) {
            false
        } else if s.len() == 3 {
            true
        } else if s[3] == ',' {
            if s.len() < 6 {
                true
            } else {
                is_digit_char(s[4]) && is_digit_char(s[5]) && valid_input(s.skip(6))
            }
        } else {
            valid_input(s.skip(3))
        }
    } else if s[0] == TERMBOX_COLOR_PREFIX {
        if s.len() < 3 {
            true
        } else {
            valid_input(s.skip(3))
        }
    } else {
        valid_input(s.skip(1))
    }
}

/// The items that ingesting `s` appends to a line: the directive taxonomy of
/// the inline encoding. A directive truncated by the end of the input is
/// dropped (a color directive keeps its foreground once both digits are
/// present); characters at or below the control threshold that are not
/// markers are discarded; everything else is a visible character.
pub open spec fn parse_items(s: Seq<char>) -> Seq<Item>
    decreases s.len(),
{
    if s.len() == 0 {
        Seq::empty()
    } else if s[0] == COLOR_PREFIX {
        if s.len() < 3 {
            Seq::empty()
        } else if s.len() == 3 {
            seq![(Item::Color { fg: color_code(s[1], s[2]), bg: None })]
        } else if s[3] == ',' {
            if s.len() < 6 {
                seq![(Item::Color { fg: color_code(s[1], s[2]), bg: None })]
            } else {
                seq![(Item::Color { fg: color_code(s[1], s[2]), bg: Some(color_code(s[4], s[5])) })]
                    + parse_items(s.skip(6))
            }
        } else {
            seq![(Item::Color { fg: color_code(s[1], s[2]), bg: None })] + parse_items(s.skip(3))
        }
    } else if s[0] == TERMBOX_COLOR_PREFIX {
        if s.len() < 3 {
            Seq::empty()
        } else {
            seq![(Item::Native { fg: native_code(s[1]), bg: native_code(s[2]) })] + parse_items(
                s.skip(3),
            )
        }
    } else if s[0] == BOLD_PREFIX {
        seq![(Item::Bold)] + parse_items(s.skip(1))
    } else if s[0] == RESET_PREFIX {
        seq![(Item::Reset)] + parse_items(s.skip(1))
    } else if s[0] as u32 <= CONTROL_THRESHOLD {
        parse_items(s.skip(1))
    } else {
        seq![(Item::Chr(s[0]))] + parse_items(s.skip(1))
    }
}

/// The rows that the greedy word wrap needs for the splits from index `i`
/// on, when the current row started at visible offset `start`: one row, plus
/// one more for every split at which the characters up to the following
/// split (or the end of the line, the separator itself excluded) do not fit
/// into the columns that remain after placing the whitespace.
pub open spec fn height_rec(splits: Seq<int>, len: int, width: int, start: int, i: int) -> int
    decreases splits.len() - i,
{
    if i < 0 || i >= splits.len() {
        1
    } else {
        let s = splits[i];
        let next = if i + 1 < splits.len() {
            splits[i + 1]
        } else {
            len
        };
        let chars_until_next = next - 1 - s;
        if chars_until_next > width - (s - start) - 1 {
            1 + height_rec(splits, len, width, s + 1, i + 1)
        } else {
            height_rec(splits, len, width, start, i + 1)
        }
    }
}

/// The number of rows a line with the given split offsets and visible length
/// occupies when wrapped at `width` columns.
pub open spec fn height_of(splits: Seq<int>, len: int, width: int) -> int {
    height_rec(splits, len, width, 0, 0)
}

/// Split offsets are within the visible length and strictly increasing, and
/// there are no more of them than visible characters.
pub proof fn lemma_ws_offsets_bounds(s: Seq<char>)
    ensures
        ws_offsets(s).len() <= s.len(),
        forall|k: int| 0 <= k < ws_offsets(s).len() ==> 0 <= #[trigger] ws_offsets(s)[k] < s.len(),
        forall|j: int, k: int|
            0 <= j < k < ws_offsets(s).len() ==> #[trigger] ws_offsets(s)[j]
                < #[trigger] ws_offsets(s)[k],
    decreases s.len(),
{
    if s.len() > 0 {
        lemma_ws_offsets_bounds(s.drop_last());
    }
}

/// A sequence of items has at most as many visible characters as items.
pub proof fn lemma_vis_len(items: Seq<Item>)
    ensures
        vis_of(items).len() <= items.len(),
    decreases items.len(),
{
    if items.len() > 0 {
        lemma_vis_len(items.drop_last());
    }
}

/// The visible characters of concatenated items are the concatenated visible
/// characters.
pub proof fn lemma_vis_concat(a: Seq<Item>, b: Seq<Item>)
    ensures
        vis_of(a + b) == vis_of(a) + vis_of(b),
    decreases b.len(),
{
    if b.len() == 0 {
        assert(a + b =~= a);
        assert(vis_of(a) + vis_of(b) =~= vis_of(a));
    } else {
        lemma_vis_concat(a, b.drop_last());
        assert((a + b).drop_last() =~= a + b.drop_last());
        assert((a + b).last() == b.last());
        assert(vis_of(a) + vis_of(b.drop_last()) + item_chars(b.last()) =~= vis_of(a) + vis_of(
            b,
        ));
    }
}

/// The split offsets of concatenated text are those of the first part,
/// followed by those of the second part shifted by the first part's length.
pub proof fn lemma_ws_offsets_concat(a: Seq<char>, b: Seq<char>)
    ensures
        ws_offsets(a + b) == ws_offsets(a) + ws_offsets(b).map_values(|o: int| o + a.len()),
    decreases b.len(),
{
    if b.len() == 0 {
        assert(a + b =~= a);
        assert(ws_offsets(a) + ws_offsets(b).map_values(|o: int| o + a.len()) =~= ws_offsets(a));
    } else {
        lemma_ws_offsets_concat(a, b.drop_last());
        assert((a + b).drop_last() =~= a + b.drop_last());
        assert((a + b).last() == b.last());
        if is_ws_char(b.last()) {
            assert(ws_offsets(a + b) =~= ws_offsets(a) + ws_offsets(b).map_values(
                |o: int| o + a.len(),
            ));
        } else {
            assert(ws_offsets(b) == ws_offsets(b.drop_last()));
            assert(ws_offsets(a + b) =~= ws_offsets(a) + ws_offsets(b).map_values(
                |o: int| o + a.len(),
            ));
        }
    }
}

/// Pushing an item extends the visible characters by what the item
/// contributes.
pub proof fn lemma_vis_push(items: Seq<Item>, it: Item)
    ensures
        vis_of(items.push(it)) == vis_of(items) + item_chars(it),
{
    assert(items.push(it).drop_last() =~= items);
    assert(items.push(it).last() == it);
}

/// Pushing a character extends the split offsets by the character's offset
/// exactly when it is whitespace.
pub proof fn lemma_ws_offsets_push(s: Seq<char>, c: char)
    ensures
        ws_offsets(s.push(c)) == if is_ws_char(c) {
            ws_offsets(s).push(s.len() as int)
        } else {
            ws_offsets(s)
        },
{
    assert(s.push(c).drop_last() =~= s);
    assert(s.push(c).last() == c);
}

/// A single logical line of the message widget: visible text together with
/// inline style directives, decoded once at ingestion time.
#[derive(Debug)]
pub struct Line {
    /// The decoded content, in order of arrival.
    items: Vec<Item>,
    /// Number of visible characters (directives excluded).
    len_chars: usize,
    /// Visible-character offsets of whitespace: the candidate split points,
    /// strictly increasing.
    splits: Vec<usize>,
}

impl View for Line {
    type V = Seq<Item>;

    closed spec fn view(&self) -> Seq<Item> {
        self.items@
    }
}

impl Line {
    /// The visible characters of the line, in order.
    pub open spec fn vis(&self) -> Seq<char> {
        vis_of(self@)
    }

    spec fn splits_view(&self) -> Seq<int> {
        self.splits@.map_values(|v: usize| v as int)
    }

    /// Well-formedness: the visible count and the split offsets agree with
    /// the stored items. Constructors establish it; every method preserves
    /// it.
    pub closed spec fn wf(&self) -> bool {
        &&& self.len_chars == self.vis().len()
        &&& self.splits_view() == ws_offsets(self.vis())
    }

    /// Creates an empty line.
    pub fn new() -> (r: Line)
        ensures
            r.wf(),
            r@ == Seq::<Item>::empty(),
    {
        let r = Line { items: Vec::new(), len_chars: 0, splits: Vec::new() };
        proof {
            assert(r.splits_view() =~= ws_offsets(r.vis()));
        }
        r
    }

    /// Number of visible characters in the line.
    pub fn len_chars(&self) -> (r: usize)
        requires
            self.wf(),
        ensures
            r == self.vis().len(),
    {
        self.len_chars
    }

    /// Appends one decoded item, with the split bookkeeping for visible
    /// whitespace.
    fn push_item(&mut self, it: Item)
        requires
            old(self).wf(),
        ensures
            final(self).wf(),
            final(self)@ == old(self)@.push(it),
    {
        proof {
            lemma_vis_push(self.items@, it);
        }
        if let Item::Chr(c) = it {
            if is_whitespace_char(c) {
                self.splits.push(self.len_chars);
            }
            self.items.push(it);
            let n = self.items.len();
            proof {
                lemma_ws_offsets_push(old(self).vis(), c);
                assert(self.vis() =~= old(self).vis().push(c));
                if is_ws_char(c) {
                    assert(self.splits_view() =~= ws_offsets(old(self).vis()).push(
                        old(self).len_chars as int,
                    ));
                }
                lemma_vis_len(old(self).items@);
                assert(self.len_chars < n);
            }
            self.len_chars = self.len_chars + 1;
        } else {
            self.items.push(it);
            proof {
                assert(self.vis() =~= old(self).vis());
            }
        }
    }

    /// Appends raw text: scans it left to right, decoding directives and
    /// copying visible characters with the whitespace split bookkeeping.
    /// Stops cleanly when a directive is truncated by the end of the input.
    pub fn add_text(&mut self, str: &str)
        requires
            old(self).wf(),
            valid_input(str@),
        ensures
            final(self).wf(),
            final(self)@ == old(self)@ + parse_items(str@),
    {
        let ghost orig: Seq<Item> = self@;
        let n = str.unicode_len();
        let mut i: usize = 0;
        proof {
            assert(str@.skip(0) =~= str@);
        }
        while i < n
            invariant
                self.wf(),
                n == str@.len(),
                i <= n,
                valid_input(str@.skip(i as int)),
                orig + parse_items(str@) == self@ + parse_items(str@.skip(i as int)),
            decreases n - i,
        {
            let ghost rest = str@.skip(i as int);
            let ghost pre = self@;
            let c = str.get_char(i);
            assert(rest[0] == c);
            let rem = n - i;
            if c == COLOR_PREFIX {
                if rem >= 3 {
                    let d1 = str.get_char(i + 1);
                    let d2 = str.get_char(i + 2);
                    assert(rest[1] == d1 && rest[2] == d2);
                    let fg = (to_dec(d1) as u16) * 10 + (to_dec(d2) as u16);
                    assert(fg == color_code(d1, d2));
                    if rem == 3 {
                        self.push_item(Item::Color { fg, bg: None });
                        proof {
                            assert(rest.skip(3) =~= str@.skip(i as int + 3));
                            assert(parse_items(rest) =~= seq![
                                (Item::Color { fg, bg: None }),
                            ]);
                            assert(self@ + parse_items(str@.skip(n as int)) =~= pre
                                + parse_items(rest));
                        }
                        i = n;
                    } else {
                        let c3 = str.get_char(i + 3);
                        assert(rest[3] == c3);
                        if c3 == ',' {
                            if rem < 6 {
                                self.push_item(Item::Color { fg, bg: None });
                                proof {
                                    assert(str@.skip(n as int) =~= Seq::<char>::empty());
                                    assert(parse_items(rest) =~= seq![
                                        (Item::Color { fg, bg: None }),
                                    ]);
                                    assert(self@ + parse_items(str@.skip(n as int)) =~= pre
                                        + parse_items(rest));
                                }
                                i = n;
                            } else {
                                let d4 = str.get_char(i + 4);
                                let d5 = str.get_char(i + 5);
                                assert(rest[4] == d4 && rest[5] == d5);
                                let bgc = (to_dec(d4) as u16) * 10 + (to_dec(d5) as u16);
                                assert(bgc == color_code(d4, d5));
                                self.push_item(Item::Color { fg, bg: Some(bgc) });
                                proof {
                                    assert(rest.skip(6) =~= str@.skip(i as int + 6));
                                    assert(parse_items(rest) =~= seq![
                                        (Item::Color { fg, bg: Some(bgc) }),
                                    ] + parse_items(rest.skip(6)));
                                    assert(self@ + parse_items(str@.skip(i as int + 6)) =~= pre
                                        + parse_items(rest));
                                }
                                i = i + 6;
                            }
                        } else {
                            self.push_item(Item::Color { fg, bg: None });
                            proof {
                                assert(rest.skip(3) =~= str@.skip(i as int + 3));
                                assert(parse_items(rest) =~= seq![
                                    (Item::Color { fg, bg: None }),
                                ] + parse_items(rest.skip(3)));
                                assert(self@ + parse_items(str@.skip(i as int + 3)) =~= pre
                                    + parse_items(rest));
                            }
                            i = i + 3;
                        }
                    }
                } else {
                    proof {
                        assert(parse_items(rest) =~= Seq::<Item>::empty());
                        assert(self@ + parse_items(str@.skip(n as int)) =~= pre + parse_items(
                            rest,
                        ));
                    }
                    i = n;
                }
            } else if c == TERMBOX_COLOR_PREFIX {
                if rem >= 3 {
                    let r1 = str.get_char(i + 1);
                    let r2 = str.get_char(i + 2);
                    assert(rest[1] == r1 && rest[2] == r2);
                    let fg = (r1 as u32 % 0x10000) as u16;
                    let bg = (r2 as u32 % 0x10000) as u16;
                    assert(fg == native_code(r1) && bg == native_code(r2));
                    self.push_item(Item::Native { fg, bg });
                    proof {
                        assert(rest.skip(3) =~= str@.skip(i as int + 3));
                        assert(parse_items(rest) =~= seq![(Item::Native { fg, bg })] + parse_items(
                            rest.skip(3),
                        ));
                        assert(self@ + parse_items(str@.skip(i as int + 3)) =~= pre + parse_items(
                            rest,
                        ));
                    }
                    i = i + 3;
                } else {
                    proof {
                        assert(parse_items(rest) =~= Seq::<Item>::empty());
                        assert(self@ + parse_items(str@.skip(n as int)) =~= pre + parse_items(
                            rest,
                        ));
                    }
                    i = n;
                }
            } else if c == BOLD_PREFIX {
                self.push_item(Item::Bold);
                proof {
                    assert(rest.skip(1) =~= str@.skip(i as int + 1));
                    assert(parse_items(rest) =~= seq![(Item::Bold)] + parse_items(rest.skip(1)));
                    assert(self@ + parse_items(str@.skip(i as int + 1)) =~= pre + parse_items(
                        rest,
                    ));
                }
                i = i + 1;
            } else if c == RESET_PREFIX {
                self.push_item(Item::Reset);
                proof {
                    assert(rest.skip(1) =~= str@.skip(i as int + 1));
                    assert(parse_items(rest) =~= seq![(Item::Reset)] + parse_items(rest.skip(1)));
                    assert(self@ + parse_items(str@.skip(i as int + 1)) =~= pre + parse_items(
                        rest,
                    ));
                }
                i = i + 1;
            } else if (c as u32) <= CONTROL_THRESHOLD {
                proof {
                    assert(rest.skip(1) =~= str@.skip(i as int + 1));
                    assert(parse_items(rest) =~= parse_items(rest.skip(1)));
                }
                i = i + 1;
            } else {
                self.push_item(Item::Chr(c));
                proof {
                    assert(rest.skip(1) =~= str@.skip(i as int + 1));
                    assert(parse_items(rest) =~= seq![(Item::Chr(c))] + parse_items(rest.skip(1)));
                    assert(self@ + parse_items(str@.skip(i as int + 1)) =~= pre + parse_items(
                        rest,
                    ));
                }
                i = i + 1;
            }
        }
        proof {
            assert(str@.skip(n as int) =~= Seq::<char>::empty());
            assert(parse_items(str@.skip(n as int)) =~= Seq::<Item>::empty());
            assert(self@ =~= orig + parse_items(str@));
        }
    }

    /// Number of terminal rows the line occupies when wrapped at `width`
    /// visible columns: the greedy word wrap over the split points. A line
    /// with no split points is one row whatever the width.
    pub fn rendered_height(&self, width: usize) -> (r: usize)
        requires
            self.wf(),
            self.vis().len() < usize::MAX,
        ensures
            r == height_of(ws_offsets(self.vis()), self.vis().len() as int, width as int),
    {
        proof {
            lemma_ws_offsets_bounds(self.vis());
        }
        let ghost sv = self.splits_view();
        let ghost len = self.vis().len() as int;
        let nsplits = self.splits.len();
        let mut lines: usize = 1;
        let mut line_start: usize = 0;
        let mut idx: usize = 0;
        while idx < nsplits
            invariant
                self.wf(),
                sv == self.splits_view(),
                sv == ws_offsets(self.vis()),
                len == self.vis().len() as int,
                nsplits == self.splits@.len(),
                nsplits <= len < usize::MAX,
                forall|k: int| 0 <= k < sv.len() ==> 0 <= #[trigger] sv[k] < len,
                forall|j: int, k: int|
                    0 <= j < k < sv.len() ==> #[trigger] sv[j] < #[trigger] sv[k],
                idx <= nsplits,
                1 <= lines <= idx + 1,
                idx < nsplits ==> line_start as int <= sv[idx as int],
                line_start <= len,
                height_of(sv, len, width as int) == lines - 1 + height_rec(
                    sv,
                    len,
                    width as int,
                    line_start as int,
                    idx as int,
                ),
            decreases nsplits - idx,
        {
            let ghost ls0 = line_start as int;
            let ghost idx0 = idx as int;
            let s = self.splits[idx];
            assert(s as int == sv[idx0]);
            let next: usize = if idx + 1 < nsplits {
                self.splits[idx + 1]
            } else {
                self.len_chars
            };
            assert((s as int) < next as int && next as int <= len);
            let chars_until_next = next - 1 - s;
            let col = s - line_start;
            let wrap = if col >= width {
                true
            } else {
                chars_until_next > width - (col + 1)
            };
            proof {
                assert(wrap == (next as int - 1 - s as int > width as int - (s as int - ls0)
                    - 1));
            }
            if wrap {
                lines = lines + 1;
                line_start = s + 1;
            }
            idx = idx + 1;
            proof {
                if wrap {
                    assert(height_rec(sv, len, width as int, ls0, idx0) == 1 + height_rec(
                        sv,
                        len,
                        width as int,
                        sv[idx0] + 1,
                        idx0 + 1,
                    ));
                } else {
                    assert(height_rec(sv, len, width as int, ls0, idx0) == height_rec(
                        sv,
                        len,
                        width as int,
                        ls0,
                        idx0 + 1,
                    ));
                }
            }
        }
        proof {
            assert(height_rec(sv, len, width as int, line_start as int, idx as int) == 1);
        }
        lines
    }

    /// Appends a single visible character (it must not be the color
    /// directive marker), with the usual whitespace bookkeeping.
    pub fn add_char(&mut self, c: char)
        requires
            old(self).wf(),
            c != COLOR_PREFIX,
        ensures
            final(self).wf(),
            final(self)@ == old(self)@.push(Item::Chr(c)),
    {
        self.push_item(Item::Chr(c));
    }

    /// Renders the line into a `width`-column region whose leftmost column is
    /// `pos_x` and whose top row is `pos_y`, skipping the first `first_line`
    /// wrapped rows: returns the cell writes, in order. Re-walks the same
    /// wrap decisions as `rendered_height`.
    pub fn draw_from(&self, pos_x: usize, pos_y: usize, first_line: usize, width: usize) -> (r:
        Vec<Cell>)
        requires
            self.wf(),
            pos_x + width <= usize::MAX,
            pos_y + self.vis().len() <= usize::MAX,
        ensures
            r@ == render_of(self@, self.env_spec(pos_x, pos_y, first_line, width)),
    {
        let ghost env = self.env_spec(pos_x, pos_y, first_line, width);
        let ghost full = render_rec(env, self@, init_state(env.pos_x));
        proof {
            lemma_ws_offsets_bounds(self.vis());
            assert(self@.skip(0) =~= self@);
        }
        let mut r: Vec<Cell> = Vec::new();
        let mut col: usize = pos_x;
        let mut row: usize = 0;
        let mut next_split_idx: usize = 0;
        let mut char_idx: usize = 0;
        let mut fg: u16 = 0;
        let mut bg: u16 = 0;
        let nitems = self.items.len();
        let mut i: usize = 0;
        while i < nitems
            invariant
                self.wf(),
                env == self.env_spec(pos_x, pos_y, first_line, width),
                full == render_rec(env, self@, init_state(env.pos_x)),
                pos_x + width <= usize::MAX,
                pos_y + self.vis().len() <= usize::MAX,
                env.splits.len() <= env.len,
                forall|k: int|
                    0 <= k < env.splits.len() ==> 0 <= #[trigger] env.splits[k] < env.len,
                forall|j: int, k: int|
                    0 <= j < k < env.splits.len() ==> #[trigger] env.splits[j]
                        < #[trigger] env.splits[k],
                nitems == self@.len(),
                i <= nitems,
                char_idx as int == vis_of(self@.take(i as int)).len(),
                char_idx <= self.vis().len(),
                next_split_idx as int == ws_offsets(vis_of(self@.take(i as int))).len(),
                next_split_idx <= env.splits.len(),
                row <= next_split_idx,
                pos_x <= col <= pos_x + width,
                full.0 == render_rec(
                    env,
                    self@.skip(i as int),
                    (RenderState {
                        col: col as int,
                        row: row as int,
                        char_idx: char_idx as int,
                        split_idx: next_split_idx as int,
                        fg: fg,
                        bg: bg,
                    }),
                ).0,
                full.1 == r@ + render_rec(
                    env,
                    self@.skip(i as int),
                    (RenderState {
                        col: col as int,
                        row: row as int,
                        char_idx: char_idx as int,
                        split_idx: next_split_idx as int,
                        fg: fg,
                        bg: bg,
                    }),
                ).1,
            decreases nitems - i,
        {
            let ghost st0 = RenderState {
                col: col as int,
                row: row as int,
                char_idx: char_idx as int,
                split_idx: next_split_idx as int,
                fg: fg,
                bg: bg,
            };
            let ghost rem0 = self@.skip(i as int);
            let ghost r0 = r@;
            proof {
                assert(rem0[0] == self@[i as int]);
                assert(rem0.skip(1) =~= self@.skip(i as int + 1));
                assert(self@.take(i as int + 1).drop_last() =~= self@.take(i as int));
                assert(self@.take(i as int + 1).last() == self@[i as int]);
                assert(vis_of(self@.take(i as int + 1)) == vis_of(self@.take(i as int))
                    + item_chars(self@[i as int]));
                lemma_vis_concat(self@.take(i as int + 1), self@.skip(i as int + 1));
                assert(self@.take(i as int + 1) + self@.skip(i as int + 1) =~= self@);
            }
            let it = self.items[i];
            match it {
                Item::Chr(c) => {
                    proof {
                        assert(vis_of(self@.take(i as int + 1)) =~= vis_of(
                            self@.take(i as int),
                        ).push(c));
                        lemma_ws_offsets_push(vis_of(self@.take(i as int)), c);
                    }
                    if is_whitespace_char(c) {
                        proof {
                            let vis_p = vis_of(self@.take(i as int));
                            let vis_r = vis_of(self@.skip(i as int + 1));
                            assert(self.vis() =~= vis_p.push(c) + vis_r);
                            lemma_ws_offsets_concat(vis_p.push(c), vis_r);
                            lemma_ws_offsets_bounds(vis_r);
                            assert(env.splits =~= ws_offsets(vis_p).push(vis_p.len() as int)
                                + ws_offsets(vis_r).map_values(|o: int| o + (vis_p.len() + 1)));
                            assert(env.splits[next_split_idx as int] == char_idx as int);
                            assert(next_split_idx < env.splits.len());
                            if next_split_idx as int + 1 < env.splits.len() {
                                assert(env.splits[next_split_idx as int + 1] == vis_p.len() + 1
                                    + ws_offsets(vis_r)[0]);
                                assert(env.splits[next_split_idx as int + 1] > char_idx as int);
                            }
                            assert(env.len >= char_idx as int + 1);
                        }
                        next_split_idx = next_split_idx + 1;
                        let next: usize = if next_split_idx < self.splits.len() {
                            self.splits[next_split_idx]
                        } else {
                            self.len_chars
                        };
                        assert(next as int == if next_split_idx < env.splits.len() {
                            env.splits[next_split_idx as int]
                        } else {
                            env.len
                        });
                        assert(char_idx < next);
                        let slots_in_line = width - (col - pos_x);
                        let chars_until_next = next - char_idx;
                        if chars_until_next <= slots_in_line {
                            if row >= first_line {
                                r.push(Cell { x: col, y: pos_y + row, ch: c, fg, bg });
                            }
                            col = col + 1;
                        } else {
                            row = row + 1;
                            col = pos_x;
                        }
                        char_idx = char_idx + 1;
                    } else {
                        if col - pos_x < width {
                            if row >= first_line {
                                r.push(Cell { x: col, y: pos_y + row, ch: c, fg, bg });
                            }
                            col = col + 1;
                        }
                        char_idx = char_idx + 1;
                    }
                },
                Item::Color { fg: f, bg: b } => {
                    fg = (fg & TB_BOLD) | irc_color_to_termbox(f);
                    bg = match b {
                        Some(bb) => irc_color_to_termbox(bb),
                        None => 0,
                    };
                },
                Item::Native { fg: f, bg: b } => {
                    fg = f;
                    bg = b;
                },
                Item::Bold => {
                    fg = fg | TB_BOLD;
                },
                Item::Reset => {
                    fg = 0;
                    bg = 0;
                },
            }
            i = i + 1;
            proof {
                let stepped = render_step(env, self@[i as int - 1], st0);
                let st1 = RenderState {
                    col: col as int,
                    row: row as int,
                    char_idx: char_idx as int,
                    split_idx: next_split_idx as int,
                    fg: fg,
                    bg: bg,
                };
                assert(stepped.0 == st1);
                assert(r@ =~= r0 + stepped.1);
                assert(render_rec(env, rem0, st0).0 == render_rec(
                    env,
                    self@.skip(i as int),
                    st1,
                ).0);
                assert(render_rec(env, rem0, st0).1 == stepped.1 + render_rec(
                    env,
                    self@.skip(i as int),
                    st1,
                ).1);
                assert(full.1 =~= r@ + render_rec(env, self@.skip(i as int), st1).1);
            }
        }
        proof {
            assert(self@.skip(nitems as int) =~= Seq::<Item>::empty());
            assert(full.1 =~= r@);
        }
        r
    }

    /// Renders the whole line (no rows skipped): the cell writes for the
    /// region starting at `(pos_x, pos_y)` with the given width.
    pub fn draw(&self, pos_x: usize, pos_y: usize, width: usize) -> (r: Vec<Cell>)
        requires
            self.wf(),
            pos_x + width <= usize::MAX,
            pos_y + self.vis().len() <= usize::MAX,
        ensures
            r@ == render_of(self@, self.env_spec(pos_x, pos_y, 0, width)),
    {
        self.draw_from(pos_x, pos_y, 0, width)
    }
}

} // verus!
