//! The presentation compositor: given a viewport, a state snapshot and the
//! store, it produces cell sizes, labels, drawable items and the screen
//! regions, and keeps the scroll offset so the cursor stays visible.

use vstd::prelude::*;

use crate::data::Data;
use crate::position::CellPos;
use crate::state::{StateInfo, StateVal};
use crate::text::usize_dec_chars;
use crate::viewer::Item;

verus! {

/// A rectangular screen region, in character cells.
#[derive(Debug, PartialEq, Eq, Structural, Clone, Copy)]
pub struct Area {
    pub x: u16,
    pub y: u16,
    pub width: u16,
    pub height: u16,
}

/// Where one scroll coordinate lands: the window is `[off, off + n - 2]`;
/// a cursor past either end moves the offset by exactly the overshoot.
pub open spec fn scroll1(off: int, cur: int, n: int) -> int {
    if cur > off + (n - 2) {
        cur - (n - 2)
    } else if cur < off {
        cur
    } else {
        off
    }
}

/// The presentation compositor.
pub struct Compositor {
    scroll_offset: CellPos,
    cursor_pos: CellPos,
    default_width: u16,
    default_height: u16,
    area: Option<Area>,
    drawable_data: Vec<(CellPos, String)>,
    state: Option<StateInfo>,
}

impl Compositor {
    /// The scroll offset: the grid cell at the top-left visible corner.
    pub closed spec fn offset(self) -> CellPos {
        self.scroll_offset
    }

    /// The cursor, as last set.
    pub closed spec fn cursor(self) -> CellPos {
        self.cursor_pos
    }

    /// The held viewport, if one was set.
    pub closed spec fn area_of(self) -> Option<Area> {
        self.area
    }

    /// The collected window contents: position and display text.
    pub closed spec fn drawable(self) -> Seq<(CellPos, Seq<char>)> {
        Seq::new(
            self.drawable_data@.len(),
            |i: int| (self.drawable_data@[i].0, self.drawable_data@[i].1@),
        )
    }

    /// Whether a state snapshot was set.
    pub closed spec fn has_state(self) -> bool {
        self.state is Some
    }

    /// The snapshot's mode.
    pub closed spec fn s_mode(self) -> StateVal {
        self.state->Some_0.mode
    }

    /// The snapshot's edit buffer.
    pub closed spec fn s_buffer(self) -> Seq<char> {
        self.state->Some_0.buffer@
    }

    /// Cell sizes are the defaults and any held viewport is large enough to
    /// show at least two columns, five rows and the edit band.
    pub closed spec fn wf(self) -> bool {
        &&& self.default_width == 12
        &&& self.default_height == 1
        &&& match self.area {
            Some(a) => a.width >= 29 && a.height >= 11 && a.x + a.width <= u16::MAX && a.y
                + a.height <= u16::MAX,
            None => true,
        }
    }

    /// How many columns the viewport shows.
    pub open spec fn n_wide(self) -> int {
        match self.area_of() {
            None => 0,
            Some(a) => (a.width - 3) / 13,
        }
    }

    /// How many rows the viewport shows.
    pub open spec fn n_high(self) -> int {
        match self.area_of() {
            None => 0,
            Some(a) => (a.height - 1) / 2,
        }
    }

    /// Whether grid cell `p` lies in the visible window.
    pub open spec fn in_window(self, p: CellPos) -> bool {
        &&& self.offset().x <= p.x < self.offset().x + self.n_wide()
        &&& self.offset().y <= p.y < self.offset().y + self.n_high()
    }

    /// Whether the cursor lies in the visible window; every state update
    /// scrolls to make it so.
    pub open spec fn cursor_visible(self) -> bool {
        self.in_window(self.cursor())
    }

    /// Whether the collected positions are pairwise distinct, so each grid
    /// cell yields at most one drawable item.
    pub open spec fn drawable_distinct(self) -> bool {
        forall|i: int, j: int|
            0 <= i < j < self.drawable().len() ==> (#[trigger] self.drawable()[i]).0 != (
            #[trigger] self.drawable()[j]).0
    }

    /// Whether everything collected for drawing lies in the window.
    pub open spec fn drawable_ok(self) -> bool {
        forall|i: int|
            0 <= i < self.drawable().len() ==> self.in_window((#[trigger] self.drawable()[i]).0)
    }

    /// A compositor with no viewport, no state and nothing to draw.
    pub fn new() -> (r: Compositor)
        ensures
            r.wf(),
            r.offset() == (CellPos { x: 0, y: 0 }),
            r.cursor() == (CellPos { x: 0, y: 0 }),
            r.area_of() is None,
            !r.has_state(),
            r.drawable() == Seq::<(CellPos, Seq<char>)>::empty(),
    {
        let r = Compositor {
            scroll_offset: CellPos::new(0, 0),
            cursor_pos: CellPos::new(0, 0),
            default_width: 12,
            default_height: 1,
            area: None,
            drawable_data: Vec::new(),
            state: None,
        };
        proof {
            assert(r.drawable() =~= Seq::<(CellPos, Seq<char>)>::empty());
        }
        r
    }

    /// Sets the viewport. It must be large enough for the label margin, two
    /// columns, five rows and the edit band.
    pub fn set_area(&mut self, area: Area)
        requires
            old(self).wf(),
            area.width >= 29,
            area.height >= 11,
            area.x + area.width <= u16::MAX,
            area.y + area.height <= u16::MAX,
        ensures
            final(self).wf(),
            final(self).area_of() == Some(area),
            final(self).offset() == old(self).offset(),
            final(self).cursor() == old(self).cursor(),
            final(self).drawable() == old(self).drawable(),
            final(self).has_state() == old(self).has_state(),
            old(self).has_state() ==> final(self).s_mode() == old(self).s_mode()
                && final(self).s_buffer() == old(self).s_buffer(),
    {
        self.area = Some(area);
    }

    /// Takes a state snapshot: records the cursor, scrolls the window by the
    /// minimal amount that brings the cursor back inside it, and keeps the
    /// snapshot for the mode and buffer.
    pub fn set_state(&mut self, state: StateInfo)
        requires
            old(self).wf(),
            old(self).area_of() is Some,
        ensures
            final(self).wf(),
            final(self).area_of() == old(self).area_of(),
            final(self).cursor() == state.cursor_pos,
            final(self).has_state(),
            final(self).s_mode() == state.mode,
            final(self).s_buffer() == state.buffer@,
            final(self).drawable() == old(self).drawable(),
            final(self).offset() == (CellPos {
                x: scroll1(
                    old(self).offset().x as int,
                    state.cursor_pos.x as int,
                    old(self).n_wide(),
                ) as usize,
                y: scroll1(
                    old(self).offset().y as int,
                    state.cursor_pos.y as int,
                    old(self).n_high(),
                ) as usize,
            }),
            // the window rule: the offset follows the cursor so that
            // offset <= cursor < offset + (n - 1) on each axis
            final(self).offset().x <= final(self).cursor().x,
            final(self).cursor().x < final(self).offset().x + (final(self).n_wide() - 1),
            final(self).offset().y <= final(self).cursor().y,
            final(self).cursor().y < final(self).offset().y + (final(self).n_high() - 1),
            final(self).cursor_visible(),
    {
        self.cursor_pos = state.cursor_pos;
        self.handle_scrolling();
        self.state = Some(state);
    }

    /// Scrolls each axis by the exact overshoot of the cursor past the
    /// window, or back to the cursor when it moved before the window.
    fn handle_scrolling(&mut self)
        requires
            old(self).wf(),
            old(self).area_of() is Some,
        ensures
            final(self).wf(),
            final(self).offset() == (CellPos {
                x: scroll1(
                    old(self).offset().x as int,
                    old(self).cursor().x as int,
                    old(self).n_wide(),
                ) as usize,
                y: scroll1(
                    old(self).offset().y as int,
                    old(self).cursor().y as int,
                    old(self).n_high(),
                ) as usize,
            }),
            final(self).cursor() == old(self).cursor(),
            final(self).area_of() == old(self).area_of(),
            final(self).drawable() == old(self).drawable(),
            final(self).has_state() == old(self).has_state(),
            old(self).has_state() ==> final(self).s_mode() == old(self).s_mode()
                && final(self).s_buffer() == old(self).s_buffer(),
            final(self).cursor_visible(),
    {
        let area = match self.area {
            Some(a) => a,
            None => Area { x: 0, y: 0, width: 29, height: 11 },
        };
        let n_wide_m2 = ((area.width - 3) / 13) as usize - 2;
        let n_high_m2 = ((area.height - 1) / 2) as usize - 2;
        let cur = self.cursor_pos;
        let off = self.scroll_offset;
        let nx: usize = if cur.x > off.x && cur.x - off.x > n_wide_m2 {
            cur.x - n_wide_m2
        } else if cur.x < off.x {
            cur.x
        } else {
            off.x
        };
        let ny: usize = if cur.y > off.y && cur.y - off.y > n_high_m2 {
            cur.y - n_high_m2
        } else if cur.y < off.y {
            cur.y
        } else {
            off.y
        };
        self.scroll_offset = CellPos::new(nx, ny);
    }

    /// Collects the display text of every stored cell in the visible
    /// window, in column-major order.
    pub fn set_data(&mut self, data: &Data)
        requires
            old(self).wf(),
            data.wf(),
        ensures
            final(self).wf(),
            final(self).drawable_ok(),
            final(self).drawable_distinct(),
            forall|i: int|
                0 <= i < final(self).drawable().len() ==> {
                    let pr = #[trigger] final(self).drawable()[i];
                    data.lookup().dom().contains(pr.0) && pr.1 == data.lookup()[pr.0]
                },
            forall|p: CellPos| #![trigger data.lookup().dom().contains(p)]
                final(self).in_window(p) && data.lookup().dom().contains(p) ==> exists|i: int|
                    0 <= i < final(self).drawable().len()
                        && (#[trigger] final(self).drawable()[i]).0 == p,
            final(self).offset() == old(self).offset(),
            final(self).cursor() == old(self).cursor(),
            final(self).area_of() == old(self).area_of(),
            final(self).has_state() == old(self).has_state(),
            old(self).has_state() ==> final(self).s_mode() == old(self).s_mode()
                && final(self).s_buffer() == old(self).s_buffer(),
            final(self).n_wide() == old(self).n_wide(),
            final(self).n_high() == old(self).n_high(),
    {
        let (nw, nh): (usize, usize) = match self.area {
            Some(a) => (((a.width - 3) / 13) as usize, ((a.height - 1) / 2) as usize),
            None => (0, 0),
        };
        let off = self.scroll_offset;
        let mut out: Vec<(CellPos, String)> = Vec::new();
        let mut dx: usize = 0;
        while dx < nw
            invariant
                dx <= nw,
                self.wf(),
                data.wf(),
                nw == self.n_wide(),
                nh == self.n_high(),
                off == self.offset(),
                forall|i: int, j: int|
                    0 <= i < j < out@.len() ==> (#[trigger] out@[i]).0 != (#[trigger] out@[j]).0,
                forall|i: int|
                    0 <= i < out@.len() ==> {
                        let pr = #[trigger] out@[i];
                        &&& self.in_window(pr.0)
                        &&& pr.0.x < off.x + dx
                        &&& data.lookup().dom().contains(pr.0)
                        &&& pr.1@ == data.lookup()[pr.0]
                    },
                forall|p: CellPos| #![trigger data.lookup().dom().contains(p)]
                    self.in_window(p) && p.x < off.x + dx && data.lookup().dom().contains(p)
                        ==> exists|i: int| 0 <= i < out@.len() && (#[trigger] out@[i]).0 == p,
            decreases nw - dx,
        {
            if dx > usize::MAX - off.x {
                proof {
                    assert forall|p: CellPos|
                        self.in_window(p) && p.x < off.x + nw && data.lookup().dom().contains(p)
                            implies p.x < off.x + dx by {}
                }
                dx = nw;
            } else {
                let x = off.x + dx;
                let mut dy: usize = 0;
                while dy < nh
                    invariant
                        dy <= nh,
                        dx < nw,
                        self.wf(),
                        data.wf(),
                        nw == self.n_wide(),
                        nh == self.n_high(),
                        off == self.offset(),
                        x == off.x + dx,
                        forall|i: int, j: int|
                            0 <= i < j < out@.len() ==> (#[trigger] out@[i]).0 != (
                            #[trigger] out@[j]).0,
                        forall|i: int|
                            0 <= i < out@.len() ==> {
                                let pr = #[trigger] out@[i];
                                &&& self.in_window(pr.0)
                                &&& (pr.0.x < off.x + dx || (pr.0.x == off.x + dx && pr.0.y
                                    < off.y + dy))
                                &&& data.lookup().dom().contains(pr.0)
                                &&& pr.1@ == data.lookup()[pr.0]
                            },
                        forall|p: CellPos| #![trigger data.lookup().dom().contains(p)]
                            self.in_window(p) && (p.x < off.x + dx || (p.x == off.x + dx && p.y
                                < off.y + dy)) && data.lookup().dom().contains(p) ==> exists|
                                i: int,
                            | 0 <= i < out@.len() && (#[trigger] out@[i]).0 == p,
                    decreases nh - dy,
                {
                    if dy > usize::MAX - off.y {
                        proof {
                            assert forall|p: CellPos|
                                self.in_window(p) && (p.x < off.x + dx || (p.x == off.x + dx
                                    && p.y < off.y + nh)) && data.lookup().dom().contains(p)
                                    implies (p.x < off.x + dx || (p.x == off.x + dx && p.y < off.y
                                    + dy)) by {}
                        }
                        dy = nh;
                    } else {
                        let y = off.y + dy;
                        let cell = CellPos::new(x, y);
                        let ghost out0 = out@;
                        let entry = data.get(cell);
                        match entry {
                            Some(s) => {
                                out.push((cell, s.clone()));
                            },
                            None => {},
                        }
                        dy = dy + 1;
                        proof {
                            assert forall|i: int, j: int|
                                0 <= i < j < out@.len() implies (#[trigger] out@[i]).0 != (
                            #[trigger] out@[j]).0 by {
                                if j < out0.len() {
                                    assert(out@[i] == out0[i] && out@[j] == out0[j]);
                                } else {
                                    assert(out@[j].0 == cell);
                                    assert(out@[i] == out0[i]);
                                    assert(out0[i].0.x < off.x + dx || (out0[i].0.x == off.x + dx
                                        && out0[i].0.y < off.y + dy - 1));
                                }
                            }
                            assert forall|i: int|
                                0 <= i < out@.len() implies {
                                let pr = #[trigger] out@[i];
                                &&& self.in_window(pr.0)
                                &&& (pr.0.x < off.x + dx || (pr.0.x == off.x + dx && pr.0.y
                                    < off.y + dy))
                                &&& data.lookup().dom().contains(pr.0)
                                &&& pr.1@ == data.lookup()[pr.0]
                            } by {
                                if i < out0.len() {
                                    assert(out@[i] == out0[i]);
                                } else {
                                    assert(out@[i].0 == cell);
                                }
                            }
                            assert forall|q: CellPos| #![trigger data.lookup().dom().contains(q)]
                                self.in_window(q) && (q.x < off.x + dx || (q.x == off.x + dx
                                    && q.y < off.y + dy)) && data.lookup().dom().contains(q)
                                implies exists|i: int|
                                0 <= i < out@.len() && (#[trigger] out@[i]).0 == q by {
                                if q.x < off.x + dx || (q.x == off.x + dx && q.y < off.y + dy
                                    - 1) {
                                    let i = choose|i: int|
                                        0 <= i < out0.len() && (#[trigger] out0[i]).0 == q;
                                    assert(out@[i] == out0[i]);
                                } else {
                                    assert(q == cell);
                                    assert(out@[out@.len() - 1].0 == cell);
                                }
                            }
                        }
                    }
                }
            }
            if dx < nw {
                dx = dx + 1;
                proof {
                    assert forall|q: CellPos| #![trigger data.lookup().dom().contains(q)]
                        self.in_window(q) && q.x < off.x + dx && data.lookup().dom().contains(q)
                        implies exists|i: int|
                        0 <= i < out@.len() && (#[trigger] out@[i]).0 == q by {
                        assert(q.x < off.x + (dx - 1) || (q.x == off.x + (dx - 1) && q.y < off.y
                            + nh));
                    }
                }
            }
        }
        self.drawable_data = out;
        proof {
            assert forall|i: int, j: int|
                0 <= i < j < self.drawable().len() implies (#[trigger] self.drawable()[i]).0 != (
            #[trigger] self.drawable()[j]).0 by {
                assert(self.drawable()[i] == (self.drawable_data@[i].0, self.drawable_data@[i].1@));
                assert(self.drawable()[j] == (self.drawable_data@[j].0, self.drawable_data@[j].1@));
                assert(out@[i].0 != out@[j].0);
            }
            assert forall|i: int|
                0 <= i < self.drawable().len() implies {
                let pr = #[trigger] self.drawable()[i];
                &&& self.in_window(pr.0)
                &&& data.lookup().dom().contains(pr.0)
                &&& pr.1 == data.lookup()[pr.0]
            } by {
                assert(self.drawable()[i] == (self.drawable_data@[i].0, self.drawable_data@[i].1@));
                assert(out@[i] == self.drawable_data@[i]);
            }
            assert forall|q: CellPos| #![trigger data.lookup().dom().contains(q)]
                self.in_window(q) && data.lookup().dom().contains(q) implies exists|i: int|
                0 <= i < self.drawable().len() && (#[trigger] self.drawable()[i]).0 == q by {
                assert(q.x < off.x + nw);
                let i = choose|i: int| 0 <= i < out@.len() && (#[trigger] out@[i]).0 == q;
                assert(self.drawable()[i] == (self.drawable_data@[i].0, self.drawable_data@[i].1@));
                assert(self.drawable()[i].0 == q);
            }
        }
    }

    /// One default width per visible column.
    pub fn get_widths(&self) -> (r: Vec<u16>)
        requires
            self.wf(),
        ensures
            r@.len() == self.n_wide(),
            forall|i: int| 0 <= i < r@.len() ==> r@[i] == 12,
    {
        let nw: usize = match self.area {
            Some(a) => ((a.width - 3) / 13) as usize,
            None => 0,
        };
        let mut r: Vec<u16> = Vec::new();
        let mut i: usize = 0;
        while i < nw
            invariant
                i <= nw,
                r@.len() == i,
                forall|j: int| 0 <= j < r@.len() ==> r@[j] == 12,
            decreases nw - i,
        {
            r.push(12);
            i += 1;
        }
        r
    }

    /// One default height per visible row.
    pub fn get_heights(&self) -> (r: Vec<u16>)
        requires
            self.wf(),
        ensures
            r@.len() == self.n_high(),
            forall|i: int| 0 <= i < r@.len() ==> r@[i] == 1,
    {
        let nh: usize = match self.area {
            Some(a) => ((a.height - 1) / 2) as usize,
            None => 0,
        };
        let mut r: Vec<u16> = Vec::new();
        let mut i: usize = 0;
        while i < nh
            invariant
                i <= nh,
                r@.len() == i,
                forall|j: int| 0 <= j < r@.len() ==> r@[j] == 1,
            decreases nh - i,
        {
            r.push(1);
            i += 1;
        }
        r
    }

    /// Column and row labels from the scroll offset on: a letter per column
    /// (`A` to `Z`, then wrapping), a decimal row number per row.
    pub fn get_labels(&self) -> (r: (Vec<String>, Vec<String>))
        requires
            self.wf(),
        ensures
            r.0@.len() == self.n_wide(),
            forall|i: int|
                0 <= i < r.0@.len() ==> (#[trigger] r.0@[i])@.len() == 1 && r.0@[i]@[0] as int
                    == 'A' as int + (self.offset().x + i) % 26,
            r.1@.len() == self.n_high(),
            forall|i: int|
                0 <= i < r.1@.len() ==> (#[trigger] r.1@[i])@ == crate::text::dec_digits(
                    if self.offset().y + i > usize::MAX {
                        usize::MAX as int
                    } else {
                        self.offset().y + i
                    },
                ),
    {
        let nw: usize = match self.area {
            Some(a) => ((a.width - 3) / 13) as usize,
            None => 0,
        };
        let nh: usize = match self.area {
            Some(a) => ((a.height - 1) / 2) as usize,
            None => 0,
        };
        let off = self.scroll_offset;
        let mut cols: Vec<String> = Vec::new();
        let mut li: usize = off.x % 26;
        let mut i: usize = 0;
        while i < nw
            invariant
                i <= nw,
                cols@.len() == i,
                li == (off.x + i) % 26,
                forall|j: int|
                    0 <= j < cols@.len() ==> (#[trigger] cols@[j])@.len() == 1 && cols@[j]@[0]
                        as int == 'A' as int + (off.x + j) % 26,
            decreases nw - i,
        {
            let ch = (65u8 + li as u8) as char;
            proof {
                assert(li < 26);
                assert(ch as int == 65 + li);
            }
            let mut one: Vec<char> = Vec::new();
            one.push(ch);
            let label = crate::text::chars_to_string(&one);
            cols.push(label);
            li = if li == 25 {
                0
            } else {
                li + 1
            };
            i += 1;
        }
        let mut rows: Vec<String> = Vec::new();
        let mut k: usize = 0;
        while k < nh
            invariant
                k <= nh,
                rows@.len() == k,
                forall|j: int|
                    0 <= j < rows@.len() ==> (#[trigger] rows@[j])@ == crate::text::dec_digits(
                        if off.y + j > usize::MAX {
                            usize::MAX as int
                        } else {
                            off.y + j
                        },
                    ),
            decreases nh - k,
        {
            // a row number past the index range shows the largest one
            let v: usize = if k > usize::MAX - off.y {
                usize::MAX
            } else {
                off.y + k
            };
            let digits = usize_dec_chars(v);
            let label = crate::text::chars_to_string(&digits);
            rows.push(label);
            k += 1;
        }
        (cols, rows)
    }

    /// The drawable items: every collected window cell at its screen
    /// coordinate, the cursor cell marked with `"> "` (and replaced by the
    /// buffer while inserting), and a bare cursor marker when the cursor
    /// cell holds nothing.
    pub fn get_drawable(&mut self) -> (r: Vec<Item>)
        requires
            old(self).wf(),
            old(self).area_of() is Some,
            old(self).cursor_visible(),
            old(self).drawable_ok(),
            old(self).drawable_distinct(),
            old(self).has_state(),
        ensures
            *final(self) == *old(self),
            // distinct screen positions: in particular, exactly one item
            // carries the cursor cell's position and with it the marker
            forall|i: int, j: int|
                0 <= i < j < r@.len() ==> (#[trigger] r@[i]).position != (#[trigger] r@[j]).position,
            ({
                let d = old(self).drawable();
                let off = old(self).offset();
                let cur = old(self).cursor();
                let insert_mode = old(self).s_mode() is Insert;
                let buf = old(self).s_buffer();
                let cursor_drawn = exists|i: int| 0 <= i < d.len() && (#[trigger] d[i]).0 == cur;
                &&& r@.len() == d.len() + (if cursor_drawn {
                    0int
                } else {
                    1int
                })
                &&& forall|i: int|
                    0 <= i < d.len() ==> {
                        let pr = #[trigger] d[i];
                        &&& r@[i].position.0 as int == pr.0.x - off.x
                        &&& r@[i].position.1 as int == pr.0.y - off.y
                        &&& r@[i].data@ == if pr.0 == cur {
                            if insert_mode {
                                "> "@ + buf
                            } else {
                                "> "@ + pr.1
                            }
                        } else {
                            pr.1
                        }
                    }
                &&& !cursor_drawn ==> {
                    let it = r@[r@.len() - 1];
                    &&& it.position.0 as int == cur.x - off.x
                    &&& it.position.1 as int == cur.y - off.y
                    &&& it.data@ == if insert_mode {
                        "> "@ + buf
                    } else {
                        ">"@
                    }
                }
            }),
    {
        let off = self.scroll_offset;
        let cur = self.cursor_pos;
        let insert_mode = match &self.state {
            Some(st) => matches!(st.mode, StateVal::Insert),
            None => false,
        };
        let n = self.drawable_data.len();
        let mut items: Vec<Item> = Vec::new();
        let mut found = false;
        let mut i: usize = 0;
        proof {
            assert(self.n_wide() <= 5041 && self.n_high() <= 32767);
        }
        while i < n
            invariant
                i <= n,
                *self == *old(self),
                self.wf(),
                self.area_of() is Some,
                self.cursor_visible(),
                self.drawable_ok(),
                self.drawable_distinct(),
                self.has_state(),
                n == self.drawable().len(),
                off == self.offset(),
                cur == self.cursor(),
                insert_mode == (self.s_mode() is Insert),
                items@.len() == i,
                found == exists|j: int|
                    0 <= j < i && (#[trigger] self.drawable()[j]).0 == cur,
                forall|j: int|
                    0 <= j < i ==> {
                        let pr = #[trigger] self.drawable()[j];
                        &&& items@[j].position.0 as int == pr.0.x - off.x
                        &&& items@[j].position.1 as int == pr.0.y - off.y
                        &&& items@[j].data@ == if pr.0 == cur {
                            if insert_mode {
                                "> "@ + self.s_buffer()
                            } else {
                                "> "@ + pr.1
                            }
                        } else {
                            pr.1
                        }
                    },
            decreases n - i,
        {
            let p = self.drawable_data[i].0;
            proof {
                assert(self.drawable()[i as int].0 == p);
                assert(self.in_window(p));
                assert(self.n_wide() <= 5041 && self.n_high() <= 32767);
            }
            let sx = (p.x - off.x) as u16;
            let sy = (p.y - off.y) as u16;
            let ghost items0 = items@;
            let ghost found0 = found;
            let text: String = if p == cur {
                found = true;
                if insert_mode {
                    let base = String::from_str("> ");
                    match &self.state {
                        Some(st) => base.concat(st.buffer.as_str()),
                        None => base,
                    }
                } else {
                    String::from_str("> ").concat(self.drawable_data[i].1.as_str())
                }
            } else {
                self.drawable_data[i].1.clone()
            };
            items.push(Item { position: (sx, sy), data: text });
            i += 1;
            proof {
                assert(self.drawable()[i - 1] == (
                    self.drawable_data@[i - 1].0,
                    self.drawable_data@[i - 1].1@,
                ));
                assert forall|j: int|
                    0 <= j < i implies {
                    let pr = #[trigger] self.drawable()[j];
                    &&& items@[j].position.0 as int == pr.0.x - off.x
                    &&& items@[j].position.1 as int == pr.0.y - off.y
                    &&& items@[j].data@ == if pr.0 == cur {
                        if insert_mode {
                            "> "@ + self.s_buffer()
                        } else {
                            "> "@ + pr.1
                        }
                    } else {
                        pr.1
                    }
                } by {
                    if j < i - 1 {
                        assert(items@[j] == items0[j]);
                    }
                }
                assert(found == exists|j: int|
                    0 <= j < i && (#[trigger] self.drawable()[j]).0 == cur) by {
                    if found {
                        if found0 {
                            let j = choose|j: int|
                                0 <= j < i - 1 && (#[trigger] self.drawable()[j]).0 == cur;
                            assert(self.drawable()[j].0 == cur);
                        } else {
                            assert(p == cur);
                            assert(self.drawable()[i - 1].0 == cur);
                        }
                    } else {
                        if exists|j: int|
                            0 <= j < i && (#[trigger] self.drawable()[j]).0 == cur {
                            let j = choose|j: int|
                                0 <= j < i && (#[trigger] self.drawable()[j]).0 == cur;
                            if j < i - 1 {
                                assert(false);
                            } else {
                                assert(p == cur);
                                assert(false);
                            }
                        }
                    }
                }
            }
        }
        if !found {
            proof {
                assert(self.n_wide() <= 5041 && self.n_high() <= 32767);
            }
            let sx = (cur.x - off.x) as u16;
            let sy = (cur.y - off.y) as u16;
            let text: String = if insert_mode {
                let base = String::from_str("> ");
                match &self.state {
                    Some(st) => base.concat(st.buffer.as_str()),
                    None => base,
                }
            } else {
                String::from_str(">")
            };
            items.push(Item { position: (sx, sy), data: text });
        }
        proof {
            assert forall|i: int, j: int|
                0 <= i < j < items@.len() implies (#[trigger] items@[i]).position != (
            #[trigger] items@[j]).position by {
                if items@[i].position == items@[j].position {
                    if j < self.drawable().len() {
                        let a = self.drawable()[i].0;
                        let b = self.drawable()[j].0;
                        assert(self.in_window(a) && self.in_window(b));
                        assert(a.x - off.x == b.x - off.x && a.y - off.y == b.y - off.y);
                        assert(a.x == b.x && a.y == b.y);
                        assert(a != b);
                        assert(false);
                    } else {
                        let a = self.drawable()[i].0;
                        assert(self.in_window(a));
                        assert(a.x - off.x == cur.x - off.x && a.y - off.y == cur.y - off.y);
                        assert(a.x == cur.x && a.y == cur.y);
                        assert(a == cur || a != cur);
                        if a != cur {
                            assert(false);
                        }
                        assert((exists|k: int|
                            0 <= k < self.drawable().len() && (#[trigger] self.drawable()[k]).0
                                == cur));
                        assert(false);
                    }
                }
            }
        }
        items
    }

    /// The region the grid is drawn in: the whole viewport, less a ten-row
    /// band at the bottom while inserting.
    pub fn get_area_cells(&self) -> (r: Area)
        requires
            self.wf(),
        ensures
            r == match self.area_of() {
                Some(a) => if self.has_state() && self.s_mode() is Insert {
                    Area { x: a.x, y: a.y, width: a.width, height: (a.height - 10) as u16 }
                } else {
                    a
                },
                None => Area { x: 0, y: 0, width: 0, height: 0 },
            },
    {
        match (&self.state, &self.area) {
            (Some(st), Some(a)) => {
                if matches!(st.mode, StateVal::Insert) {
                    Area { x: a.x, y: a.y, width: a.width, height: a.height - 10 }
                } else {
                    *a
                }
            },
            (None, Some(a)) => *a,
            _ => Area { x: 0, y: 0, width: 0, height: 0 },
        }
    }

    /// The ten-row edit band at the bottom of the viewport, present only
    /// while inserting.
    pub fn get_area_edit(&self) -> (r: Option<Area>)
        requires
            self.wf(),
        ensures
            r == if self.has_state() && self.s_mode() is Insert && self.area_of() is Some {
                let a = self.area_of()->Some_0;
                Some(
                    Area {
                        x: a.x,
                        y: (a.y + a.height - 10) as u16,
                        width: a.width,
                        height: 10u16,
                    },
                )
            } else {
                None
            },
    {
        match (&self.state, &self.area) {
            (Some(st), Some(a)) => {
                if matches!(st.mode, StateVal::Insert) {
                    Some(Area { x: a.x, y: a.y + a.height - 10, width: a.width, height: 10 })
                } else {
                    None
                }
            },
            _ => None,
        }
    }

    /// The edit buffer of the held snapshot, or nothing.
    pub fn get_buffer(&self) -> (r: &str)
        ensures
            self.has_state() ==> r@ == self.s_buffer(),
            !self.has_state() ==> r@ == Seq::<char>::empty(),
    {
        match &self.state {
            Some(st) => st.buffer.as_str(),
            None => {
                let e = "";
                proof {
                    reveal_strlit("");
                }
                e
            },
        }
    }

    /// The scroll offset: the grid cell at the top-left visible corner.
    pub fn get_offset(&self) -> (r: CellPos)
        ensures
            r == self.offset(),
    {
        self.scroll_offset
    }

    /// Whether the window touches the leftmost column and the topmost row.
    pub fn get_top_left(&self) -> (r: (bool, bool))
        ensures
            r.0 == (self.offset().x == 0),
            r.1 == (self.offset().y == 0),
    {
        (self.scroll_offset.x == 0, self.scroll_offset.y == 0)
    }
}

} // verus!
