//! A window planner: cell sizes, labels and a screen-relative cursor that
//! drags the scroll offset along when it runs past the window edges.

use vstd::prelude::*;

use crate::compositor::Area;
use crate::text::usize_dec_chars;

verus! {

/// Where one planner axis lands after a move: the cursor is clamped at
/// zero (retreating the offset one step when it pushes past it), and
/// crossing the far edge advances the offset one step and holds the cursor
/// just inside.
pub open spec fn plan_step(cur: int, delta: int, off: int, n: int) -> (int, int) {
    let x0 = if cur + delta < 0 {
        0
    } else {
        cur + delta
    };
    let off0 = if cur + delta < 0 && off > 0 {
        off - 1
    } else {
        off
    };
    if x0 >= n - 1 {
        (x0 - 1, off0 + 1)
    } else {
        (x0, off0)
    }
}

/// The window planner.
pub struct Planner {
    scroll_offset: (usize, usize),
    cursor_pos: (usize, usize),
    default_width: u16,
    default_height: u16,
    area: Option<Area>,
}

impl Planner {
    /// The scroll offset: which grid cell sits at the top-left corner.
    pub closed spec fn offset(self) -> (usize, usize) {
        self.scroll_offset
    }

    /// The cursor, relative to the visible window.
    pub closed spec fn cursor(self) -> (usize, usize) {
        self.cursor_pos
    }

    /// The held viewport, if one was set.
    pub closed spec fn area_of(self) -> Option<Area> {
        self.area
    }

    /// Cell sizes are the defaults, and any held viewport shows at least
    /// two columns and two rows.
    pub closed spec fn wf(self) -> bool {
        &&& self.default_width == 10
        &&& self.default_height == 1
        &&& match self.area {
            Some(a) => a.width >= 25 && a.height >= 5,
            None => true,
        }
    }

    /// How many columns the viewport shows.
    pub open spec fn n_wide(self) -> int {
        match self.area_of() {
            None => 0,
            Some(a) => (a.width - 3) / 11,
        }
    }

    /// How many rows the viewport shows.
    pub open spec fn n_high(self) -> int {
        match self.area_of() {
            None => 0,
            Some(a) => (a.height - 1) / 2,
        }
    }

    /// A planner with no viewport, everything at the origin.
    pub fn new() -> (r: Planner)
        ensures
            r.wf(),
            r.offset() == (0usize, 0usize),
            r.cursor() == (0usize, 0usize),
            r.area_of() is None,
    {
        Planner {
            scroll_offset: (0, 0),
            cursor_pos: (0, 0),
            default_width: 10,
            default_height: 1,
            area: None,
        }
    }

    /// Sets the viewport; it must show at least two columns and two rows.
    pub fn set_area(&mut self, area: Area)
        requires
            old(self).wf(),
            area.width >= 25,
            area.height >= 5,
        ensures
            final(self).wf(),
            final(self).area_of() == Some(area),
            final(self).offset() == old(self).offset(),
            final(self).cursor() == old(self).cursor(),
    {
        self.area = Some(area);
    }

    /// One default width per visible column.
    pub fn get_widths(&self) -> (r: Vec<u16>)
        requires
            self.wf(),
        ensures
            r@.len() == self.n_wide(),
            forall|i: int| 0 <= i < r@.len() ==> r@[i] == 10,
    {
        let nw: usize = match self.area {
            Some(a) => ((a.width - 3) / 11) as usize,
            None => 0,
        };
        let mut r: Vec<u16> = Vec::new();
        let mut i: usize = 0;
        while i < nw
            invariant
                i <= nw,
                r@.len() == i,
                forall|j: int| 0 <= j < r@.len() ==> r@[j] == 10,
            decreases nw - i,
        {
            r.push(10);
            i += 1;
        }
        r
    }

    /// One default height per visible row.
    pub fn get_heights(&self) -> (r: Vec<u16>)
        requires
            self.wf(),
        ensures
            r@.len() == self.n_high(),
            forall|i: int| 0 <= i < r@.len() ==> r@[i] == 1,
    {
        let nh: usize = match self.area {
            Some(a) => ((a.height - 1) / 2) as usize,
            None => 0,
        };
        let mut r: Vec<u16> = Vec::new();
        let mut i: usize = 0;
        while i < nh
            invariant
                i <= nh,
                r@.len() == i,
                forall|j: int| 0 <= j < r@.len() ==> r@[j] == 1,
            decreases nh - i,
        {
            r.push(1);
            i += 1;
        }
        r
    }

    /// Column and row labels from the scroll offset on: a letter per column
    /// (`A` to `Z`, then wrapping), a decimal row number per row.
    pub fn get_labels(&self) -> (r: (Vec<String>, Vec<String>))
        requires
            self.wf(),
        ensures
            r.0@.len() == self.n_wide(),
            forall|i: int|
                0 <= i < r.0@.len() ==> (#[trigger] r.0@[i])@.len() == 1 && r.0@[i]@[0] as int
                    == 'A' as int + (self.offset().0 + i) % 26,
            r.1@.len() == self.n_high(),
            forall|i: int|
                0 <= i < r.1@.len() ==> (#[trigger] r.1@[i])@ == crate::text::dec_digits(
                    if self.offset().1 + i > usize::MAX {
                        usize::MAX as int
                    } else {
                        self.offset().1 + i
                    },
                ),
    {
        let nw: usize = match self.area {
            Some(a) => ((a.width - 3) / 11) as usize,
            None => 0,
        };
        let nh: usize = match self.area {
            Some(a) => ((a.height - 1) / 2) as usize,
            None => 0,
        };
        let off = self.scroll_offset;
        let mut cols: Vec<String> = Vec::new();
        let mut li: usize = off.0 % 26;
        let mut i: usize = 0;
        while i < nw
            invariant
                i <= nw,
                cols@.len() == i,
                li == (off.0 + i) % 26,
                forall|j: int|
                    0 <= j < cols@.len() ==> (#[trigger] cols@[j])@.len() == 1 && cols@[j]@[0]
                        as int == 'A' as int + (off.0 + j) % 26,
            decreases nw - i,
        {
            let ch = (65u8 + li as u8) as char;
            proof {
                assert(li < 26);
                assert(ch as int == 65 + li);
            }
            let mut one: Vec<char> = Vec::new();
            one.push(ch);
            let label = crate::text::chars_to_string(&one);
            cols.push(label);
            li = if li == 25 {
                0
            } else {
                li + 1
            };
            i += 1;
        }
        let mut rows: Vec<String> = Vec::new();
        let mut k: usize = 0;
        while k < nh
            invariant
                k <= nh,
                rows@.len() == k,
                forall|j: int|
                    0 <= j < rows@.len() ==> (#[trigger] rows@[j])@ == crate::text::dec_digits(
                        if off.1 + j > usize::MAX {
                            usize::MAX as int
                        } else {
                            off.1 + j
                        },
                    ),
            decreases nh - k,
        {
            // a row number past the index range shows the largest one
            let v: usize = if k > usize::MAX - off.1 {
                usize::MAX
            } else {
                off.1 + k
            };
            let digits = usize_dec_chars(v);
            let label = crate::text::chars_to_string(&digits);
            rows.push(label);
            k += 1;
        }
        (cols, rows)
    }

    /// The grid cell at the top-left visible corner.
    pub fn get_top_left(&self) -> (r: (usize, usize))
        ensures
            r == self.offset(),
    {
        self.scroll_offset
    }

    /// The cursor, relative to the visible window.
    pub fn get_cursor(&self) -> (r: (usize, usize))
        ensures
            r == self.cursor(),
    {
        self.cursor_pos
    }

    /// Moves the screen-relative cursor by the given delta, one axis at a
    /// time, as [`plan_step`] describes: clamped at zero, and dragging the
    /// scroll offset one step when it crosses either edge.
    pub fn move_cursor(&mut self, delta: (i32, i32))
        requires
            old(self).wf(),
            old(self).area_of() is Some,
            old(self).cursor().0 < 0x8000_0000,
            old(self).cursor().1 < 0x8000_0000,
            old(self).offset().0 < usize::MAX,
            old(self).offset().1 < usize::MAX,
        ensures
            final(self).wf(),
            final(self).area_of() == old(self).area_of(),
            ({
                let px = plan_step(
                    old(self).cursor().0 as int,
                    delta.0 as int,
                    old(self).offset().0 as int,
                    old(self).n_wide(),
                );
                let py = plan_step(
                    old(self).cursor().1 as int,
                    delta.1 as int,
                    old(self).offset().1 as int,
                    old(self).n_high(),
                );
                final(self).cursor() == (px.0 as usize, py.0 as usize) && final(self).offset()
                    == (px.1 as usize, py.1 as usize)
            }),
    {
        let (dx, dy) = delta;
        let area = match self.area {
            Some(a) => a,
            None => Area { x: 0, y: 0, width: 25, height: 5 },
        };
        let n_wide: usize = ((area.width - 3) / 11) as usize;
        let n_high: usize = ((area.height - 1) / 2) as usize;

        let cur_x: i64 = self.cursor_pos.0 as i64;
        let cur_y: i64 = self.cursor_pos.1 as i64;
        let mut x: i64 = cur_x + dx as i64;
        let mut y: i64 = cur_y + dy as i64;
        if x < 0 {
            if self.scroll_offset.0 > 0 {
                self.scroll_offset.0 = self.scroll_offset.0 - 1;
            }
            x = 0;
        }
        if y < 0 {
            if self.scroll_offset.1 > 0 {
                self.scroll_offset.1 = self.scroll_offset.1 - 1;
            }
            y = 0;
        }

        let mut x: usize = x as usize;
        let mut y: usize = y as usize;

        if x >= n_wide - 1 {
            self.scroll_offset.0 = self.scroll_offset.0 + 1;
            x = x - 1;
        }

        if y >= n_high - 1 {
            self.scroll_offset.1 = self.scroll_offset.1 + 1;
            y = y - 1;
        }

        self.cursor_pos = (x, y);
    }
}

impl Default for Planner {
    /// A planner with no viewport, everything at the origin.
    fn default() -> (r: Planner)
        ensures
            r.wf(),
            r.offset() == (0usize, 0usize),
            r.cursor() == (0usize, 0usize),
            r.area_of() is None,
    {
        Planner::new()
    }
}

} // verus!
