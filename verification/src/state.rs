//! Modal input: a navigation mode and an insertion mode with a text buffer
//! that commits to the store on confirmation.

use vstd::prelude::*;

use crate::data::{is_commit_chain, lemma_raw_commits_snoc, raw_after_commits, Data};
use crate::position::CellPos;
use crate::text::chars_to_string;

verus! {

/// The interaction mode.
#[derive(Debug, PartialEq, Eq, Structural, Clone, Copy)]
pub enum StateVal {
    Normal,
    Insert,
    Exit,
}

/// A key event, as the state machine understands it. Keys the machine does
/// not react to arrive as `Other`.
#[derive(Debug, PartialEq, Eq, Structural, Clone, Copy)]
pub enum Key {
    Char(char),
    Up,
    Down,
    Left,
    Right,
    Backspace,
    Esc,
    Other,
}

/// A read-only snapshot of the state machine.
pub struct StateInfo {
    pub cursor_pos: CellPos,
    pub mode: StateVal,
    pub exit: bool,
    pub buffer: String,
}

/// The interaction state machine.
pub struct State {
    val: StateVal,
    cursor_pos: CellPos,
    buffer: Vec<char>,
    data_updates: Vec<(CellPos, String)>,
}

impl State {
    /// The current mode.
    pub closed spec fn mode(self) -> StateVal {
        self.val
    }

    /// The cursor position.
    pub closed spec fn cursor(self) -> CellPos {
        self.cursor_pos
    }

    /// The text of the edit buffer.
    pub closed spec fn buffer_text(self) -> Seq<char> {
        self.buffer@
    }

    /// The commits waiting to be applied, oldest first.
    pub closed spec fn pending(self) -> Seq<(CellPos, Seq<char>)> {
        Seq::new(self.data_updates@.len(), |i: int| (self.data_updates@[i].0, self.data_updates@[i].1@))
    }

    /// A fresh machine: navigation mode, cursor at the origin, empty buffer,
    /// nothing pending.
    pub fn new() -> (r: State)
        ensures
            r.mode() == StateVal::Normal,
            r.cursor() == (CellPos { x: 0, y: 0 }),
            r.buffer_text() == Seq::<char>::empty(),
            r.pending().len() == 0,
    {
        let r = State {
            val: StateVal::Normal,
            cursor_pos: CellPos::new(0, 0),
            buffer: Vec::new(),
            data_updates: Vec::new(),
        };
        r
    }

    /// A snapshot of the mode, the cursor and the buffer.
    pub fn get_info(&self) -> (r: StateInfo)
        ensures
            r.cursor_pos == self.cursor(),
            r.mode == self.mode(),
            r.exit == (self.mode() is Exit),
            r.buffer@ == self.buffer_text(),
    {
        StateInfo {
            cursor_pos: self.cursor_pos,
            mode: self.val,
            exit: matches!(self.val, StateVal::Exit),
            buffer: chars_to_string(&self.buffer),
        }
    }

    /// Writes the pending commits into the store, oldest first, and clears
    /// them: the store passes through a chain of states in which each
    /// commit takes effect exactly as [`crate::data::Data::insert`]
    /// describes, so afterwards its raw texts are the old ones overwritten
    /// by every queued `(cell, text)` in order. The mode, cursor and buffer
    /// do not change.
    pub fn update_data(&mut self, data: &mut Data)
        requires
            old(data).wf(),
        ensures
            final(data).wf(),
            final(self).pending().len() == 0,
            final(self).mode() == old(self).mode(),
            final(self).cursor() == old(self).cursor(),
            final(self).buffer_text() == old(self).buffer_text(),
            final(data).raw() == raw_after_commits(old(data).raw(), old(self).pending()),
            exists|chain: Seq<Data>|
                #![trigger is_commit_chain(chain, old(self).pending())]
                is_commit_chain(chain, old(self).pending()) && chain[0] == *old(data)
                    && chain.last() == *final(data),
            old(self).pending().len() == 0 ==> *final(data) == *old(data),
    {
        let n = self.data_updates.len();
        let ghost commits = self.pending();
        let ghost mut chain: Seq<Data> = seq![*old(data)];
        let mut i: usize = 0;
        proof {
            assert(commits.take(0) =~= Seq::<(CellPos, Seq<char>)>::empty());
        }
        while i < n
            invariant
                i <= n,
                n == self.data_updates@.len(),
                *self == *old(self),
                commits == self.pending(),
                commits.len() == n,
                data.wf(),
                chain.len() == i + 1,
                chain[0] == *old(data),
                chain.last() == *data,
                forall|k: int|
                    0 <= k < i ==> crate::data::insert_post(
                        #[trigger] chain[k],
                        chain[k + 1],
                        commits[k].0,
                        commits[k].1,
                    ),
                data.raw() == raw_after_commits(old(data).raw(), commits.take(i as int)),
                n == 0 ==> *data == *old(data),
            decreases n - i,
        {
            let pos = self.data_updates[i].0;
            let text = self.data_updates[i].1.clone();
            let ghost pre_d = *data;
            proof {
                assert(commits[i as int] == (pos, text@));
            }
            data.insert(pos, text);
            i += 1;
            proof {
                let ghost chain0 = chain;
                chain = chain.push(*data);
                assert(chain.last() == *data);
                assert(chain[0] == chain0[0]);
                assert forall|k: int|
                    0 <= k < i implies crate::data::insert_post(
                    #[trigger] chain[k],
                    chain[k + 1],
                    commits[k].0,
                    commits[k].1,
                ) by {
                    if k < i - 1 {
                        assert(chain[k] == chain0[k] && chain[k + 1] == chain0[k + 1]);
                    } else {
                        assert(chain[k] == pre_d && chain[k + 1] == *data);
                    }
                }
                let prev = commits.take(i - 1);
                let cur = commits.take(i as int);
                assert(cur.drop_last() =~= prev);
                assert(cur.last() == commits[i - 1]);
                lemma_raw_commits_snoc(old(data).raw(), prev, commits[i - 1].0, commits[i - 1].1);
                assert(cur =~= prev.push(commits[i - 1]));
            }
        }
        proof {
            assert(commits.take(n as int) =~= commits);
            assert(is_commit_chain(chain, commits));
        }
        self.data_updates.clear();
        proof {
            assert(self.pending() =~= Seq::<(CellPos, Seq<char>)>::empty());
        }
    }

    /// Reacts to one key according to the current mode; see the mode tables
    /// in [`handle_event_normal`](State::handle_event_normal) and
    /// [`handle_event_insert`](State::handle_event_insert). Exit mode
    /// ignores everything.
    pub fn handle_event(&mut self, key: Key)
        ensures
            final(self).pending() == if old(self).mode() is Insert && key == Key::Char('\n') {
                old(self).pending().push((old(self).cursor(), old(self).buffer_text()))
            } else {
                old(self).pending()
            },
            final(self).mode() == match old(self).mode() {
                StateVal::Normal => match key {
                    Key::Char(c) => if c == 'q' {
                        StateVal::Exit
                    } else if c == 'i' || c == '\n' {
                        StateVal::Insert
                    } else {
                        StateVal::Normal
                    },
                    _ => StateVal::Normal,
                },
                StateVal::Insert => match key {
                    Key::Char(c) => if c == '\n' {
                        StateVal::Normal
                    } else {
                        StateVal::Insert
                    },
                    Key::Esc => StateVal::Normal,
                    _ => StateVal::Insert,
                },
                StateVal::Exit => StateVal::Exit,
            },
            final(self).cursor() == if old(self).mode() is Normal {
                spec_moved(old(self).cursor(), key)
            } else {
                old(self).cursor()
            },
            final(self).buffer_text() == if old(self).mode() is Normal {
                if key == Key::Char('i') || key == Key::Char('\n') {
                    Seq::<char>::empty()
                } else {
                    old(self).buffer_text()
                }
            } else if old(self).mode() is Insert {
                match key {
                    Key::Char(c) => if c == '\n' {
                        old(self).buffer_text()
                    } else {
                        old(self).buffer_text().push(c)
                    },
                    Key::Backspace => if old(self).buffer_text().len() == 0 {
                        old(self).buffer_text()
                    } else {
                        old(self).buffer_text().drop_last()
                    },
                    _ => old(self).buffer_text(),
                }
            } else {
                old(self).buffer_text()
            },
    {
        match self.val {
            StateVal::Normal => self.handle_event_normal(key),
            StateVal::Insert => self.handle_event_insert(key),
            StateVal::Exit => {},
        }
    }

    /// Navigation mode: `q` exits; `h`/`j`/`k`/`l` and the arrows move the
    /// cursor (clamped at the edges of the grid); `i` or the enter key opens
    /// the edit buffer.
    fn handle_event_normal(&mut self, key: Key)
        requires
            old(self).mode() is Normal,
        ensures
            final(self).pending() == old(self).pending(),
            final(self).cursor() == spec_moved(old(self).cursor(), key),
            final(self).mode() == match key {
                Key::Char(c) => if c == 'q' {
                    StateVal::Exit
                } else if c == 'i' || c == '\n' {
                    StateVal::Insert
                } else {
                    StateVal::Normal
                },
                _ => StateVal::Normal,
            },
            final(self).buffer_text() == if key == Key::Char('i') || key == Key::Char('\n') {
                Seq::<char>::empty()
            } else {
                old(self).buffer_text()
            },
    {
        let ghost pre = *self;
        match key {
            Key::Char(c) => {
                if c == 'q' {
                    self.val = StateVal::Exit;
                } else if c == 'j' {
                    self.move_cursor_down();
                } else if c == 'k' {
                    self.move_cursor_up();
                } else if c == 'h' {
                    self.move_cursor_left();
                } else if c == 'l' {
                    self.move_cursor_right();
                } else if c == '\n' || c == 'i' {
                    self.buffer = Vec::new();
                    self.val = StateVal::Insert;
                }
            },
            Key::Down => self.move_cursor_down(),
            Key::Up => self.move_cursor_up(),
            Key::Left => self.move_cursor_left(),
            Key::Right => self.move_cursor_right(),
            _ => {},
        }
        proof {
            assert(self.pending() =~= pre.pending());
        }
    }

    /// Insertion mode: the enter key commits the buffer at the cursor and
    /// returns to navigation; any other character is appended; backspace
    /// drops the last character; escape discards the edit.
    fn handle_event_insert(&mut self, key: Key)
        requires
            old(self).mode() is Insert,
        ensures
            final(self).cursor() == old(self).cursor(),
            final(self).pending() == if key == Key::Char('\n') {
                old(self).pending().push((old(self).cursor(), old(self).buffer_text()))
            } else {
                old(self).pending()
            },
            final(self).mode() == match key {
                Key::Char(c) => if c == '\n' {
                    StateVal::Normal
                } else {
                    StateVal::Insert
                },
                Key::Esc => StateVal::Normal,
                _ => StateVal::Insert,
            },
            final(self).buffer_text() == match key {
                Key::Char(c) => if c == '\n' {
                    old(self).buffer_text()
                } else {
                    old(self).buffer_text().push(c)
                },
                Key::Backspace => if old(self).buffer_text().len() == 0 {
                    old(self).buffer_text()
                } else {
                    old(self).buffer_text().drop_last()
                },
                _ => old(self).buffer_text(),
            },
    {
        let ghost pre = *self;
        match key {
            Key::Char(c) => {
                if c == '\n' {
                    let text = chars_to_string(&self.buffer);
                    self.data_updates.push((self.cursor_pos, text));
                    self.val = StateVal::Normal;
                    proof {
                        assert(self.pending() =~= pre.pending().push(
                            (pre.cursor(), pre.buffer_text()),
                        ));
                    }
                } else {
                    self.buffer.push(c);
                    proof {
                        assert(self.pending() =~= pre.pending());
                    }
                }
            },
            Key::Backspace => {
                let _popped = self.buffer.pop();
                proof {
                    assert(self.pending() =~= pre.pending());
                    if pre.buffer@.len() > 0 {
                        assert(self.buffer@ =~= pre.buffer@.drop_last());
                    }
                }
            },
            Key::Esc => {
                self.val = StateVal::Normal;
                proof {
                    assert(self.pending() =~= pre.pending());
                }
            },
            _ => {
                proof {
                    assert(self.pending() =~= pre.pending());
                }
            },
        }
    }

    /// Moves the cursor one row down.
    fn move_cursor_down(&mut self)
        ensures
            final(self).cursor() == (CellPos {
                x: old(self).cursor().x,
                y: if old(self).cursor().y < usize::MAX {
                    (old(self).cursor().y + 1) as usize
                } else {
                    old(self).cursor().y
                },
            }),
            final(self).mode() == old(self).mode(),
            final(self).buffer_text() == old(self).buffer_text(),
            final(self).pending() == old(self).pending(),
    {
        if self.cursor_pos.y < usize::MAX {
            self.cursor_pos.y = self.cursor_pos.y + 1;
        }
    }

    /// Moves the cursor one row up; row zero stays put.
    fn move_cursor_up(&mut self)
        ensures
            final(self).cursor() == (CellPos {
                x: old(self).cursor().x,
                y: if old(self).cursor().y > 0 {
                    (old(self).cursor().y - 1) as usize
                } else {
                    0
                },
            }),
            final(self).mode() == old(self).mode(),
            final(self).buffer_text() == old(self).buffer_text(),
            final(self).pending() == old(self).pending(),
    {
        if self.cursor_pos.y > 0 {
            self.cursor_pos.y = self.cursor_pos.y - 1;
        }
    }

    /// Moves the cursor one column left; column zero stays put.
    fn move_cursor_left(&mut self)
        ensures
            final(self).cursor() == (CellPos {
                x: if old(self).cursor().x > 0 {
                    (old(self).cursor().x - 1) as usize
                } else {
                    0
                },
                y: old(self).cursor().y,
            }),
            final(self).mode() == old(self).mode(),
            final(self).buffer_text() == old(self).buffer_text(),
            final(self).pending() == old(self).pending(),
    {
        if self.cursor_pos.x > 0 {
            self.cursor_pos.x = self.cursor_pos.x - 1;
        }
    }

    /// Moves the cursor one column right.
    fn move_cursor_right(&mut self)
        ensures
            final(self).cursor() == (CellPos {
                x: if old(self).cursor().x < usize::MAX {
                    (old(self).cursor().x + 1) as usize
                } else {
                    old(self).cursor().x
                },
                y: old(self).cursor().y,
            }),
            final(self).mode() == old(self).mode(),
            final(self).buffer_text() == old(self).buffer_text(),
            final(self).pending() == old(self).pending(),
    {
        if self.cursor_pos.x < usize::MAX {
            self.cursor_pos.x = self.cursor_pos.x + 1;
        }
    }
}

/// Where one navigation key leaves the cursor: the arrows and the `hjkl`
/// keys move one cell, clamped at the left and top edges.
pub open spec fn spec_moved(c: CellPos, key: Key) -> CellPos {
    match key {
        Key::Down => CellPos { x: c.x, y: if c.y < usize::MAX { (c.y + 1) as usize } else { c.y } },
        Key::Up => CellPos { x: c.x, y: if c.y > 0 { (c.y - 1) as usize } else { 0 } },
        Key::Left => CellPos { x: if c.x > 0 { (c.x - 1) as usize } else { 0 }, y: c.y },
        Key::Right => CellPos {
            x: if c.x < usize::MAX {
                (c.x + 1) as usize
            } else {
                c.x
            },
            y: c.y,
        },
        Key::Char(ch) => if ch == 'j' {
            CellPos { x: c.x, y: if c.y < usize::MAX { (c.y + 1) as usize } else { c.y } }
        } else if ch == 'k' {
            CellPos { x: c.x, y: if c.y > 0 { (c.y - 1) as usize } else { 0 } }
        } else if ch == 'h' {
            CellPos { x: if c.x > 0 { (c.x - 1) as usize } else { 0 }, y: c.y }
        } else if ch == 'l' {
            CellPos {
                x: if c.x < usize::MAX {
                    (c.x + 1) as usize
                } else {
                    c.x
                },
                y: c.y,
            }
        } else {
            c
        },
        _ => c,
    }
}

} // verus!
