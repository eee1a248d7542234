//! Interaction and presentation tests: the modal state machine and the
//! compositor.

use spreadsheet::compositor::{Area, Compositor};
use spreadsheet::data::Data;
use spreadsheet::position::CellPos;
use spreadsheet::state::{Key, State, StateVal};
use spreadsheet::planner::Planner;
use spreadsheet::viewer::{Item, SpreadsheetWidget};

fn snapshot(cursor: CellPos) -> spreadsheet::state::StateInfo {
    spreadsheet::state::StateInfo {
        cursor_pos: cursor,
        mode: StateVal::Normal,
        exit: false,
        buffer: String::new(),
    }
}

#[test]
fn typing_commits_on_enter() {
    let mut st = State::new();
    let mut d = Data::new();
    st.handle_event(Key::Char('i'));
    for c in "=add 1 2".chars() {
        st.handle_event(Key::Char(c));
    }
    st.handle_event(Key::Char('\n'));
    st.update_data(&mut d);
    let a0 = CellPos::new(0, 0);
    assert_eq!(d.get(a0).unwrap(), "3");
    assert_eq!(d.get_raw(a0).unwrap(), "=add 1 2");
}

#[test]
fn escape_discards_the_edit() {
    let mut st = State::new();
    let mut d = Data::new();
    st.handle_event(Key::Char('i'));
    st.handle_event(Key::Char('9'));
    st.handle_event(Key::Esc);
    st.update_data(&mut d);
    assert!(d.get(CellPos::new(0, 0)).is_none());
}

#[test]
fn backspace_edits_the_buffer() {
    let mut st = State::new();
    let mut d = Data::new();
    st.handle_event(Key::Char('i'));
    st.handle_event(Key::Char('4'));
    st.handle_event(Key::Char('7'));
    st.handle_event(Key::Backspace);
    st.handle_event(Key::Char('2'));
    st.handle_event(Key::Char('\n'));
    st.update_data(&mut d);
    assert_eq!(d.get(CellPos::new(0, 0)).unwrap(), "42");
}

#[test]
fn cursor_moves_and_clamps() {
    let mut st = State::new();
    st.handle_event(Key::Left);
    st.handle_event(Key::Up);
    assert_eq!(st.get_info().cursor_pos, CellPos::new(0, 0));
    st.handle_event(Key::Char('l'));
    st.handle_event(Key::Char('l'));
    st.handle_event(Key::Char('j'));
    st.handle_event(Key::Char('h'));
    assert_eq!(st.get_info().cursor_pos, CellPos::new(1, 1));
    st.handle_event(Key::Char('q'));
    assert!(st.get_info().exit);
}

#[test]
fn commits_target_the_cursor_at_entry() {
    let mut st = State::new();
    let mut d = Data::new();
    st.handle_event(Key::Right);
    st.handle_event(Key::Down);
    st.handle_event(Key::Char('i'));
    st.handle_event(Key::Char('5'));
    st.handle_event(Key::Char('\n'));
    st.update_data(&mut d);
    assert_eq!(d.get(CellPos::new(1, 1)).unwrap(), "5");
}

#[test]
fn scroll_window_follows_cursor() {
    // n_wide = (68 - 3) / 13 = 5
    let mut comp = Compositor::new();
    comp.set_area(Area { x: 0, y: 0, width: 68, height: 11 });
    for x in 0usize..=6usize {
        comp.set_state(snapshot(CellPos::new(x, 0)));
    }
    assert_eq!(comp.get_offset(), CellPos::new(3, 0));
    let d = Data::new();
    comp.set_data(&d);
    let items = comp.get_drawable();
    // the cursor marker sits at screen column 3
    assert_eq!(items.last().unwrap().position, (3, 0));
}

#[test]
fn scroll_back_left_retreats_to_cursor() {
    let mut comp = Compositor::new();
    comp.set_area(Area { x: 0, y: 0, width: 68, height: 11 });
    for x in 0usize..=6usize {
        comp.set_state(snapshot(CellPos::new(x, 0)));
    }
    comp.set_state(snapshot(CellPos::new(1, 0)));
    assert_eq!(comp.get_offset(), CellPos::new(1, 0));
}

#[test]
fn labels_start_at_the_offset() {
    let mut comp = Compositor::new();
    comp.set_area(Area { x: 0, y: 0, width: 68, height: 11 });
    for x in 0usize..=6usize {
        comp.set_state(snapshot(CellPos::new(x, 0)));
    }
    let (cols, rows) = comp.get_labels();
    assert_eq!(cols.len(), 5);
    assert_eq!(cols[0], "D");
    assert_eq!(cols[4], "H");
    assert_eq!(rows[0], "0");
    assert_eq!(rows[4], "4");
    assert_eq!(comp.get_top_left(), (false, true));
}

#[test]
fn drawable_shows_window_contents_and_cursor() {
    let mut comp = Compositor::new();
    comp.set_area(Area { x: 0, y: 0, width: 68, height: 11 });
    comp.set_state(snapshot(CellPos::new(0, 0)));
    let mut d = Data::new();
    d.insert(CellPos::new(0, 0), "hello".to_string());
    d.insert(CellPos::new(1, 2), "7".to_string());
    d.insert(CellPos::new(100, 100), "far away".to_string());
    comp.set_data(&d);
    let items = comp.get_drawable();
    // two visible cells; the cursor cell carries the marker
    assert_eq!(items.len(), 2);
    assert!(items.iter().any(|it| it.position == (0, 0) && it.data == "> hello"));
    assert!(items.iter().any(|it| it.position == (1, 2) && it.data == "7"));
}

#[test]
fn insert_mode_shows_the_buffer_and_edit_band() {
    let mut comp = Compositor::new();
    comp.set_area(Area { x: 0, y: 0, width: 68, height: 31 });
    comp.set_state(spreadsheet::state::StateInfo {
        cursor_pos: CellPos::new(0, 0),
        mode: StateVal::Insert,
        exit: false,
        buffer: "=add".to_string(),
    });
    let d = Data::new();
    comp.set_data(&d);
    let items = comp.get_drawable();
    assert_eq!(items.last().unwrap().data, "> =add");
    let cells = comp.get_area_cells();
    assert_eq!(cells.height, 21);
    let edit = comp.get_area_edit().unwrap();
    assert_eq!((edit.y, edit.height), (21, 10));
    assert_eq!(comp.get_buffer(), "=add");
}

#[test]
fn widget_carries_its_parts() {
    let items = vec![Item { position: (0, 0), data: "x".to_string() }];
    let w = SpreadsheetWidget::new(items)
        .set_cell_widths(vec![12, 12], vec!["A".to_string(), "B".to_string()])
        .set_cell_heights(vec![1], vec!["0".to_string()])
        .set_top_left((true, false));
    let (widths, heights, cols, rows, data, origin) = w.into_parts();
    assert_eq!(widths, vec![12, 12]);
    assert_eq!(heights, vec![1]);
    assert_eq!(cols, vec!["A".to_string(), "B".to_string()]);
    assert_eq!(rows, vec!["0".to_string()]);
    assert_eq!(data.len(), 1);
    assert_eq!(data[0].position, (0, 0));
    assert_eq!(origin, (true, false));
}

#[test]
fn planner_cursor_drags_the_offset() {
    // n_wide = (58 - 3) / 11 = 5, n_high = (11 - 1) / 2 = 5
    let mut p = Planner::new();
    p.set_area(Area { x: 0, y: 0, width: 58, height: 11 });
    assert_eq!(p.get_widths(), vec![10, 10, 10, 10, 10]);
    for _ in 0..5 {
        p.move_cursor((1, 0));
    }
    // the cursor sticks just inside the right edge; the offset advanced
    assert_eq!(p.get_cursor(), (3, 0));
    assert_eq!(p.get_top_left(), (2, 0));
    p.move_cursor((-4, 0));
    assert_eq!(p.get_cursor(), (0, 0));
    assert_eq!(p.get_top_left(), (1, 0));
}

#[test]
fn column_labels_wrap_past_z() {
    let mut comp = Compositor::new();
    comp.set_area(Area { x: 0, y: 0, width: 68, height: 11 });
    let mut st = snapshot(CellPos::new(0, 0));
    comp.set_state(st);
    for x in 1usize..=27usize {
        st = snapshot(CellPos::new(x, 0));
        comp.set_state(st);
    }
    // offset is 24: labels Y, Z, then wrapping back to A, B
    assert_eq!(comp.get_offset(), CellPos::new(24, 0));
    let (cols, _rows) = comp.get_labels();
    assert_eq!(cols, vec!["Y", "Z", "A", "B", "C"]);
}

#[test]
fn backspace_on_empty_buffer_is_a_no_op() {
    let mut st = State::new();
    st.handle_event(Key::Char('i'));
    st.handle_event(Key::Backspace);
    st.handle_event(Key::Char('8'));
    assert_eq!(st.get_info().buffer, "8");
}
