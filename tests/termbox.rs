use tiny::names::NameList;
use tiny::termbox::{char_to_utf8, print, Cell, Color, Colors, Termbox};

fn colors() -> Colors {
    let c = Color { fg: 1, bg: 2 };
    Colors {
        nick: vec![],
        clear: c,
        user_msg: Color { fg: 7, bg: 0 },
        err_msg: c,
        topic: c,
        cursor: c,
        join: c,
        part: c,
        nick_change: c,
        faded: c,
        exit_dialogue: c,
        highlight: c,
        completion: c,
        timestamp: c,
        tab_active: c,
        tab_normal: c,
        tab_new_msg: c,
        tab_highlight: c,
    }
}

#[test]
fn utf8_packing() {
    assert_eq!(char_to_utf8('a'), 0x61);
    assert_eq!(char_to_utf8('é'), 0xC3A9);
    assert_eq!(char_to_utf8('€'), 0xE282AC);
    assert_eq!(char_to_utf8('😀'), 0xF09F9880);
}

#[test]
fn print_writes_cells_in_bounds() {
    let mut tb = Termbox::new(4, 2);
    print(&mut tb, 2, 1, Color { fg: 3, bg: 4 }, "xyz");
    assert_eq!(tb.width(), 4);
    assert_eq!(tb.height(), 2);
    assert_eq!(tb.get_cell(2, 1), Some(Cell { ch: 'x' as u32, fg: 3, bg: 4 }));
    assert_eq!(tb.get_cell(3, 1), Some(Cell { ch: 'y' as u32, fg: 3, bg: 4 }));
    assert_eq!(tb.get_cell(1, 1), Some(Cell { ch: 32, fg: 0, bg: 0 }));
    assert_eq!(tb.get_cell(4, 1), None);
}

#[test]
fn name_list_draws() {
    let mut tb = Termbox::new(10, 3);
    let mut n = NameList::new(5, 2);
    n.join("alice");
    n.set_presence("bob", "away");
    n.draw(&mut tb, &colors(), 0, 0);
    assert_eq!(tb.get_cell(0, 0), Some(Cell { ch: 'a' as u32, fg: 7, bg: 0 }));
    assert_eq!(tb.get_cell(4, 0), Some(Cell { ch: 'e' as u32, fg: 7, bg: 0 }));
    assert_eq!(tb.get_cell(0, 1), Some(Cell { ch: '[' as u32, fg: 7, bg: 0 }));
    assert_eq!(tb.get_cell(5, 0), Some(Cell { ch: 32, fg: 0, bg: 0 }));
    assert_eq!(tb.get_cell(0, 2), Some(Cell { ch: 32, fg: 0, bg: 0 }));
}
