//! A terminal cell buffer and the drawing of text into it. The terminal
//! itself is driven from outside the library: it shows these cells.

use vstd::prelude::*;
use crate::text::to_chars;

verus! {

/// Foreground and background attributes of a cell.
#[derive(Debug, Clone, Copy, PartialEq, Eq, Structural)]
pub struct Color {
    pub fg: u16,
    pub bg: u16,
}

/// The colors of the user interface.
pub struct Colors {
    pub nick: Vec<u8>,
    pub clear: Color,
    pub user_msg: Color,
    pub err_msg: Color,
    pub topic: Color,
    pub cursor: Color,
    pub join: Color,
    pub part: Color,
    pub nick_change: Color,
    pub faded: Color,
    pub exit_dialogue: Color,
    pub highlight: Color,
    pub completion: Color,
    pub timestamp: Color,
    pub tab_active: Color,
    pub tab_normal: Color,
    pub tab_new_msg: Color,
    pub tab_highlight: Color,
}

/// Terminal control sequences of a terminal type.
pub struct TermFunctions {
    pub enter_ca: Vec<u8>,
    pub exit_ca: Vec<u8>,
    pub show_cursor: Vec<u8>,
    pub hide_cursor: Vec<u8>,
    pub clear_screen: Vec<u8>,
    pub sgr0: Vec<u8>,
    pub underline: Vec<u8>,
    pub bold: Vec<u8>,
}

/// One cell: a character (its UTF-8 bytes packed into a `u32`) and attributes.
#[derive(Debug, Clone, Copy, PartialEq, Eq, Structural)]
pub struct Cell {
    pub ch: u32,
    pub fg: u16,
    pub bg: u16,
}

/// Why a terminal could not be set up.
#[derive(Debug)]
pub enum InitError {
    UnsupportedTerminal,
    FailedToOpenTty,
}

/// Color modes of a terminal.
#[derive(Debug, Clone, Copy, PartialEq, Eq, Structural)]
pub enum OutputMode {
    OutputNormal,
    Output256,
    Output216,
    OutputGrayscale,
}

/// The UTF-8 bytes of a character, packed into a `u32`, first byte highest.
pub open spec fn utf8_packed(c: char) -> u32 {
    let u = c as u32 as int;
    if u < 0x80 {
        u as u32
    } else if u < 0x800 {
        ((0xC0 + u / 64) * 256 + (0x80 + u % 64)) as u32
    } else if u < 0x10000 {
        ((0xE0 + u / 4096) * 65536 + (0x80 + (u / 64) % 64) * 256 + (0x80 + u % 64)) as u32
    } else {
        ((0xF0 + u / 262144) * 16777216 + (0x80 + (u / 4096) % 64) * 65536 + (0x80 + (u / 64) % 64) * 256
            + (0x80 + u % 64)) as u32
    }
}

/// Packs the UTF-8 bytes of a character into a `u32`, first byte highest.
pub fn char_to_utf8(c: char) -> (r: u32)
    ensures
        r == utf8_packed(c),
{
    let u = c as u32;
    assert(u <= 0x10FFFF);
    if u < 0x80 {
        u
    } else if u < 0x800 {
        (0xC0 + u / 64) * 256 + (0x80 + u % 64)
    } else if u < 0x10000 {
        assert((0xE0 + u / 4096) * 65536 <= 0xEF * 65536) by (nonlinear_arith)
            requires u < 0x10000;
        (0xE0 + u / 4096) * 65536 + (0x80 + (u / 64) % 64) * 256 + (0x80 + u % 64)
    } else {
        assert((0xF0 + u / 262144) * 16777216 <= 0xF4 * 16777216) by (nonlinear_arith)
            requires u <= 0x10FFFF;
        (0xF0 + u / 262144) * 16777216 + (0x80 + (u / 4096) % 64) * 65536 + (0x80 + (u / 64) % 64)
            * 256 + (0x80 + u % 64)
    }
}

/// A grid of cells, row after row.
pub struct Termbox {
    width: i32,
    height: i32,
    cells: Vec<Cell>,
}

pub open spec fn blank() -> Cell {
    Cell { ch: 32, fg: 0, bg: 0 }
}

impl Termbox {
    pub closed spec fn w(&self) -> int {
        self.width as int
    }

    pub closed spec fn h(&self) -> int {
        self.height as int
    }

    pub closed spec fn cells_view(&self) -> Seq<Cell> {
        self.cells@
    }

    pub open spec fn wf(&self) -> bool {
        0 <= self.w() <= 4096 && 0 <= self.h() <= 4096 && self.cells_view().len() == self.w() * self.h()
    }

    pub open spec fn in_bounds(&self, x: int, y: int) -> bool {
        0 <= x < self.w() && 0 <= y < self.h()
    }

    /// The cell at column `x`, row `y`.
    pub open spec fn cell(&self, x: int, y: int) -> Cell {
        self.cells_view()[y * self.w() + x]
    }

    /// A blank grid.
    pub fn new(width: i32, height: i32) -> (r: Termbox)
        requires
            0 <= width <= 4096,
            0 <= height <= 4096,
        ensures
            r.wf(),
            r.w() == width,
            r.h() == height,
            forall|x: int, y: int| r.in_bounds(x, y) ==> r.cell(x, y) == blank(),
    {
        assert((width as usize) * (height as usize) <= 16777216) by (nonlinear_arith)
            requires 0 <= width <= 4096, 0 <= height <= 4096;
        let n = (width as usize) * (height as usize);
        let mut cells: Vec<Cell> = Vec::new();
        let mut i: usize = 0;
        while i < n
            invariant
                i <= n,
                cells@.len() == i,
                forall|k: int| 0 <= k < i ==> cells@[k] == blank(),
            decreases n - i,
        {
            cells.push(Cell { ch: 32, fg: 0, bg: 0 });
            i = i + 1;
        }
        let r = Termbox { width, height, cells };
        assert forall|x: int, y: int| r.in_bounds(x, y) implies r.cell(x, y) == blank() by {
            assert(0 <= y * width + x < width * height) by (nonlinear_arith)
                requires 0 <= x < width, 0 <= y < height;
        }
        r
    }

    pub fn width(&self) -> (r: i32)
        ensures
            r == self.w(),
    {
        self.width
    }

    pub fn height(&self) -> (r: i32)
        ensures
            r == self.h(),
    {
        self.height
    }

    /// The cell at (`x`, `y`), if that is inside the grid.
    pub fn get_cell(&self, x: i32, y: i32) -> (r: Option<Cell>)
        requires
            self.wf(),
        ensures
            r == if self.in_bounds(x as int, y as int) {
                Some(self.cell(x as int, y as int))
            } else {
                None
            },
    {
        if 0 <= x && x < self.width && 0 <= y && y < self.height {
            let w = self.width;
            assert(0 <= y * w + x < w * self.height) by (nonlinear_arith)
                requires 0 <= x < w, 0 <= y < self.height, w <= 4096, self.height <= 4096;
            assert((y as usize) * (w as usize) <= 16777216) by (nonlinear_arith)
                requires 0 <= y < 4096, 0 <= w <= 4096;
            let i = (y as usize) * (w as usize) + (x as usize);
            Some(self.cells[i])
        } else {
            None
        }
    }

    /// Sets one cell; a position outside the grid is ignored.
    pub fn put_cell(&mut self, x: i32, y: i32, cell: Cell)
        requires
            old(self).wf(),
        ensures
            final(self).wf(),
            final(self).w() == old(self).w(),
            final(self).h() == old(self).h(),
            final(self).cells_view() == if old(self).in_bounds(x as int, y as int) {
                old(self).cells_view().update(y * old(self).w() + x, cell)
            } else {
                old(self).cells_view()
            },
    {
        if 0 <= x && x < self.width && 0 <= y && y < self.height {
            let w = self.width;
            assert(0 <= y * w + x < w * self.height) by (nonlinear_arith)
                requires 0 <= x < w, 0 <= y < self.height, w <= 4096, self.height <= 4096;
            assert((y as usize) * (w as usize) <= 16777216) by (nonlinear_arith)
                requires 0 <= y < 4096, 0 <= w <= 4096;
            let i = (y as usize) * (w as usize) + (x as usize);
            assert(i as int == y * old(self).w() + x);
            self.cells.set(i, cell);
        }
    }

    /// Sets one cell to a character with attributes.
    pub fn change_cell(&mut self, x: i32, y: i32, ch: char, fg: u16, bg: u16)
        requires
            old(self).wf(),
        ensures
            final(self).wf(),
            final(self).w() == old(self).w(),
            final(self).h() == old(self).h(),
            final(self).cells_view() == if old(self).in_bounds(x as int, y as int) {
                old(self).cells_view().update(y * old(self).w() + x, Cell { ch: utf8_packed(ch), fg, bg })
            } else {
                old(self).cells_view()
            },
    {
        self.put_cell(x, y, Cell { ch: char_to_utf8(ch), fg, bg });
    }

    /// Blanks every cell.
    pub fn clear(&mut self)
        requires
            old(self).wf(),
        ensures
            final(self).wf(),
            final(self).w() == old(self).w(),
            final(self).h() == old(self).h(),
            forall|x: int, y: int| final(self).in_bounds(x, y) ==> final(self).cell(x, y) == blank(),
    {
        *self = Termbox::new(self.width, self.height);
    }
}

/// What drawing `s` at (`x`, `y`) in `style` leaves in `tb`: each character
/// that falls inside the grid in its cell, every other cell as it was.
pub open spec fn printed(old: Termbox, new: Termbox, x: int, y: int, style: Color, s: Seq<char>) -> bool {
    &&& new.wf()
    &&& new.w() == old.w()
    &&& new.h() == old.h()
    &&& forall|cx: int, cy: int|
        #![trigger new.cell(cx, cy)]
        new.in_bounds(cx, cy) ==> new.cell(cx, cy) == if cy == y && x <= cx < x + s.len() {
            Cell { ch: utf8_packed(s[cx - x]), fg: style.fg, bg: style.bg }
        } else {
            old.cell(cx, cy)
        }
}

/// Draws characters from (`pos_x`, `pos_y`) rightwards.
pub fn print_chars(tb: &mut Termbox, pos_x: i32, pos_y: i32, style: Color, chars: &Vec<char>)
    requires
        old(tb).wf(),
        pos_x + chars@.len() <= i32::MAX,
        chars@.len() <= i32::MAX,
    ensures
        printed(*old(tb), *final(tb), pos_x as int, pos_y as int, style, chars@),
{
    let mut i: usize = 0;
    while i < chars.len()
        invariant
            i <= chars@.len(),
            pos_x + chars@.len() <= i32::MAX,
            chars@.len() <= i32::MAX,
            printed(*old(tb), *tb, pos_x as int, pos_y as int, style, chars@.subrange(0, i as int)),
        decreases chars@.len() - i,
    {
        let ghost before = *tb;
        let x = pos_x + i as i32;
        tb.change_cell(x, pos_y, chars[i], style.fg, style.bg);
        proof {
            let s0 = chars@.subrange(0, i as int);
            let s1 = chars@.subrange(0, i + 1);
            let w = before.w();
            assert forall|cx: int, cy: int| #![trigger tb.cell(cx, cy)] tb.in_bounds(cx, cy) implies tb.cell(cx, cy) == if cy == pos_y && pos_x <= cx < pos_x + s1.len() {
                Cell { ch: utf8_packed(s1[cx - pos_x]), fg: style.fg, bg: style.bg }
            } else {
                old(tb).cell(cx, cy)
            } by {
                assert(0 <= cy * w + cx < w * before.h()) by (nonlinear_arith)
                    requires 0 <= cx < w, 0 <= cy < before.h();
                let prev = before.cell(cx, cy);
                if cy == pos_y && cx == x {
                    assert(tb.cell(cx, cy) == Cell { ch: utf8_packed(chars@[i as int]), fg: style.fg, bg: style.bg });
                    assert(s1[cx - pos_x] == chars@[i as int]);
                } else {
                    assert(before.cells_view().len() == w * before.h());
                    if before.in_bounds(x as int, pos_y as int) {
                        assert(cy * w + cx != pos_y * w + x) by (nonlinear_arith)
                            requires !(cy == pos_y && cx == x), 0 <= cx < w, 0 <= x < w, 0 <= cy, 0 <= pos_y;
                        let c = Cell { ch: utf8_packed(chars@[i as int]), fg: style.fg, bg: style.bg };
                        assert(tb.cells_view() == before.cells_view().update(pos_y * w + x, c));
                        assert(0 <= cy * w + cx < before.cells_view().len());
                        assert(0 <= pos_y * w + x < w * before.h()) by (nonlinear_arith)
                            requires 0 <= x < w, 0 <= pos_y < before.h();
                        assert(before.cells_view().update(pos_y * w + x, c)[cy * w + cx] == before.cells_view()[cy * w + cx]);
                    } else {
                        assert(tb.cells_view() == before.cells_view());
                    }
                    assert(tb.w() == w);
                    assert(tb.cells_view()[cy * w + cx] == before.cells_view()[cy * w + cx]);
                    assert(tb.cell(cx, cy) == prev);
                    if cy == pos_y && pos_x <= cx < pos_x + s0.len() {
                        assert(s1[cx - pos_x] == s0[cx - pos_x]);
                    }
                }
            }
        }
        i = i + 1;
    }
    assert(chars@.subrange(0, i as int) =~= chars@);
}

/// Draws a string from (`pos_x`, `pos_y`) rightwards.
pub fn print(tb: &mut Termbox, pos_x: i32, pos_y: i32, style: Color, str: &str)
    requires
        old(tb).wf(),
        pos_x + str@.len() <= i32::MAX,
        str@.len() <= i32::MAX,
    ensures
        printed(*old(tb), *final(tb), pos_x as int, pos_y as int, style, str@),
{
    let cs = to_chars(str);
    print_chars(tb, pos_x, pos_y, style, &cs);
}

} // verus!
