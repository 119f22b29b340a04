//! The logic of an 80x25 VGA text-mode terminal: cursor, line wrapping,
//! scrolling and the replacement of unprintable bytes, over a copy of the
//! screen that the caller transfers to the hardware buffer.
use vstd::prelude::*;
use vstd::string::StringSliceAdditionalSpecFns;

verus! {

/// Standard 4-bit VGA colour codes used for foreground and background.
#[derive(Debug, Clone, Copy, PartialEq, Eq)]
pub enum Color {
    Black,
    Blue,
    Green,
    Cyan,
    Red,
    Magenta,
    Brown,
    LightGray,
    DarkGray,
    LightBlue,
    LightGreen,
    LightCyan,
    LightRed,
    Pink,
    Yellow,
    White,
}

/// The 4-bit code of a colour: `Black` is 0, ..., `White` is 15.
pub open spec fn color_number(c: Color) -> u8 {
    match c {
        Color::Black => 0,
        Color::Blue => 1,
        Color::Green => 2,
        Color::Cyan => 3,
        Color::Red => 4,
        Color::Magenta => 5,
        Color::Brown => 6,
        Color::LightGray => 7,
        Color::DarkGray => 8,
        Color::LightBlue => 9,
        Color::LightGreen => 10,
        Color::LightCyan => 11,
        Color::LightRed => 12,
        Color::Pink => 13,
        Color::Yellow => 14,
        Color::White => 15,
    }
}

impl Color {
    /// The 4-bit code of this colour.
    fn number(self) -> (r: u8)
        ensures
            r == color_number(self),
    {
        match self {
            Color::Black => 0,
            Color::Blue => 1,
            Color::Green => 2,
            Color::Cyan => 3,
            Color::Red => 4,
            Color::Magenta => 5,
            Color::Brown => 6,
            Color::LightGray => 7,
            Color::DarkGray => 8,
            Color::LightBlue => 9,
            Color::LightGreen => 10,
            Color::LightCyan => 11,
            Color::LightRed => 12,
            Color::Pink => 13,
            Color::Yellow => 14,
            Color::White => 15,
        }
    }
}

/// A foreground and a background colour packed in one byte: background in
/// the high nibble, foreground in the low one.
#[derive(Debug, Clone, Copy, PartialEq, Eq)]
struct ColorCode(u8);

impl ColorCode {
    fn new(fg: Color, bg: Color) -> (r: ColorCode)
        ensures
            r.0 == color_number(bg) * 16 + color_number(fg),
    {
        let b = bg.number();
        let f = fg.number();
        assert((b << 4u8) | f == b * 16 + f) by (bit_vector)
            requires
                b < 16,
                f < 16,
        ;
        ColorCode((b << 4u8) | f)
    }
}

/// One character cell: a byte of code page 437 and its colour.
#[derive(Debug, Clone, Copy, PartialEq, Eq)]
struct ScreenChar {
    ascii: u8,
    color: ColorCode,
}

/// Number of text rows on the screen.
pub const BUFFER_HEIGHT: usize = 25;

/// Number of text columns on the screen.
pub const BUFFER_WIDTH: usize = 80;

/// Number of character cells on the screen.
pub const SCREEN_CELLS: usize = 2000;

/// The byte shown in place of bytes that are not printable ASCII.
pub const REPLACEMENT_BYTE: u8 = 0xfe;

/// Writes characters to an 80x25 text screen, handling scrolling and line wrapping.
///
/// Maintains the current column and colour, and the contents of the screen,
/// row by row. Text is always written to the last row; when the cursor
/// reaches the end of a line or a newline is written, the screen scrolls up
/// by one row.
pub struct Writer {
    col: usize,
    color: ColorCode,
    chars: [ScreenChar; SCREEN_CELLS],
}

/// The abstract state of a [`Writer`]: cursor column, colour byte and the
/// `(byte, colour)` pairs of the screen, row by row.
pub struct WriterView {
    pub col: usize,
    pub color: u8,
    pub cells: Seq<(u8, u8)>,
}

impl View for Writer {
    type V = WriterView;

    closed spec fn view(&self) -> WriterView {
        WriterView {
            col: self.col,
            color: self.color.0,
            cells: self.chars@.map_values(|c: ScreenChar| (c.ascii, c.color.0)),
        }
    }
}

/// Index of the cell at `row`, `col` in the row-by-row sequence of cells.
pub open spec fn cell_index(row: int, col: int) -> int {
    row * BUFFER_WIDTH + col
}

/// Whether a byte is shown as it is: printable ASCII or a newline.
pub open spec fn is_shown(b: u8) -> bool {
    (0x20 <= b && b <= 0x7e) || b == 10
}

impl WriterView {
    /// The writer's invariant: a full screen and the cursor on the last row.
    pub open spec fn wf(self) -> bool {
        &&& self.cells.len() == BUFFER_HEIGHT * BUFFER_WIDTH
        &&& self.col <= BUFFER_WIDTH
    }

    /// The screen scrolled up by one row, with a blank last row in the
    /// current colour, and the cursor at the start of the line.
    pub open spec fn new_line(self) -> WriterView {
        WriterView {
            col: 0,
            cells: Seq::new(
                self.cells.len(),
                |k: int|
                    if k < cell_index(BUFFER_HEIGHT - 1, 0) {
                        self.cells[k + BUFFER_WIDTH]
                    } else {
                        (0x20u8, self.color)
                    },
            ),
            ..self
        }
    }

    /// Writing one byte: a newline scrolls; any other byte goes to the cursor
    /// on the last row, after a scroll when the line is full.
    pub open spec fn write_byte(self, byte: u8) -> WriterView {
        if byte == 10 {
            self.new_line()
        } else {
            let w = if self.col >= BUFFER_WIDTH { self.new_line() } else { self };
            WriterView {
                col: (w.col + 1) as usize,
                cells: w.cells.update(cell_index(BUFFER_HEIGHT - 1, w.col as int), (byte, w.color)),
                ..w
            }
        }
    }

    /// The byte that a string byte is shown as.
    pub open spec fn shown(b: u8) -> u8 {
        if is_shown(b) { b } else { REPLACEMENT_BYTE }
    }

    /// Writing a sequence of bytes, each shown as itself or replaced.
    pub open spec fn write_bytes(self, bytes: Seq<u8>) -> WriterView
        decreases bytes.len(),
    {
        if bytes.len() == 0 {
            self
        } else {
            self.write_bytes(bytes.drop_last()).write_byte(WriterView::shown(bytes.last()))
        }
    }
}

impl Writer {
    /// A writer on a blank screen, writing `foreground` on `background` from
    /// the start of the last row.
    pub fn new(foreground: Color, background: Color) -> (r: Writer)
        ensures
            r@.wf(),
            r@.col == 0,
            r@.color == color_number(background) * 16 + color_number(foreground),
            forall|k: int| 0 <= k < r@.cells.len() ==> #[trigger] r@.cells[k] == (0x20u8, r@.color),
            screen_displayable(r@),
    {
        let color = ColorCode::new(foreground, background);
        let blank = ScreenChar { ascii: 0x20u8, color };
        let chars = [blank; SCREEN_CELLS];
        Writer { col: 0, color, chars }
    }

    /// The byte and colour byte of the cell at `row`, `col`.
    pub fn cell(&self, row: usize, col: usize) -> (r: (u8, u8))
        requires
            self@.wf(),
            row < BUFFER_HEIGHT,
            col < BUFFER_WIDTH,
        ensures
            r == self@.cells[cell_index(row as int, col as int)],
    {
        let c = self.chars[row * BUFFER_WIDTH + col];
        (c.ascii, c.color.0)
    }

    /// Writes a single byte.
    ///
    /// A newline (`\n`) triggers scrolling. Any other byte is placed at the
    /// current column on the last row, advancing the cursor. If the column
    /// reaches the screen width, a newline is inserted first.
    pub fn write_byte(&mut self, byte: u8)
        requires
            old(self)@.wf(),
        ensures
            final(self)@ == old(self)@.write_byte(byte),
            final(self)@.wf(),
    {
        if byte == 0x0au8 {
            self.new_line();
        } else {
            if self.col >= BUFFER_WIDTH {
                self.new_line();
            }
            let row = BUFFER_HEIGHT - 1;
            let col = self.col;
            let ghost w = self@;
            self.chars[row * BUFFER_WIDTH + col] = ScreenChar { ascii: byte, color: self.color };
            self.col = self.col + 1;
            proof {
                assert(self@.cells =~= w.cells.update(cell_index(BUFFER_HEIGHT - 1, w.col as int), (byte, w.color)));
            }
        }
    }

    /// Scrolls the screen up by one row and blanks the last row.
    fn new_line(&mut self)
        requires
            old(self)@.wf(),
        ensures
            final(self)@ == old(self)@.new_line(),
            final(self)@.wf(),
    {
        let ghost v0 = self@;
        let mut k: usize = 0;
        let last = (BUFFER_HEIGHT - 1) * BUFFER_WIDTH;
        while k < last
            invariant
                k <= last,
                last == cell_index(BUFFER_HEIGHT - 1, 0),
                self.col == v0.col,
                self.color.0 == v0.color,
                self@.cells.len() == v0.cells.len(),
                v0.wf(),
                forall|j: int| 0 <= j < k ==> #[trigger] self@.cells[j] == v0.cells[j + BUFFER_WIDTH],
                forall|j: int| k <= j < self@.cells.len() ==> #[trigger] self@.cells[j] == v0.cells[j],
            decreases last - k,
        {
            let c = self.chars[k + BUFFER_WIDTH];
            let ghost prev = self@;
            self.chars[k] = c;
            proof {
                assert(self@.cells =~= prev.cells.update(k as int, prev.cells[k + BUFFER_WIDTH]));
            }
            k = k + 1;
        }
        self.clear_row(BUFFER_HEIGHT - 1);
        self.col = 0;
        proof {
            assert(self@.cells =~= v0.new_line().cells);
        }
    }

    /// Fills row `row` with blanks in the current colour.
    fn clear_row(&mut self, row: usize)
        requires
            old(self)@.wf(),
            row < BUFFER_HEIGHT,
        ensures
            final(self)@.col == old(self)@.col,
            final(self)@.color == old(self)@.color,
            final(self)@.cells.len() == old(self)@.cells.len(),
            forall|k: int| 0 <= k < old(self)@.cells.len() ==> #[trigger] final(self)@.cells[k]
                == if cell_index(row as int, 0) <= k < cell_index(row as int, BUFFER_WIDTH as int) {
                    (0x20u8, old(self)@.color)
                } else {
                    old(self)@.cells[k]
                },
    {
        let blank = ScreenChar { ascii: 0x20u8, color: self.color };
        let ghost v0 = self@;
        let mut col: usize = 0;
        while col < BUFFER_WIDTH
            invariant
                col <= BUFFER_WIDTH,
                row < BUFFER_HEIGHT,
                blank.ascii == 0x20 && blank.color.0 == v0.color,
                self.col == v0.col,
                self.color.0 == v0.color,
                self@.cells.len() == v0.cells.len(),
                v0.wf(),
                forall|k: int| 0 <= k < v0.cells.len() ==> #[trigger] self@.cells[k]
                    == if cell_index(row as int, 0) <= k < cell_index(row as int, col as int) {
                        (0x20u8, v0.color)
                    } else {
                        v0.cells[k]
                    },
            decreases BUFFER_WIDTH - col,
        {
            let ghost prev = self@;
            self.chars[row * BUFFER_WIDTH + col] = blank;
            proof {
                assert(self@.cells =~= prev.cells.update(cell_index(row as int, col as int), (0x20u8, v0.color)));
            }
            col = col + 1;
        }
    }

    /// Writes a string.
    ///
    /// Only printable ASCII bytes (0x20–0x7e) and `\n` are written as they
    /// are; every other byte is replaced with `■` (0xfe).
    pub fn write_string(&mut self, s: &str)
        requires
            old(self)@.wf(),
        ensures
            final(self)@ == old(self)@.write_bytes(s.spec_bytes()),
            final(self)@.wf(),
    {
        let bytes = s.as_bytes();
        let ghost v0 = self@;
        let mut k: usize = 0;
        while k < bytes.len()
            invariant
                k <= bytes@.len(),
                bytes@ == s.spec_bytes(),
                self@.wf(),
                self@ == v0.write_bytes(bytes@.subrange(0, k as int)),
            decreases bytes@.len() - k,
        {
            let byte = bytes[k];
            if (0x20 <= byte && byte <= 0x7e) || byte == 0x0au8 {
                self.write_byte(byte);
            } else {
                self.write_byte(REPLACEMENT_BYTE);
            }
            proof {
                let p = bytes@.subrange(0, k + 1);
                assert(p.drop_last() =~= bytes@.subrange(0, k as int));
                assert(p.last() == byte);
            }
            k = k + 1;
        }
        proof {
            assert(bytes@.subrange(0, bytes@.len() as int) =~= bytes@);
        }
    }
}

/// Writing two strings one after the other shows the same screen as writing
/// them joined.
pub proof fn lemma_write_bytes_concat(v: WriterView, a: Seq<u8>, b: Seq<u8>)
    ensures
        v.write_bytes(a + b) == v.write_bytes(a).write_bytes(b),
    decreases b.len(),
{
    if b.len() == 0 {
        assert(a + b =~= a);
    } else {
        assert((a + b).drop_last() =~= a + b.drop_last());
        assert((a + b).last() == b.last());
        lemma_write_bytes_concat(v, a, b.drop_last());
    }
}

/// Writing keeps the screen full and the cursor on the screen, whatever is written.
pub proof fn lemma_write_bytes_keeps_wf(v: WriterView, bytes: Seq<u8>)
    requires
        v.wf(),
    ensures
        v.write_bytes(bytes).wf(),
    decreases bytes.len(),
{
    if bytes.len() > 0 {
        lemma_write_bytes_keeps_wf(v, bytes.drop_last());
    }
}

/// Whether a byte is one the terminal can show: printable ASCII, the blank
/// among them, or the replacement byte.
pub open spec fn is_displayable(b: u8) -> bool {
    (0x20 <= b && b <= 0x7e) || b == REPLACEMENT_BYTE
}

/// Whether every cell of the screen holds a byte the terminal can show.
pub open spec fn screen_displayable(v: WriterView) -> bool {
    forall|k: int| 0 <= k < v.cells.len() ==> #[trigger] is_displayable(v.cells[k].0)
}

/// Only printable ASCII, blanks and the replacement byte ever reach the
/// screen: writing any string to a screen that shows only those keeps it so.
pub proof fn lemma_only_displayable_bytes_shown(v: WriterView, bytes: Seq<u8>)
    requires
        v.wf(),
        screen_displayable(v),
    ensures
        screen_displayable(v.write_bytes(bytes)),
    decreases bytes.len(),
{
    if bytes.len() > 0 {
        let pre = bytes.drop_last();
        lemma_only_displayable_bytes_shown(v, pre);
        lemma_write_bytes_keeps_wf(v, pre);
        let w = v.write_bytes(pre);
        let b = WriterView::shown(bytes.last());
        let nl = w.new_line();
        assert(screen_displayable(nl)) by {
            assert forall|k: int| 0 <= k < nl.cells.len() implies #[trigger] is_displayable(nl.cells[k].0) by {
                if k < cell_index(BUFFER_HEIGHT - 1, 0) {
                    assert(is_displayable(w.cells[k + BUFFER_WIDTH].0));
                }
            }
        }
        if b != 10 {
            let x = if w.col >= BUFFER_WIDTH { nl } else { w };
            let r = w.write_byte(b);
            assert forall|k: int| 0 <= k < r.cells.len() implies #[trigger] is_displayable(r.cells[k].0) by {
                if k != cell_index(BUFFER_HEIGHT - 1, x.col as int) {
                    assert(is_displayable(x.cells[k].0));
                }
            }
        }
    }
}

/// Each colour's code is its VGA hardware number, in the order of the VGA
/// palette: black 0, blue 1, green 2, cyan 3, red 4, magenta 5, brown 6,
/// light gray 7, dark gray 8, light blue 9, light green 10, light cyan 11,
/// light red 12, pink 13, yellow 14, white 15.
pub proof fn lemma_vga_color_numbers()
    ensures
        color_number(Color::Black) == 0,
        color_number(Color::Blue) == 1,
        color_number(Color::Green) == 2,
        color_number(Color::Cyan) == 3,
        color_number(Color::Red) == 4,
        color_number(Color::Magenta) == 5,
        color_number(Color::Brown) == 6,
        color_number(Color::LightGray) == 7,
        color_number(Color::DarkGray) == 8,
        color_number(Color::LightBlue) == 9,
        color_number(Color::LightGreen) == 10,
        color_number(Color::LightCyan) == 11,
        color_number(Color::LightRed) == 12,
        color_number(Color::Pink) == 13,
        color_number(Color::Yellow) == 14,
        color_number(Color::White) == 15,
{
}

/// Text that fits on the rest of the line, without a newline, lands on the
/// last row from the cursor on, one cell per byte in the writer's colour:
/// each printable ASCII byte (0x20 to 0x7e, the space among them) as
/// itself, every other byte as 0xfe. The cursor moves past it and no other
/// cell changes.
pub proof fn lemma_write_line(v: WriterView, bytes: Seq<u8>)
    requires
        v.wf(),
        v.col + bytes.len() <= BUFFER_WIDTH,
        forall|k: int| 0 <= k < bytes.len() ==> #[trigger] bytes[k] != 10,
    ensures
        v.write_bytes(bytes).col == v.col + bytes.len(),
        v.write_bytes(bytes).color == v.color,
        v.write_bytes(bytes).cells.len() == v.cells.len(),
        forall|k: int| 0 <= k < bytes.len() ==> #[trigger] v.write_bytes(bytes).cells[cell_index(
            BUFFER_HEIGHT - 1,
            v.col + k,
        )] == (if 0x20 <= bytes[k] && bytes[k] <= 0x7e { bytes[k] } else { 0xfeu8 }, v.color),
        forall|j: int| 0 <= j < v.cells.len() && !(cell_index(BUFFER_HEIGHT - 1, v.col as int) <= j
            < cell_index(BUFFER_HEIGHT - 1, v.col + bytes.len())) ==> #[trigger] v.write_bytes(bytes).cells[j]
            == v.cells[j],
    decreases bytes.len(),
{
    if bytes.len() > 0 {
        let pre = bytes.drop_last();
        assert forall|k: int| 0 <= k < pre.len() implies #[trigger] pre[k] != 10 by {
            assert(pre[k] == bytes[k]);
        }
        lemma_write_line(v, pre);
        let w = v.write_bytes(pre);
        let b = bytes.last();
        assert(b == bytes[bytes.len() - 1]);
        let shown = WriterView::shown(b);
        assert(shown == if 0x20 <= b && b <= 0x7e { b } else { 0xfeu8 });
        let r = v.write_bytes(bytes);
        assert(r == w.write_byte(shown));
        assert forall|k: int| 0 <= k < bytes.len() implies #[trigger] r.cells[cell_index(
            BUFFER_HEIGHT - 1,
            v.col + k,
        )] == (if 0x20 <= bytes[k] && bytes[k] <= 0x7e { bytes[k] } else { 0xfeu8 }, v.color) by {
            if k < pre.len() {
                assert(pre[k] == bytes[k]);
                assert(w.cells[cell_index(BUFFER_HEIGHT - 1, v.col + k)] == (
                    if 0x20 <= pre[k] && pre[k] <= 0x7e { pre[k] } else { 0xfeu8 },
                    v.color,
                ));
            }
        }
        assert forall|j: int| 0 <= j < v.cells.len() && !(cell_index(BUFFER_HEIGHT - 1, v.col as int) <= j
            < cell_index(BUFFER_HEIGHT - 1, v.col + bytes.len())) implies #[trigger] r.cells[j] == v.cells[j] by {
            assert(w.cells[j] == v.cells[j]);
        }
    }
}

/// A newline scrolls the screen up by one row: every row but the last, the
/// top one included, takes what the row below it held, the last row becomes
/// blank in the writer's colour, and the cursor returns to the start of the line.
pub proof fn lemma_newline_scrolls(v: WriterView)
    requires
        v.wf(),
    ensures
        v.write_bytes(seq![10u8]).col == 0,
        v.write_bytes(seq![10u8]).color == v.color,
        v.write_bytes(seq![10u8]).cells.len() == v.cells.len(),
        forall|r: int, c: int| 0 <= r < BUFFER_HEIGHT - 1 && 0 <= c < BUFFER_WIDTH
            ==> #[trigger] v.write_bytes(seq![10u8]).cells[cell_index(r, c)] == v.cells[cell_index(r + 1, c)],
        forall|c: int| 0 <= c < BUFFER_WIDTH ==> #[trigger] v.write_bytes(seq![10u8]).cells[cell_index(
            BUFFER_HEIGHT - 1,
            c,
        )] == (0x20u8, v.color),
{
    let s = seq![10u8];
    assert(s.drop_last() =~= Seq::<u8>::empty());
    assert(s.last() == 10);
    assert(v.write_bytes(s.drop_last()) == v);
    assert(WriterView::shown(10) == 10);
    let w = v.write_bytes(s);
    assert(w == v.new_line());
    assert forall|r: int, c: int| 0 <= r < BUFFER_HEIGHT - 1 && 0 <= c < BUFFER_WIDTH
        implies #[trigger] w.cells[cell_index(r, c)] == v.cells[cell_index(r + 1, c)] by {
        assert(cell_index(r, c) + BUFFER_WIDTH == cell_index(r + 1, c));
    }
}

/// A byte other than a newline written with the cursor past the end of the
/// line first scrolls the screen up by one row, then lands at the start of
/// the new, blank last row, leaving the cursor after it.
pub proof fn lemma_full_line_wraps(v: WriterView, b: u8)
    requires
        v.wf(),
        v.col == BUFFER_WIDTH,
        b != 10,
    ensures
        v.write_bytes(seq![b]).col == 1,
        v.write_bytes(seq![b]).color == v.color,
        v.write_bytes(seq![b]).cells.len() == v.cells.len(),
        forall|r: int, c: int| 0 <= r < BUFFER_HEIGHT - 1 && 0 <= c < BUFFER_WIDTH
            ==> #[trigger] v.write_bytes(seq![b]).cells[cell_index(r, c)] == v.cells[cell_index(r + 1, c)],
        v.write_bytes(seq![b]).cells[cell_index(BUFFER_HEIGHT - 1, 0)] == (
            if 0x20 <= b && b <= 0x7e { b } else { 0xfeu8 },
            v.color,
        ),
        forall|c: int| 1 <= c < BUFFER_WIDTH ==> #[trigger] v.write_bytes(seq![b]).cells[cell_index(
            BUFFER_HEIGHT - 1,
            c,
        )] == (0x20u8, v.color),
{
    let s = seq![b];
    assert(s.drop_last() =~= Seq::<u8>::empty());
    assert(s.last() == b);
    assert(v.write_bytes(s.drop_last()) == v);
    let shown = WriterView::shown(b);
    assert(shown == if 0x20 <= b && b <= 0x7e { b } else { 0xfeu8 });
    let w = v.write_bytes(s);
    assert(w == v.write_byte(shown));
    assert forall|r: int, c: int| 0 <= r < BUFFER_HEIGHT - 1 && 0 <= c < BUFFER_WIDTH
        implies #[trigger] w.cells[cell_index(r, c)] == v.cells[cell_index(r + 1, c)] by {
        assert(cell_index(r, c) + BUFFER_WIDTH == cell_index(r + 1, c));
    }
}

/// Prepares the terminal; the writer needs no set-up, so this does nothing.
pub fn init() {
}

} // verus!
