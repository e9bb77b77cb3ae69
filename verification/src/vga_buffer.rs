//! Text-mode console output, modelled over an owned screen buffer: a
//! fixed grid of colored characters with a cursor, line wrapping and
//! scrolling.  The running kernel renders the same grid through the
//! memory-mapped text buffer; every state change of the grid is specified
//! here.

use vstd::prelude::*;

verus! {

/// Rows of the text buffer.
pub const BUFFER_HEIGHT: usize = 25;

/// Columns of the text buffer.
pub const BUFFER_WIDTH: usize = 80;

/// The sixteen colors of the text mode.
#[derive(Clone, Copy, Debug, PartialEq, Eq, Structural)]
pub enum Color {
    Black,
    Blue,
    Green,
    Cyan,
    Red,
    Magenta,
    Brown,
    LightGray,
    Gray,
    LightBlue,
    LightGreen,
    LightCyan,
    LightRed,
    Pink,
    Yellow,
    White,
}

impl Color {
    /// The hardware code of the color.
    pub open spec fn spec_code(self) -> u8 {
        match self {
            Color::Black => 0,
            Color::Blue => 1,
            Color::Green => 2,
            Color::Cyan => 3,
            Color::Red => 4,
            Color::Magenta => 5,
            Color::Brown => 6,
            Color::LightGray => 7,
            Color::Gray => 8,
            Color::LightBlue => 9,
            Color::LightGreen => 10,
            Color::LightCyan => 11,
            Color::LightRed => 12,
            Color::Pink => 13,
            Color::Yellow => 14,
            Color::White => 15,
        }
    }

    /// The hardware code of the color.
    pub fn code(self) -> (r: u8)
        ensures
            r == self.spec_code(),
            r < 16,
    {
        match self {
            Color::Black => 0,
            Color::Blue => 1,
            Color::Green => 2,
            Color::Cyan => 3,
            Color::Red => 4,
            Color::Magenta => 5,
            Color::Brown => 6,
            Color::LightGray => 7,
            Color::Gray => 8,
            Color::LightBlue => 9,
            Color::LightGreen => 10,
            Color::LightCyan => 11,
            Color::LightRed => 12,
            Color::Pink => 13,
            Color::Yellow => 14,
            Color::White => 15,
        }
    }
}

/// The color byte of a cell: the background code in the high nibble, the
/// foreground code in the low one.
pub open spec fn spec_color_code(foreground: Color, background: Color) -> u8 {
    (background.spec_code() * 16 + foreground.spec_code()) as u8
}

/// One cell of the text buffer: a character byte and its color byte.
#[derive(Clone, Copy, Debug, PartialEq, Eq, Structural)]
pub struct ScreenChar {
    pub ascii_character: u8,
    pub color_code: u8,
}

impl ScreenChar {
    /// A cell showing `ascii_character` in `foreground` on `background`.
    pub fn new(foreground: Color, background: Color, ascii_character: u8) -> (r: ScreenChar)
        ensures
            r == (ScreenChar {
                ascii_character,
                color_code: spec_color_code(foreground, background),
            }),
    {
        let fg = foreground.code();
        let bg = background.code();
        proof {
            assert((bg << 4) | fg == bg * 16 + fg) by (bit_vector)
                requires
                    fg < 16,
                    bg < 16,
            ;
        }
        let color_code = (bg << 4) | fg;
        ScreenChar { color_code, ascii_character }
    }
}

/// Mathematical state of the writer: the cursor, the colors, and the
/// screen grid.
#[verifier::ext_equal]
pub struct WriterModel {
    pub column_position: usize,
    pub row_position: usize,
    pub foreground: Color,
    pub background: Color,
    pub screen: Seq<Seq<ScreenChar>>,
}

/// The blank cell used for cleared rows: a space in the writer's
/// foreground on a black background.
pub open spec fn blank_cell(m: WriterModel) -> ScreenChar {
    ScreenChar { ascii_character: 32, color_code: spec_color_code(m.foreground, Color::Black) }
}

/// A whole row of blank cells.
pub open spec fn blank_row(m: WriterModel) -> Seq<ScreenChar> {
    Seq::new(BUFFER_WIDTH as nat, |c: int| blank_cell(m))
}

impl WriterModel {
    /// Well-formedness: the grid has its fixed dimensions and the cursor
    /// stays inside it.
    pub open spec fn wf(self) -> bool {
        &&& self.screen.len() == BUFFER_HEIGHT
        &&& forall|r: int|
            0 <= r < BUFFER_HEIGHT ==> (#[trigger] self.screen[r]).len() == BUFFER_WIDTH
        &&& self.row_position < BUFFER_HEIGHT
        &&& self.column_position <= BUFFER_WIDTH
    }
}

/// Moving to a new line: the cursor returns to the first column; below
/// the last row the cursor moves down, on it every row moves up by one
/// and the freed last row is blank.
pub open spec fn spec_new_line(m: WriterModel) -> WriterModel {
    if m.row_position + 1 < BUFFER_HEIGHT {
        WriterModel { row_position: (m.row_position + 1) as usize, column_position: 0, ..m }
    } else {
        WriterModel {
            column_position: 0,
            screen: m.screen.remove(0).push(blank_row(m)),
            ..m
        }
    }
}

/// Writing one byte: a line feed moves to a new line; any other byte —
/// after wrapping to a new line if the current one is full — is stored at
/// the cursor in the writer's colors, and the cursor advances.
pub open spec fn spec_write_byte(m: WriterModel, byte: u8) -> WriterModel {
    if byte == 10 {
        spec_new_line(m)
    } else {
        let m1 = if m.column_position >= BUFFER_WIDTH {
            spec_new_line(m)
        } else {
            m
        };
        let cell = ScreenChar {
            ascii_character: byte,
            color_code: spec_color_code(m1.foreground, m1.background),
        };
        WriterModel {
            column_position: (m1.column_position + 1) as usize,
            screen: m1.screen.update(
                m1.row_position as int,
                m1.screen[m1.row_position as int].update(m1.column_position as int, cell),
            ),
            ..m1
        }
    }
}

/// A byte outside the printable range and not a line feed is shown as the
/// replacement character 0xfe.
pub open spec fn spec_adjust_byte(byte: u8) -> u8 {
    if (0x20 <= byte && byte <= 0x7e) || byte == 10 {
        byte
    } else {
        0xfe
    }
}

/// Writing a string of bytes, first to last, each adjusted for
/// printability.
pub open spec fn spec_write_bytes(m: WriterModel, s: Seq<u8>) -> WriterModel
    decreases s.len(),
{
    if s.len() == 0 {
        m
    } else {
        spec_write_bytes(spec_write_byte(m, spec_adjust_byte(s[0])), s.drop_first())
    }
}

/// Writing one more byte after a string extends the written string.
proof fn lemma_write_bytes_snoc(m: WriterModel, s: Seq<u8>, b: u8)
    ensures
        spec_write_bytes(m, s.push(b)) == spec_write_byte(
            spec_write_bytes(m, s),
            spec_adjust_byte(b),
        ),
    decreases s.len(),
{
    if s.len() == 0 {
        assert(s.push(b)[0] == b);
        assert(s.push(b).drop_first() =~= Seq::<u8>::empty());
        assert(spec_write_bytes(m, s.push(b)) == spec_write_bytes(
            spec_write_byte(m, spec_adjust_byte(b)),
            s.push(b).drop_first(),
        ));
        assert(spec_write_bytes(spec_write_byte(m, spec_adjust_byte(b)), Seq::<u8>::empty())
            == spec_write_byte(m, spec_adjust_byte(b)));
        assert(spec_write_bytes(m, s) == m);
    } else {
        assert(s.push(b).drop_first() =~= s.drop_first().push(b));
        assert(s.push(b)[0] == s[0]);
        let m1 = spec_write_byte(m, spec_adjust_byte(s[0]));
        lemma_write_bytes_snoc(m1, s.drop_first(), b);
        assert(spec_write_bytes(m, s.push(b)) == spec_write_bytes(m1, s.push(b).drop_first()));
        assert(spec_write_bytes(m1, s.drop_first().push(b)) == spec_write_byte(
            spec_write_bytes(m1, s.drop_first()),
            spec_adjust_byte(b),
        ));
        assert(spec_write_bytes(m, s) == spec_write_bytes(m1, s.drop_first()));
    }
}

/// Both steps of writing preserve the grid's shape.
proof fn lemma_write_byte_wf(m: WriterModel, byte: u8)
    requires
        m.wf(),
    ensures
        spec_write_byte(m, byte).wf(),
        spec_new_line(m).wf(),
{
    let mn = spec_new_line(m);
    if m.row_position + 1 >= BUFFER_HEIGHT {
        assert forall|r: int| 0 <= r < BUFFER_HEIGHT implies (#[trigger] mn.screen[r]).len()
            == BUFFER_WIDTH by {
            if r < BUFFER_HEIGHT - 1 {
                assert(mn.screen[r] == m.screen[r + 1]);
            } else {
                assert(mn.screen[r] == blank_row(m));
            }
        }
    }
    if byte != 10 {
        let m1 = if m.column_position >= BUFFER_WIDTH {
            mn
        } else {
            m
        };
        let mw = spec_write_byte(m, byte);
        assert forall|r: int| 0 <= r < BUFFER_HEIGHT implies (#[trigger] mw.screen[r]).len()
            == BUFFER_WIDTH by {
            if r != m1.row_position {
                assert(mw.screen[r] == m1.screen[r]);
            } else {
                assert(mw.screen[r] == m1.screen[r].update(m1.column_position as int, mw.screen[r][m1.column_position as int]));
            }
        }
    }
}

/// Renders bytes into the screen grid: characters advance the cursor,
/// line feeds and full rows wrap, and writing past the last row scrolls.
pub struct Writer {
    column_position: usize,
    row_position: usize,
    foreground: Color,
    background: Color,
    buffer: Vec<Vec<ScreenChar>>,
}

impl View for Writer {
    type V = WriterModel;

    closed spec fn view(&self) -> WriterModel {
        WriterModel {
            column_position: self.column_position,
            row_position: self.row_position,
            foreground: self.foreground,
            background: self.background,
            screen: self.buffer@.map_values(|v: Vec<ScreenChar>| v@),
        }
    }
}

impl Writer {
    /// A writer over a screen of blank cells, with the cursor at the top
    /// left and the given colors.
    pub fn new(foreground: Color, background: Color) -> (r: Writer)
        ensures
            r@.wf(),
            r@.column_position == 0,
            r@.row_position == 0,
            r@.foreground == foreground,
            r@.background == background,
            forall|row: int|
                0 <= row < BUFFER_HEIGHT ==> #[trigger] r@.screen[row] =~= blank_row(r@),
    {
        let mut buffer: Vec<Vec<ScreenChar>> = Vec::new();
        let blank = ScreenChar::new(foreground, Color::Black, 32);
        let mut row: usize = 0;
        while row < BUFFER_HEIGHT
            invariant
                row <= BUFFER_HEIGHT,
                buffer@.len() == row,
                forall|r: int|
                    0 <= r < row ==> (#[trigger] buffer@[r])@ =~= Seq::new(
                        BUFFER_WIDTH as nat,
                        |c: int| blank,
                    ),
            decreases BUFFER_HEIGHT - row,
        {
            let mut line: Vec<ScreenChar> = Vec::new();
            let mut col: usize = 0;
            while col < BUFFER_WIDTH
                invariant
                    col <= BUFFER_WIDTH,
                    line@.len() == col,
                    forall|c: int| 0 <= c < col ==> #[trigger] line@[c] == blank,
                decreases BUFFER_WIDTH - col,
            {
                line.push(blank);
                col = col + 1;
            }
            proof {
                assert(line@ =~= Seq::new(BUFFER_WIDTH as nat, |c: int| blank));
            }
            buffer.push(line);
            row = row + 1;
        }
        let r = Writer { column_position: 0, row_position: 0, foreground, background, buffer };
        proof {
            assert forall|row2: int| 0 <= row2 < BUFFER_HEIGHT implies #[trigger] r@.screen[row2]
                =~= blank_row(r@) by {
                assert(r@.screen[row2] == buffer@[row2]@);
            }
        }
        r
    }

    /// Writes one byte to the screen, exactly as the model says: a line
    /// feed wraps, a full row wraps first, writing on the last row
    /// scrolls.
    pub fn write_byte(&mut self, byte: u8)
        requires
            old(self)@.wf(),
        ensures
            final(self)@.wf(),
            final(self)@ =~= spec_write_byte(old(self)@, byte),
    {
        proof {
            lemma_write_byte_wf(self@, byte);
        }
        if byte == 10 {
            self.new_line();
        } else {
            if self.column_position >= BUFFER_WIDTH {
                self.new_line();
            }
            let cell = ScreenChar::new(self.foreground, self.background, byte);
            let row = self.row_position;
            let col = self.column_position;
            self.buffer[row][col] = cell;
            self.column_position = self.column_position + 1;
            proof {
                assert(self@.screen =~= spec_write_byte(old(self)@, byte).screen);
                assert(self@ =~= spec_write_byte(old(self)@, byte));
            }
        }
    }

    /// Writes a string of bytes, first to last; a byte outside the
    /// printable range and not a line feed is shown as the replacement
    /// character.
    pub fn write_str(&mut self, s: &[u8])
        requires
            old(self)@.wf(),
        ensures
            final(self)@.wf(),
            final(self)@ =~= spec_write_bytes(old(self)@, s@),
    {
        let n = s.len();
        let mut i: usize = 0;
        while i < n
            invariant
                i <= n,
                n == s@.len(),
                self@.wf(),
                self@ =~= spec_write_bytes(old(self)@, s@.take(i as int)),
            decreases n - i,
        {
            let byte = s[i];
            let printable = (0x20 <= byte && byte <= 0x7e) || byte == 10;
            proof {
                assert(s@.take(i + 1).drop_last() =~= s@.take(i as int));
                lemma_write_bytes_snoc(old(self)@, s@.take(i as int), s@[i as int]);
                assert(s@.take(i + 1) == s@.take(i as int).push(s@[i as int]));
            }
            if printable {
                self.write_byte(byte);
            } else {
                self.write_byte(0xfe);
            }
            i = i + 1;
        }
        proof {
            assert(s@.take(n as int) =~= s@);
        }
    }

    /// Moves the cursor to the start of the next line, scrolling the
    /// whole screen up by one row when it is already on the last one.
    fn new_line(&mut self)
        requires
            old(self)@.wf(),
        ensures
            final(self)@.wf(),
            final(self)@ =~= spec_new_line(old(self)@),
    {
        proof {
            lemma_write_byte_wf(self@, 10);
        }
        if self.row_position + 1 < BUFFER_HEIGHT {
            self.row_position = self.row_position + 1;
        } else {
            let mut line: Vec<ScreenChar> = Vec::new();
            let blank = ScreenChar::new(self.foreground, Color::Black, 32);
            let mut col: usize = 0;
            while col < BUFFER_WIDTH
                invariant
                    col <= BUFFER_WIDTH,
                    line@.len() == col,
                    forall|c: int| 0 <= c < col ==> #[trigger] line@[c] == blank,
                    blank == blank_cell(old(self)@),
                    self@ == old(self)@,
                decreases BUFFER_WIDTH - col,
            {
                line.push(blank);
                col = col + 1;
            }
            proof {
                assert(line@ =~= blank_row(old(self)@));
            }
            self.buffer.remove(0);
            self.buffer.push(line);
            proof {
                assert(self@.screen =~= spec_new_line(old(self)@).screen);
            }
        }
        self.column_position = 0;
        proof {
            assert(self@ =~= spec_new_line(old(self)@));
        }
    }

    /// Clears one row to blank cells.
    fn clear_row(&mut self, row: usize)
        requires
            old(self)@.wf(),
            row < BUFFER_HEIGHT,
        ensures
            final(self)@.wf(),
            final(self)@ =~= (WriterModel {
                screen: old(self)@.screen.update(row as int, blank_row(old(self)@)),
                ..old(self)@
            }),
    {
        let mut line: Vec<ScreenChar> = Vec::new();
        let blank = ScreenChar::new(self.foreground, Color::Black, 32);
        let mut col: usize = 0;
        while col < BUFFER_WIDTH
            invariant
                col <= BUFFER_WIDTH,
                line@.len() == col,
                forall|c: int| 0 <= c < col ==> #[trigger] line@[c] == blank,
                blank == blank_cell(old(self)@),
                self@ == old(self)@,
            decreases BUFFER_WIDTH - col,
        {
            line.push(blank);
            col = col + 1;
        }
        proof {
            assert(line@ =~= blank_row(old(self)@));
        }
        self.buffer[row] = line;
        proof {
            assert(self@.screen =~= old(self)@.screen.update(row as int, blank_row(old(self)@)));
            assert(self@ =~= (WriterModel {
                screen: old(self)@.screen.update(row as int, blank_row(old(self)@)),
                ..old(self)@
            }));
        }
    }

    /// The cell shown at the given position.
    pub fn char_at(&self, row: usize, col: usize) -> (r: ScreenChar)
        requires
            self@.wf(),
            row < BUFFER_HEIGHT,
            col < BUFFER_WIDTH,
        ensures
            r == self@.screen[row as int][col as int],
    {
        proof {
            assert(self.buffer@[row as int]@ == self@.screen[row as int]);
        }
        self.buffer[row][col]
    }

    /// The current cursor row.
    pub fn row_position(&self) -> (r: usize)
        ensures
            r == self@.row_position,
    {
        self.row_position
    }

    /// The current cursor column.
    pub fn column_position(&self) -> (r: usize)
        ensures
            r == self@.column_position,
    {
        self.column_position
    }
}

} // verus!
