use vstd::prelude::*;
use vstd::string::StringSliceAdditionalSpecFns;

use crate::ipc::{send_spec, IpcError, Ipc, Message, SendStatus};
use crate::process::ProcessManager;

verus! {

/// Pid of the display server that the demo processes draw through.
pub const DISPLAY_SERVER_PID: usize = 1;

/// Columns and rows of one of the four screen quadrants.
pub const QUAD_WIDTH: u8 = 105;
pub const QUAD_HEIGHT: u8 = 25;

/// Longest text a `DisplayPrint` message carries.
pub const PRINT_TEXT_MAX: usize = 32;

/// Terminal row and column (1-based) of the top-left corner of quadrant `display`; displays
/// beyond the fourth fall back to the first.
pub fn quadrant_origin(display: u8) -> (r: (u16, u16))
    ensures
        display == 1 ==> r == (1u16, 107u16),
        display == 2 ==> r == (27u16, 1u16),
        display == 3 ==> r == (27u16, 107u16),
        display != 1 && display != 2 && display != 3 ==> r == (1u16, 1u16),
{
    match display {
        0 => (1, 1),
        1 => (1, QUAD_WIDTH as u16 + 2),
        2 => (QUAD_HEIGHT as u16 + 2, 1),
        3 => (QUAD_HEIGHT as u16 + 2, QUAD_WIDTH as u16 + 2),
        _ => (1, 1),
    }
}

/// Row of a quadrant that `line` is printed on: lines past the last row go to the last row.
pub fn print_row(line: u8) -> (r: u8)
    ensures
        line < QUAD_HEIGHT ==> r == line,
        line >= QUAD_HEIGHT ==> r == QUAD_HEIGHT - 1,
{
    if line < QUAD_HEIGHT {
        line
    } else {
        QUAD_HEIGHT - 1
    }
}

/// Cell `(x, y)` lies inside a quadrant; cells outside are not drawn.
pub fn cell_visible(x: u8, y: u8) -> (r: bool)
    ensures
        r == (x < QUAD_WIDTH && y < QUAD_HEIGHT),
{
    x < QUAD_WIDTH && y < QUAD_HEIGHT
}

/// Game of Life: the next state of a cell (1 alive, 0 dead) with `neighbors` live neighbours.
pub fn life_rule(cell: u8, neighbors: u32) -> (r: u8)
    ensures
        r == (if (cell == 1 && (neighbors == 2 || neighbors == 3)) || (cell == 0 && neighbors == 3) {
            1u8
        } else {
            0u8
        }),
{
    if cell == 1 && (neighbors == 2 || neighbors == 3) {
        1
    } else if cell == 0 && neighbors == 3 {
        1
    } else {
        0
    }
}

/// Width and height of the Game of Life board, which wraps round at its edges.
pub const LIFE_W: usize = 80;
pub const LIFE_H: usize = 20;

/// Cell `(x, y)` of `board`, with coordinates taken modulo the board size, counts as 1 if alive.
pub open spec fn alive_at(board: Seq<u8>, x: int, y: int) -> int {
    let xx = (x + LIFE_W) % (LIFE_W as int);
    let yy = (y + LIFE_H) % (LIFE_H as int);
    if board[yy * LIFE_W + xx] != 0 {
        1
    } else {
        0
    }
}

/// Live neighbours of `(x, y)` among its eight.
pub open spec fn live_neighbors(board: Seq<u8>, x: int, y: int) -> int {
    alive_at(board, x - 1, y - 1) + alive_at(board, x, y - 1) + alive_at(board, x + 1, y - 1)
        + alive_at(board, x - 1, y) + alive_at(board, x + 1, y)
        + alive_at(board, x - 1, y + 1) + alive_at(board, x, y + 1) + alive_at(board, x + 1, y + 1)
}

pub open spec fn life_rule_spec(cell: u8, neighbors: int) -> u8 {
    if (cell == 1 && (neighbors == 2 || neighbors == 3)) || (cell == 0 && neighbors == 3) {
        1
    } else {
        0
    }
}

fn alive_at_exec(board: &Vec<u8>, x: usize, y: usize, dx: usize, dy: usize) -> (r: u32)
    requires
        board@.len() == LIFE_W * LIFE_H,
        x < LIFE_W,
        y < LIFE_H,
        dx <= 2,
        dy <= 2,
    ensures
        r == alive_at(board@, x + dx - 1, y + dy - 1),
{
    let nx = (x + dx + LIFE_W - 1) % LIFE_W;
    let ny = (y + dy + LIFE_H - 1) % LIFE_H;
    assert(ny * LIFE_W + nx < LIFE_W * LIFE_H) by (nonlinear_arith)
        requires
            nx < LIFE_W,
            ny < LIFE_H,
    ;
    if board[ny * LIFE_W + nx] != 0 {
        1
    } else {
        0
    }
}

/// One generation of the Game of Life on the wrapping board.
pub fn life_step(board: &Vec<u8>) -> (next: Vec<u8>)
    requires
        board@.len() == LIFE_W * LIFE_H,
    ensures
        next@.len() == LIFE_W * LIFE_H,
        forall|x: int, y: int|
            0 <= x < LIFE_W && 0 <= y < LIFE_H ==> #[trigger] next@[y * LIFE_W + x] == life_rule_spec(
                board@[y * LIFE_W + x],
                live_neighbors(board@, x, y),
            ),
{
    let mut next: Vec<u8> = Vec::new();
    let mut y: usize = 0;
    while y < LIFE_H
        invariant
            board@.len() == LIFE_W * LIFE_H,
            y <= LIFE_H,
            next@.len() == y * LIFE_W,
            forall|xx: int, yy: int|
                0 <= xx < LIFE_W && 0 <= yy < y ==> #[trigger] next@[yy * LIFE_W + xx] == life_rule_spec(
                    board@[yy * LIFE_W + xx],
                    live_neighbors(board@, xx, yy),
                ),
        decreases LIFE_H - y,
    {
        let mut x: usize = 0;
        while x < LIFE_W
            invariant
                board@.len() == LIFE_W * LIFE_H,
                y < LIFE_H,
                x <= LIFE_W,
                next@.len() == y * LIFE_W + x,
                forall|xx: int, yy: int|
                    0 <= xx < LIFE_W && 0 <= yy < y ==> #[trigger] next@[yy * LIFE_W + xx] == life_rule_spec(
                        board@[yy * LIFE_W + xx],
                        live_neighbors(board@, xx, yy),
                    ),
                forall|xx: int|
                    0 <= xx < x ==> #[trigger] next@[y * LIFE_W + xx] == life_rule_spec(
                        board@[y * LIFE_W + xx],
                        live_neighbors(board@, xx, y as int),
                    ),
            decreases LIFE_W - x,
        {
            let n = alive_at_exec(board, x, y, 0, 0) + alive_at_exec(board, x, y, 1, 0)
                + alive_at_exec(board, x, y, 2, 0) + alive_at_exec(board, x, y, 0, 1)
                + alive_at_exec(board, x, y, 2, 1) + alive_at_exec(board, x, y, 0, 2)
                + alive_at_exec(board, x, y, 1, 2) + alive_at_exec(board, x, y, 2, 2);
            assert(y * LIFE_W + x < LIFE_W * LIFE_H) by (nonlinear_arith)
                requires
                    x < LIFE_W,
                    y < LIFE_H,
            ;
            let cell = board[y * LIFE_W + x];
            let ghost before = next@;
            next.push(life_rule(cell, n));
            proof {
                assert forall|xx: int, yy: int|
                    0 <= xx < LIFE_W && 0 <= yy < y implies #[trigger] next@[yy * LIFE_W + xx] == life_rule_spec(
                        board@[yy * LIFE_W + xx],
                        live_neighbors(board@, xx, yy),
                    ) by {
                    assert(yy * LIFE_W + xx < y * LIFE_W) by (nonlinear_arith)
                        requires
                            xx < LIFE_W,
                            yy < y,
                    ;
                    assert(next@[yy * LIFE_W + xx] == before[yy * LIFE_W + xx]);
                }
            }
            x = x + 1;
        }
        y = y + 1;
    }
    next
}

/// The clock text read backwards from index `i` down, each byte replaced by `?` when its
/// random draw is 0 mod 8; with the generator state after the draws.
pub open spec fn garbled(text: Seq<u8>, seed: u32, i: int) -> (Seq<u8>, u32)
    decreases i,
{
    if i <= 0 {
        (Seq::empty(), seed)
    } else {
        let s1 = xorshift32(seed);
        let c = if (s1 & 7) == 0 {
            63u8
        } else {
            text[i - 1]
        };
        let (rest, s2) = garbled(text, s1, i - 1);
        (seq![c] + rest, s2)
    }
}

/// The clock demo's line for `seconds`: `HH:MM:SS`, except that on every thirtieth second a
/// draw that is 0 mod 4 shows it backwards with some characters garbled.
pub fn clock_line(seconds: u32, seed: &mut u32) -> (r: Vec<u8>)
    ensures
        seconds % 30 != 0 ==> r@ == clock_text_spec(seconds) && *final(seed) == *old(seed),
        seconds % 30 == 0 && (xorshift32(*old(seed)) & 3) != 0 ==> r@ == clock_text_spec(seconds)
            && *final(seed) == xorshift32(*old(seed)),
        seconds % 30 == 0 && (xorshift32(*old(seed)) & 3) == 0 ==> (r@, *final(seed)) == garbled(
            clock_text_spec(seconds),
            xorshift32(*old(seed)),
            8,
        ),
{
    let buf = clock_text(seconds);
    let mut out: Vec<u8> = Vec::new();
    let mut garble = false;
    if seconds % 30 == 0 {
        let ghost x = xorshift32(*seed);
        let r = lfsr_next(seed);
        proof {
            assert((((x & 0xffu32) as u8) & 3u8) == 0u8 <==> (x & 3u32) == 0u32) by (bit_vector);
        }
        garble = (r & 3) == 0;
    }
    if garble {
        let ghost s0 = *seed;
        let mut i: usize = 8;
        while i > 0
            invariant
                i <= 8,
                buf@ == clock_text_spec(seconds),
                garbled(buf@, s0, 8) == (out@ + garbled(buf@, *seed, i as int).0, garbled(buf@, *seed, i as int).1),
            decreases i,
        {
            let ghost before = out@;
            let ghost s_before = *seed;
            let ghost x = xorshift32(*seed);
            let r = lfsr_next(seed);
            proof {
                assert((((x & 0xffu32) as u8) & 7u8) == 0u8 <==> (x & 7u32) == 0u32) by (bit_vector);
            }
            if (r & 7) == 0 {
                out.push(63u8);
            } else {
                out.push(buf[i - 1]);
            }
            proof {
                let (rest, s2) = garbled(buf@, *seed, i - 1);
                assert(garbled(buf@, s_before, i as int) == (seq![out@.last()] + rest, s2));
                assert(out@ == before.push(out@.last()));
                assert(before + (seq![out@.last()] + rest) =~= out@ + rest);
            }
            i = i - 1;
        }
        assert(out@ =~= out@ + garbled(buf@, *seed, 0).0);
    } else {
        let mut i: usize = 0;
        while i < 8
            invariant
                i <= 8,
                out@ == buf@.take(i as int),
                buf@.len() == 8,
            decreases 8 - i,
        {
            out.push(buf[i]);
            assert(buf@.take(i + 1) =~= buf@.take(i as int).push(buf@[i as int]));
            i = i + 1;
        }
        assert(buf@.take(8) =~= buf@);
    }
    out
}

/// Rows the matrix demo draws in.
pub const MATRIX_HEIGHT: i8 = 20;

/// One falling column of the matrix demo: the row of its head (negative while the column is
/// empty) and the length of its trail.
#[derive(Clone, Copy, Debug, PartialEq, Eq, Structural)]
pub struct MatrixColumn {
    pub head: i8,
    pub len: u8,
}

pub open spec fn cell_message(col: u8, y: int, fg: u8, ch: char) -> Message {
    Message::DisplayDrawCell { display: 0, x: col, y: y as u8, fg, bg: 0, ch }
}

/// Trail cells `head - t` for `t` in `[from, len)` that fall on the screen, dimmer than the head.
pub open spec fn trail_cells(col: u8, head: int, len: int, ch: char, from: int) -> Seq<Message>
    decreases len - from,
{
    if from >= len {
        Seq::empty()
    } else {
        let rest = trail_cells(col, head, len, ch, from + 1);
        if 0 <= head - from < MATRIX_HEIGHT {
            seq![cell_message(col, head - from, 2, ch)] + rest
        } else {
            rest
        }
    }
}

/// The cells a lit column with head `head`, trail `len` and glyph `ch` draws in one frame: the
/// bright head, the trail, and a blank just past the trail's end.
pub open spec fn column_cells(col: u8, head: int, len: int, ch: char) -> Seq<Message> {
    let h = if head < MATRIX_HEIGHT {
        seq![cell_message(col, head, 10, ch)]
    } else {
        Seq::empty()
    };
    let blank = if 0 <= head - len < MATRIX_HEIGHT {
        seq![cell_message(col, head - len, 0, ' ')]
    } else {
        Seq::empty()
    };
    h + trail_cells(col, head, len, ch, 1) + blank
}

impl MatrixColumn {
    pub open spec fn wf(&self) -> bool {
        &&& self.head <= MATRIX_HEIGHT + self.len as int + 1
        &&& self.len <= 6
    }

    /// One frame of column `col`, drawing random bytes from `seed`. An empty column lights up
    /// when a draw is 0 mod 8, with a trail of 3 to 6. A lit column appends its cells to `out`
    /// and moves down a row, emptying once its trail has left the screen.
    pub fn step(&mut self, seed: &mut u32, col: u8, out: &mut Vec<Message>)
        requires
            old(self).wf(),
        ensures
            final(self).wf(),
            old(self).head < 0 ==> {
                let r = (xorshift32(*old(seed)) & 0xff) as u8;
                let r2 = (xorshift32(xorshift32(*old(seed))) & 0xff) as u8;
                &&& final(out)@ == old(out)@
                &&& (r & 7 == 0) ==> *final(self) == (MatrixColumn { head: 0, len: (3 + r2 % 4) as u8 })
                    && *final(seed) == xorshift32(xorshift32(*old(seed)))
                &&& (r & 7 != 0) ==> *final(self) == *old(self) && *final(seed) == xorshift32(*old(seed))
            },
            old(self).head >= 0 ==> {
                let r = (xorshift32(*old(seed)) & 0xff) as u8;
                let head = old(self).head as int;
                let len = old(self).len as int;
                &&& *final(seed) == xorshift32(*old(seed))
                &&& exists|ch: char|
                    matrix_glyph_spec(r, ch) && final(out)@ == old(out)@ + column_cells(col, head, len, ch)
                &&& final(self).len == old(self).len
                &&& final(self).head == if head + 1 - len > MATRIX_HEIGHT { -1 } else { head + 1 }
            },
    {
        if self.head < 0 {
            if (lfsr_next(seed) & 7) == 0 {
                self.head = 0;
                self.len = 3 + (lfsr_next(seed) % 4);
            }
            return;
        }
        let head = self.head;
        let len = self.len as i8;
        let ch = matrix_glyph(lfsr_next(seed));
        let ghost start = out@;
        if head < MATRIX_HEIGHT {
            out.push(Message::DisplayDrawCell { display: 0, x: col, y: head as u8, fg: 10, bg: 0, ch });
        }
        let ghost with_head = out@;
        let mut t: i8 = 1;
        while t < len
            invariant
                1 <= t,
                t <= len || len < 1,
                0 <= head,
                len <= 6,
                head <= MATRIX_HEIGHT + len + 1,
                with_head + trail_cells(col, head as int, len as int, ch, 1) == out@ + trail_cells(
                    col,
                    head as int,
                    len as int,
                    ch,
                    t as int,
                ),
            decreases len - t,
        {
            let y = head - t;
            let ghost before = out@;
            if 0 <= y && y < MATRIX_HEIGHT {
                out.push(Message::DisplayDrawCell { display: 0, x: col, y: y as u8, fg: 2, bg: 0, ch });
                assert(out@ + trail_cells(col, head as int, len as int, ch, t + 1) =~= before
                    + trail_cells(col, head as int, len as int, ch, t as int));
            }
            t = t + 1;
        }
        proof {
            assert(out@ =~= with_head + trail_cells(col, head as int, len as int, ch, 1));
        }
        if head - len >= 0 && head - len < MATRIX_HEIGHT {
            out.push(Message::DisplayDrawCell { display: 0, x: col, y: (head - len) as u8, fg: 0, bg: 0, ch: ' ' });
        }
        proof {
            assert(out@ =~= start + column_cells(col, head as int, len as int, ch));
        }
        self.head = head + 1;
        if self.head - len > MATRIX_HEIGHT {
            self.head = -1;
        }
    }
}

/// `m` asks the display server to print the first bytes of `bytes` (at most
/// `PRINT_TEXT_MAX`, the rest of the buffer zero) on `line` of `display`.
pub open spec fn is_print_message(m: Message, display: u8, line: u8, bytes: Seq<u8>) -> bool {
    let n = if bytes.len() < PRINT_TEXT_MAX {
        bytes.len()
    } else {
        PRINT_TEXT_MAX as nat
    };
    match m {
        Message::DisplayPrint { display: d, line: l, text, len } => {
            &&& d == display
            &&& l == line
            &&& len == n
            &&& text@ == bytes.take(n as int) + Seq::new((PRINT_TEXT_MAX - n) as nat, |i: int| 0u8)
        },
        _ => false,
    }
}

/// The `DisplayPrint` message for `text`, cut to `PRINT_TEXT_MAX` bytes.
pub fn print_message(display: u8, line: u8, text: &str) -> (m: Message)
    ensures
        is_print_message(m, display, line, text.spec_bytes()),
{
    let bytes = text.as_bytes();
    let n = if bytes.len() < PRINT_TEXT_MAX {
        bytes.len()
    } else {
        PRINT_TEXT_MAX
    };
    let mut buf = [0u8; PRINT_TEXT_MAX];
    let mut i: usize = 0;
    while i < n
        invariant
            n <= PRINT_TEXT_MAX,
            n <= bytes@.len(),
            0 <= i <= n,
            forall|k: int| 0 <= k < i ==> buf@[k] == bytes@[k],
            forall|k: int| n <= k < PRINT_TEXT_MAX ==> buf@[k] == 0u8,
        decreases n - i,
    {
        buf[i] = bytes[i];
        i = i + 1;
    }
    let ghost tail = Seq::new((PRINT_TEXT_MAX - n) as nat, |i: int| 0u8);
    assert(buf@ =~= text.spec_bytes().take(n as int) + tail);
    Message::DisplayPrint { display, line, text: buf, len: n as u8 }
}

/// Sends `text` (cut to `PRINT_TEXT_MAX` bytes) to the display server for `line` of `display`.
pub fn send_print(pm: &mut ProcessManager, display: u8, line: u8, text: &str) -> (r: Result<SendStatus, IpcError>)
    requires
        old(pm).wf(),
    ensures
        final(pm).wf(),
        exists|m: Message|
            is_print_message(m, display, line, text.spec_bytes()) && (final(pm)@, r) == send_spec(
                old(pm)@,
                DISPLAY_SERVER_PID,
                m,
            ),
{
    let m = print_message(display, line, text);
    Ipc::send(pm, DISPLAY_SERVER_PID, m)
}

/// Sends one cell to draw at `(x, y)` of `display` with colours `fg`, `bg`.
pub fn send_draw_cell(pm: &mut ProcessManager, display: u8, x: u8, y: u8, fg: u8, bg: u8, ch: char) -> (r: Result<SendStatus, IpcError>)
    requires
        old(pm).wf(),
    ensures
        final(pm).wf(),
        (final(pm)@, r) == send_spec(
            old(pm)@,
            DISPLAY_SERVER_PID,
            Message::DisplayDrawCell { display, x, y, fg, bg, ch },
        ),
{
    Ipc::send(pm, DISPLAY_SERVER_PID, Message::DisplayDrawCell { display, x, y, fg, bg, ch })
}

/// Asks the display server to clear `display`.
pub fn send_clear(pm: &mut ProcessManager, display: u8) -> (r: Result<SendStatus, IpcError>)
    requires
        old(pm).wf(),
    ensures
        final(pm).wf(),
        (final(pm)@, r) == send_spec(old(pm)@, DISPLAY_SERVER_PID, Message::DisplayClear(display)),
{
    Ipc::send(pm, DISPLAY_SERVER_PID, Message::DisplayClear(display))
}

/// One step of the xorshift32 generator.
pub open spec fn xorshift32(x: u32) -> u32 {
    let a = x ^ (x << 13u32);
    let b = a ^ (a >> 17u32);
    b ^ (b << 5u32)
}

/// Advances the generator state and returns the low byte of the new state.
pub fn lfsr_next(state: &mut u32) -> (r: u8)
    ensures
        *final(state) == xorshift32(*old(state)),
        r == (xorshift32(*old(state)) & 0xff) as u8,
{
    let mut x = *state;
    x = x ^ (x << 13);
    x = x ^ (x >> 17);
    x = x ^ (x << 5);
    *state = x;
    (x & 0xff) as u8
}

/// Background colour of cell `(x, y)` of the plasma demo at frame `t`:
/// `1 + ((3x + 5y + 2t) mod 256) mod 8`.
pub fn plasma_bg(x: u8, y: u8, t: u8) -> (r: u8)
    ensures
        r == 1 + ((3 * x + 5 * y + 2 * t) % 256) % 8,
{
    let s = (3 * (x as u32) + 5 * (y as u32) + 2 * (t as u32)) % 256;
    let v = (s % 8) as u8;
    1 + v
}

/// `c` is the glyph for random byte `r`: `0`..`9` then `A`..`Z`, by `r mod 36`.
pub open spec fn matrix_glyph_spec(r: u8, c: char) -> bool {
    &&& (r % 36) < 10 ==> c as u32 == '0' as u32 + (r % 36) as u32
    &&& (r % 36) >= 10 ==> c as u32 == 'A' as u32 + (r % 36 - 10) as u32
}

/// Glyph that the matrix demo draws for random byte `r`.
pub fn matrix_glyph(r: u8) -> (c: char)
    ensures
        matrix_glyph_spec(r, c),
{
    let idx = r % 36;
    if idx < 10 {
        (48u8 + idx) as char
    } else {
        (65u8 + (idx - 10)) as char
    }
}

/// `HH:MM:SS` in ASCII for `seconds` since midnight, modulo one day.
pub open spec fn clock_text_spec(seconds: u32) -> Seq<u8> {
    let t = seconds % 86400;
    let h = t / 3600;
    let m = (t % 3600) / 60;
    let s = t % 60;
    seq![
        (48 + h / 10) as u8,
        (48 + h % 10) as u8,
        58u8,
        (48 + m / 10) as u8,
        (48 + m % 10) as u8,
        58u8,
        (48 + s / 10) as u8,
        (48 + s % 10) as u8,
    ]
}

/// The clock demo's text for `seconds`.
pub fn clock_text(seconds: u32) -> (r: [u8; 8])
    ensures
        r@ == clock_text_spec(seconds),
{
    let total = seconds % 86400;
    let hour = (total / 3600) as u8;
    let minute = ((total % 3600) / 60) as u8;
    let sec = (total % 60) as u8;
    let mut buf = [48u8; 8];
    buf[0] = 48u8 + hour / 10;
    buf[1] = 48u8 + hour % 10;
    buf[2] = 58u8;
    buf[3] = 48u8 + minute / 10;
    buf[4] = 48u8 + minute % 10;
    buf[5] = 58u8;
    buf[6] = 48u8 + sec / 10;
    buf[7] = 48u8 + sec % 10;
    assert(buf@ =~= seq![
        (48 + hour / 10) as u8,
        (48 + hour % 10) as u8,
        58u8,
        (48 + minute / 10) as u8,
        (48 + minute % 10) as u8,
        58u8,
        (48 + sec / 10) as u8,
        (48 + sec % 10) as u8,
    ]);
    buf
}

} // verus!
