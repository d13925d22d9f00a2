//! The canvas: a fixed-size, row-major raster of colors, and its encoder
//! into the plain-text PPM "P3" image format with output lines wrapped at
//! 70 columns.
//!
//! Coordinates: (0, 0) is the top-left pixel, x grows rightward, y grows
//! downward.

use crate::color::Color;
use crate::color::black;
use crate::color::channel_level;
use crate::color::lemma_channel_level_bounds;
use crate::decimal::dec_bytes;
use crate::decimal::lemma_dec_bytes_digits;
use crate::decimal::lemma_dec_bytes_len;
use crate::decimal::lemma_pow10_values;
use crate::decimal::push_dec_u32;
use crate::writer::MaxWidthWriter;
use crate::writer::cut_point;
use crate::writer::drain;
use crate::writer::lemma_drain_append;
use crate::writer::lemma_drain_content;
use crate::writer::lemma_drain_output_lines;
use crate::writer::lemma_drain_quiescent;
use crate::writer::lemma_run_bound_by_len;
use crate::writer::lemma_run_bound_concat;
use crate::writer::lines_within;
use crate::writer::run_bound;
use crate::writer::wraps_to;
use vstd::prelude::*;

verus! {

/// A raster of `width` × `height` colors, stored row-major: the pixel at
/// column `x` of row `y` sits at index `y·width + x`.  The dimensions are
/// fixed at construction; pixels are overwritten in place.
pub struct Canvas {
    width: u32,
    height: u32,
    data: Vec<Color>,
}

impl Canvas {
    /// The width, in pixels.
    pub closed spec fn spec_width(self) -> u32 {
        self.width
    }

    /// The height, in pixels.
    pub closed spec fn spec_height(self) -> u32 {
        self.height
    }

    /// The pixel grid, row-major.
    pub closed spec fn pixels(self) -> Seq<Color> {
        self.data@
    }

    /// Well-formed: the grid holds exactly one color per coordinate.
    pub open spec fn wf(self) -> bool {
        self.pixels().len() == (self.spec_width() as int) * (self.spec_height() as int)
    }

    /// The row-major index of the pixel at column `x`, row `y`.
    pub open spec fn pixel_index(self, x: int, y: int) -> int {
        y * self.spec_width() + x
    }

    /// The color of the pixel at column `x`, row `y`.
    pub open spec fn pixel(self, x: int, y: int) -> Color {
        self.pixels()[self.pixel_index(x, y)]
    }

    /// Scanline `y` of the grid, left to right.
    pub open spec fn row(self, y: int) -> Seq<Color> {
        self.pixels().subrange(
            y * self.spec_width(),
            y * self.spec_width() + self.spec_width(),
        )
    }

    /// A canvas of the given dimensions with every pixel black, or `None`
    /// for malformed dimensions: a zero width or height (or a grid too
    /// large for this machine to address) allocates nothing.
    pub fn new(width: u32, height: u32) -> (r: Option<Canvas>)
        ensures
            match r {
                Some(c) => {
                    &&& 1 <= width
                    &&& 1 <= height
                    &&& (width as int) * (height as int) <= usize::MAX
                    &&& c.wf()
                    &&& c.spec_width() == width
                    &&& c.spec_height() == height
                    &&& forall|i: int| 0 <= i < c.pixels().len() ==> c.pixels()[i] == black()
                },
                None => width == 0 || height == 0 || (width as int) * (height as int)
                    > usize::MAX,
            },
    {
        if width == 0 || height == 0 {
            return None;
        }
        proof {
            assert((width as int) * (height as int) <= 0xffff_ffff * 0xffff_ffff)
                by (nonlinear_arith)
                requires
                    width as int <= 0xffff_ffff,
                    height as int <= 0xffff_ffff,
            ;
        }
        let n64: u64 = (width as u64) * (height as u64);
        if n64 > (usize::MAX as u64) {
            return None;
        }
        let n: usize = n64 as usize;
        let mut data: Vec<Color> = Vec::new();
        let mut i: usize = 0;
        while i < n
            invariant
                i <= n,
                data@.len() == i as int,
                forall|j: int| 0 <= j < i ==> data@[j] == black(),
            decreases n - i,
        {
            data.push(Color::black());
            i = i + 1;
        }
        Some(Canvas { width, height, data })
    }

    /// The width, in pixels.
    pub fn width(&self) -> (w: u32)
        ensures
            w == self.spec_width(),
    {
        self.width
    }

    /// The height, in pixels.
    pub fn height(&self) -> (h: u32)
        ensures
            h == self.spec_height(),
    {
        self.height
    }

    /// Replace the pixel at column `x`, row `y`: overwrite, no blending.
    /// Every other pixel keeps its color.
    pub fn write_pixel(&mut self, x: i32, y: i32, color: Color)
        requires
            old(self).wf(),
            0 <= x < old(self).spec_width(),
            0 <= y < old(self).spec_height(),
        ensures
            final(self).wf(),
            final(self).spec_width() == old(self).spec_width(),
            final(self).spec_height() == old(self).spec_height(),
            final(self).pixels() == old(self).pixels().update(
                old(self).pixel_index(x as int, y as int),
                color,
            ),
            final(self).pixel(x as int, y as int) == color,
            forall|i: int, j: int|
                0 <= i < old(self).spec_width() && 0 <= j < old(self).spec_height() && (i, j)
                    != (x as int, y as int) ==> #[trigger] final(self).pixel(i, j) == old(
                    self,
                ).pixel(i, j),
    {
        let n = self.data.len();
        proof {
            lemma_grid_index(
                self.spec_width() as int,
                self.spec_height() as int,
                x as int,
                y as int,
            );
            assert(y as int * (self.spec_width() as int) + x < n as int);
        }
        let idx: usize = (y as usize) * (self.width as usize) + (x as usize);
        self.data.set(idx, color);
        proof {
            let w = old(self).spec_width() as int;
            let h = old(self).spec_height() as int;
            assert forall|i: int, j: int|
                0 <= i < w && 0 <= j < h && (i, j) != (x as int, y as int) implies #[trigger] self
                .pixel(i, j) == old(self).pixel(i, j) by {
                lemma_grid_index(w, h, i, j);
                lemma_pixel_index_injective(*old(self), i, j, x as int, y as int);
            }
        }
    }

    /// The color of the pixel at column `x`, row `y`.
    pub fn pixel_at(&self, x: i32, y: i32) -> (c: Color)
        requires
            self.wf(),
            0 <= x < self.spec_width(),
            0 <= y < self.spec_height(),
        ensures
            c == self.pixel(x as int, y as int),
    {
        let n = self.data.len();
        proof {
            lemma_grid_index(
                self.spec_width() as int,
                self.spec_height() as int,
                x as int,
                y as int,
            );
            assert(y as int * (self.spec_width() as int) + x < n as int);
        }
        let idx: usize = (y as usize) * (self.width as usize) + (x as usize);
        self.data[idx]
    }

    /// Every pixel, row-major: row 0 first, each row left to right.
    pub fn flat(&self) -> (v: Vec<Color>)
        ensures
            v@ == self.pixels(),
    {
        let n = self.data.len();
        let mut v: Vec<Color> = Vec::new();
        let mut i: usize = 0;
        while i < n
            invariant
                i <= n,
                n == self.pixels().len(),
                v@ == self.pixels().take(i as int),
            decreases n - i,
        {
            let c = self.data[i];
            v.push(c);
            i = i + 1;
            proof {
                assert(v@ =~= self.pixels().take(i as int));
            }
        }
        proof {
            assert(v@ =~= self.pixels());
        }
        v
    }

    /// The scanlines, top to bottom, each one `width` pixels left to right.
    /// A fresh call walks the whole grid again.
    pub fn rows(&self) -> (r: Vec<Vec<Color>>)
        requires
            self.wf(),
        ensures
            r@.len() == self.spec_height(),
            forall|y: int| 0 <= y < r@.len() ==> #[trigger] r@[y]@ == self.row(y),
    {
        let w = self.width as usize;
        let h = self.height as usize;
        let n = self.data.len();
        let mut r: Vec<Vec<Color>> = Vec::new();
        let mut y: usize = 0;
        while y < h
            invariant
                y <= h,
                w == self.spec_width() as int,
                h == self.spec_height() as int,
                n == self.pixels().len(),
                self.wf(),
                r@.len() == y as int,
                forall|j: int| 0 <= j < y ==> #[trigger] r@[j]@ == self.row(j),
            decreases h - y,
        {
            proof {
                lemma_row_in_grid(self.spec_width() as int, self.spec_height() as int, y as int);
                assert(y as int * w as int + w as int <= n as int);
            }
            let base: usize = y * w;
            let mut line: Vec<Color> = Vec::new();
            let mut x: usize = 0;
            while x < w
                invariant
                    x <= w,
                    w == self.spec_width() as int,
                    self.wf(),
                    n == self.pixels().len(),
                    base as int == y as int * w as int,
                    base + w <= n,
                    line@ == self.row(y as int).take(x as int),
                decreases w - x,
            {
                let c = self.data[base + x];
                line.push(c);
                x = x + 1;
                proof {
                    assert(self.row(y as int)[x - 1] == self.pixels()[base + x - 1]);
                    assert(line@ =~= self.row(y as int).take(x as int));
                }
            }
            proof {
                assert(line@ =~= self.row(y as int));
            }
            r.push(line);
            y = y + 1;
        }
        r
    }

    /// Write "P3\n<width> <height>\n255\n" through the line writer.
    fn write_ppm_header(&self, lg: &mut MaxWidthWriter)
        ensures
            final(lg).number_columns == old(lg).number_columns,
            final(lg).writer_vec@ == drain(
                old(lg).number_columns as nat,
                old(lg).writer_vec@,
                old(lg).line_buffer@ + ppm_header(self.spec_width(), self.spec_height()),
            ).0,
            final(lg).line_buffer@ == drain(
                old(lg).number_columns as nat,
                old(lg).writer_vec@,
                old(lg).line_buffer@ + ppm_header(self.spec_width(), self.spec_height()),
            ).1,
    {
        let mut hdr: Vec<u8> = Vec::new();
        hdr.push(80);
        hdr.push(51);
        hdr.push(10);
        push_dec_u32(self.width, &mut hdr);
        hdr.push(32);
        push_dec_u32(self.height, &mut hdr);
        hdr.push(10);
        hdr.push(50);
        hdr.push(53);
        hdr.push(53);
        hdr.push(10);
        proof {
            assert(hdr@ =~= ppm_header(self.spec_width(), self.spec_height()));
        }
        lg.write(&hdr);
    }

    /// Write every scanline through the line writer: one newline-terminated
    /// text of space-separated levels per row, top to bottom.
    #[verifier::loop_isolation(false)]
    fn write_ppm_data(&self, lg: &mut MaxWidthWriter)
        requires
            self.wf(),
            cut_point(old(lg).number_columns as nat, old(lg).line_buffer@) is None,
        ensures
            final(lg).number_columns == old(lg).number_columns,
            final(lg).writer_vec@ == drain(
                old(lg).number_columns as nat,
                old(lg).writer_vec@,
                old(lg).line_buffer@ + rows_stream(*self, self.spec_height() as int),
            ).0,
            final(lg).line_buffer@ == drain(
                old(lg).number_columns as nat,
                old(lg).writer_vec@,
                old(lg).line_buffer@ + rows_stream(*self, self.spec_height() as int),
            ).1,
    {
        let ghost lim = lg.number_columns as nat;
        let ghost out0 = lg.writer_vec@;
        let ghost buf0 = lg.line_buffer@;
        let ghost mut fed: Seq<u8> = Seq::empty();
        proof {
            assert(buf0 + fed =~= buf0);
        }
        let w = self.width as usize;
        let h = self.height as usize;
        let n = self.data.len();
        let mut y: usize = 0;
        while y < h
            invariant
                y <= h,
                fed == rows_stream(*self, y as int),
                lg.number_columns == old(lg).number_columns,
                lg.writer_vec@ == drain(lim, out0, buf0 + fed).0,
                lg.line_buffer@ == drain(lim, out0, buf0 + fed).1,
            decreases h - y,
        {
            proof {
                lemma_row_in_grid(w as int, h as int, y as int);
            }
            let base: usize = y * w;
            let ghost scanline = self.row(y as int);
            let mut x: usize = 0;
            while x < w
                invariant
                    x <= w,
                    fed == rows_stream(*self, y as int) + row_tokens_prefix(
                        scanline,
                        x as int,
                    ),
                    lg.number_columns == old(lg).number_columns,
                    lg.writer_vec@ == drain(lim, out0, buf0 + fed).0,
                    lg.line_buffer@ == drain(lim, out0, buf0 + fed).1,
                decreases w - x,
            {
                let p = self.data[base + x];
                proof {
                    assert(p == scanline[x as int]);
                }
                let mut chunk: Vec<u8> = Vec::new();
                if x > 0 {
                    chunk.push(32);
                }
                let levels = p.to_u8();
                push_dec_u32(levels.0 as u32, &mut chunk);
                chunk.push(32);
                push_dec_u32(levels.1 as u32, &mut chunk);
                chunk.push(32);
                push_dec_u32(levels.2 as u32, &mut chunk);
                proof {
                    if x > 0 {
                        assert(chunk@ =~= seq![32u8] + pixel_tokens(p));
                    } else {
                        assert(chunk@ =~= pixel_tokens(p));
                    }
                    lemma_drain_append(lim, out0, buf0 + fed, chunk@);
                    assert((buf0 + fed) + chunk@ =~= buf0 + (fed + chunk@));
                }
                lg.write(&chunk);
                proof {
                    fed = fed + chunk@;
                    assert(fed =~= rows_stream(*self, y as int) + row_tokens_prefix(
                        scanline,
                        x as int + 1,
                    ));
                }
                x = x + 1;
            }
            let mut nlchunk: Vec<u8> = Vec::new();
            nlchunk.push(10);
            proof {
                lemma_drain_append(lim, out0, buf0 + fed, nlchunk@);
                assert((buf0 + fed) + nlchunk@ =~= buf0 + (fed + nlchunk@));
            }
            lg.write(&nlchunk);
            proof {
                fed = fed + nlchunk@;
                assert(scanline.len() == w as int);
                assert(fed =~= rows_stream(*self, y as int + 1));
            }
            y = y + 1;
        }
    }

    /// Serialize the canvas into PPM "P3" text, appended to `vec`: the
    /// header, then one scanline text per row in top-to-bottom order,
    /// re-wrapped so that no output line outgrows 70 bytes without ever
    /// splitting a number or its separating space.
    pub fn canvas_to_ppm(&self, vec: &mut Vec<u8>)
        requires
            self.wf(),
        ensures
            final(vec)@ == old(vec)@ + ppm_bytes(*self),
    {
        let ghost header = ppm_header(self.spec_width(), self.spec_height());
        let ghost rows_text = rows_stream(*self, self.spec_height() as int);
        let mut lg = MaxWidthWriter::new(70);
        self.write_ppm_header(&mut lg);
        proof {
            assert(Seq::<u8>::empty() + header =~= header);
            lemma_drain_quiescent(70nat, Seq::<u8>::empty(), header);
        }
        self.write_ppm_data(&mut lg);
        proof {
            lemma_drain_append(70nat, Seq::<u8>::empty(), header, rows_text);
            assert(header + rows_text == ppm_input(*self));
        }
        lg.flush();
        vec.append(&mut lg.writer_vec);
        proof {
            assert(vec@ =~= old(vec)@ + ppm_bytes(*self));
        }
    }
}

/// The PPM "P3" header: "P3\n<width> <height>\n255\n".
pub open spec fn ppm_header(width: u32, height: u32) -> Seq<u8> {
    seq![80u8, 51u8, 10u8] + dec_bytes(width as nat) + seq![32u8] + dec_bytes(height as nat)
        + seq![10u8, 50u8, 53u8, 53u8, 10u8]
}

/// The text of one pixel: its three levels in red, green, blue order,
/// separated by single spaces.
pub open spec fn pixel_tokens(c: Color) -> Seq<u8> {
    dec_bytes(channel_level(c.red) as nat) + seq![32u8] + dec_bytes(channel_level(c.green) as nat)
        + seq![32u8] + dec_bytes(channel_level(c.blue) as nat)
}

/// The text of the first `n` pixels of a row, single spaces between pixels.
pub open spec fn row_tokens_prefix(row: Seq<Color>, n: int) -> Seq<u8>
    decreases n,
{
    if n <= 0 {
        Seq::empty()
    } else if n == 1 {
        pixel_tokens(row[0])
    } else {
        row_tokens_prefix(row, n - 1) + seq![32u8] + pixel_tokens(row[n - 1])
    }
}

/// The text of one whole scanline, its terminating newline not included.
pub open spec fn row_tokens(row: Seq<Color>) -> Seq<u8> {
    row_tokens_prefix(row, row.len() as int)
}

/// The newline-terminated scanline texts of rows [0, n) of the canvas.
pub open spec fn rows_stream(c: Canvas, n: int) -> Seq<u8>
    decreases n,
{
    if n <= 0 {
        Seq::empty()
    } else {
        rows_stream(c, n - 1) + row_tokens(c.row(n - 1)) + seq![10u8]
    }
}

/// Everything the encoder feeds its line writer, in order.
pub open spec fn ppm_input(c: Canvas) -> Seq<u8> {
    ppm_header(c.spec_width(), c.spec_height()) + rows_stream(c, c.spec_height() as int)
}

/// The PPM encoding of the canvas: the input stream re-wrapped by a
/// 70-column line writer, then the final flush of whatever stays buffered.
pub open spec fn ppm_bytes(c: Canvas) -> Seq<u8> {
    drain(70, Seq::<u8>::empty(), ppm_input(c)).0 + drain(70, Seq::<u8>::empty(), ppm_input(c)).1
}

/// Break-free runs of a pixel's text stay within 70 bytes: each level is at
/// most three digits and single spaces separate them.
proof fn lemma_pixel_tokens_run_bound(c: Color)
    ensures
        run_bound(pixel_tokens(c), 70),
        pixel_tokens(c)[0] != 10u8 && pixel_tokens(c)[0] != 32u8,
{
    lemma_pow10_values();
    lemma_channel_level_bounds(c.red);
    lemma_channel_level_bounds(c.green);
    lemma_channel_level_bounds(c.blue);
    let dr = dec_bytes(channel_level(c.red) as nat);
    let dg = dec_bytes(channel_level(c.green) as nat);
    let db = dec_bytes(channel_level(c.blue) as nat);
    lemma_dec_bytes_len(channel_level(c.red) as nat, 3);
    lemma_dec_bytes_len(channel_level(c.green) as nat, 3);
    lemma_dec_bytes_len(channel_level(c.blue) as nat, 3);
    lemma_dec_bytes_digits(channel_level(c.red) as nat);
    let sp = seq![32u8];
    lemma_run_bound_by_len(dr, 70);
    lemma_run_bound_by_len(dg, 70);
    lemma_run_bound_by_len(db, 70);
    lemma_run_bound_by_len(sp, 70);
    lemma_run_bound_concat(sp, dg, 70);
    lemma_run_bound_concat(sp, db, 70);
    assert((sp + dg)[0] == 32u8);
    assert((sp + db)[0] == 32u8);
    lemma_run_bound_concat(dr, sp + dg, 70);
    lemma_run_bound_concat(dr + (sp + dg), sp + db, 70);
    assert(pixel_tokens(c) =~= (dr + (sp + dg)) + (sp + db));
    assert(pixel_tokens(c)[0] == dr[0]);
}

/// Break-free runs of a scanline prefix's text stay within 70 bytes.
proof fn lemma_row_tokens_run_bound(row: Seq<Color>, n: int)
    requires
        0 <= n <= row.len(),
    ensures
        run_bound(row_tokens_prefix(row, n), 70),
    decreases n,
{
    if n <= 0 {
        lemma_run_bound_by_len(row_tokens_prefix(row, n), 70);
    } else if n == 1 {
        lemma_pixel_tokens_run_bound(row[0]);
    } else {
        lemma_row_tokens_run_bound(row, n - 1);
        lemma_pixel_tokens_run_bound(row[n - 1]);
        let sp = seq![32u8];
        let pt = pixel_tokens(row[n - 1]);
        lemma_run_bound_by_len(sp, 70);
        lemma_run_bound_concat(sp, pt, 70);
        assert((sp + pt)[0] == 32u8);
        lemma_run_bound_concat(row_tokens_prefix(row, n - 1), sp + pt, 70);
        assert(row_tokens_prefix(row, n) =~= row_tokens_prefix(row, n - 1) + (sp + pt));
    }
}

/// Break-free runs of the scanline stream stay within 70 bytes, and the
/// stream is empty or newline-terminated.
proof fn lemma_rows_stream_run_bound(c: Canvas, n: int)
    requires
        0 <= n,
    ensures
        run_bound(rows_stream(c, n), 70),
        rows_stream(c, n).len() == 0 || rows_stream(c, n)[rows_stream(c, n).len() - 1] == 10u8,
    decreases n,
{
    if n <= 0 {
        lemma_run_bound_by_len(rows_stream(c, n), 70);
    } else {
        lemma_rows_stream_run_bound(c, n - 1);
        let row = c.row(n - 1);
        let rt = row_tokens(row);
        lemma_row_tokens_run_bound(row, row.len() as int);
        let nl = seq![10u8];
        lemma_run_bound_by_len(nl, 70);
        lemma_run_bound_concat(rt, nl, 70);
        lemma_run_bound_concat(rows_stream(c, n - 1), rt + nl, 70);
        assert(rows_stream(c, n) =~= rows_stream(c, n - 1) + (rt + nl));
        assert(rows_stream(c, n)[rows_stream(c, n).len() - 1] == 10u8);
    }
}

/// Break-free runs of the header stay within 70 bytes: a dimension has at
/// most ten digits, and the header is newline-terminated.
proof fn lemma_ppm_header_run_bound(width: u32, height: u32)
    ensures
        run_bound(ppm_header(width, height), 70),
        ppm_header(width, height).len() > 0,
        ppm_header(width, height)[ppm_header(width, height).len() - 1] == 10u8,
{
    lemma_pow10_values();
    lemma_dec_bytes_len(width as nat, 10);
    lemma_dec_bytes_len(height as nat, 10);
    let h1 = seq![80u8, 51u8, 10u8];
    let dw = dec_bytes(width as nat);
    let dh = dec_bytes(height as nat);
    let sp = seq![32u8];
    let h4 = seq![10u8, 50u8, 53u8, 53u8, 10u8];
    lemma_run_bound_by_len(h1, 70);
    lemma_run_bound_by_len(dw, 70);
    lemma_run_bound_by_len(dh, 70);
    lemma_run_bound_by_len(sp, 70);
    lemma_run_bound_by_len(h4, 70);
    assert(h1[h1.len() - 1] == 10u8);
    lemma_run_bound_concat(h1, dw, 70);
    lemma_run_bound_concat(sp, dh, 70);
    assert((sp + dh)[0] == 32u8);
    lemma_run_bound_concat(h1 + dw, sp + dh, 70);
    assert(h4[0] == 10u8);
    lemma_run_bound_concat((h1 + dw) + (sp + dh), h4, 70);
    assert(ppm_header(width, height) =~= ((h1 + dw) + (sp + dh)) + h4);
    assert(ppm_header(width, height)[ppm_header(width, height).len() - 1] == 10u8);
}

/// No line of a PPM encoding outgrows 70 bytes, its terminating newline not
/// counted: the plain-text PPM convention, kept by the line writer because
/// the encoder's tokens are short and always separated by breakable bytes.
pub proof fn lemma_ppm_lines_bounded(c: Canvas)
    ensures
        lines_within(ppm_bytes(c), 70),
{
    let hdr = ppm_header(c.spec_width(), c.spec_height());
    let rows_text = rows_stream(c, c.spec_height() as int);
    lemma_ppm_header_run_bound(c.spec_width(), c.spec_height());
    lemma_rows_stream_run_bound(c, c.spec_height() as int);
    lemma_run_bound_concat(hdr, rows_text, 70);
    lemma_drain_output_lines(70nat, ppm_input(c));
}

/// The encoding holds exactly the bytes of the header and scanline texts:
/// re-wrapping only turns the space at each break into the newline that
/// ends the wrapped line, so unwrapping reproduces every row.
pub proof fn lemma_ppm_content(c: Canvas)
    ensures
        wraps_to(ppm_input(c), ppm_bytes(c)),
{
    lemma_drain_content(70nat, Seq::<u8>::empty(), ppm_input(c));
    assert(Seq::<u8>::empty() + ppm_input(c) =~= ppm_input(c));
}

/// In a `w` × `h` grid, the row-major index of an in-range coordinate lies
/// inside the grid.
proof fn lemma_grid_index(w: int, h: int, x: int, y: int)
    requires
        0 <= x < w,
        0 <= y < h,
    ensures
        0 <= y * w + x < w * h,
{
    assert(0 <= y * w + x < w * h) by (nonlinear_arith)
        requires
            0 <= x < w,
            0 <= y < h,
    ;
}

/// A whole row lies inside the grid.
proof fn lemma_row_in_grid(w: int, h: int, y: int)
    requires
        0 <= w,
        0 <= y < h,
    ensures
        0 <= y * w,
        y * w + w <= w * h,
{
    assert(0 <= y * w && y * w + w <= w * h) by (nonlinear_arith)
        requires
            0 <= w,
            0 <= y < h,
    ;
}

/// Distinct in-range coordinates address distinct pixels: writing one
/// pixel can never touch another.
pub proof fn lemma_pixel_index_injective(c: Canvas, x1: int, y1: int, x2: int, y2: int)
    requires
        0 <= x1 < c.spec_width(),
        0 <= y1 < c.spec_height(),
        0 <= x2 < c.spec_width(),
        0 <= y2 < c.spec_height(),
        (x1, y1) != (x2, y2),
    ensures
        c.pixel_index(x1, y1) != c.pixel_index(x2, y2),
{
    let w = c.spec_width() as int;
    assert(y1 * w + x1 != y2 * w + x2) by (nonlinear_arith)
        requires
            0 <= x1 < w,
            0 <= x2 < w,
            !(x1 == x2 && y1 == y2),
    ;
}

} // verus!
