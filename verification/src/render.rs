//! Pictures printed as character art: one ramp character per pixel, plain or
//! in 24-bit color.

use vstd::prelude::*;
use crate::raster::{Raster, ResizeFilter, gray_levels, grays, law_gray_of_own_pixel, pixel_color, resample_fits, resampled, resize_exact};
use crate::rua::text_chars;
use crate::screen::{esc_after, lemma_strip_concat, lemma_strip_plain, lemma_strip_reset, lemma_strip_sgr, push_reset, push_sgr, reset_seq, sgr, strip_escapes, strip_from};
use crate::table::{ascii_table, detail_table, simple_table, classic_ascii_table, classic_table, get_ascii_table, law_luma_pos_monotone, luma_pos, ramp_char};
use crate::text::push_char;

verus! {

/// The character art of the first `k` gray levels: one ramp character per
/// pixel, and a `\n` after every `width` pixels.
pub open spec fn ascii_text(lumas: Seq<u8>, table: Seq<char>, width: nat, k: nat) -> Seq<char>
    decreases k,
{
    if k == 0 {
        seq![]
    } else {
        ascii_text(lumas, table, width, (k - 1) as nat) + seq![table[luma_pos(lumas[k - 1], table.len()) as int]]
            + (if k % width == 0 { seq!['\n'] } else { seq![] })
    }
}

/// The colored art of `k` pixels from pixel `start`: each is the escape
/// sequence of its color followed by its ramp character.
pub open spec fn colored_cells(rgb: Seq<u8>, lumas: Seq<u8>, table: Seq<char>, start: nat, k: nat) -> Seq<char>
    decreases k,
{
    if k == 0 {
        seq![]
    } else {
        colored_cells(rgb, lumas, table, start, (k - 1) as nat) + sgr(pixel_color(rgb, start + k - 1)).push(
            table[luma_pos(lumas[start + k - 1], table.len()) as int])
    }
}

/// The colored art of the first `rows` rows, each ended by a color reset and `\n`.
pub open spec fn colored_rows(rgb: Seq<u8>, lumas: Seq<u8>, table: Seq<char>, width: nat, rows: nat) -> Seq<char>
    decreases rows,
{
    if rows == 0 {
        seq![]
    } else {
        colored_rows(rgb, lumas, table, width, (rows - 1) as nat) + colored_cells(rgb, lumas, table, ((rows - 1) * width) as nat, width)
            + reset_seq().push('\n')
    }
}

/// The ramp characters of `k` pixels from pixel `start`, without line breaks.
pub open spec fn plain_chars(lumas: Seq<u8>, table: Seq<char>, start: nat, k: nat) -> Seq<char>
    decreases k,
{
    if k == 0 {
        seq![]
    } else {
        plain_chars(lumas, table, start, (k - 1) as nat).push(table[luma_pos(lumas[start + k - 1], table.len()) as int])
    }
}

/// No character of the ramp is the escape character.
pub open spec fn ramp_without_escape(table: Seq<char>) -> bool {
    forall|i: int| 0 <= i < table.len() ==> #[trigger] table[i] != '\x1b'
}

/// Without its escape sequences a run of colored pixels is its ramp characters.
proof fn lemma_strip_colored_cells(rgb: Seq<u8>, lumas: Seq<u8>, table: Seq<char>, start: nat, k: nat)
    requires
        table.len() >= 1,
        ramp_without_escape(table),
    ensures
        strip_from(colored_cells(rgb, lumas, table, start, k), false) == plain_chars(lumas, table, start, k),
        !esc_after(colored_cells(rgb, lumas, table, start, k), false),
    decreases k,
{
    if k == 0 {
        lemma_strip_plain(Seq::<char>::empty());
    } else {
        let j = (k - 1) as nat;
        lemma_strip_colored_cells(rgb, lumas, table, start, j);
        let l = lumas[start + k - 1];
        law_luma_pos_monotone(l, l, table.len());
        let c = table[luma_pos(l, table.len()) as int];
        let one = seq![c];
        lemma_strip_plain(one);
        let col = pixel_color(rgb, start + k - 1);
        lemma_strip_sgr(col);
        let prev = colored_cells(rgb, lumas, table, start, j);
        assert(sgr(col).push(c) =~= sgr(col) + one);
        lemma_strip_concat(sgr(col), one, false);
        lemma_strip_concat(prev, sgr(col) + one, false);
        assert(Seq::<char>::empty() + one =~= one);
        assert(plain_chars(lumas, table, start, j) + one =~= plain_chars(lumas, table, start, k));
    }
}

/// The plain art of `q` whole rows and `j` more pixels of a row is the art of
/// the `q` rows followed by those pixels' characters, and a line break once the
/// row is complete.
proof fn lemma_ascii_row(lumas: Seq<u8>, table: Seq<char>, width: nat, q: nat, j: nat)
    requires
        width > 0,
        j <= width,
    ensures
        ascii_text(lumas, table, width, q * width + j) == ascii_text(lumas, table, width, q * width)
            + plain_chars(lumas, table, q * width, j) + (if j == width { seq!['\n'] } else { seq![] }),
    decreases j,
{
    if j == 0 {
        assert(ascii_text(lumas, table, width, q * width) + Seq::<char>::empty() + Seq::<char>::empty()
            =~= ascii_text(lumas, table, width, q * width));
    } else {
        let i = (j - 1) as nat;
        lemma_ascii_row(lumas, table, width, q, i);
        let n = q * width + j;
        vstd::arithmetic::div_mod::lemma_mod_multiples_vanish(q as int, j as int, width as int);
        assert(width * q == q * width) by (nonlinear_arith);
        if j < width {
            vstd::arithmetic::div_mod::lemma_small_mod(j, width);
        } else {
            vstd::arithmetic::div_mod::lemma_mod_self_0(width as int);
        }
        assert((n as int) % (width as int) == (j as int) % (width as int));
        let head = ascii_text(lumas, table, width, q * width);
        assert(ascii_text(lumas, table, width, q * width + i) =~= head + plain_chars(lumas, table, q * width, i));
        assert((n - 1) as nat == q * width + i);
        assert(plain_chars(lumas, table, q * width, j) == plain_chars(lumas, table, q * width, i).push(
            table[luma_pos(lumas[q * width + j - 1], table.len()) as int]));
        assert(ascii_text(lumas, table, width, n) =~= head + plain_chars(lumas, table, q * width, j)
            + (if j == width { seq!['\n'] } else { seq![] }));
    }
}

/// Color only adds escape sequences: with every escape sequence taken out, the
/// colored art of `rows` rows of `width` pixels is the plain art of the same
/// pixels (same characters, same line breaks), as long as no ramp character is
/// the escape character.
pub proof fn law_colorful_strips_to_plain(rgb: Seq<u8>, lumas: Seq<u8>, table: Seq<char>, width: nat, rows: nat)
    requires
        width > 0,
        table.len() >= 1,
        ramp_without_escape(table),
    ensures
        strip_escapes(colored_rows(rgb, lumas, table, width, rows)) == ascii_text(lumas, table, width, width * rows),
{
    lemma_strip_colored_rows(rgb, lumas, table, width, rows);
    assert(width * rows == rows * width) by (nonlinear_arith);
}

proof fn lemma_strip_colored_rows(rgb: Seq<u8>, lumas: Seq<u8>, table: Seq<char>, width: nat, rows: nat)
    requires
        width > 0,
        table.len() >= 1,
        ramp_without_escape(table),
    ensures
        strip_from(colored_rows(rgb, lumas, table, width, rows), false) == ascii_text(lumas, table, width, rows * width),
        !esc_after(colored_rows(rgb, lumas, table, width, rows), false),
    decreases rows,
{
    if rows == 0 {
        lemma_strip_plain(Seq::<char>::empty());
    } else {
        let q = (rows - 1) as nat;
        lemma_strip_colored_rows(rgb, lumas, table, width, q);
        let prev = colored_rows(rgb, lumas, table, width, q);
        let cells = colored_cells(rgb, lumas, table, q * width, width);
        let plain = plain_chars(lumas, table, q * width, width);
        let nl = seq!['\n'];
        let end = reset_seq() + nl;
        let tail = cells + end;
        assert(colored_rows(rgb, lumas, table, width, rows) =~= prev + tail);
        lemma_strip_reset();
        lemma_strip_plain(nl);
        lemma_strip_concat(reset_seq(), nl, false);
        assert(strip_from(end, false) =~= nl);
        assert(!esc_after(end, false));
        lemma_strip_colored_cells(rgb, lumas, table, q * width, width);
        lemma_strip_concat(cells, end, false);
        assert(strip_from(tail, false) == plain + nl);
        assert(!esc_after(tail, false));
        lemma_strip_concat(prev, tail, false);
        assert(strip_from(prev + tail, false) == ascii_text(lumas, table, width, q * width) + (plain + nl));
        lemma_ascii_row(lumas, table, width, q, width);
        assert(q * width + width == rows * width) by (nonlinear_arith)
            requires
                q == rows - 1,
        ;
        assert(ascii_text(lumas, table, width, rows * width) =~= ascii_text(lumas, table, width, q * width) + (plain
            + nl));
    }
}

/// The character art of the gray levels `lumas` on the ramp `table`, with a
/// line break after every `width` pixels.
fn luma_ascii(lumas: &Vec<u8>, table: &Vec<char>, width: u32, height: u32) -> (out: String)
    requires
        1 <= table@.len() <= 1000,
        lumas@.len() == width * height,
        width * height <= u32::MAX,
    ensures
        out@ == ascii_text(lumas@, table@, width as nat, lumas@.len()),
{
    let mut out = String::new();
    let mut i: usize = 0;
    while i < lumas.len()
        invariant
            1 <= table@.len() <= 1000,
            lumas@.len() == width * height,
            width * height <= u32::MAX,
            i <= lumas@.len(),
            out@ == ascii_text(lumas@, table@, width as nat, i as nat),
        decreases lumas@.len() - i,
    {
        let c = ramp_char(table, lumas[i]);
        push_char(&mut out, c);
        assert(width > 0) by (nonlinear_arith)
            requires
                i < width * height,
        ;
        if (i as u32 + 1) % width == 0 {
            push_char(&mut out, '\n');
        }
        i = i + 1;
        assert(out@ =~= ascii_text(lumas@, table@, width as nat, i as nat));
    }
    out
}

/// The character art of a picture at its own size: each pixel's character on
/// the ramp `table` (position counted in characters), a line break after every row.
pub fn picture_ascii(img: &Raster, table: &str) -> (out: String)
    requires
        img.wf(),
        img.width * img.height <= u32::MAX,
        1 <= table@.len() <= 1000,
    ensures
        out@ == ascii_text(grays(img.data@, (img.width * img.height) as nat), table@, img.width as nat,
            (img.width * img.height) as nat),
{
    let t = text_chars(table);
    let lumas = gray_levels(img);
    luma_ascii(&lumas, &t, img.width, img.height)
}

/// The colored character art of a picture at its own size: for each row, each
/// pixel's color escape and its character on the ramp `table`, then a color
/// reset and a line break.
pub fn picture_ascii_colorful(img: &Raster, table: &str) -> (out: String)
    requires
        img.wf(),
        img.width * img.height <= u32::MAX,
        1 <= table@.len() <= 1000,
    ensures
        out@ == colored_rows(img.data@, grays(img.data@, (img.width * img.height) as nat), table@, img.width as nat,
            img.height as nat),
{
    let table = text_chars(table);
    let lumas = gray_levels(img);
    let ghost rgb = img.data@;
    let dlen = img.data.len();
    let w = img.width;
    let h = img.height;
    let mut out = String::new();
    let mut y: u32 = 0;
    while y < h
        invariant
            y <= h,
            w == img.width,
            h == img.height,
            w * h <= u32::MAX,
            img.wf(),
            rgb == img.data@,
            dlen == rgb.len(),
            lumas@ == grays(rgb, (w * h) as nat),
            1 <= table@.len() <= 1000,
            out@ == colored_rows(rgb, lumas@, table@, w as nat, y as nat),
        decreases h - y,
    {
        let ghost base = out@;
        assert(y * w + w <= w * h) by (nonlinear_arith)
            requires
                y < h,
        ;
        let row_start = y * w;
        let mut x: u32 = 0;
        while x < w
            invariant
                x <= w,
                row_start == y * w,
                row_start + w <= w * h,
                w * h <= u32::MAX,
                img.wf(),
                w == img.width,
                h == img.height,
                rgb == img.data@,
                dlen == rgb.len(),
                lumas@ == grays(rgb, (w * h) as nat),
                1 <= table@.len() <= 1000,
                out@ == base + colored_cells(rgb, lumas@, table@, row_start as nat, x as nat),
            decreases w - x,
        {
            let i = (row_start + x) as usize;
            assert(3 * i + 2 < 3 * w * h) by (nonlinear_arith)
                requires
                    i < w * h,
            ;
            let c = ramp_char(&table, lumas[i]);
            let b = 3 * i;
            let color = (img.data[b], img.data[b + 1], img.data[b + 2]);
            push_sgr(&mut out, color);
            push_char(&mut out, c);
            x = x + 1;
            assert(out@ =~= base + colored_cells(rgb, lumas@, table@, row_start as nat, x as nat));
        }
        push_reset(&mut out);
        push_char(&mut out, '\n');
        y = y + 1;
        assert(out@ =~= colored_rows(rgb, lumas@, table@, w as nat, y as nat));
    }
    out
}

/// The gray art that the stand-alone printer makes of a picture: the picture
/// resampled to `width` by `out_height` pixels (nearest pixel), each pixel its
/// character on the printer's ramp (see [`classic_table`]), a line break after
/// every row.
pub fn ascii_art(img: &Raster, width: u32, out_height: u32, detail: bool) -> (out: String)
    requires
        img.wf(),
        width * out_height <= u32::MAX,
        resample_fits(img, width, out_height),
    ensures
        out@ == ascii_text(grays(resampled(img.width, img.height, img.data@, width, out_height, ResizeFilter::Nearest),
            (width * out_height) as nat), classic_table(detail), width as nat, (width * out_height) as nat),
        width == img.width && out_height == img.height ==> out@ == ascii_text(grays(img.data@, (width * out_height) as nat),
            classic_table(detail), width as nat, (width * out_height) as nat),
{
    let resized = resize_exact(img, width, out_height, ResizeFilter::Nearest);
    picture_ascii(&resized, classic_ascii_table(detail))
}

/// Something that prints as character art at a given output height.
pub trait Renderable {
    /// Whether the art can be made at output height `out_height`.
    spec fn renders(&self, out_height: u32) -> bool;

    /// The art in plain characters.
    fn to_ascii(&self, out_height: u32) -> String
        requires
            self.renders(out_height),
    ;

    /// The art with each character in its pixel's color.
    fn to_ascii_colorful(&self, out_height: u32) -> String
        requires
            self.renders(out_height),
    ;
}

/// A picture with its output width, ramp choice and color choice.
pub struct RuaImage {
    pub image: Raster,
    pub width: u32,
    pub detail: bool,
    pub color: bool,
}

impl RuaImage {
    /// The character ramp: the long one when `detail` is set, the short one otherwise.
    pub fn get_ascii_table(detail: bool) -> (t: &'static str)
        ensures
            t@ == ascii_table(detail),
    {
        get_ascii_table(detail)
    }

    /// The picture resampled (linear interpolation) to the output size.
    pub open spec fn resized(&self, out_height: u32) -> Seq<u8> {
        resampled(self.image.width, self.image.height, self.image.data@, self.width, out_height, ResizeFilter::Triangle)
    }

    /// The number of output pixels.
    pub open spec fn out_pixels(&self, out_height: u32) -> nat {
        (self.width * out_height) as nat
    }
}

impl Renderable for RuaImage {
    open spec fn renders(&self, out_height: u32) -> bool {
        &&& self.image.wf()
        &&& self.width * out_height <= u32::MAX
        &&& resample_fits(&self.image, self.width, out_height)
    }

    /// One ramp character per output pixel, a line break after every row.
    fn to_ascii(&self, out_height: u32) -> (out: String)
        ensures
            out@ == ascii_text(grays(self.resized(out_height), self.out_pixels(out_height)), ascii_table(self.detail),
                self.width as nat, self.out_pixels(out_height)),
            self.width == self.image.width && out_height == self.image.height ==> out@ == ascii_text(
                grays(self.image.data@, self.out_pixels(out_height)), ascii_table(self.detail), self.width as nat,
                self.out_pixels(out_height)),
    {
        let resized = resize_exact(&self.image, self.width, out_height, ResizeFilter::Triangle);
        picture_ascii(&resized, get_ascii_table(self.detail))
    }

    /// For each row, each pixel's color escape and ramp character, then a color
    /// reset and a line break.
    fn to_ascii_colorful(&self, out_height: u32) -> (out: String)
        ensures
            out@ == colored_rows(self.resized(out_height), grays(self.resized(out_height), self.out_pixels(out_height)),
                ascii_table(self.detail), self.width as nat, out_height as nat),
            self.width == self.image.width && out_height == self.image.height ==> out@ == colored_rows(
                self.image.data@, grays(self.image.data@, self.out_pixels(out_height)), ascii_table(self.detail),
                self.width as nat, out_height as nat),
    {
        let resized = resize_exact(&self.image, self.width, out_height, ResizeFilter::Triangle);
        picture_ascii_colorful(&resized, get_ascii_table(self.detail))
    }
}

/// Color only adds escape sequences to a picture's art: with every escape
/// sequence taken out, the colored art at output height `out_height` is the
/// plain art at that height, for any output width above zero.
pub proof fn law_rua_image_color_strips(r: RuaImage, out_height: u32)
    requires
        r.width > 0,
    ensures
        strip_escapes(colored_rows(r.resized(out_height), grays(r.resized(out_height), r.out_pixels(out_height)),
            ascii_table(r.detail), r.width as nat, out_height as nat)) == ascii_text(grays(r.resized(out_height),
            r.out_pixels(out_height)), ascii_table(r.detail), r.width as nat, r.out_pixels(out_height)),
{
    lemma_ramps_without_escape();
    law_colorful_strips_to_plain(r.resized(out_height), grays(r.resized(out_height), r.out_pixels(out_height)),
        ascii_table(r.detail), r.width as nat, out_height as nat);
}

/// Neither ramp holds the escape character.
proof fn lemma_ramps_without_escape()
    ensures
        ramp_without_escape(simple_table()),
        ramp_without_escape(detail_table()),
{
    assert(ramp_without_escape(simple_table()));
    assert(ramp_without_escape(detail_table()));
}

proof fn lemma_plain_chars_at(lumas: Seq<u8>, table: Seq<char>, start: nat, k: nat, j: int)
    requires
        0 <= j < k,
    ensures
        plain_chars(lumas, table, start, k).len() == k,
        plain_chars(lumas, table, start, k)[j] == table[luma_pos(lumas[start + j], table.len()) as int],
    decreases k,
{
    lemma_plain_chars_len(lumas, table, start, (k - 1) as nat);
    if j < k - 1 {
        lemma_plain_chars_at(lumas, table, start, (k - 1) as nat, j);
    }
}

proof fn lemma_plain_chars_len(lumas: Seq<u8>, table: Seq<char>, start: nat, k: nat)
    ensures
        plain_chars(lumas, table, start, k).len() == k,
    decreases k,
{
    if k > 0 {
        lemma_plain_chars_len(lumas, table, start, (k - 1) as nat);
    }
}

/// The art of `q` whole rows has `width + 1` characters per row; position `x`
/// of row `y` is the ramp character of pixel `y * width + x`, and position
/// `width` is the line break.
proof fn lemma_ascii_at(lumas: Seq<u8>, table: Seq<char>, width: nat, q: nat, y: nat, x: nat)
    requires
        width > 0,
        y < q,
        x <= width,
    ensures
        ascii_text(lumas, table, width, q * width).len() == q * (width + 1),
        ascii_text(lumas, table, width, q * width)[(y * (width + 1) + x) as int] == (if x < width {
            table[luma_pos(lumas[(y * width + x) as int], table.len()) as int]
        } else {
            '\n'
        }),
    decreases q,
{
    let p = (q - 1) as nat;
    let head = ascii_text(lumas, table, width, p * width);
    lemma_ascii_row(lumas, table, width, p, width);
    lemma_plain_chars_len(lumas, table, p * width, width);
    assert(p * width + width == q * width) by (nonlinear_arith)
        requires
            p == q - 1,
    ;
    assert(p * (width + 1) + width + 1 == q * (width + 1)) by (nonlinear_arith)
        requires
            p == q - 1,
    ;
    if p > 0 {
        lemma_ascii_at(lumas, table, width, p, 0, 0);
    } else {
        assert(p * width == 0 && p * (width + 1) == 0) by (nonlinear_arith)
            requires
                p == 0,
        ;
        assert(head.len() == 0);
    }
    assert(head.len() == p * (width + 1));
    let plain = plain_chars(lumas, table, p * width, width);
    let whole = head + plain + seq!['\n'];
    assert(ascii_text(lumas, table, width, q * width) == whole);
    if y < p {
        lemma_ascii_at(lumas, table, width, p, y, x);
        assert(y * (width + 1) + x < p * (width + 1)) by (nonlinear_arith)
            requires
                y < p,
                x <= width,
        ;
    } else {
        assert(y * (width + 1) + x == head.len() + x);
        assert(y * width + x == p * width + x);
        if x < width {
            lemma_plain_chars_at(lumas, table, p * width, width, x as int);
        }
    }
}

/// The plain art of a picture of `width` by `height` pixels is `height` lines of
/// `width` characters, each followed by a line break; the character of pixel
/// `(x, y)` is the ramp character at position `luma * (ramp length - 1) / 255`
/// (rounded down), where `luma` is the BT.709 gray level
/// `(2126 r + 7152 g + 722 b) / 10000` of that pixel's own samples.
pub proof fn law_art_of_pixels(rgb: Seq<u8>, table: Seq<char>, width: nat, height: nat, y: nat, x: nat)
    requires
        width > 0,
        table.len() >= 1,
        y < height,
        x < width,
    ensures
        ascii_text(grays(rgb, width * height), table, width, width * height).len() == height * (width + 1),
        ascii_text(grays(rgb, width * height), table, width, width * height)[(y * (width + 1) + width) as int] == '\n',
        ascii_text(grays(rgb, width * height), table, width, width * height)[(y * (width + 1) + x) as int] == table[(((2126
            * rgb[3 * (y * width + x) as int] + 7152 * rgb[3 * (y * width + x) as int + 1] + 722 * rgb[3 * (y * width
            + x) as int + 2]) / 10000) * (table.len() - 1)) / 255],
{
    let lumas = grays(rgb, width * height);
    assert(width * height == height * width) by (nonlinear_arith);
    lemma_ascii_at(lumas, table, width, height, y, x);
    lemma_ascii_at(lumas, table, width, height, y, width);
    assert(y * width + x < width * height) by (nonlinear_arith)
        requires
            y < height,
            x < width,
    ;
    law_gray_of_own_pixel(rgb, width * height, (y * width + x) as int);
}

} // verus!
