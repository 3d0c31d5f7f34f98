//! Multi-frame character sprites: frames of optional colored characters, a
//! frame cursor, and the editing operations on the frame sequence.

use vstd::prelude::*;
use crate::screen::{cell_char, cells_end_color, cells_text, lemma_end_color, lemma_strip_plain, lemma_strip_rows, push_reset, push_sgr, row_of, row_text, rows_text, sgr, strip_escapes};
use crate::render::{ascii_text, law_art_of_pixels};
use crate::raster::{Raster, ResizeFilter, gray_levels, grays, law_gray_of_own_pixel, pixel_color, resample_fits, resampled, resize_exact};
use crate::table::{get_ascii_table, luma_pos, ramp_char, simple_table};
use crate::text::{push_char, push_dec, dec, split_whitespace, tokens, views};
use crate::rua::{RuaError, apply_body, apply_line, apply_record, body_of, find_nl, first_nl, header_of_chars, parse_header, cells_lines, frames_lines, header_text, lemma_join3, push_record_line, rua_text, parse_record_exec, parse_rua, text_chars};

verus! {

/// One character cell: a character and its 24-bit color.
#[derive(Clone, Copy, Debug, PartialEq, Eq)]
pub struct Pixel {
    pub ch: char,
    pub color: (u8, u8, u8),
}

/// One frame: the cells of the sprite row by row; `None` is an empty cell.
#[derive(Clone, Debug, PartialEq)]
pub struct Frame {
    pub data: Vec<Option<Pixel>>,
}

/// A character sprite animation: `frame_num` frames of `width * height` cells,
/// a current frame, a playback rate (the bits of an IEEE-754 double, in frames
/// per second) and whether it is shown in color.
#[derive(Debug, PartialEq)]
pub struct Sprite {
    width: u32,
    height: u32,
    frame_num: u32,
    current_frame: u32,
    frames: Vec<Frame>,
    fps: Fps,
    colorful: bool,
}

/// A playback rate in frames per second, held as the bits of an IEEE-754 double.
#[derive(Clone, Copy, Debug)]
pub struct Fps {
    pub bits: u64,
}

/// The bits of a double that is not a number.
pub open spec fn is_nan_bits(b: u64) -> bool {
    b as int % 0x8000_0000_0000_0000 > 0x7ff0_0000_0000_0000
}

/// Two doubles, given by their bits, are equal as numbers: neither is not a
/// number, and they have the same bits or are both zero (of either sign).
pub open spec fn double_bits_eq(a: u64, b: u64) -> bool {
    &&& !is_nan_bits(a)
    &&& !is_nan_bits(b)
    &&& (a == b || (a as int % 0x8000_0000_0000_0000 == 0 && b as int % 0x8000_0000_0000_0000 == 0))
}

impl PartialEq for Fps {
    fn eq(&self, other: &Self) -> (r: bool) {
        let a = self.bits % 0x8000_0000_0000_0000;
        let b = other.bits % 0x8000_0000_0000_0000;
        a <= 0x7ff0_0000_0000_0000 && b <= 0x7ff0_0000_0000_0000 && (self.bits == other.bits || (a == 0 && b == 0))
    }
}

impl vstd::std_specs::cmp::PartialEqSpecImpl for Fps {
    open spec fn obeys_eq_spec() -> bool {
        true
    }

    open spec fn eq_spec(&self, other: &Fps) -> bool {
        double_bits_eq(self.bits, other.bits)
    }
}

/// The mathematical content of a [`Sprite`].
pub struct SpriteView {
    pub width: u32,
    pub height: u32,
    pub frame_num: u32,
    pub current_frame: u32,
    pub frames: Seq<Seq<Option<Pixel>>>,
    pub fps_bits: u64,
    pub colorful: bool,
}

/// The terminal text of frame `frame_idx` (counted from 1) of the sprite, row by
/// row; empty when there is no such frame.
pub open spec fn frame_text(v: SpriteView, frame_idx: u32) -> Seq<char> {
    if frame_idx == 0 || frame_idx > v.frame_num {
        seq![]
    } else {
        rows_text(v.frames[frame_idx - 1], v.width as nat, v.colorful, v.height as nat)
    }
}

proof fn lemma_row_bounds(y: nat, w: nat, h: nat)
    requires
        y < h,
    ensures
        y * w + w <= w * h,
{
    assert(y * w + w <= w * h) by (nonlinear_arith)
        requires
            y < h,
    ;
}

/// The cells of a picture with RGB samples `rgb` and `n` pixels: every cell is
/// filled, with the pixel's character on the short ramp and the pixel's color.
pub open spec fn picture_cells(rgb: Seq<u8>, n: nat) -> Seq<Option<Pixel>> {
    Seq::new(n, |i: int| picture_cell(rgb, n, i))
}

/// The cell of pixel `i` (see [`picture_cells`]).
pub open spec fn picture_cell(rgb: Seq<u8>, n: nat, i: int) -> Option<Pixel> {
    Some(Pixel { ch: simple_table()[luma_pos(grays(rgb, n)[i], 9) as int], color: pixel_color(rgb, i) })
}

/// The cell sequences of a sequence of frames.
pub open spec fn frame_views(v: Seq<Frame>) -> Seq<Seq<Option<Pixel>>> {
    v.map_values(|f: Frame| f.data@)
}

/// A frame of `n` empty cells.
pub open spec fn blank(n: nat) -> Seq<Option<Pixel>> {
    Seq::new(n, |i: int| None::<Pixel>)
}

impl SpriteView {
    /// The number of cells of every frame.
    pub open spec fn area(self) -> nat {
        (self.width * self.height) as nat
    }

    /// The frame count matches the frames, every frame has `width * height`
    /// cells, that area fits in a `u32`, and the current frame is a frame (or 0
    /// when there is none).
    pub open spec fn valid(self) -> bool {
        &&& self.frames.len() == self.frame_num
        &&& self.width * self.height <= u32::MAX
        &&& forall|i: int| 0 <= i < self.frames.len() ==> #[trigger] self.frames[i].len() == self.area()
        &&& (self.current_frame < self.frame_num || self.current_frame == 0)
    }

    /// The sprite after moving to the next frame, wrapping around after the last.
    pub open spec fn after_next(self) -> SpriteView {
        if self.frame_num > 0 {
            SpriteView { current_frame: ((self.current_frame + 1) % (self.frame_num as int)) as u32, ..self }
        } else {
            self
        }
    }

    /// The sprite after `data` is added as the last frame.
    pub open spec fn after_push(self, data: Seq<Option<Pixel>>) -> SpriteView {
        SpriteView { frames: self.frames.push(data), frame_num: (self.frame_num + 1) as u32, ..self }
    }

    /// The sprite after `data` is put in at position `pos`, the frames from `pos` on moving up one.
    pub open spec fn after_insert_at(self, data: Seq<Option<Pixel>>, pos: int) -> SpriteView {
        SpriteView {
            frames: self.frames.insert(pos, data),
            frame_num: (self.frame_num + 1) as u32,
            ..self
        }
    }

    /// The sprite after the frame at `pos` is taken out; a current frame past the
    /// new last frame moves to the new last frame.
    pub open spec fn after_remove_at(self, pos: int) -> SpriteView {
        let n = (self.frame_num - 1) as u32;
        SpriteView {
            frames: self.frames.remove(pos),
            frame_num: n,
            current_frame: if self.current_frame >= n && n > 0 { (n - 1) as u32 } else { self.current_frame },
            ..self
        }
    }
}

impl View for Sprite {
    type V = SpriteView;

    closed spec fn view(&self) -> SpriteView {
        SpriteView {
            width: self.width,
            height: self.height,
            frame_num: self.frame_num,
            current_frame: self.current_frame,
            frames: frame_views(self.frames@),
            fps_bits: self.fps.bits,
            colorful: self.colorful,
        }
    }
}

/// A frame of `n` empty cells.
pub(crate) fn blank_frame(n: usize) -> (f: Frame)
    ensures
        f.data@ == blank(n as nat),
{
    let mut data: Vec<Option<Pixel>> = Vec::new();
    let mut i: usize = 0;
    while i < n
        invariant
            i <= n,
            data@ == blank(i as nat),
        decreases n - i,
    {
        data.push(None);
        i = i + 1;
        assert(data@ =~= blank(i as nat));
    }
    Frame { data }
}

/// `count` empty frames of `area` cells each.
pub(crate) fn blank_frames(area: usize, count: u32) -> (v: Vec<Frame>)
    ensures
        frame_views(v@) == Seq::new(count as nat, |i: int| blank(area as nat)),
{
    let mut v: Vec<Frame> = Vec::new();
    let mut k: u32 = 0;
    while k < count
        invariant
            k <= count,
            frame_views(v@) == Seq::new(k as nat, |i: int| blank(area as nat)),
        decreases count - k,
    {
        let f = blank_frame(area);
        let ghost prev = v@;
        let ghost fd = f.data@;
        v.push(f);
        assert(v@ == prev.push(f));
        assert(frame_views(prev).len() == prev.len());
        assert(prev.len() == k);
        assert(frame_views(prev) =~= Seq::new(k as nat, |i: int| blank(area as nat)));
        assert forall|j: int| 0 <= j < k + 1 implies #[trigger] frame_views(v@)[j]
            == blank(area as nat) by {
            assert(frame_views(v@)[j] == v@[j].data@);
            if j < k {
                assert(v@[j] == prev[j]);
                assert(frame_views(prev)[j] == prev[j].data@);
            } else {
                assert(v@[j].data@ == fd);
            }
        }
        k = k + 1;
        assert(frame_views(v@) =~= Seq::new(k as nat, |i: int| blank(area as nat)));
    }
    v
}

impl Sprite {
    /// The sprite's invariant (see [`SpriteView::valid`]).
    pub open spec fn wf(&self) -> bool {
        self@.valid()
    }

    /// A sprite of `frame_num` empty frames of `width * height` cells, at the first frame.
    pub fn new(width: u32, height: u32, frame_num: u32, fps_bits: u64, colorful: bool) -> (s: Self)
        requires
            width * height <= u32::MAX,
        ensures
            s.wf(),
            s@ == (SpriteView {
                width,
                height,
                frame_num,
                current_frame: 0,
                frames: Seq::new(frame_num as nat, |i: int| blank((width * height) as nat)),
                fps_bits,
                colorful,
            }),
    {
        let frames = blank_frames((width * height) as usize, frame_num);
        let s = Sprite { width, height, frame_num, current_frame: 0, frames, fps: Fps { bits: fps_bits }, colorful };
        assert(s@.frames =~= Seq::new(frame_num as nat, |i: int| blank((width * height) as nat)));
        s
    }

    /// The current frame, or `None` when the sprite has no frames.
    pub fn get_current_frame(&self) -> (r: Option<&Frame>)
        requires
            self.wf(),
        ensures
            match r {
                Some(f) => self@.current_frame < self@.frame_num && f.data@
                    == self@.frames[self@.current_frame as int],
                None => self@.frame_num == 0,
            },
    {
        if (self.current_frame as usize) < self.frames.len() {
            Some(&self.frames[self.current_frame as usize])
        } else {
            None
        }
    }

    /// Moves to the next frame, after the last frame back to the first.
    pub fn next(&mut self)
        requires
            old(self).wf(),
        ensures
            final(self).wf(),
            final(self)@ == old(self)@.after_next(),
    {
        if self.frame_num > 0 {
            self.current_frame = (self.current_frame + 1) % self.frame_num;
        }
        assert(self@.frames =~= old(self)@.after_next().frames);
    }

    /// Adds `frame` as the last frame when it has `width * height` cells, and
    /// tells whether it did; otherwise the sprite is unchanged. The frame count
    /// must have room to grow when the frame fits.
    pub fn insert_frame(&mut self, frame: Frame) -> (ok: bool)
        requires
            old(self).wf(),
            frame.data@.len() == old(self)@.area() ==> old(self)@.frame_num < u32::MAX,
        ensures
            final(self).wf(),
            ok == (frame.data@.len() == old(self)@.area()),
            ok ==> final(self)@ == old(self)@.after_push(frame.data@),
            !ok ==> final(self)@ == old(self)@,
    {
        if frame.data.len() != (self.width * self.height) as usize {
            return false;
        }
        let ghost d = frame.data@;
        self.frames.push(frame);
        self.frame_num = self.frame_num + 1;
        assert(self@.frames =~= old(self)@.frames.push(d));
        true
    }

    /// Puts `frame` in at position `pos` (0 to the frame count) when it has
    /// `width * height` cells, and tells whether it did; otherwise the sprite is
    /// unchanged. The current frame index stays as it is.
    pub fn insert_frame_at(&mut self, frame: Frame, pos: u32) -> (ok: bool)
        requires
            old(self).wf(),
            frame.data@.len() == old(self)@.area() && pos <= old(self)@.frame_num ==> old(
                self,
            )@.frame_num < u32::MAX,
        ensures
            final(self).wf(),
            ok == (frame.data@.len() == old(self)@.area() && pos <= old(self)@.frame_num),
            ok ==> final(self)@ == old(self)@.after_insert_at(frame.data@, pos as int),
            !ok ==> final(self)@ == old(self)@,
    {
        if frame.data.len() != (self.width * self.height) as usize || pos > self.frame_num {
            return false;
        }
        let ghost d = frame.data@;
        self.frames.insert(pos as usize, frame);
        self.frame_num = self.frame_num + 1;
        assert(self@.frames =~= old(self)@.frames.insert(pos as int, d));
        true
    }

    /// Takes out the frame at `pos` and returns it, or `None` (sprite unchanged)
    /// when there is no such frame.
    pub fn remove_frame_at(&mut self, pos: u32) -> (r: Option<Frame>)
        requires
            old(self).wf(),
        ensures
            final(self).wf(),
            r is Some == (pos < old(self)@.frame_num),
            r matches Some(f) ==> f.data@ == old(self)@.frames[pos as int] && final(self)@ == old(
                self,
            )@.after_remove_at(pos as int),
            r is None ==> final(self)@ == old(self)@,
    {
        if pos >= self.frame_num || self.frame_num == 0 {
            return None;
        }
        let removed = self.frames.remove(pos as usize);
        self.frame_num = self.frame_num - 1;
        if self.current_frame >= self.frame_num && self.frame_num > 0 {
            self.current_frame = self.frame_num - 1;
        }
        assert(self@.frames =~= old(self)@.frames.remove(pos as int));
        assert forall|i: int| 0 <= i < self@.frames.len() implies #[trigger] self@.frames[i].len()
            == self@.area() by {
            if i < pos {
                assert(self@.frames[i] == old(self)@.frames[i]);
            } else {
                assert(self@.frames[i] == old(self)@.frames[i + 1]);
            }
        }
        Some(removed)
    }

    /// Takes out the last frame; tells whether there was one.
    pub fn remove_frame(&mut self) -> (ok: bool)
        requires
            old(self).wf(),
        ensures
            final(self).wf(),
            ok == (old(self)@.frame_num > 0),
            ok ==> final(self)@ == old(self)@.after_remove_at(old(self)@.frame_num - 1),
            !ok ==> final(self)@ == old(self)@,
    {
        if self.frame_num == 0 {
            return false;
        }
        let last = self.frame_num - 1;
        self.remove_frame_at(last).is_some()
    }

    /// A one-frame color sprite of a picture at its own size: each pixel a cell
    /// with its character on the short ramp and its color.
    pub fn from_resized_img(img: &Raster, fps_bits: u64) -> (s: Self)
        requires
            img.wf(),
            img.width * img.height <= u32::MAX,
        ensures
            s.wf(),
            s@ == (SpriteView {
                width: img.width,
                height: img.height,
                frame_num: 1,
                current_frame: 0,
                frames: seq![picture_cells(img.data@, (img.width * img.height) as nat)],
                fps_bits,
                colorful: true,
            }),
    {
        let table = text_chars(get_ascii_table(false));
        let lumas = gray_levels(img);
        let ghost rgb = img.data@;
        let ghost n = (img.width * img.height) as nat;
        let count = lumas.len();
        let dlen = img.data.len();
        let mut data: Vec<Option<Pixel>> = Vec::new();
        let mut i: usize = 0;
        assert(rgb.len() == 3 * n) by (nonlinear_arith)
            requires
                rgb.len() == 3 * img.width * img.height,
                n == img.width * img.height,
        ;
        while i < count
            invariant
                count == n,
                lumas@ == grays(rgb, n),
                rgb == img.data@,
                dlen == rgb.len(),
                rgb.len() == 3 * n,
                table@ == simple_table(),
                i <= count,
                data@ =~= picture_cells(rgb, n).take(i as int),
            decreases count - i,
        {
            let c = ramp_char(&table, lumas[i]);
            let b = 3 * i;
            let p = Pixel { ch: c, color: (img.data[b], img.data[b + 1], img.data[b + 2]) };
            data.push(Some(p));
            i = i + 1;
            assert(data@ =~= picture_cells(rgb, n).take(i as int));
        }
        assert(data@ =~= picture_cells(rgb, n));
        let frame = Frame { data };
        let mut frames: Vec<Frame> = Vec::new();
        frames.push(frame);
        let s = Sprite {
            width: img.width,
            height: img.height,
            frame_num: 1,
            current_frame: 0,
            frames,
            fps: Fps { bits: fps_bits },
            colorful: true,
        };
        assert(s@.frames =~= seq![picture_cells(rgb, n)]);
        assert(s@.frames[0].len() == s@.area());
        s
    }

    /// A one-frame color sprite of a picture: the picture resampled (linear
    /// interpolation) to `width` by `out_height` pixels, each pixel a cell with
    /// its character on the short ramp and its color. At the picture's own size
    /// the cells are those of the picture itself.
    pub fn from_img(img: &Raster, width: u32, out_height: u32, fps_bits: u64) -> (s: Self)
        requires
            img.wf(),
            width * out_height <= u32::MAX,
            resample_fits(img, width, out_height),
        ensures
            s.wf(),
            s@ == (SpriteView {
                width,
                height: out_height,
                frame_num: 1,
                current_frame: 0,
                frames: seq![picture_cells(resampled(img.width, img.height, img.data@, width, out_height, ResizeFilter::Triangle), (width * out_height) as nat)],
                fps_bits,
                colorful: true,
            }),
            width == img.width && out_height == img.height ==> s@.frames == seq![picture_cells(img.data@, (width * out_height) as nat)],
    {
        let resized = resize_exact(img, width, out_height, ResizeFilter::Triangle);
        Self::from_resized_img(&resized, fps_bits)
    }

    /// Reads a sprite from the text of a `rua` file (see [`crate::rua`]), at its
    /// first frame, with the given playback rate and color mode. Any text is
    /// accepted: what does not describe a sprite is an error.
    pub fn from_rua(text: &str, fps_bits: u64, colorful: bool) -> (r: Result<Self, RuaError>)
        ensures
            match r {
                Ok(sp) => sp.wf() && parse_rua(text@, fps_bits, colorful) == Ok::<SpriteView, RuaError>(sp@),
                Err(e) => parse_rua(text@, fps_bits, colorful) == Err::<SpriteView, RuaError>(e),
            },
    {
        let s = text_chars(text);
        let e0 = find_nl(&s, 0);
        assert(s@.skip(0) =~= s@);
        let (w, h, n) = header_of_chars(&s, e0)?;
        let area = match w.checked_mul(h) {
            Some(a) => a,
            None => return Err(RuaError::AreaTooLarge),
        };
        let mut frames = blank_frames(area as usize, n);
        let ghost init = frame_views(frames@);
        assert(init.len() == frames@.len());
        assert forall|k: int| 0 <= k < n implies #[trigger] frames@[k].data@.len() == area by {
            assert(init[k] == frames@[k].data@);
        }
        assert(init == Seq::new(n as nat, |i: int| blank((w * h) as nat)));
        let ghost target = apply_body(body_of(s@), w, h, n, init);
        if e0 < s.len() {
            let mut i = e0 + 1;
            assert(s@.skip(i as int) =~= body_of(s@));
            loop
                invariant_except_break
                    i <= s@.len(),
                    apply_body(s@.skip(i as int), w, h, n, frame_views(frames@)) == target,
                invariant
                    s@ == text@,
                    parse_header(s@) == Ok::<(u32, u32, u32), RuaError>((w, h, n)),
                    target == apply_body(body_of(s@), w, h, n, Seq::new(n as nat, |i: int| blank((w * h) as nat))),
                    area == w * h,
                    frames@.len() == n,
                    forall|k: int| 0 <= k < n ==> #[trigger] frames@[k].data@.len() == area,
                ensures
                    target == Ok::<Seq<Seq<Option<Pixel>>>, RuaError>(frame_views(frames@)),
                decreases s@.len() - i,
            {
                let e = find_nl(&s, i);
                let ghost rest = s@.skip(i as int);
                let ghost before = frame_views(frames@);
                assert(rest.take(e - i) =~= s@.subrange(i as int, e as int));
                let t = split_whitespace(&s, i, e);
                assert(first_nl(rest) == e - i);
                if t.len() >= 7 {
                    let rec = match parse_record_exec(&t) {
                        Ok(rec) => rec,
                        Err(err) => {
                            assert(apply_line(rest.take(first_nl(rest) as int), w, h, n, before) == Err::<Seq<Seq<Option<Pixel>>>, RuaError>(err));
                            assert(target == Err::<Seq<Seq<Option<Pixel>>>, RuaError>(err));
                            return Err(err);
                        },
                    };
                    if rec.frame < n && rec.x < w && rec.y < h {
                        proof { lemma_row_bounds(rec.y as nat, w as nat, h as nat); }
                        let idx = (rec.y * w + rec.x) as usize;
                        let fi = rec.frame as usize;
                        frames[fi].data.set(idx, Some(rec.pixel));
                    }
                    assert(frame_views(frames@) =~= apply_record(before, w, h, n, rec));
                } else {
                    assert(frame_views(frames@) =~= before);
                }
                assert(apply_line(rest.take(first_nl(rest) as int), w, h, n, before) == Ok::<Seq<Seq<Option<Pixel>>>, RuaError>(frame_views(frames@)));
                if e == s.len() {
                    break;
                }
                assert(rest.skip(first_nl(rest) + 1int) =~= s@.skip(e + 1));
                i = e + 1;
            }
        } else {
            assert(body_of(s@) =~= seq![]);
            assert(body_of(s@).take(0) =~= seq![]);
        }
        let sp = Sprite { width: w, height: h, frame_num: n, current_frame: 0, frames, fps: Fps { bits: fps_bits }, colorful };
        Ok(sp)
    }

    /// The `rua` text of the sprite (see [`crate::rua`]): the header line, then
    /// one line per filled cell, frame by frame and cell by cell.
    pub fn output_rua(&self) -> (out: String)
        requires
            self.wf(),
        ensures
            out@ == rua_text(self@),
    {
        let w = self.width;
        let mut out = String::new();
        push_dec(&mut out, self.width as u64);
        push_char(&mut out, ' ');
        push_dec(&mut out, self.height as u64);
        push_char(&mut out, ' ');
        push_dec(&mut out, self.frame_num as u64);
        push_char(&mut out, '\n');
        proof {
            lemma_join3(dec(w as nat), dec(self.height as nat), dec(self.frame_num as nat));
            assert(out@ =~= header_text(self@) + frames_lines(self@.frames, w as nat, 0));
        }
        let mut fi: usize = 0;
        while fi < self.frames.len()
            invariant
                fi <= self.frames@.len(),
                self.wf(),
                w == self@.width,
                out@ == header_text(self@) + frames_lines(self@.frames, w as nat, fi as nat),
            decreases self.frames@.len() - fi,
        {
            let frame = &self.frames[fi];
            let ghost data = frame.data@;
            assert(data == self@.frames[fi as int]);
            let ghost base = out@;
            let mut k: usize = 0;
            while k < frame.data.len()
                invariant
                    k <= data.len(),
                    frame.data@ == data,
                    data.len() == w * self@.height,
                    out@ == base + cells_lines(fi as nat, data, w as nat, k as nat),
                decreases data.len() - k,
            {
                match &frame.data[k] {
                    Some(p) => {
                        assert(w > 0) by (nonlinear_arith)
                            requires
                                k < w * self@.height,
                        ;
                        push_record_line(&mut out, fi, k, w as usize, *p);
                    },
                    None => {},
                }
                k = k + 1;
                assert(out@ =~= base + cells_lines(fi as nat, data, w as nat, k as nat));
            }
            fi = fi + 1;
            assert(out@ =~= header_text(self@) + frames_lines(self@.frames, w as nat, fi as nat));
        }
        out
    }

    /// The terminal text of frame `frame_idx`, counted from 1: one line per row,
    /// each ended by `\r\n`; an empty cell is a space; in color mode the
    /// color escape is written only when the color changes, and a row that
    /// switched a color on ends with a reset. Empty when there is no such frame.
    /// For an existing frame, twelve bytes per cell (the text space set aside
    /// for it) must count within a `u32`.
    pub fn to_string(&self, frame_idx: u32) -> (out: String)
        requires
            self.wf(),
            1 <= frame_idx <= self@.frame_num ==> self@.width * self@.height * 12 <= u32::MAX,
        ensures
            out@ == frame_text(self@, frame_idx),
    {
        if frame_idx == 0 || frame_idx > self.frame_num {
            return String::new();
        }
        let frame = &self.frames[(frame_idx - 1) as usize];
        let ghost data = frame.data@;
        assert(data == self@.frames[frame_idx - 1]);
        let w = self.width;
        let h = self.height;
        let colorful = self.colorful;
        let mut out = String::new();
        let mut y: u32 = 0;
        while y < h
            invariant
                y <= h,
                w == self@.width,
                h == self@.height,
                colorful == self@.colorful,
                w * h <= u32::MAX,
                frame.data@ == data,
                data.len() == w * h,
                out@ == rows_text(data, w as nat, colorful, y as nat),
            decreases h - y,
        {
            proof { lemma_row_bounds(y as nat, w as nat, h as nat); }
            let row_start = y * w;
            let ghost row = row_of(data, w as nat, y as nat);
            let ghost base = out@;
            let mut has_cur = false;
            let mut cur: (u8, u8, u8) = (0, 0, 0);
            let mut x: u32 = 0;
            assert(row.skip(0) =~= row);
            while x < w
                invariant
                    x <= w,
                    y < h,
                    row_start == y * w,
                    row_start + w <= w * h,
                    w * h <= u32::MAX,
                    frame.data@ == data,
                    data.len() == w * h,
                    row == data.subrange(row_start as int, row_start + w),
                    colorful == self@.colorful,
                    out@ + cells_text(row.skip(x as int), colorful, if has_cur { Some(cur) } else { None })
                        == base + cells_text(row, colorful, None),
                    cells_end_color(row.skip(x as int), colorful, if has_cur { Some(cur) } else { None })
                        == cells_end_color(row, colorful, None),
                decreases w - x,
            {
                let ghost cur_opt: Option<(u8, u8, u8)> = if has_cur { Some(cur) } else { None };
                let ghost rest = row.skip(x as int);
                assert(rest.drop_first() =~= row.skip(x + 1));
                assert(rest[0] == data[row_start + x]);
                let idx = (row_start + x) as usize;
                match &frame.data[idx] {
                    Some(pixel) => {
                        if colorful {
                            let same = has_cur && cur.0 == pixel.color.0 && cur.1 == pixel.color.1
                                && cur.2 == pixel.color.2;
                            if !same {
                                push_sgr(&mut out, pixel.color);
                                has_cur = true;
                                cur = pixel.color;
                            }
                        }
                        push_char(&mut out, pixel.ch);
                    },
                    None => {
                        push_char(&mut out, ' ');
                    },
                }
                proof {
                    let new_cur: Option<(u8, u8, u8)> = if has_cur { Some(cur) } else { None };
                    match rest[0] {
                        None => {
                            assert(out@ + cells_text(rest.drop_first(), colorful, new_cur) =~= out@.drop_last() + cells_text(rest, colorful, cur_opt));
                        },
                        Some(p) => {
                            if colorful && cur_opt != Some(p.color) {
                                assert(out@ + cells_text(rest.drop_first(), colorful, new_cur) =~= base + cells_text(row, colorful, None)) by {
                                    assert(sgr(p.color).push(p.ch) + cells_text(rest.drop_first(), colorful, new_cur) =~= sgr(p.color) + seq![p.ch] + cells_text(rest.drop_first(), colorful, new_cur));
                                }
                            } else {
                                assert(out@ + cells_text(rest.drop_first(), colorful, new_cur) =~= out@.drop_last() + cells_text(rest, colorful, cur_opt));
                            }
                        },
                    }
                }
                x = x + 1;
            }
            proof {
                let cur_opt: Option<(u8, u8, u8)> = if has_cur { Some(cur) } else { None };
                assert(row.skip(w as int) =~= seq![]);
                lemma_end_color(row, colorful, None);
            }
            if colorful && has_cur {
                push_reset(&mut out);
            }
            push_char(&mut out, '\r');
            push_char(&mut out, '\n');
            proof {
                assert(out@ =~= base + row_text(row, colorful));
            }
            y = y + 1;
        }
        out
    }
}

/// The sprite after `k` moves to the next frame.
pub open spec fn next_times(v: SpriteView, k: nat) -> SpriteView
    decreases k,
{
    if k == 0 {
        v
    } else {
        next_times(v, (k - 1) as nat).after_next()
    }
}

/// Color only adds escape sequences: with every escape sequence taken out, the
/// text of any frame is the text the same sprite prints without color (same
/// characters, same spaces, same line ends), as long as no cell shows the
/// escape character itself.
pub proof fn law_color_only_adds_escapes(v: SpriteView, frame_idx: u32)
    requires
        v.valid(),
        forall|f: int, i: int| 0 <= f < v.frames.len() && 0 <= i < v.frames[f].len()
            ==> cell_char(#[trigger] v.frames[f][i]) != '\x1b',
    ensures
        strip_escapes(frame_text(v, frame_idx)) == frame_text(SpriteView { colorful: false, ..v }, frame_idx),
{
    if frame_idx == 0 || frame_idx > v.frame_num {
        lemma_strip_plain(Seq::<char>::empty());
    } else {
        let data = v.frames[frame_idx - 1];
        assert(data.len() == v.area());
        assert((v.height as nat) * (v.width as nat) == v.width * v.height) by (nonlinear_arith);
        assert forall|i: int| 0 <= i < data.len() implies cell_char(#[trigger] data[i]) != '\x1b' by {
            assert(cell_char(v.frames[frame_idx - 1][i]) != '\x1b');
        }
        lemma_strip_rows(data, v.width as nat, v.colorful, v.height as nat);
    }
}

/// Each cell of the sprite made from a picture shows its own pixel: it is
/// filled, its color is the pixel's three samples, and its character is the
/// short ramp character at position `luma * 8 / 255` (rounded down) for the
/// BT.709 gray level `luma = (2126 r + 7152 g + 722 b) / 10000` of those
/// samples, which is the character the plain art of the picture shows there.
pub proof fn law_picture_cell_of_own_pixel(rgb: Seq<u8>, width: nat, height: nat, y: nat, x: nat)
    requires
        width > 0,
        y < height,
        x < width,
    ensures
        picture_cells(rgb, width * height).len() == width * height,
        picture_cells(rgb, width * height)[(y * width + x) as int] == Some(Pixel {
            ch: simple_table()[(((2126 * rgb[3 * (y * width + x) as int] + 7152 * rgb[3 * (y * width + x) as int + 1]
                + 722 * rgb[3 * (y * width + x) as int + 2]) / 10000) * 8) / 255],
            color: (rgb[3 * (y * width + x) as int], rgb[3 * (y * width + x) as int + 1], rgb[3 * (y * width + x) as int
                + 2]),
        }),
        picture_cells(rgb, width * height)[(y * width + x) as int]->Some_0.ch == ascii_text(grays(rgb, width * height),
            simple_table(), width, width * height)[(y * (width + 1) + x) as int],
{
    let i = y * width + x;
    assert(i < width * height) by (nonlinear_arith)
        requires
            y < height,
            x < width,
            i == y * width + x,
    ;
    law_gray_of_own_pixel(rgb, width * height, i as int);
    law_art_of_pixels(rgb, simple_table(), width, height, y, x);
}

/// Putting a frame in, at a position or at the end, only puts the frame in:
/// the other frames keep their order, the count grows by one, and the current
/// frame index does not move, so the frame shown stays the same when the new
/// frame goes in after it.
pub proof fn law_insert_keeps_current(v: SpriteView, data: Seq<Option<Pixel>>, pos: int)
    requires
        v.valid(),
        0 <= pos <= v.frame_num,
        v.frame_num < u32::MAX,
    ensures
        v.after_insert_at(data, pos).current_frame == v.current_frame,
        v.after_insert_at(data, pos).frame_num == v.frame_num + 1,
        v.after_insert_at(data, pos).frames == v.frames.insert(pos, data),
        v.after_push(data).current_frame == v.current_frame,
        v.after_push(data).frame_num == v.frame_num + 1,
        v.after_push(data).frames == v.frames.push(data),
        v.current_frame < pos ==> v.after_insert_at(data, pos).frames[v.current_frame as int]
            == v.frames[v.current_frame as int],
        v.frame_num > 0 ==> v.after_push(data).frames[v.current_frame as int] == v.frames[v.current_frame as int],
{
}

/// Taking out the frame at `pos` takes out just that frame; the current frame
/// index stays where it was unless it would lie past the new last frame, and
/// then it becomes the new last frame; with no frame left it is 0. So the frame
/// shown stays the same when the removed frame came after it.
pub proof fn law_remove_clamps_current(v: SpriteView, pos: int)
    requires
        v.valid(),
        0 <= pos < v.frame_num,
    ensures
        v.after_remove_at(pos).frames == v.frames.remove(pos),
        v.after_remove_at(pos).frame_num == v.frame_num - 1,
        v.after_remove_at(pos).current_frame == (if v.current_frame + 1 < v.frame_num {
            v.current_frame as int
        } else if v.frame_num >= 2 {
            v.frame_num - 2
        } else {
            0
        }),
        v.after_remove_at(pos).valid(),
        v.current_frame < pos ==> v.after_remove_at(pos).frames[v.after_remove_at(pos).current_frame as int]
            == v.frames[v.current_frame as int],
{
    let r = v.after_remove_at(pos);
    assert forall|i: int| 0 <= i < r.frames.len() implies #[trigger] r.frames[i].len() == r.area() by {
        if i < pos {
            assert(r.frames[i] == v.frames[i]);
        } else {
            assert(r.frames[i] == v.frames[i + 1]);
        }
    }
}

/// Putting a frame in at `pos` and then taking out the frame at `pos` gives the
/// same frame back and leaves the sprite as it was.
pub proof fn law_insert_then_remove(v: SpriteView, data: Seq<Option<Pixel>>, pos: int)
    requires
        v.valid(),
        data.len() == v.area(),
        0 <= pos <= v.frame_num,
        v.frame_num < u32::MAX,
    ensures
        v.after_insert_at(data, pos).valid(),
        v.after_insert_at(data, pos).frames[pos] == data,
        v.after_insert_at(data, pos).after_remove_at(pos) == v,
{
    let u = v.after_insert_at(data, pos);
    assert forall|i: int| 0 <= i < u.frames.len() implies #[trigger] u.frames[i].len() == u.area() by {
        if i < pos {
            assert(u.frames[i] == v.frames[i]);
        } else if i > pos {
            assert(u.frames[i] == v.frames[i - 1]);
        }
    }
    assert(u.frames.remove(pos) =~= v.frames);
}

/// Adding a frame at the end and then taking out the last frame leaves the
/// sprite as it was.
pub proof fn law_push_then_remove_last(v: SpriteView, data: Seq<Option<Pixel>>)
    requires
        v.valid(),
        data.len() == v.area(),
        v.frame_num < u32::MAX,
    ensures
        v.after_push(data).valid(),
        v.after_push(data).after_remove_at(v.after_push(data).frame_num - 1) == v,
{
    let u = v.after_push(data);
    assert forall|i: int| 0 <= i < u.frames.len() implies #[trigger] u.frames[i].len() == u.area() by {
        if i < v.frames.len() {
            assert(u.frames[i] == v.frames[i]);
        }
    }
    assert(u.frames.remove(v.frame_num as int) =~= v.frames);
}

/// Moving to the next frame `k` times advances the current frame by `k`,
/// wrapping around, and changes nothing else; after as many moves as there are
/// frames the sprite is as it was.
pub proof fn law_next_cycles(v: SpriteView, k: nat)
    requires
        v.valid(),
        v.frame_num > 0,
    ensures
        next_times(v, k).current_frame == (v.current_frame + k) % (v.frame_num as int),
        next_times(v, k) == (SpriteView { current_frame: next_times(v, k).current_frame, ..v }),
        next_times(v, v.frame_num as nat) == v,
{
    lemma_next_times_current(v, k);
    lemma_next_times_current(v, v.frame_num as nat);
    let n = v.frame_num as int;
    let c = v.current_frame as int;
    vstd::arithmetic::div_mod::lemma_mod_add_multiples_vanish(c, n);
    vstd::arithmetic::div_mod::lemma_small_mod(c as nat, n as nat);
    assert((c + n) % n == c);
}

proof fn lemma_next_times_current(v: SpriteView, k: nat)
    requires
        v.valid(),
        v.frame_num > 0,
    ensures
        next_times(v, k).current_frame == (v.current_frame + k) % (v.frame_num as int),
        next_times(v, k) == (SpriteView { current_frame: next_times(v, k).current_frame, ..v }),
    decreases k,
{
    let n = v.frame_num as int;
    let c = v.current_frame as int;
    if k > 0 {
        lemma_next_times_current(v, (k - 1) as nat);
        let x = c + k - 1;
        vstd::arithmetic::div_mod::lemma_add_mod_noop_right(1, x, n);
        assert((x % n + 1) % n == (x + 1) % n);
    } else {
        vstd::arithmetic::div_mod::lemma_small_mod(c as nat, n as nat);
    }
}

} // verus!
