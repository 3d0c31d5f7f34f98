//! The plain-text `rua` sprite format.
//!
//! The first line holds `width height frame_count`; every further line holds
//! one cell: `frame x y char r g b`, separated by white space. Lines with
//! fewer than seven tokens are skipped, tokens after the seventh are ignored,
//! and a cell outside the sprite's frames or area is dropped. A later line for
//! the same cell wins. A header whose width times height does not fit in a
//! `u32` is refused.

use vstd::prelude::*;
use crate::sprite::{Pixel, SpriteView, blank};
use crate::text::{is_ws, lemma_tokens_split, join_words, lemma_dec_digits, lemma_parse_dec, lemma_tokens_join, plain_words, push_char, push_dec, CharErrorKind, IntErrorKind, dec, parse_char_exec, parse_single_char, parse_uint, parse_uint_exec, split_whitespace, tokens, views};

verus! {

/// Why a text is not a sprite.
#[derive(Clone, Copy, Debug, PartialEq, Eq)]
pub enum RuaError {
    /// The first line has fewer than three tokens.
    InvalidHeader,
    /// The first line gives a width and height whose product does not fit in a `u32`.
    AreaTooLarge,
    /// A number token is not an unsigned number of the needed size.
    ParseInt(IntErrorKind),
    /// The character token is not exactly one character.
    ParseChar(CharErrorKind),
}

/// One cell line of a `rua` text.
pub struct CellRecord {
    pub frame: u32,
    pub x: u32,
    pub y: u32,
    pub pixel: Pixel,
}

/// The position of the first `\n` in `s`, or its length when there is none.
pub open spec fn first_nl(s: Seq<char>) -> nat
    decreases s.len(),
{
    if s.len() == 0 {
        0
    } else if s[0] == '\n' {
        0
    } else {
        1 + first_nl(s.drop_first())
    }
}

/// The first line of `s`, without its `\n`.
pub open spec fn header_line(s: Seq<char>) -> Seq<char> {
    s.take(first_nl(s) as int)
}

/// What follows the first line of `s`.
pub open spec fn body_of(s: Seq<char>) -> Seq<char> {
    if first_nl(s) < s.len() { s.skip(first_nl(s) + 1int) } else { seq![] }
}

/// A token read as a number no larger than `max`.
pub open spec fn uint_field(t: Seq<char>, max: nat) -> Result<nat, RuaError> {
    match parse_uint(t, max) {
        Ok(v) => Ok(v),
        Err(e) => Err(RuaError::ParseInt(e)),
    }
}

/// A token read as one character.
pub open spec fn char_field(t: Seq<char>) -> Result<char, RuaError> {
    match parse_single_char(t) {
        Ok(c) => Ok(c),
        Err(e) => Err(RuaError::ParseChar(e)),
    }
}

/// The size and frame count given by the first line of `s`.
pub open spec fn parse_header(s: Seq<char>) -> Result<(u32, u32, u32), RuaError> {
    let t = tokens(header_line(s));
    if t.len() < 3 {
        Err(RuaError::InvalidHeader)
    } else {
        match uint_field(t[0], u32::MAX as nat) {
            Err(e) => Err(e),
            Ok(w) => match uint_field(t[1], u32::MAX as nat) {
                Err(e) => Err(e),
                Ok(h) => match uint_field(t[2], u32::MAX as nat) {
                    Err(e) => Err(e),
                    Ok(n) => Ok((w as u32, h as u32, n as u32)),
                },
            },
        }
    }
}

/// The cell given by the first seven tokens of a line, read in order.
pub open spec fn parse_record(t: Seq<Seq<char>>) -> Result<CellRecord, RuaError> {
    match uint_field(t[0], u32::MAX as nat) {
        Err(e) => Err(e),
        Ok(f) => match uint_field(t[1], u32::MAX as nat) {
            Err(e) => Err(e),
            Ok(x) => match uint_field(t[2], u32::MAX as nat) {
                Err(e) => Err(e),
                Ok(y) => match char_field(t[3]) {
                    Err(e) => Err(e),
                    Ok(ch) => match uint_field(t[4], u8::MAX as nat) {
                        Err(e) => Err(e),
                        Ok(r) => match uint_field(t[5], u8::MAX as nat) {
                            Err(e) => Err(e),
                            Ok(g) => match uint_field(t[6], u8::MAX as nat) {
                                Err(e) => Err(e),
                                Ok(b) => Ok(CellRecord {
                                    frame: f as u32,
                                    x: x as u32,
                                    y: y as u32,
                                    pixel: Pixel { ch, color: (r as u8, g as u8, b as u8) },
                                }),
                            },
                        },
                    },
                },
            },
        },
    }
}

/// The frames after a cell record: the cell is set when its frame and place exist.
pub open spec fn apply_record(frames: Seq<Seq<Option<Pixel>>>, w: u32, h: u32, n: u32, r: CellRecord) -> Seq<Seq<Option<Pixel>>> {
    if r.frame < n && r.x < w && r.y < h {
        frames.update(r.frame as int, frames[r.frame as int].update(r.y * w + r.x, Some(r.pixel)))
    } else {
        frames
    }
}

/// The frames after one body line.
pub open spec fn apply_line(line: Seq<char>, w: u32, h: u32, n: u32, frames: Seq<Seq<Option<Pixel>>>) -> Result<Seq<Seq<Option<Pixel>>>, RuaError> {
    let t = tokens(line);
    if t.len() < 7 {
        Ok(frames)
    } else {
        match parse_record(t) {
            Err(e) => Err(e),
            Ok(r) => Ok(apply_record(frames, w, h, n, r)),
        }
    }
}

/// The frames after all lines of a body, read in order; the first bad line decides the error.
pub open spec fn apply_body(s: Seq<char>, w: u32, h: u32, n: u32, frames: Seq<Seq<Option<Pixel>>>) -> Result<Seq<Seq<Option<Pixel>>>, RuaError>
    decreases s.len(),
{
    let e = first_nl(s);
    match apply_line(s.take(e as int), w, h, n, frames) {
        Err(err) => Err(err),
        Ok(next) => if e < s.len() {
            apply_body(s.skip(e + 1int), w, h, n, next)
        } else {
            Ok(next)
        },
    }
}

/// The sprite that the `rua` text `s` describes, at its first frame, with the
/// given playback rate and color mode.
pub open spec fn parse_rua(s: Seq<char>, fps_bits: u64, colorful: bool) -> Result<SpriteView, RuaError> {
    match parse_header(s) {
        Err(e) => Err(e),
        Ok((w, h, n)) => if w * h > u32::MAX {
            Err(RuaError::AreaTooLarge)
        } else {
            match apply_body(body_of(s), w, h, n, Seq::new(n as nat, |i: int| blank((w * h) as nat))) {
                Err(e) => Err(e),
                Ok(frames) => Ok(SpriteView {
                    width: w,
                    height: h,
                    frame_num: n,
                    current_frame: 0,
                    frames,
                    fps_bits,
                    colorful,
                }),
            }
        },
    }
}

/// The line of one filled cell: frame, column, row, character and color.
pub open spec fn record_line(f: nat, i: nat, w: nat, p: Pixel) -> Seq<char> {
    join_words(seq![dec(f), dec(i % w), dec(i / w), seq![p.ch], dec(p.color.0 as nat), dec(p.color.1 as nat), dec(p.color.2 as nat)]).push('\n')
}

/// The lines of the filled cells among the first `k` cells of frame `f`.
pub open spec fn cells_lines(f: nat, data: Seq<Option<Pixel>>, w: nat, k: nat) -> Seq<char>
    decreases k,
{
    if k == 0 {
        seq![]
    } else {
        cells_lines(f, data, w, (k - 1) as nat) + match data[k - 1] {
            None => seq![],
            Some(p) => record_line(f, (k - 1) as nat, w, p),
        }
    }
}

/// The lines of the first `k` frames.
pub open spec fn frames_lines(frames: Seq<Seq<Option<Pixel>>>, w: nat, k: nat) -> Seq<char>
    decreases k,
{
    if k == 0 {
        seq![]
    } else {
        frames_lines(frames, w, (k - 1) as nat) + cells_lines((k - 1) as nat, frames[k - 1], w, frames[k - 1].len())
    }
}

/// The header line of a sprite.
pub open spec fn header_text(v: SpriteView) -> Seq<char> {
    join_words(seq![dec(v.width as nat), dec(v.height as nat), dec(v.frame_num as nat)]).push('\n')
}

/// The `rua` text of a sprite: its header line, then one line per filled
/// cell, frame by frame and cell by cell.
pub open spec fn rua_text(v: SpriteView) -> Seq<char> {
    header_text(v) + frames_lines(v.frames, v.width as nat, v.frames.len())
}

/// The characters of `text`.
pub(crate) fn text_chars(text: &str) -> (v: Vec<char>)
    ensures
        v@ == text@,
{
    let mut v: Vec<char> = Vec::new();
    for c in it: text.chars()
        invariant
            v@ == it.seq().take(it.index() as int),
    {
        v.push(c);
    }
    v
}

proof fn lemma_first_nl_scan(s: Seq<char>, e: nat)
    requires
        e <= s.len(),
        forall|k: int| 0 <= k < e ==> s[k] != '\n',
        e < s.len() ==> s[e as int] == '\n',
    ensures
        first_nl(s) == e,
    decreases e,
{
    if e > 0 {
        lemma_first_nl_scan(s.drop_first(), (e - 1) as nat);
    }
}

/// The position of the first `\n` at or after `start`, or the length of `s`.
pub(crate) fn find_nl(s: &Vec<char>, start: usize) -> (e: usize)
    requires
        start <= s@.len(),
    ensures
        start <= e <= s@.len(),
        first_nl(s@.skip(start as int)) == e - start,
{
    let mut e = start;
    while e < s.len() && s[e] != '\n'
        invariant
            start <= e <= s@.len(),
            forall|k: int| start <= k < e ==> s@[k] != '\n',
        decreases s@.len() - e,
    {
        e = e + 1;
    }
    proof {
        lemma_first_nl_scan(s@.skip(start as int), (e - start) as nat);
    }
    e
}

fn uint_field_exec(t: &Vec<char>, max: u32) -> (r: Result<u32, RuaError>)
    ensures
        match r {
            Ok(v) => uint_field(t@, max as nat) == Ok::<nat, RuaError>(v as nat),
            Err(e) => uint_field(t@, max as nat) == Err::<nat, RuaError>(e),
        },
{
    match parse_uint_exec(t, max) {
        Ok(v) => Ok(v),
        Err(e) => Err(RuaError::ParseInt(e)),
    }
}

fn char_field_exec(t: &Vec<char>) -> (r: Result<char, RuaError>)
    ensures
        match r {
            Ok(c) => char_field(t@) == Ok::<char, RuaError>(c),
            Err(e) => char_field(t@) == Err::<char, RuaError>(e),
        },
{
    match parse_char_exec(t) {
        Ok(c) => Ok(c),
        Err(e) => Err(RuaError::ParseChar(e)),
    }
}

/// Reads the header tokens of the first line of `s` (ending at `e`).
pub(crate) fn header_of_chars(s: &Vec<char>, e: usize) -> (r: Result<(u32, u32, u32), RuaError>)
    requires
        e <= s@.len(),
        e == first_nl(s@),
    ensures
        r == parse_header(s@),
{
    let t = split_whitespace(s, 0, e);
    assert(s@.subrange(0, e as int) =~= header_line(s@));
    if t.len() < 3 {
        return Err(RuaError::InvalidHeader);
    }
    assert(t@[0]@ == views(t@)[0]);
    assert(t@[1]@ == views(t@)[1]);
    assert(t@[2]@ == views(t@)[2]);
    let w = uint_field_exec(&t[0], u32::MAX)?;
    let h = uint_field_exec(&t[1], u32::MAX)?;
    let n = uint_field_exec(&t[2], u32::MAX)?;
    Ok((w, h, n))
}

/// The width, height and frame count that the first line of the `rua` text gives.
pub fn rua_header(text: &str) -> (r: Result<(u32, u32, u32), RuaError>)
    ensures
        r == parse_header(text@),
{
    let s = text_chars(text);
    let e = find_nl(&s, 0);
    assert(s@.skip(0) =~= s@);
    header_of_chars(&s, e)
}

/// Reads the cell given by the first seven tokens.
pub(crate) fn parse_record_exec(t: &Vec<Vec<char>>) -> (r: Result<CellRecord, RuaError>)
    requires
        t@.len() >= 7,
    ensures
        r == parse_record(views(t@)),
{
    assert(t@[0]@ == views(t@)[0]);
    assert(t@[1]@ == views(t@)[1]);
    assert(t@[2]@ == views(t@)[2]);
    assert(t@[3]@ == views(t@)[3]);
    assert(t@[4]@ == views(t@)[4]);
    assert(t@[5]@ == views(t@)[5]);
    assert(t@[6]@ == views(t@)[6]);
    let f = uint_field_exec(&t[0], u32::MAX)?;
    let x = uint_field_exec(&t[1], u32::MAX)?;
    let y = uint_field_exec(&t[2], u32::MAX)?;
    let ch = char_field_exec(&t[3])?;
    let r = uint_field_exec(&t[4], 255)?;
    let g = uint_field_exec(&t[5], 255)?;
    let b = uint_field_exec(&t[6], 255)?;
    Ok(CellRecord { frame: f, x, y, pixel: Pixel { ch, color: (r as u8, g as u8, b as u8) } })
}

proof fn lemma_join7(a: Seq<char>, b: Seq<char>, c: Seq<char>, d: Seq<char>, e: Seq<char>, f: Seq<char>, g: Seq<char>)
    ensures
        join_words(seq![a, b, c, d, e, f, g]) == a + seq![' '] + b + seq![' '] + c + seq![' '] + d
            + seq![' '] + e + seq![' '] + f + seq![' '] + g,
{
    let ws = seq![a, b, c, d, e, f, g];
    assert(ws.drop_first() =~= seq![b, c, d, e, f, g]);
    assert(ws.drop_first().drop_first() =~= seq![c, d, e, f, g]);
    assert(ws.drop_first().drop_first().drop_first() =~= seq![d, e, f, g]);
    assert(ws.drop_first().drop_first().drop_first().drop_first() =~= seq![e, f, g]);
    assert(ws.drop_first().drop_first().drop_first().drop_first().drop_first() =~= seq![f, g]);
    assert(ws.drop_first().drop_first().drop_first().drop_first().drop_first().drop_first() =~= seq![g]);
    reveal_with_fuel(join_words, 7);
    assert(join_words(ws) =~= a + seq![' '] + b + seq![' '] + c + seq![' '] + d + seq![' '] + e
        + seq![' '] + f + seq![' '] + g);
}

pub(crate) proof fn lemma_join3(a: Seq<char>, b: Seq<char>, c: Seq<char>)
    ensures
        join_words(seq![a, b, c]) == a + seq![' '] + b + seq![' '] + c,
{
    let ws = seq![a, b, c];
    assert(ws.drop_first() =~= seq![b, c]);
    assert(ws.drop_first().drop_first() =~= seq![c]);
    reveal_with_fuel(join_words, 3);
    assert(join_words(ws) =~= a + seq![' '] + b + seq![' '] + c);
}

/// Appends the line of a filled cell.
pub(crate) fn push_record_line(out: &mut String, f: usize, i: usize, w: usize, p: Pixel)
    requires
        w > 0,
    ensures
        final(out)@ == old(out)@ + record_line(f as nat, i as nat, w as nat, p),
{
    push_dec(out, f as u64);
    push_char(out, ' ');
    push_dec(out, (i % w) as u64);
    push_char(out, ' ');
    push_dec(out, (i / w) as u64);
    push_char(out, ' ');
    push_char(out, p.ch);
    push_char(out, ' ');
    push_dec(out, p.color.0 as u64);
    push_char(out, ' ');
    push_dec(out, p.color.1 as u64);
    push_char(out, ' ');
    push_dec(out, p.color.2 as u64);
    push_char(out, '\n');
    proof {
        lemma_join7(dec(f as nat), dec((i % w) as nat), dec((i / w) as nat), seq![p.ch], dec(p.color.0 as nat), dec(p.color.1 as nat), dec(p.color.2 as nat));
        assert(out@ =~= old(out)@ + record_line(f as nat, i as nat, w as nat, p));
    }
}

proof fn lemma_first_nl_line(a: Seq<char>, b: Seq<char>)
    requires
        forall|k: int| 0 <= k < a.len() ==> #[trigger] a[k] != '\n',
    ensures
        first_nl(a + seq!['\n'] + b) == a.len(),
    decreases a.len(),
{
    if a.len() > 0 {
        assert((a + seq!['\n'] + b).drop_first() =~= a.drop_first() + seq!['\n'] + b);
        assert((a + seq!['\n'] + b)[0] == a[0]);
        lemma_first_nl_line(a.drop_first(), b);
    } else {
        assert((a + seq!['\n'] + b)[0] == '\n');
    }
}

/// A body that starts with a whole line is that line, then the rest.
proof fn lemma_body_line(line: Seq<char>, rest: Seq<char>, w: u32, h: u32, n: u32, st: Seq<Seq<Option<Pixel>>>)
    requires
        forall|k: int| 0 <= k < line.len() ==> #[trigger] line[k] != '\n',
    ensures
        apply_body(line.push('\n') + rest, w, h, n, st) == match apply_line(line, w, h, n, st) {
            Err(e) => Err(e),
            Ok(s2) => apply_body(rest, w, h, n, s2),
        },
{
    let s = line.push('\n') + rest;
    assert(s =~= line + seq!['\n'] + rest);
    lemma_first_nl_line(line, rest);
    assert(s.take(line.len() as int) =~= line);
    assert(s.skip(line.len() + 1int) =~= rest);
}

proof fn lemma_body_empty(w: u32, h: u32, n: u32, st: Seq<Seq<Option<Pixel>>>)
    ensures
        apply_body(seq![], w, h, n, st) == Ok::<Seq<Seq<Option<Pixel>>>, RuaError>(st),
{
    let e: Seq<char> = seq![];
    assert(e.take(0) =~= e);
    assert(tokens(e) =~= seq![]);
}

/// The frames while frame `f` is being read back: earlier frames whole, frame
/// `f` up to cell `k`, later frames empty.
pub open spec fn partial_frames(frames: Seq<Seq<Option<Pixel>>>, area: nat, f: int, k: int) -> Seq<Seq<Option<Pixel>>> {
    Seq::new(frames.len(), |j: int| if j < f {
        frames[j]
    } else if j == f {
        Seq::new(area, |i: int| if i < k { frames[f][i] } else { None::<Pixel> })
    } else {
        blank(area)
    })
}

/// No filled cell of the sprite holds a white-space character.
pub open spec fn plain_cells(v: SpriteView) -> bool {
    forall|f: int, i: int| 0 <= f < v.frames.len() && 0 <= i < v.frames[f].len() ==> (#[trigger] v.frames[f][i] matches Some(p) ==> !is_ws(p.ch))
}

proof fn lemma_cells_read_back(v: SpriteView, f: nat, k: nat, rest: Seq<char>)
    requires
        v.valid(),
        plain_cells(v),
        f < v.frame_num,
        k <= v.area(),
    ensures
        apply_body(cells_lines(f, v.frames[f as int], v.width as nat, k) + rest, v.width, v.height, v.frame_num,
            partial_frames(v.frames, v.area(), f as int, 0)) == apply_body(rest, v.width, v.height, v.frame_num,
            partial_frames(v.frames, v.area(), f as int, k as int)),
    decreases k,
{
    let w = v.width;
    let h = v.height;
    let n = v.frame_num;
    let area = v.area();
    let data = v.frames[f as int];
    if k == 0 {
        assert(cells_lines(f, data, w as nat, 0) + rest =~= rest);
    } else {
        let i = (k - 1) as nat;
        let piece = match data[i as int] {
            None => seq![],
            Some(p) => record_line(f, i, w as nat, p),
        };
        assert(cells_lines(f, data, w as nat, k) + rest =~= cells_lines(f, data, w as nat, i) + (piece + rest));
        lemma_cells_read_back(v, f, i, piece + rest);
        let before = partial_frames(v.frames, area, f as int, i as int);
        let after = partial_frames(v.frames, area, f as int, k as int);
        match data[i as int] {
            None => {
                assert(piece + rest =~= rest);
                assert forall|j: int| 0 <= j < before.len() implies #[trigger] before[j] =~= after[j] by {}
                assert(before =~= after);
            },
            Some(p) => {
                assert(!is_ws(p.ch));
                assert(w > 0) by (nonlinear_arith)
                    requires
                        i < w * h,
                ;
                let x = i % (w as nat);
                let y = i / (w as nat);
                assert(x < w);
                assert(y < h && y * w + x == i) by (nonlinear_arith)
                    requires
                        i < w * h,
                        w > 0,
                        x == i % (w as nat),
                        y == i / (w as nat),
                ;
                let words = seq![dec(f), dec(x), dec(y), seq![p.ch], dec(p.color.0 as nat), dec(p.color.1 as nat), dec(p.color.2 as nat)];
                lemma_dec_digits(f);
                lemma_dec_digits(x);
                lemma_dec_digits(y);
                lemma_dec_digits(p.color.0 as nat);
                lemma_dec_digits(p.color.1 as nat);
                lemma_dec_digits(p.color.2 as nat);
                assert(plain_words(words)) by {
                    assert forall|a: int, b: int| 0 <= a < words.len() && 0 <= b < words[a].len() implies !is_ws(#[trigger] words[a][b]) && words[a].len() > 0 by {
                        if a == 3 {
                            assert(words[a] == seq![p.ch]);
                        }
                    }
                }
                lemma_tokens_join(words);
                let line = join_words(words);
                assert(record_line(f, i, w as nat, p) == line.push('\n'));
                lemma_body_line(line, rest, w, h, n, before);
                lemma_parse_dec(f, u32::MAX as nat);
                lemma_parse_dec(x, u32::MAX as nat);
                lemma_parse_dec(y, u32::MAX as nat);
                lemma_parse_dec(p.color.0 as nat, u8::MAX as nat);
                lemma_parse_dec(p.color.1 as nat, u8::MAX as nat);
                lemma_parse_dec(p.color.2 as nat, u8::MAX as nat);
                let rec = CellRecord { frame: f as u32, x: x as u32, y: y as u32, pixel: Pixel { ch: p.ch, color: (p.color.0, p.color.1, p.color.2) } };
                assert(tokens(line) == words);
                assert(parse_record(words) == Ok::<CellRecord, RuaError>(rec));
                assert(apply_line(line, w, h, n, before) == Ok::<Seq<Seq<Option<Pixel>>>, RuaError>(apply_record(before, w, h, n, rec)));
                let applied = apply_record(before, w, h, n, rec);
                assert forall|j: int| 0 <= j < before.len() implies #[trigger] applied[j] =~= after[j] by {
                    if j == f {
                        assert forall|c: int| 0 <= c < area implies #[trigger] applied[j][c] == after[j][c] by {
                            if c == i {
                                assert(rec.pixel == p);
                            }
                        }
                    }
                }
                assert(applied =~= after);
            },
        }
    }
}

proof fn lemma_frames_read_back(v: SpriteView, k: nat, rest: Seq<char>)
    requires
        v.valid(),
        plain_cells(v),
        k <= v.frame_num,
    ensures
        apply_body(frames_lines(v.frames, v.width as nat, k) + rest, v.width, v.height, v.frame_num,
            partial_frames(v.frames, v.area(), 0, 0)) == apply_body(rest, v.width, v.height, v.frame_num,
            partial_frames(v.frames, v.area(), k as int, 0)),
    decreases k,
{
    let w = v.width as nat;
    if k == 0 {
        assert(frames_lines(v.frames, w, 0) + rest =~= rest);
    } else {
        let f = (k - 1) as nat;
        let cl = cells_lines(f, v.frames[f as int], w, v.frames[f as int].len());
        assert(frames_lines(v.frames, w, k) + rest =~= frames_lines(v.frames, w, f) + (cl + rest));
        lemma_frames_read_back(v, f, cl + rest);
        lemma_cells_read_back(v, f, v.area(), rest);
        let a = partial_frames(v.frames, v.area(), f as int, v.area() as int);
        let b = partial_frames(v.frames, v.area(), k as int, 0);
        assert forall|j: int| 0 <= j < a.len() implies #[trigger] a[j] =~= b[j] by {}
        assert(a =~= b);
    }
}

/// Reading back the `rua` text of a sprite gives the sprite again, at its first
/// frame and with the playback rate and color mode given to the reader, when no
/// filled cell holds a white-space character.
pub proof fn law_rua_round_trip(v: SpriteView, fps_bits: u64, colorful: bool)
    requires
        v.valid(),
        plain_cells(v),
    ensures
        parse_rua(rua_text(v), fps_bits, colorful) == Ok::<SpriteView, RuaError>(SpriteView {
            current_frame: 0,
            fps_bits,
            colorful,
            ..v
        }),
{
    let hw = seq![dec(v.width as nat), dec(v.height as nat), dec(v.frame_num as nat)];
    lemma_dec_digits(v.width as nat);
    lemma_dec_digits(v.height as nat);
    lemma_dec_digits(v.frame_num as nat);
    assert(plain_words(hw));
    lemma_tokens_join(hw);
    let j = join_words(hw);
    let body = frames_lines(v.frames, v.width as nat, v.frames.len());
    let s = rua_text(v);
    assert(s =~= j + seq!['\n'] + body);
    lemma_first_nl_line(j, body);
    assert(header_line(s) =~= j);
    assert(body_of(s) =~= body);
    lemma_parse_dec(v.width as nat, u32::MAX as nat);
    lemma_parse_dec(v.height as nat, u32::MAX as nat);
    lemma_parse_dec(v.frame_num as nat, u32::MAX as nat);
    assert(parse_header(s) == Ok::<(u32, u32, u32), RuaError>((v.width, v.height, v.frame_num)));
    let init = Seq::new(v.frame_num as nat, |i: int| blank((v.width * v.height) as nat));
    let p0 = partial_frames(v.frames, v.area(), 0, 0);
    assert forall|i: int| 0 <= i < init.len() implies #[trigger] init[i] =~= p0[i] by {}
    assert(init =~= p0);
    lemma_frames_read_back(v, v.frame_num as nat, seq![]);
    assert(body + seq![] =~= body);
    let pn = partial_frames(v.frames, v.area(), v.frame_num as int, 0);
    lemma_body_empty(v.width, v.height, v.frame_num, pn);
    assert forall|i: int| 0 <= i < pn.len() implies #[trigger] pn[i] =~= v.frames[i] by {}
    assert(pn =~= v.frames);
}

/// A body line that changes nothing: fewer than seven tokens, or a well-formed
/// cell outside the sprite's frames or area.
pub open spec fn line_skipped(line: Seq<char>, w: u32, h: u32, n: u32) -> bool {
    ||| tokens(line).len() < 7
    ||| (parse_record(tokens(line)) matches Ok(r) && !(r.frame < n && r.x < w && r.y < h))
}

proof fn lemma_first_nl_at(s: Seq<char>, k: int)
    requires
        0 <= k < s.len(),
        s[k] == '\n',
    ensures
        first_nl(s) <= k,
    decreases k,
{
    if k > 0 && s[0] != '\n' {
        lemma_first_nl_at(s.drop_first(), k - 1);
    }
}

proof fn lemma_first_nl_prefix(p: Seq<char>, q: Seq<char>)
    requires
        first_nl(p) < p.len(),
    ensures
        first_nl(p + q) == first_nl(p),
    decreases p.len(),
{
    if p[0] != '\n' {
        assert((p + q).drop_first() =~= p.drop_first() + q);
        lemma_first_nl_prefix(p.drop_first(), q);
    }
}

/// Complete lines at the front of a body are read first, then the rest.
proof fn lemma_body_split(p: Seq<char>, q: Seq<char>, w: u32, h: u32, n: u32, st: Seq<Seq<Option<Pixel>>>)
    requires
        p.len() == 0 || p.last() == '\n',
    ensures
        apply_body(p + q, w, h, n, st) == match apply_body(p, w, h, n, st) {
            Err(e) => Err(e),
            Ok(s2) => apply_body(q, w, h, n, s2),
        },
    decreases p.len(),
{
    if p.len() == 0 {
        assert(p + q =~= q);
        lemma_body_empty(w, h, n, st);
    } else {
        lemma_first_nl_at(p, p.len() - 1);
        let e = first_nl(p);
        lemma_first_nl_prefix(p, q);
        assert((p + q).take(e as int) =~= p.take(e as int));
        let r = p.skip(e + 1int);
        assert((p + q).skip(e + 1int) =~= r + q);
        if r.len() > 0 {
            assert(r.last() == p.last());
        }
        match apply_line(p.take(e as int), w, h, n, st) {
            Err(_) => {},
            Ok(s2) => {
                lemma_body_split(r, q, w, h, n, s2);
            },
        }
    }
}

/// A body made of one line and what follows its end.
proof fn lemma_body_one_line(line: Seq<char>, post: Seq<char>, w: u32, h: u32, n: u32, st: Seq<Seq<Option<Pixel>>>)
    requires
        forall|k: int| 0 <= k < line.len() ==> #[trigger] line[k] != '\n',
        post.len() == 0 || post[0] == '\n',
    ensures
        apply_body(line + post, w, h, n, st) == match apply_line(line, w, h, n, st) {
            Err(e) => Err(e),
            Ok(s2) => if post.len() == 0 { Ok(s2) } else { apply_body(post.drop_first(), w, h, n, s2) },
        },
{
    if post.len() == 0 {
        assert(line + post =~= line);
        lemma_first_nl_line(line, seq![]);
        lemma_first_nl_line_end(line);
        assert(line.take(line.len() as int) =~= line);
    } else {
        assert(line + post =~= line.push('\n') + post.drop_first());
        lemma_body_line(line, post.drop_first(), w, h, n, st);
    }
}

proof fn lemma_first_nl_line_end(a: Seq<char>)
    requires
        forall|k: int| 0 <= k < a.len() ==> #[trigger] a[k] != '\n',
    ensures
        first_nl(a) == a.len(),
    decreases a.len(),
{
    if a.len() > 0 {
        assert forall|k: int| 0 <= k < a.drop_first().len() implies #[trigger] a.drop_first()[k] != '\n' by {
            assert(a.drop_first()[k] == a[k + 1]);
        }
        lemma_first_nl_line_end(a.drop_first());
    }
}

/// The header and body of a text made of a header line and a body.
proof fn lemma_text_parts(head: Seq<char>, body: Seq<char>)
    requires
        forall|k: int| 0 <= k < head.len() ==> #[trigger] head[k] != '\n',
    ensures
        header_line(head + seq!['\n'] + body) == head,
        body_of(head + seq!['\n'] + body) == body,
{
    let s = head + seq!['\n'] + body;
    lemma_first_nl_line(head, body);
    assert(s.take(head.len() as int) =~= head);
    assert(s.skip(head.len() + 1int) =~= body);
}

/// Putting a skipped line (see [`line_skipped`]) between two body lines, or
/// right after the header, does not change what the text reads as.
pub proof fn law_rua_skipped_line(head: Seq<char>, pre: Seq<char>, line: Seq<char>, post: Seq<char>, fps_bits: u64, colorful: bool)
    requires
        forall|k: int| 0 <= k < head.len() ==> #[trigger] head[k] != '\n',
        forall|k: int| 0 <= k < line.len() ==> #[trigger] line[k] != '\n',
        pre.len() == 0 || pre.last() == '\n',
        parse_header(head + seq!['\n'] + pre + post) matches Ok((w, h, n)) ==> line_skipped(line, w, h, n),
    ensures
        parse_rua(head + seq!['\n'] + pre + line.push('\n') + post, fps_bits, colorful) == parse_rua(head + seq!['\n'] + pre + post, fps_bits, colorful),
{
    let s1 = head + seq!['\n'] + pre + post;
    let s2 = head + seq!['\n'] + pre + line.push('\n') + post;
    assert(s1 =~= head + seq!['\n'] + (pre + post));
    assert(s2 =~= head + seq!['\n'] + (pre + (line.push('\n') + post)));
    lemma_text_parts(head, pre + post);
    lemma_text_parts(head, pre + (line.push('\n') + post));
    if let Ok((w, h, n)) = parse_header(s1) {
        let init = Seq::new(n as nat, |i: int| blank((w * h) as nat));
        lemma_body_split(pre, post, w, h, n, init);
        lemma_body_split(pre, line.push('\n') + post, w, h, n, init);
        if let Ok(s) = apply_body(pre, w, h, n, init) {
            lemma_body_line(line, post, w, h, n, s);
        }
    }
}

proof fn lemma_parse_record_first_seven(t1: Seq<Seq<char>>, t2: Seq<Seq<char>>)
    requires
        t1.len() >= 7,
        t2.len() >= 7,
        forall|i: int| 0 <= i < 7 ==> t1[i] == t2[i],
    ensures
        parse_record(t1) == parse_record(t2),
{
    assert(t1[0] == t2[0] && t1[1] == t2[1] && t1[2] == t2[2] && t1[3] == t2[3]);
    assert(t1[4] == t2[4] && t1[5] == t2[5] && t1[6] == t2[6]);
}

proof fn lemma_extra_tokens_line(line: Seq<char>, extra: Seq<char>)
    requires
        tokens(line).len() >= 7,
    ensures
        forall|w: u32, h: u32, n: u32, st: Seq<Seq<Option<Pixel>>>| #[trigger] apply_line(line + seq![' '] + extra, w, h, n, st) == apply_line(line, w, h, n, st),
{
    lemma_tokens_split(line, extra, seq![]);
    let t1 = tokens(line);
    let t2 = tokens(line + seq![' '] + extra);
    assert(t2 == t1 + tokens(extra));
    assert forall|i: int| 0 <= i < 7 implies t1[i] == t2[i] by {
        assert(t2[i] == (t1 + tokens(extra))[i]);
    }
    lemma_parse_record_first_seven(t1, t2);
}

proof fn lemma_no_nl_join(line: Seq<char>, extra: Seq<char>)
    requires
        forall|k: int| 0 <= k < line.len() ==> #[trigger] line[k] != '\n',
        forall|k: int| 0 <= k < extra.len() ==> #[trigger] extra[k] != '\n',
    ensures
        forall|k: int| 0 <= k < (line + seq![' '] + extra).len() ==> #[trigger] (line + seq![' '] + extra)[k] != '\n',
{
    let long = line + seq![' '] + extra;
    assert forall|k: int| 0 <= k < long.len() implies #[trigger] long[k] != '\n' by {
        if k < line.len() {
            assert(long[k] == line[k]);
        } else if k > line.len() {
            assert(long[k] == extra[k - line.len() - 1]);
        }
    }
}

proof fn lemma_body_extra_tokens(pre: Seq<char>, line: Seq<char>, extra: Seq<char>, post: Seq<char>, w: u32, h: u32, n: u32, st: Seq<Seq<Option<Pixel>>>)
    requires
        forall|k: int| 0 <= k < line.len() ==> #[trigger] line[k] != '\n',
        forall|k: int| 0 <= k < extra.len() ==> #[trigger] extra[k] != '\n',
        pre.len() == 0 || pre.last() == '\n',
        post.len() == 0 || post[0] == '\n',
        tokens(line).len() >= 7,
    ensures
        apply_body(pre + (line + seq![' '] + extra + post), w, h, n, st) == apply_body(pre + (line + post), w, h, n, st),
{
    let long = line + seq![' '] + extra;
    lemma_no_nl_join(line, extra);
    lemma_extra_tokens_line(line, extra);
    lemma_body_split(pre, line + post, w, h, n, st);
    lemma_body_split(pre, long + post, w, h, n, st);
    if let Ok(s) = apply_body(pre, w, h, n, st) {
        lemma_body_one_line(line, post, w, h, n, s);
        lemma_body_one_line(long, post, w, h, n, s);
        assert(apply_line(long, w, h, n, s) == apply_line(line, w, h, n, s));
    }
}

/// Tokens after the seventh on a cell line do not change what the text reads as.
pub proof fn law_rua_extra_tokens(head: Seq<char>, pre: Seq<char>, line: Seq<char>, extra: Seq<char>, post: Seq<char>, fps_bits: u64, colorful: bool)
    requires
        forall|k: int| 0 <= k < head.len() ==> #[trigger] head[k] != '\n',
        forall|k: int| 0 <= k < line.len() ==> #[trigger] line[k] != '\n',
        forall|k: int| 0 <= k < extra.len() ==> #[trigger] extra[k] != '\n',
        pre.len() == 0 || pre.last() == '\n',
        post.len() == 0 || post[0] == '\n',
        tokens(line).len() >= 7,
    ensures
        parse_rua(head + seq!['\n'] + pre + line + seq![' '] + extra + post, fps_bits, colorful) == parse_rua(head + seq!['\n'] + pre + line + post, fps_bits, colorful),
{
    let b1 = pre + (line + post);
    let b2 = pre + (line + seq![' '] + extra + post);
    let s1 = head + seq!['\n'] + pre + line + post;
    let s2 = head + seq!['\n'] + pre + line + seq![' '] + extra + post;
    assert(s1 =~= head + seq!['\n'] + b1);
    assert(s2 =~= head + seq!['\n'] + b2);
    lemma_text_parts(head, b1);
    lemma_text_parts(head, b2);
    assert(parse_header(s1) == parse_header(s2));
    if let Ok((w, h, n)) = parse_header(s1) {
        let init = Seq::new(n as nat, |i: int| blank((w * h) as nat));
        lemma_body_extra_tokens(pre, line, extra, post, w, h, n, init);
    }
}

} // verus!
