//! The terminal text of a sprite frame: characters, 24-bit color escape
//! sequences sent only when the color changes, and a reset at the end of each
//! row that switched a color on.

use vstd::prelude::*;
use crate::sprite::Pixel;
use crate::text::{dec, is_digit, lemma_dec_digits, push_char, push_dec};

verus! {

/// The escape sequence that selects the foreground color `c`.
pub open spec fn sgr(c: (u8, u8, u8)) -> Seq<char> {
    seq!['\x1b', '[', '3', '8', ';', '2', ';'] + dec(c.0 as nat) + seq![';'] + dec(c.1 as nat)
        + seq![';'] + dec(c.2 as nat) + seq!['m']
}

/// The escape sequence that resets the colors.
pub open spec fn reset_seq() -> Seq<char> {
    seq!['\x1b', '[', '0', 'm']
}

/// The text of a run of cells when the color in force before it is `cur`:
/// an empty cell is a space; a filled cell is its character, preceded in color
/// mode by the escape sequence of its color when that differs from the color in force.
pub open spec fn cells_text(cells: Seq<Option<Pixel>>, colorful: bool, cur: Option<(u8, u8, u8)>) -> Seq<char>
    decreases cells.len(),
{
    if cells.len() == 0 {
        seq![]
    } else {
        match cells[0] {
            None => seq![' '] + cells_text(cells.drop_first(), colorful, cur),
            Some(p) => if colorful && cur != Some(p.color) {
                sgr(p.color).push(p.ch) + cells_text(cells.drop_first(), colorful, Some(p.color))
            } else {
                seq![p.ch] + cells_text(cells.drop_first(), colorful, cur)
            },
        }
    }
}

/// The color in force after the run of cells.
pub open spec fn cells_end_color(cells: Seq<Option<Pixel>>, colorful: bool, cur: Option<(u8, u8, u8)>) -> Option<(u8, u8, u8)>
    decreases cells.len(),
{
    if cells.len() == 0 {
        cur
    } else {
        match cells[0] {
            None => cells_end_color(cells.drop_first(), colorful, cur),
            Some(p) => if colorful {
                cells_end_color(cells.drop_first(), colorful, Some(p.color))
            } else {
                cells_end_color(cells.drop_first(), colorful, cur)
            },
        }
    }
}

/// Some cell of the run is filled.
pub open spec fn has_pixel(cells: Seq<Option<Pixel>>) -> bool {
    exists|i: int| 0 <= i < cells.len() && #[trigger] cells[i] is Some
}

/// The text of one row: its cells, a color reset when it is in color and has a
/// filled cell, then `\r\n`.
pub open spec fn row_text(cells: Seq<Option<Pixel>>, colorful: bool) -> Seq<char> {
    cells_text(cells, colorful, None) + (if colorful && has_pixel(cells) { reset_seq() } else { seq![] })
        + seq!['\r', '\n']
}

/// The cells of row `y` of a frame `width` cells wide.
pub open spec fn row_of(data: Seq<Option<Pixel>>, width: nat, y: nat) -> Seq<Option<Pixel>> {
    data.subrange((y * width) as int, (y * width + width) as int)
}

/// The text of the first `rows` rows of a frame.
pub open spec fn rows_text(data: Seq<Option<Pixel>>, width: nat, colorful: bool, rows: nat) -> Seq<char>
    decreases rows,
{
    if rows == 0 {
        seq![]
    } else {
        rows_text(data, width, colorful, (rows - 1) as nat) + row_text(row_of(data, width, (rows - 1) as nat), colorful)
    }
}

/// After a run of cells the color in force is a color exactly when one was in
/// force before or (in color mode) the run has a filled cell; without color it
/// does not change.
pub proof fn lemma_end_color(cells: Seq<Option<Pixel>>, colorful: bool, cur: Option<(u8, u8, u8)>)
    ensures
        colorful ==> (cells_end_color(cells, colorful, cur) is Some <==> (cur is Some || has_pixel(cells))),
        !colorful ==> cells_end_color(cells, colorful, cur) == cur,
    decreases cells.len(),
{
    if cells.len() > 0 {
        let rest = cells.drop_first();
        match cells[0] {
            None => lemma_end_color(rest, colorful, cur),
            Some(p) => if colorful {
                lemma_end_color(rest, colorful, Some(p.color))
            } else {
                lemma_end_color(rest, colorful, cur)
            },
        }
        if has_pixel(rest) {
            let i = choose|i: int| 0 <= i < rest.len() && #[trigger] rest[i] is Some;
            assert(cells[i + 1] is Some);
        }
        if has_pixel(cells) && cells[0] is None {
            let i = choose|i: int| 0 <= i < cells.len() && #[trigger] cells[i] is Some;
            assert(rest[i - 1] is Some);
        }
    }
}

/// The character an empty or filled cell shows.
pub open spec fn cell_char(c: Option<Pixel>) -> char {
    match c {
        Some(p) => p.ch,
        None => ' ',
    }
}

/// Without color a row is its cells' characters (a space for an empty cell)
/// and `\r\n`, with no escape sequence.
pub proof fn law_plain_row(cells: Seq<Option<Pixel>>, cur: Option<(u8, u8, u8)>)
    ensures
        cells_text(cells, false, cur) == cells.map_values(|c: Option<Pixel>| cell_char(c)),
        row_text(cells, false) == cells.map_values(|c: Option<Pixel>| cell_char(c)) + seq!['\r', '\n'],
    decreases cells.len(),
{
    if cells.len() > 0 {
        law_plain_row(cells.drop_first(), cur);
        law_plain_row(cells.drop_first(), None);
        assert(cells.map_values(|c: Option<Pixel>| cell_char(c)) =~= seq![cell_char(cells[0])]
            + cells.drop_first().map_values(|c: Option<Pixel>| cell_char(c)));
    } else {
        assert(cells.map_values(|c: Option<Pixel>| cell_char(c)) =~= seq![]);
    }
    assert(row_text(cells, false) =~= cells_text(cells, false, None) + seq!['\r', '\n']);
}

/// The text with its escape sequences taken out, reading from the state
/// `in_esc` (inside an escape sequence or not): an escape sequence runs from
/// `\x1b` through the next `m`, or to the end of the text.
pub open spec fn strip_from(s: Seq<char>, in_esc: bool) -> Seq<char>
    decreases s.len(),
{
    if s.len() == 0 {
        seq![]
    } else if in_esc {
        strip_from(s.drop_first(), s[0] != 'm')
    } else if s[0] == '\x1b' {
        strip_from(s.drop_first(), true)
    } else {
        seq![s[0]] + strip_from(s.drop_first(), false)
    }
}

/// Whether the end of the text lies inside an escape sequence, reading from the state `in_esc`.
pub open spec fn esc_after(s: Seq<char>, in_esc: bool) -> bool
    decreases s.len(),
{
    if s.len() == 0 {
        in_esc
    } else if in_esc {
        esc_after(s.drop_first(), s[0] != 'm')
    } else {
        esc_after(s.drop_first(), s[0] == '\x1b')
    }
}

/// The text with every escape sequence (from `\x1b` through the next `m`) taken out.
pub open spec fn strip_escapes(s: Seq<char>) -> Seq<char> {
    strip_from(s, false)
}

/// Reading two texts one after the other.
pub proof fn lemma_strip_concat(a: Seq<char>, b: Seq<char>, in_esc: bool)
    ensures
        strip_from(a + b, in_esc) == strip_from(a, in_esc) + strip_from(b, esc_after(a, in_esc)),
        esc_after(a + b, in_esc) == esc_after(b, esc_after(a, in_esc)),
    decreases a.len(),
{
    if a.len() == 0 {
        assert(a + b =~= b);
    } else {
        assert((a + b).drop_first() =~= a.drop_first() + b);
        let next = if in_esc { a[0] != 'm' } else { a[0] == '\x1b' };
        lemma_strip_concat(a.drop_first(), b, next);
        if !in_esc && a[0] != '\x1b' {
            assert(seq![a[0]] + strip_from(a.drop_first(), false) + strip_from(b, esc_after(a, in_esc))
                =~= seq![a[0]] + (strip_from(a.drop_first(), false) + strip_from(b, esc_after(a, in_esc))));
        }
    }
}

/// A text without `m`, read inside an escape sequence, shows nothing and stays inside it.
proof fn lemma_strip_inside(t: Seq<char>)
    requires
        forall|k: int| 0 <= k < t.len() ==> t[k] != 'm',
    ensures
        strip_from(t, true) == Seq::<char>::empty(),
        esc_after(t, true),
    decreases t.len(),
{
    if t.len() > 0 {
        lemma_strip_inside(t.drop_first());
    }
}

/// A text without `\x1b` shows as itself.
pub proof fn lemma_strip_plain(t: Seq<char>)
    requires
        forall|k: int| 0 <= k < t.len() ==> t[k] != '\x1b',
    ensures
        strip_from(t, false) == t,
        !esc_after(t, false),
    decreases t.len(),
{
    if t.len() > 0 {
        lemma_strip_plain(t.drop_first());
        assert(seq![t[0]] + t.drop_first() =~= t);
    }
}

/// `\x1b`, a text without `m`, then `m`: nothing shows and the sequence is closed.
proof fn lemma_strip_escape(t: Seq<char>)
    requires
        forall|k: int| 0 <= k < t.len() ==> t[k] != 'm',
    ensures
        strip_from(seq!['\x1b'] + t + seq!['m'], false) == Seq::<char>::empty(),
        !esc_after(seq!['\x1b'] + t + seq!['m'], false),
{
    let e = seq!['\x1b'];
    let m = seq!['m'];
    assert(e[0] == '\x1b' && m[0] == 'm');
    assert(e.drop_first() =~= Seq::<char>::empty());
    assert(m.drop_first() =~= Seq::<char>::empty());
    assert(strip_from(e.drop_first(), true) == Seq::<char>::empty());
    assert(esc_after(e.drop_first(), true));
    assert(strip_from(m.drop_first(), false) == Seq::<char>::empty());
    assert(!esc_after(m.drop_first(), false));
    assert(strip_from(e, false) == Seq::<char>::empty());
    assert(esc_after(e, false));
    assert(strip_from(m, true) == Seq::<char>::empty());
    assert(!esc_after(m, true));
    lemma_strip_inside(t);
    lemma_strip_concat(e, t, false);
    lemma_strip_concat(e + t, m, false);
}

/// A color escape sequence shows nothing and is closed.
pub proof fn lemma_strip_sgr(c: (u8, u8, u8))
    ensures
        strip_from(sgr(c), false) == Seq::<char>::empty(),
        !esc_after(sgr(c), false),
{
    let t = seq!['[', '3', '8', ';', '2', ';'] + dec(c.0 as nat) + seq![';'] + dec(c.1 as nat) + seq![';']
        + dec(c.2 as nat);
    lemma_dec_digits(c.0 as nat);
    lemma_dec_digits(c.1 as nat);
    lemma_dec_digits(c.2 as nat);
    assert forall|k: int| 0 <= k < t.len() implies t[k] != 'm' by {
        let l0 = dec(c.0 as nat).len() as int;
        let l1 = dec(c.1 as nat).len() as int;
        if k >= 6 && k < 6 + l0 {
            assert(is_digit(dec(c.0 as nat)[k - 6]));
        } else if k > 6 + l0 && k < 7 + l0 + l1 {
            assert(is_digit(dec(c.1 as nat)[k - 7 - l0]));
        } else if k > 7 + l0 + l1 {
            assert(is_digit(dec(c.2 as nat)[k - 8 - l0 - l1]));
        }
    }
    assert(sgr(c) =~= seq!['\x1b'] + t + seq!['m']);
    lemma_strip_escape(t);
}

/// The color reset sequence shows nothing and is closed.
pub proof fn lemma_strip_reset()
    ensures
        strip_from(reset_seq(), false) == Seq::<char>::empty(),
        !esc_after(reset_seq(), false),
{
    let t = seq!['[', '0'];
    assert(reset_seq() =~= seq!['\x1b'] + t + seq!['m']);
    lemma_strip_escape(t);
}

/// No cell of the run shows the escape character.
pub open spec fn no_escape_cells(cells: Seq<Option<Pixel>>) -> bool {
    forall|i: int| 0 <= i < cells.len() ==> cell_char(#[trigger] cells[i]) != '\x1b'
}

/// Without its escape sequences a run of cells is its cells' characters, with
/// no escape sequence left open.
pub proof fn lemma_strip_cells(cells: Seq<Option<Pixel>>, colorful: bool, cur: Option<(u8, u8, u8)>)
    requires
        no_escape_cells(cells),
    ensures
        strip_from(cells_text(cells, colorful, cur), false) == cells.map_values(|c: Option<Pixel>| cell_char(c)),
        !esc_after(cells_text(cells, colorful, cur), false),
    decreases cells.len(),
{
    if cells.len() == 0 {
        assert(cells.map_values(|c: Option<Pixel>| cell_char(c)) =~= Seq::<char>::empty());
    } else {
        let rest = cells.drop_first();
        assert forall|i: int| 0 <= i < rest.len() implies cell_char(#[trigger] rest[i]) != '\x1b' by {
            assert(rest[i] == cells[i + 1]);
        }
        assert(cells.map_values(|c: Option<Pixel>| cell_char(c)) =~= seq![cell_char(cells[0])]
            + rest.map_values(|c: Option<Pixel>| cell_char(c)));
        let one = seq![cell_char(cells[0])];
        assert(cell_char(cells[0]) != '\x1b');
        lemma_strip_plain(one);
        match cells[0] {
            None => {
                lemma_strip_cells(rest, colorful, cur);
                lemma_strip_concat(one, cells_text(rest, colorful, cur), false);
            },
            Some(p) => if colorful && cur != Some(p.color) {
                lemma_strip_cells(rest, colorful, Some(p.color));
                lemma_strip_sgr(p.color);
                assert(sgr(p.color).push(p.ch) =~= sgr(p.color) + one);
                lemma_strip_concat(sgr(p.color), one, false);
                lemma_strip_concat(sgr(p.color) + one, cells_text(rest, colorful, Some(p.color)), false);
                assert(Seq::<char>::empty() + one =~= one);
            } else {
                lemma_strip_cells(rest, colorful, cur);
                lemma_strip_concat(one, cells_text(rest, colorful, cur), false);
            },
        }
    }
}

/// Without its escape sequences a row is the row as printed without color.
pub proof fn lemma_strip_row(cells: Seq<Option<Pixel>>, colorful: bool)
    requires
        no_escape_cells(cells),
    ensures
        strip_from(row_text(cells, colorful), false) == row_text(cells, false),
        !esc_after(row_text(cells, colorful), false),
{
    let body = cells_text(cells, colorful, None);
    let tail = if colorful && has_pixel(cells) { reset_seq() } else { seq![] };
    let eol = seq!['\r', '\n'];
    lemma_strip_cells(cells, colorful, None);
    law_plain_row(cells, None);
    lemma_strip_reset();
    lemma_strip_plain(Seq::<char>::empty());
    lemma_strip_plain(eol);
    lemma_strip_concat(body, tail, false);
    lemma_strip_concat(body + tail, eol, false);
    assert(cells.map_values(|c: Option<Pixel>| cell_char(c)) + Seq::<char>::empty()
        =~= cells.map_values(|c: Option<Pixel>| cell_char(c)));
}

/// Without its escape sequences the text of the first `rows` rows is that text
/// as printed without color.
pub proof fn lemma_strip_rows(data: Seq<Option<Pixel>>, width: nat, colorful: bool, rows: nat)
    requires
        rows * width <= data.len(),
        no_escape_cells(data),
    ensures
        strip_from(rows_text(data, width, colorful, rows), false) == rows_text(data, width, false, rows),
        !esc_after(rows_text(data, width, colorful, rows), false),
    decreases rows,
{
    if rows == 0 {
        lemma_strip_plain(Seq::<char>::empty());
    } else {
        let y = (rows - 1) as nat;
        assert(y * width + width == rows * width) by (nonlinear_arith)
            requires
                y == rows - 1,
        ;
        assert(y * width <= rows * width) by (nonlinear_arith)
            requires
                y <= rows,
        ;
        lemma_strip_rows(data, width, colorful, y);
        let row = row_of(data, width, y);
        assert forall|i: int| 0 <= i < row.len() implies cell_char(#[trigger] row[i]) != '\x1b' by {
            assert(row[i] == data[y * width + i]);
        }
        lemma_strip_row(row, colorful);
        lemma_strip_concat(rows_text(data, width, colorful, y), row_text(row, colorful), false);
    }
}

/// The color of the last filled cell of the run, or `cur` when none is filled.
pub open spec fn last_color(cells: Seq<Option<Pixel>>, cur: Option<(u8, u8, u8)>) -> Option<(u8, u8, u8)>
    decreases cells.len(),
{
    if cells.len() == 0 {
        cur
    } else {
        match cells.last() {
            Some(p) => Some(p.color),
            None => last_color(cells.drop_last(), cur),
        }
    }
}

proof fn lemma_cells_concat(a: Seq<Option<Pixel>>, b: Seq<Option<Pixel>>, colorful: bool, cur: Option<(u8, u8, u8)>)
    ensures
        cells_text(a + b, colorful, cur) == cells_text(a, colorful, cur) + cells_text(b, colorful,
            cells_end_color(a, colorful, cur)),
        cells_end_color(a + b, colorful, cur) == cells_end_color(b, colorful, cells_end_color(a, colorful, cur)),
    decreases a.len(),
{
    if a.len() == 0 {
        assert(a + b =~= b);
    } else {
        assert((a + b).drop_first() =~= a.drop_first() + b);
        assert((a + b)[0] == a[0]);
        let next = match a[0] {
            Some(p) => if colorful { Some(p.color) } else { cur },
            None => cur,
        };
        lemma_cells_concat(a.drop_first(), b, colorful, next);
        let t = cells_text(a.drop_first(), colorful, next);
        let u = cells_text(b, colorful, cells_end_color(a, colorful, cur));
        match a[0] {
            None => {
                assert(seq![' '] + (t + u) =~= seq![' '] + t + u);
            },
            Some(p) => if colorful && cur != Some(p.color) {
                assert(sgr(p.color).push(p.ch) + (t + u) =~= sgr(p.color).push(p.ch) + t + u);
            } else {
                assert(seq![p.ch] + (t + u) =~= seq![p.ch] + t + u);
            },
        }
    }
}

proof fn lemma_end_is_last_color(cells: Seq<Option<Pixel>>, cur: Option<(u8, u8, u8)>)
    ensures
        cells_end_color(cells, true, cur) == last_color(cells, cur),
    decreases cells.len(),
{
    if cells.len() > 0 {
        let init = cells.drop_last();
        let one = seq![cells.last()];
        assert(cells =~= init + one);
        lemma_end_is_last_color(init, cur);
        lemma_cells_concat(init, one, true, cur);
        let e = cells_end_color(init, true, cur);
        let rest = one.drop_first();
        assert(rest =~= Seq::<Option<Pixel>>::empty());
        assert(one[0] == cells.last());
        match cells.last() {
            Some(p) => {
                assert(cells_end_color(rest, true, Some(p.color)) == Some(p.color));
            },
            None => {
                assert(cells_end_color(rest, true, e) == e);
            },
        }
    }
}

/// How a row's text grows cell by cell: an empty cell adds a space; a filled
/// cell adds its character, preceded in color mode by the escape sequence of
/// its full color unless that exact color (all three channels) is already in
/// force, the color in force being that of the last filled cell before it (or
/// `cur` when there is none). Without color a cell adds just its character.
pub proof fn law_escape_on_color_change(cells: Seq<Option<Pixel>>, cur: Option<(u8, u8, u8)>, c: Option<Pixel>)
    ensures
        cells_text(cells.push(c), true, cur) == cells_text(cells, true, cur) + match c {
            None => seq![' '],
            Some(p) => if last_color(cells, cur) == Some(p.color) {
                seq![p.ch]
            } else {
                sgr(p.color) + seq![p.ch]
            },
        },
        cells_text(cells.push(c), false, cur) == cells_text(cells, false, cur) + seq![cell_char(c)],
{
    let one = seq![c];
    assert(cells.push(c) =~= cells + one);
    assert(one.drop_first() =~= Seq::<Option<Pixel>>::empty());
    assert(one[0] == c);
    lemma_cells_concat(cells, one, true, cur);
    lemma_cells_concat(cells, one, false, cur);
    lemma_end_is_last_color(cells, cur);
    lemma_end_color(cells, false, cur);
    let rest = one.drop_first();
    let e = last_color(cells, cur);
    assert(cells_text(rest, false, cur) == Seq::<char>::empty());
    assert(cells_text(rest, true, e) == Seq::<char>::empty());
    match c {
        None => {
            assert(seq![' '] + Seq::<char>::empty() =~= seq![' ']);
        },
        Some(p) => {
            assert(cells_text(rest, true, Some(p.color)) == Seq::<char>::empty());
            assert(seq![p.ch] + Seq::<char>::empty() =~= seq![p.ch]);
            assert(sgr(p.color).push(p.ch) + Seq::<char>::empty() =~= sgr(p.color) + seq![p.ch]);
        },
    }
}

/// Appends the escape sequence of color `c`.
pub fn push_sgr(s: &mut String, c: (u8, u8, u8))
    ensures
        final(s)@ == old(s)@ + sgr(c),
{
    push_char(s, '\x1b');
    push_char(s, '[');
    push_char(s, '3');
    push_char(s, '8');
    push_char(s, ';');
    push_char(s, '2');
    push_char(s, ';');
    push_dec(s, c.0 as u64);
    push_char(s, ';');
    push_dec(s, c.1 as u64);
    push_char(s, ';');
    push_dec(s, c.2 as u64);
    push_char(s, 'm');
    assert(s@ =~= old(s)@ + sgr(c));
}

/// Appends the color reset sequence.
pub fn push_reset(s: &mut String)
    ensures
        final(s)@ == old(s)@ + reset_seq(),
{
    push_char(s, '\x1b');
    push_char(s, '[');
    push_char(s, '0');
    push_char(s, 'm');
    assert(s@ =~= old(s)@ + reset_seq());
}

} // verus!
