//! Character ramps and the mapping from a gray level to a ramp character.

use vstd::prelude::*;

verus! {

/// The short ramp: nine characters from dark to bright.
pub open spec fn simple_table() -> Seq<char> {
    seq![' ', '.', ':', '-', '=', '+', '*', '#', '%']
}

/// The long ramp used for detailed sprites and pictures (72 characters).
pub open spec fn detail_table() -> Seq<char> {
    seq![' ', '.', '\'', '`', '^', '\\', '"', ',', ':', ';', 'I', 'l', '!', 'i', '>', '<', '~',
        '+', '_', '-', '?', ']', '[', '}', '{', '1', ')', '(', '|', '\\', '\\', '/', 't', 'f',
        'j', 'r', 'x', 'n', 'u', 'v', 'c', 'z', 'X', 'Y', 'U', 'J', 'C', 'L', 'Q', '0', 'O', 'Z',
        'm', 'w', 'q', 'p', 'd', 'b', 'k', 'h', 'a', 'o', '*', '#', 'M', 'W', '&', '8', '%', 'B',
        '@', '$']
}

/// The ramp chosen by `detail`.
pub open spec fn ascii_table(detail: bool) -> Seq<char> {
    if detail { detail_table() } else { simple_table() }
}

/// Returns the character ramp: the long one when `detail` is set, the short one otherwise.
pub fn get_ascii_table(detail: bool) -> (t: &'static str)
    ensures
        t@ == ascii_table(detail),
{
    if detail {
        let t = r#" .'`^\",:;Il!i><~+_-?][}{1)(|\\/tfjrxnuvczXYUJCLQ0OZmwqpdbkhao*#MW&8%B@$"#;
        proof {
            reveal_strlit(r#" .'`^\",:;Il!i><~+_-?][}{1)(|\\/tfjrxnuvczXYUJCLQ0OZmwqpdbkhao*#MW&8%B@$"#);
        }
        assert(t@ =~= detail_table());
        t
    } else {
        let t = " .:-=+*#%";
        proof {
            reveal_strlit(" .:-=+*#%");
        }
        assert(t@ =~= simple_table());
        t
    }
}

/// The long ramp of the stand-alone picture printer (73 characters; it differs
/// from [`detail_table`] in where its backslashes stand and has no `$`).
pub open spec fn classic_detail_table() -> Seq<char> {
    seq![' ', '.', '\\', '\'', '`', '^', '"', '\\', '\\', ',', ':', ';', 'I', 'l', '!', 'i', '>',
        '<', '~', '+', '_', '-', '?', ']', '[', '}', '{', '1', ')', '(', '|', '\\', '\\', '/', 't',
        'f', 'j', 'r', 'x', 'n', 'u', 'v', 'c', 'z', 'X', 'Y', 'U', 'J', 'C', 'L', 'Q', '0', 'O', 'Z',
        'm', 'w', 'q', 'p', 'd', 'b', 'k', 'h', 'a', 'o', '*', '#', 'M', 'W', '&', '8', '%', 'B', '@']
}

/// The ramp of the stand-alone picture printer chosen by `detail`.
pub open spec fn classic_table(detail: bool) -> Seq<char> {
    if detail { classic_detail_table() } else { simple_table() }
}

/// Returns the ramp of the stand-alone picture printer: its long ramp when
/// `detail` is set, the short one otherwise.
pub fn classic_ascii_table(detail: bool) -> (t: &'static str)
    ensures
        t@ == classic_table(detail),
{
    if detail {
        let t = r#" .\'`^"\\,:;Il!i><~+_-?][}{1)(|\\/tfjrxnuvczXYUJCLQ0OZmwqpdbkhao*#MW&8%B@"#;
        proof {
            reveal_strlit(r#" .\'`^"\\,:;Il!i><~+_-?][}{1)(|\\/tfjrxnuvczXYUJCLQ0OZmwqpdbkhao*#MW&8%B@"#);
        }
        assert(t@ =~= classic_detail_table());
        t
    } else {
        let t = " .:-=+*#%";
        proof {
            reveal_strlit(" .:-=+*#%");
        }
        assert(t@ =~= simple_table());
        t
    }
}

/// The position on a ramp of `len` characters of gray level `luma`
/// (0 black to 255 white): `luma / 255 * (len - 1)`, rounded down.
pub open spec fn luma_pos(luma: u8, len: nat) -> nat {
    ((luma as nat) * ((len - 1) as nat) / 255) as nat
}

/// The position on a ramp of `table_len` characters of gray level `luma`.
pub fn luma_index(luma: u8, table_len: usize) -> (i: usize)
    requires
        1 <= table_len <= 1000,
    ensures
        i == luma_pos(luma, table_len as nat),
        i < table_len,
{
    let m = table_len - 1;
    assert((luma as usize) * m <= 255 * 1000) by (nonlinear_arith)
        requires
            luma <= 255,
            m < 1000,
    ;
    let p = (luma as usize) * m;
    assert(p <= 255 * m) by (nonlinear_arith)
        requires
            p == luma * m,
            luma <= 255,
    ;
    assert(p / 255 <= m) by (nonlinear_arith)
        requires
            p <= 255 * m,
    ;
    p / 255
}

/// The ramp character of gray level `luma`.
pub fn ramp_char(table: &Vec<char>, luma: u8) -> (c: char)
    requires
        1 <= table@.len() <= 1000,
    ensures
        c == table@[luma_pos(luma, table@.len()) as int],
{
    table[luma_index(luma, table.len())]
}

/// The gray level of an RGB color: `(2126 r + 7152 g + 722 b) / 10000`.
pub open spec fn gray_level(r: u8, g: u8, b: u8) -> u8 {
    ((2126 * (r as nat) + 7152 * (g as nat) + 722 * (b as nat)) / 10000) as u8
}

/// The gray level of an RGB color (ITU-R BT.709 weights, rounded down).
pub fn rgb_to_luma(r: u8, g: u8, b: u8) -> (l: u8)
    ensures
        l == gray_level(r, g, b),
        l as nat == (2126 * (r as nat) + 7152 * (g as nat) + 722 * (b as nat)) / 10000,
{
    let sum: u32 = 2126 * (r as u32) + 7152 * (g as u32) + 722 * (b as u32);
    assert(sum / 10000 <= 255);
    (sum / 10000) as u8
}

/// The ramp position grows with the gray level, black is the first character,
/// white the last, and every position is on the ramp.
pub proof fn law_luma_pos_monotone(l1: u8, l2: u8, len: nat)
    requires
        len >= 1,
        l1 <= l2,
    ensures
        luma_pos(l1, len) <= luma_pos(l2, len),
        luma_pos(0, len) == 0,
        luma_pos(255, len) == len - 1,
        luma_pos(l2, len) < len,
{
    let m = (len - 1) as nat;
    assert((l1 as nat) * m <= (l2 as nat) * m) by (nonlinear_arith)
        requires
            l1 <= l2,
    ;
    assert(((l1 as nat) * m) / 255 <= ((l2 as nat) * m) / 255) by (nonlinear_arith)
        requires
            (l1 as nat) * m <= (l2 as nat) * m,
    ;
    assert((255 * m) / 255 == m) by (nonlinear_arith);
    assert((l2 as nat) * m <= 255 * m) by (nonlinear_arith)
        requires
            l2 <= 255,
    ;
    assert(((l2 as nat) * m) / 255 <= m) by (nonlinear_arith)
        requires
            (l2 as nat) * m <= 255 * m,
    ;
}

/// A gray color keeps its level: the three weights add up to 10000.
pub proof fn law_gray_of_gray(v: u8)
    ensures
        gray_level(v, v, v) == v,
{
    assert(2126 * (v as nat) + 7152 * (v as nat) + 722 * (v as nat) == 10000 * (v as nat));
    assert((10000 * (v as nat)) / 10000 == v as nat);
}

} // verus!
