use rua::rua::{rua_header, RuaError};
use rua::sprite::{Frame, Pixel, Sprite};
use rua::text::{CharErrorKind, IntErrorKind};

fn px(ch: char, r: u8, g: u8, b: u8) -> Option<Pixel> {
    Some(Pixel { ch, color: (r, g, b) })
}

/// A sprite with the given frames, built through the public operations.
fn sprite_with(width: u32, height: u32, frames: Vec<Vec<Option<Pixel>>>, fps: f64, colorful: bool) -> Sprite {
    let mut s = Sprite::new(width, height, 0, fps.to_bits(), colorful);
    for data in frames {
        assert!(s.insert_frame(Frame { data }));
    }
    s
}

#[test]
fn test_from_rua() {
    let mut mock_data = vec![None; 10];
    mock_data[0] = Some(Pixel { ch: '*', color: (255, 0, 0) });
    mock_data[1] = Some(Pixel { ch: '*', color: (255, 0, 0) });
    mock_data[2] = Some(Pixel { ch: '*', color: (255, 0, 0) });
    mock_data[3] = Some(Pixel { ch: '*', color: (0, 255, 0) });
    mock_data[4] = Some(Pixel { ch: '*', color: (0, 255, 0) });
    mock_data[5] = Some(Pixel { ch: '*', color: (0, 255, 0) });

    let mut res = Sprite::new(10, 1, 1, 10f64.to_bits(), true);
    assert!(res.remove_frame());
    assert!(res.insert_frame(Frame { data: mock_data }));

    let text = "10 1 1\n0 0 0 * 255 0 0\n0 1 0 * 255 0 0\n0 2 0 * 255 0 0\n0 3 0 * 0 255 0\n0 4 0 * 0 255 0\n0 5 0 * 0 255 0\n";
    let sprite = Sprite::from_rua(text, 10f64.to_bits(), true);
    if let Ok(parsed_sprite) = sprite {
        assert_eq!(res, parsed_sprite);
    } else {
        panic!("the text should read");
    }
}

#[test]
fn new_sprite_is_blank() {
    let s = Sprite::new(3, 2, 2, 1f64.to_bits(), false);
    let f = s.get_current_frame().unwrap();
    assert_eq!(f.data, vec![None; 6]);
    assert_eq!(s.to_string(1), "   \r\n   \r\n");
    assert_eq!(s.to_string(2), "   \r\n   \r\n");
    assert_eq!(s.to_string(0), "");
    assert_eq!(s.to_string(3), "");
}

#[test]
fn empty_sprite_has_no_current_frame() {
    let mut s = Sprite::new(2, 2, 0, 0, true);
    assert!(s.get_current_frame().is_none());
    s.next();
    assert!(s.get_current_frame().is_none());
    assert!(!s.remove_frame());
    assert!(s.remove_frame_at(0).is_none());
}

#[test]
fn next_wraps_around() {
    let a = vec![px('a', 1, 2, 3)];
    let b = vec![px('b', 1, 2, 3)];
    let c = vec![px('c', 1, 2, 3)];
    let mut s = sprite_with(1, 1, vec![a.clone(), b.clone(), c.clone()], 5.0, false);
    assert_eq!(s.get_current_frame().unwrap().data, a);
    s.next();
    assert_eq!(s.get_current_frame().unwrap().data, b);
    s.next();
    assert_eq!(s.get_current_frame().unwrap().data, c);
    s.next();
    assert_eq!(s.get_current_frame().unwrap().data, a);
}

#[test]
fn next_cycle_returns_to_start() {
    let frames: Vec<Vec<Option<Pixel>>> = (0..4).map(|i| vec![px((b'a' + i) as char, 0, 0, 0)]).collect();
    let mut s = sprite_with(1, 1, frames, 1.0, true);
    s.next();
    let before = s.get_current_frame().unwrap().clone();
    for _ in 0..4 {
        s.next();
    }
    assert_eq!(s.get_current_frame().unwrap(), &before);
}

#[test]
fn insert_frame_checks_size() {
    let mut s = Sprite::new(2, 1, 1, 0, false);
    assert!(!s.insert_frame(Frame { data: vec![None; 3] }));
    assert!(s.insert_frame(Frame { data: vec![px('x', 0, 0, 0), None] }));
    assert_eq!(s.to_string(2), "x \r\n");
}

#[test]
fn insert_frame_at_checks_position_and_size() {
    let mut s = sprite_with(1, 1, vec![vec![px('a', 0, 0, 0)], vec![px('b', 0, 0, 0)]], 1.0, false);
    assert!(!s.insert_frame_at(Frame { data: vec![px('z', 0, 0, 0)] }, 3));
    assert!(!s.insert_frame_at(Frame { data: vec![] }, 1));
    assert!(s.insert_frame_at(Frame { data: vec![px('m', 0, 0, 0)] }, 1));
    assert_eq!(s.to_string(1), "a\r\n");
    assert_eq!(s.to_string(2), "m\r\n");
    assert_eq!(s.to_string(3), "b\r\n");
}

#[test]
fn insert_then_remove_restores() {
    let frames = vec![vec![px('a', 0, 0, 0)], vec![px('b', 0, 0, 0)]];
    let original = sprite_with(1, 1, frames.clone(), 2.0, true);
    let mut s = sprite_with(1, 1, frames, 2.0, true);
    let extra = Frame { data: vec![px('q', 9, 9, 9)] };
    assert!(s.insert_frame_at(extra.clone(), 1));
    assert_eq!(s.remove_frame_at(1), Some(extra));
    assert_eq!(s, original);
}

#[test]
fn push_then_remove_last_restores() {
    let frames = vec![vec![px('a', 0, 0, 0)]];
    let original = sprite_with(1, 1, frames.clone(), 2.0, true);
    let mut s = sprite_with(1, 1, frames, 2.0, true);
    assert!(s.insert_frame(Frame { data: vec![None] }));
    assert!(s.remove_frame());
    assert_eq!(s, original);
}

#[test]
fn remove_moves_current_frame_back() {
    let frames = vec![vec![px('a', 0, 0, 0)], vec![px('b', 0, 0, 0)], vec![px('c', 0, 0, 0)]];
    let mut s = sprite_with(1, 1, frames, 1.0, false);
    s.next();
    s.next();
    assert_eq!(s.get_current_frame().unwrap().data, vec![px('c', 0, 0, 0)]);
    assert_eq!(s.remove_frame_at(2), Some(Frame { data: vec![px('c', 0, 0, 0)] }));
    assert_eq!(s.get_current_frame().unwrap().data, vec![px('b', 0, 0, 0)]);
    assert_eq!(s.remove_frame_at(0), Some(Frame { data: vec![px('a', 0, 0, 0)] }));
    assert_eq!(s.get_current_frame().unwrap().data, vec![px('b', 0, 0, 0)]);
    assert!(s.remove_frame());
    assert!(s.get_current_frame().is_none());
}

#[test]
fn to_string_sends_color_only_on_change() {
    let s = sprite_with(3, 2, vec![vec![
        px('*', 255, 0, 0), px('#', 255, 0, 0), None,
        px('o', 0, 10, 200), None, px('o', 0, 10, 200),
    ]], 1.0, true);
    assert_eq!(
        s.to_string(1),
        "\x1b[38;2;255;0;0m*# \x1b[0m\r\n\x1b[38;2;0;10;200mo o\x1b[0m\r\n"
    );
}

#[test]
fn to_string_resets_color_each_row() {
    let s = sprite_with(1, 2, vec![vec![px('a', 1, 1, 1), px('b', 1, 1, 1)]], 1.0, true);
    assert_eq!(s.to_string(1), "\x1b[38;2;1;1;1ma\x1b[0m\r\n\x1b[38;2;1;1;1mb\x1b[0m\r\n");
}

#[test]
fn to_string_empty_row_in_color_has_no_reset() {
    let s = sprite_with(2, 1, vec![vec![None, None]], 1.0, true);
    assert_eq!(s.to_string(1), "  \r\n");
}

#[test]
fn to_string_plain_row_is_characters() {
    let s = sprite_with(3, 1, vec![vec![px('x', 5, 5, 5), None, px('y', 9, 9, 9)]], 1.0, false);
    assert_eq!(s.to_string(1), "x y\r\n");
}

#[test]
fn output_rua_lists_filled_cells() {
    let s = sprite_with(2, 2, vec![
        vec![px('a', 1, 2, 3), None, None, px('b', 255, 0, 7)],
        vec![None, px('c', 0, 0, 0), None, None],
    ], 1.0, true);
    assert_eq!(s.output_rua(), "2 2 2\n0 0 0 a 1 2 3\n0 1 1 b 255 0 7\n1 1 0 c 0 0 0\n");
}

#[test]
fn rua_round_trip() {
    let s = sprite_with(3, 2, vec![
        vec![px('a', 1, 2, 3), None, None, px('b', 255, 0, 7), None, px('%', 10, 20, 30)],
        vec![None; 6],
        vec![None, px('c', 0, 0, 0), None, None, px('Z', 128, 64, 32), None],
    ], 12.5, false);
    let text = s.output_rua();
    let back = Sprite::from_rua(&text, 12.5f64.to_bits(), false).unwrap();
    assert_eq!(back, s);
}

#[test]
fn rua_round_trip_breaks_on_space_cells() {
    let s = sprite_with(1, 1, vec![vec![px(' ', 1, 2, 3)]], 1.0, false);
    let back = Sprite::from_rua(&s.output_rua(), 1f64.to_bits(), false).unwrap();
    assert_ne!(back, s);
    assert_eq!(back.get_current_frame().unwrap().data, vec![None]);
}

#[test]
fn from_rua_header_errors() {
    assert_eq!(Sprite::from_rua("", 0, true), Err(RuaError::InvalidHeader));
    assert_eq!(Sprite::from_rua("3 4\n0 0 0 a 1 1 1\n", 0, true), Err(RuaError::InvalidHeader));
    assert_eq!(Sprite::from_rua("3 x 1\n", 0, true), Err(RuaError::ParseInt(IntErrorKind::InvalidDigit)));
    assert_eq!(Sprite::from_rua("3 -4 1\n", 0, true), Err(RuaError::ParseInt(IntErrorKind::InvalidDigit)));
    assert_eq!(Sprite::from_rua("4294967296 1 1\n", 0, true), Err(RuaError::ParseInt(IntErrorKind::PosOverflow)));
    assert_eq!(Sprite::from_rua("+ 1 1\n", 0, true), Err(RuaError::ParseInt(IntErrorKind::InvalidDigit)));
}

#[test]
fn from_rua_cell_errors() {
    assert_eq!(Sprite::from_rua("1 1 1\n0 0 0 ab 1 1 1\n", 0, true), Err(RuaError::ParseChar(CharErrorKind::TooManyChars)));
    assert_eq!(Sprite::from_rua("1 1 1\n0 0 0 a 256 1 1\n", 0, true), Err(RuaError::ParseInt(IntErrorKind::PosOverflow)));
    assert_eq!(Sprite::from_rua("1 1 1\n0 0 0 a 1 1 z\n", 0, true), Err(RuaError::ParseInt(IntErrorKind::InvalidDigit)));
    assert_eq!(Sprite::from_rua("1 1 1\n0 0 0 a 1 1\n0 0 q a 1 1 1\n", 0, true), Err(RuaError::ParseInt(IntErrorKind::InvalidDigit)));
}

#[test]
fn from_rua_skips_short_lines_and_outside_cells() {
    let text = "+2 1 1 extra\n\n0 0 0 a\n0 5 0 b 1 1 1\n3 0 0 c 1 1 1\n0 1 0 d 1 2 3 junk\n0 1 0 e 4 5 6\r\n";
    let s = Sprite::from_rua(text, 7, false).unwrap();
    let expected = sprite_with(2, 1, vec![vec![None, px('e', 4, 5, 6)]], f64::from_bits(7), false);
    assert_eq!(s, expected);
}

#[test]
fn from_rua_header_only() {
    let s = Sprite::from_rua("2 2 3", 0, true).unwrap();
    assert_eq!(s, Sprite::new(2, 2, 3, 0, true));
}

#[test]
fn rua_header_reads_dimensions() {
    assert_eq!(rua_header("7 8 9\n0 0 0 a 1 1 1\n"), Ok((7, 8, 9)));
    assert_eq!(rua_header("7 8\n"), Err(RuaError::InvalidHeader));
}

/// The text with every escape sequence (from `\x1b` through the next `m`) taken out.
fn strip_escapes(s: &str) -> String {
    let mut out = String::new();
    let mut inside = false;
    for c in s.chars() {
        if inside {
            inside = c != 'm';
        } else if c == '\x1b' {
            inside = true;
        } else {
            out.push(c);
        }
    }
    out
}

#[test]
fn from_rua_area_too_large() {
    assert_eq!(Sprite::from_rua("65536 65536 0", 0, true), Err(RuaError::AreaTooLarge));
    assert_eq!(Sprite::from_rua("65536 65536 1\n0 0 0 a 1 1 1\n", 0, false), Err(RuaError::AreaTooLarge));
    assert_eq!(Sprite::from_rua("65536 65535 0\n", 0, true).map(|s| s.output_rua()), Ok("65536 65535 0\n".to_string()));
}

#[test]
fn fps_compares_as_a_float() {
    let pos = Sprite::new(1, 1, 0, 0f64.to_bits(), true);
    let neg = Sprite::new(1, 1, 0, (-0f64).to_bits(), true);
    assert_eq!(pos, neg);
    let nan = Sprite::new(1, 1, 0, f64::NAN.to_bits(), true);
    assert_ne!(nan, Sprite::new(1, 1, 0, f64::NAN.to_bits(), true));
    assert!(nan != nan);
    assert_ne!(Sprite::new(1, 1, 0, 1f64.to_bits(), true), Sprite::new(1, 1, 0, 2f64.to_bits(), true));
}

#[test]
fn from_rua_skipped_lines_change_nothing() {
    let base = Sprite::from_rua("2 1 1\n0 1 0 e 4 5 6\n", 3, true).unwrap();
    let padded = "2 1 1\n\n0 0 0 a\n  \n0 5 0 b 1 1 1\n3 0 0 c 1 1 1\n0 0 1 d 1 1 1\n0 1 0 e 4 5 6\n";
    assert_eq!(Sprite::from_rua(padded, 3, true).unwrap(), base);
    let extra = "2 1 1\n0 1 0 e 4 5 6 junk 99 x\n";
    assert_eq!(Sprite::from_rua(extra, 3, true).unwrap(), base);
}

#[test]
fn color_only_adds_escapes() {
    let frames = vec![vec![
        px('*', 255, 0, 0), px('#', 255, 0, 0), None,
        px('o', 0, 10, 200), None, px('o', 7, 10, 200),
    ]];
    let colored = sprite_with(3, 2, frames.clone(), 1.0, true);
    let plain = sprite_with(3, 2, frames, 1.0, false);
    assert_eq!(strip_escapes(&colored.to_string(1)), plain.to_string(1));
    assert_eq!(plain.to_string(1), "*# \r\no o\r\n");
    assert_eq!(strip_escapes(&colored.to_string(2)), plain.to_string(2));
}
