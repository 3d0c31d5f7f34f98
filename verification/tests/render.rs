use rua::raster::Raster;
use rua::render::{ascii_art, picture_ascii, picture_ascii_colorful, Renderable, RuaImage};
use rua::sprite::{Pixel, Sprite};
use rua::table::{classic_ascii_table, get_ascii_table, luma_index, rgb_to_luma};

fn raster(width: u32, height: u32, rgb: &[(u8, u8, u8)]) -> Raster {
    let mut data = Vec::new();
    for &(r, g, b) in rgb {
        data.push(r);
        data.push(g);
        data.push(b);
    }
    assert_eq!(data.len(), 3 * (width * height) as usize);
    Raster { width, height, data }
}

#[test]
fn ascii_tables() {
    assert_eq!(get_ascii_table(false), " .:-=+*#%");
    assert_eq!(
        get_ascii_table(true),
        r#" .'`^\",:;Il!i><~+_-?][}{1)(|\\/tfjrxnuvczXYUJCLQ0OZmwqpdbkhao*#MW&8%B@$"#
    );
    assert_eq!(get_ascii_table(true).len(), 72);
    assert_eq!(RuaImage::get_ascii_table(true), get_ascii_table(true));
    assert_eq!(RuaImage::get_ascii_table(false), get_ascii_table(false));
    assert_eq!(classic_ascii_table(true).len(), 73);
    assert_eq!(classic_ascii_table(false), " .:-=+*#%");
}

#[test]
fn luma_index_matches_float_ramp_position() {
    for len in 1usize..=1000 {
        for l in 0..=255u8 {
            let float_pos = (l as f32 / 255.0 * (len - 1) as f32) as usize;
            assert_eq!(luma_index(l, len), float_pos, "luma {} ramp {}", l, len);
        }
    }
}

#[test]
fn luma_index_endpoints_and_order() {
    assert_eq!(luma_index(0, 9), 0);
    assert_eq!(luma_index(255, 9), 8);
    assert_eq!(luma_index(128, 9), 4);
    assert_eq!(luma_index(255, 72), 71);
    let mut last = 0;
    for l in 0..=255u8 {
        let i = luma_index(l, 72);
        assert!(i >= last && i < 72);
        last = i;
    }
}

#[test]
fn gray_levels() {
    assert_eq!(rgb_to_luma(255, 255, 255), 255);
    assert_eq!(rgb_to_luma(0, 0, 0), 0);
    assert_eq!(rgb_to_luma(255, 0, 0), 54);
    assert_eq!(rgb_to_luma(0, 255, 0), 182);
    assert_eq!(rgb_to_luma(0, 0, 255), 18);
    for v in 0..=255u8 {
        assert_eq!(rgb_to_luma(v, v, v), v);
    }
}

#[test]
fn sprite_from_picture_same_size() {
    let img = raster(2, 1, &[(0, 0, 0), (255, 255, 255)]);
    let s = Sprite::from_img(&img, 2, 1, 10f64.to_bits());
    let f = s.get_current_frame().unwrap();
    assert_eq!(
        f.data,
        vec![
            Some(Pixel { ch: ' ', color: (0, 0, 0) }),
            Some(Pixel { ch: '%', color: (255, 255, 255) }),
        ]
    );
    assert_eq!(s.to_string(1), "\x1b[38;2;0;0;0m \x1b[38;2;255;255;255m%\x1b[0m\r\n");
}

#[test]
fn sprite_from_picture_resamples() {
    let img = raster(2, 2, &[(255, 255, 255); 4]);
    let s = Sprite::from_img(&img, 1, 1, 0);
    assert_eq!(s.get_current_frame().unwrap().data, vec![Some(Pixel { ch: '%', color: (255, 255, 255) })]);
    let wide = Sprite::from_img(&img, 4, 3, 0);
    assert_eq!(wide.get_current_frame().unwrap().data.len(), 12);
}

#[test]
fn sprite_from_empty_size() {
    let img = raster(2, 2, &[(1, 2, 3); 4]);
    let s = Sprite::from_img(&img, 0, 0, 0);
    assert_eq!(s.get_current_frame().unwrap().data.len(), 0);
    assert_eq!(s.to_string(1), "");
}

#[test]
fn rua_image_plain_art() {
    let img = RuaImage { image: raster(3, 1, &[(0, 0, 0), (128, 128, 128), (255, 255, 255)]), width: 3, detail: false, color: false };
    assert_eq!(img.to_ascii(1), " =%\n");
    let detailed = RuaImage { image: raster(3, 1, &[(0, 0, 0), (128, 128, 128), (255, 255, 255)]), width: 3, detail: true, color: false };
    assert_eq!(detailed.to_ascii(1), " r$\n");
}

#[test]
fn rua_image_plain_art_rows() {
    let img = RuaImage { image: raster(2, 2, &[(0, 0, 0), (255, 255, 255), (255, 255, 255), (0, 0, 0)]), width: 2, detail: false, color: false };
    assert_eq!(img.to_ascii(2), " %\n% \n");
}

#[test]
fn rua_image_colorful_art() {
    let img = RuaImage { image: raster(2, 1, &[(255, 0, 0), (0, 0, 255)]), width: 2, detail: false, color: true };
    assert_eq!(img.to_ascii_colorful(1), "\x1b[38;2;255;0;0m.\x1b[38;2;0;0;255m \x1b[0m\n");
}

#[test]
fn rua_image_resamples() {
    let img = RuaImage { image: raster(2, 2, &[(255, 255, 255); 4]), width: 1, detail: false, color: false };
    assert_eq!(img.to_ascii(1), "%\n");
}

#[test]
fn printer_art() {
    let img = raster(2, 2, &[(0, 0, 0), (255, 255, 255), (255, 255, 255), (0, 0, 0)]);
    assert_eq!(ascii_art(&img, 2, 2, false), " %\n% \n");
    assert_eq!(ascii_art(&img, 2, 2, true), " @\n@ \n");
    assert_eq!(ascii_art(&img, 1, 1, false), " \n");
}

#[test]
fn picture_art_at_own_size() {
    let img = raster(3, 2, &[(0, 0, 0), (60, 60, 60), (120, 120, 120), (180, 180, 180), (240, 240, 240), (255, 0, 0)]);
    assert_eq!(picture_ascii(&img, " .:-=+*#%"), " .-\n+#.\n");
    assert_eq!(picture_ascii(&img, "ab"), "aaa\naaa\n");
    assert_eq!(
        picture_ascii_colorful(&img, " .:-=+*#%"),
        "\x1b[38;2;0;0;0m \x1b[38;2;60;60;60m.\x1b[38;2;120;120;120m-\x1b[0m\n\x1b[38;2;180;180;180m+\x1b[38;2;240;240;240m#\x1b[38;2;255;0;0m.\x1b[0m\n"
    );
}

#[test]
fn sprite_of_picture_at_own_size() {
    let img = raster(2, 1, &[(200, 10, 10), (10, 200, 10)]);
    let s = Sprite::from_resized_img(&img, 3f64.to_bits());
    assert_eq!(
        s.get_current_frame().unwrap().data,
        vec![
            Some(Pixel { ch: '.', color: (200, 10, 10) }),
            Some(Pixel { ch: '=', color: (10, 200, 10) }),
        ]
    );
    assert_eq!(s, Sprite::from_img(&img, 2, 1, 3f64.to_bits()));
}

/// The text with every escape sequence (from `\x1b` through the next `m`) taken out.
fn strip_escapes(s: &str) -> String {
    let mut out = String::new();
    let mut inside = false;
    for c in s.chars() {
        if inside {
            inside = c != 'm';
        } else if c == '\x1b' {
            inside = true;
        } else {
            out.push(c);
        }
    }
    out
}

#[test]
fn rua_image_color_strips_to_plain() {
    let pixels = [(0, 0, 0), (60, 60, 60), (120, 120, 120), (180, 180, 180), (240, 240, 240), (255, 0, 0)];
    for detail in [false, true] {
        let img = RuaImage { image: raster(3, 2, &pixels), width: 3, detail, color: true };
        assert_eq!(strip_escapes(&img.to_ascii_colorful(2)), img.to_ascii(2));
        let small = RuaImage { image: raster(3, 2, &pixels), width: 2, detail, color: true };
        assert_eq!(strip_escapes(&small.to_ascii_colorful(1)), small.to_ascii(1));
    }
}

#[test]
fn sprite_from_empty_picture_is_black_spaces() {
    let img = raster(0, 0, &[]);
    let s = Sprite::from_img(&img, 2, 1, 0);
    assert_eq!(s.get_current_frame().unwrap().data, vec![Some(Pixel { ch: ' ', color: (0, 0, 0) }); 2]);
}

#[test]
fn same_size_resample_keeps_samples() {
    let pixels = [(12, 34, 56), (200, 100, 0), (1, 2, 3), (250, 250, 250)];
    let img = RuaImage { image: raster(2, 2, &pixels), width: 2, detail: true, color: true };
    assert_eq!(img.to_ascii(2), picture_ascii(&raster(2, 2, &pixels), get_ascii_table(true)));
    assert_eq!(ascii_art(&raster(2, 2, &pixels), 2, 2, true), picture_ascii(&raster(2, 2, &pixels), classic_ascii_table(true)));
}
