use classic_games_collection::canvas::{char_width, rgb_to_ansi, str_width, Canvas, Color, color_to_ansi};

#[test]
fn width_cjk() {
    assert_eq!(char_width('a'), 1);
    assert_eq!(char_width('中'), 2);
    assert_eq!(str_width("贪吃蛇"), 6);
    assert_eq!(str_width("Snake"), 5);
}

#[test]
fn flush_delta() {
    let mut c = Canvas::new(10, 3);
    let mut out = Vec::new();
    c.put(0, 0, 'A', Color::AnsiValue(1), Color::Reset);
    c.flush(&mut out);
    assert!(out.len() > 0);
    // A second flush with nothing changed writes nothing.
    out.clear();
    c.flush(&mut out);
    assert_eq!(out.len(), 0);
    // One changed cell: the output moves the cursor to it.
    c.put(5, 2, 'B', Color::AnsiValue(2), Color::Reset);
    out.clear();
    c.flush(&mut out);
    assert!(String::from_utf8_lossy(&out).contains("3;6H"));
}

#[test]
fn flush_cjk_no_filler_gaps() {
    let mut c = Canvas::new(30, 2);
    let mut out = Vec::new();
    c.put_str(0, 0, "贪吃蛇 SNAKE", Color::AnsiValue(46), Color::Reset);
    c.put(12, 0, 'X', Color::AnsiValue(196), Color::Reset);
    c.put(13, 0, 'Y', Color::AnsiValue(196), Color::Reset);
    c.flush(&mut out);
    let s = String::from_utf8_lossy(&out);
    assert!(s.contains("贪吃蛇 SNAKE"), "no filler between wide characters: {:?}", s);
    assert!(!s.contains("贪 吃"), "filler space present: {:?}", s);
    assert!(s.contains("1;13HXY"), "later run placed wrongly: {:?}", s);
    assert!(s.contains("1;1H"), "first run placed wrongly: {:?}", s);
}

#[test]
fn flush_cjk_diff_update() {
    let mut c = Canvas::new(30, 1);
    let mut out = Vec::new();
    c.put_str(0, 0, "贪吃蛇", Color::AnsiValue(46), Color::Reset);
    c.flush(&mut out);
    out.clear();
    c.clear();
    c.put_str(0, 0, "贪", Color::AnsiValue(46), Color::Reset);
    c.flush(&mut out);
    let s = String::from_utf8_lossy(&out);
    assert!(s.contains("1;3H"), "old glyphs cleared at the wrong place: {:?}", s);
    assert!(!s.contains("吃"), "unchanged glyph redrawn: {:?}", s);
}

#[test]
fn rgb_nearest() {
    let n = rgb_to_ansi(255, 0, 0);
    assert!(n == 9 || n == 196);
}

#[test]
fn rgb_gray_ramp_and_cube() {
    assert_eq!(rgb_to_ansi(0, 0, 0), 16);
    assert_eq!(rgb_to_ansi(255, 255, 255), 231);
    assert_eq!(rgb_to_ansi(128, 128, 128), 244);
    assert_eq!(rgb_to_ansi(0, 255, 0), 46);
}

#[test]
fn ansi_of_named_colors() {
    assert_eq!(color_to_ansi(Color::Red), 1);
    assert_eq!(color_to_ansi(Color::AnsiValue(200)), 200);
    assert_eq!(color_to_ansi(Color::Rgb { r: 255, g: 0, b: 0 }), 196);
}

#[test]
fn unchanged_frame_flushes_nothing() {
    let mut c = Canvas::new(4, 2);
    let mut out = Vec::new();
    c.put_str(0, 1, "ab", Color::AnsiValue(46), Color::Reset);
    c.flush(&mut out);
    out.clear();
    c.put_str(0, 1, "ab", Color::AnsiValue(46), Color::Reset);
    c.flush(&mut out);
    assert!(out.is_empty());
}

#[test]
fn put_outside_is_ignored() {
    let mut c = Canvas::new(3, 3);
    c.put(7, 7, 'Z', Color::AnsiValue(1), Color::Reset);
    let mut out = Vec::new();
    c.flush(&mut out);
    assert!(out.is_empty());
    assert_eq!(c.w(), 3);
    assert_eq!(c.h(), 3);
}

#[test]
fn light_grays_stay_light() {
    assert_eq!(rgb_to_ansi(248, 248, 248), 255);
    assert_eq!(rgb_to_ansi(247, 247, 247), 255);
    assert_eq!(rgb_to_ansi(8, 8, 8), 232);
    assert_eq!(rgb_to_ansi(249, 249, 249), 231);
}
