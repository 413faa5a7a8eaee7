use vole::icon::{icon_rgba, ICON_SIZE};

fn pixel(rgba: &[u8], x: usize, y: usize) -> [u8; 4] {
    let at = (y * ICON_SIZE as usize + x) * 4;
    [rgba[at], rgba[at + 1], rgba[at + 2], rgba[at + 3]]
}

#[test]
fn icon_should_draw_the_mark_on_violet() {
    let rgba = icon_rgba();
    assert_eq!(rgba.len(), 32 * 32 * 4);
    let dark = [16, 13, 24, 255];
    let violet = [157, 108, 255, 255];
    assert_eq!(pixel(&rgba, 0, 0), violet);
    assert_eq!(pixel(&rgba, 6, 6), dark);
    assert_eq!(pixel(&rgba, 11, 19), dark);
    assert_eq!(pixel(&rgba, 12, 10), violet);
    assert_eq!(pixel(&rgba, 26, 6), dark);
    assert_eq!(pixel(&rgba, 9, 24), dark);
    assert_eq!(pixel(&rgba, 23, 18), dark);
    assert_eq!(pixel(&rgba, 24, 22), violet);
    assert_eq!(pixel(&rgba, 31, 31), violet);
    let dark_count = rgba.chunks(4).filter(|p| *p == dark).count();
    assert_eq!(dark_count, 261);
}
