use gis_view::canvas::{fits, Canvas, Color};

const RED: Color = Color { r: 255, g: 0, b: 0 };
const GRAY: Color = Color { r: 9, g: 8, b: 7 };

#[test]
fn blank_canvas_is_black() {
    let c = Canvas::blank(3, 2).unwrap();
    assert_eq!(c.width(), 3);
    assert_eq!(c.height(), 2);
    for y in 0..2 {
        for x in 0..3 {
            assert_eq!(c.pixel(x, y), Some(Color { r: 0, g: 0, b: 0 }));
        }
    }
    assert_eq!(c.to_rgb(), vec![0u8; 18]);
}

#[test]
fn filled_canvas_has_one_colour() {
    let c = Canvas::filled(2, 2, GRAY).unwrap();
    assert_eq!(c.to_rgb(), vec![9, 8, 7, 9, 8, 7, 9, 8, 7, 9, 8, 7]);
    assert_eq!(c.pixel(1, 1), Some(GRAY));
}

#[test]
fn pixel_outside_is_none() {
    let c = Canvas::filled(2, 3, GRAY).unwrap();
    assert_eq!(c.pixel(2, 0), None);
    assert_eq!(c.pixel(0, 3), None);
    assert_eq!(c.pixel(u32::MAX, u32::MAX), None);
}

#[test]
fn plot_changes_one_pixel() {
    let mut c = Canvas::filled(3, 3, GRAY).unwrap();
    c.plot(1, 2, RED);
    for y in 0..3u32 {
        for x in 0..3u32 {
            let want = if (x, y) == (1, 2) { RED } else { GRAY };
            assert_eq!(c.pixel(x, y), Some(want));
        }
    }
    let raw = c.to_rgb();
    assert_eq!(&raw[21..24], &[255, 0, 0]);
}

#[test]
fn plot_outside_is_skipped() {
    let mut c = Canvas::filled(2, 2, GRAY).unwrap();
    c.plot(-1, 0, RED);
    c.plot(0, -1, RED);
    c.plot(2, 0, RED);
    c.plot(0, 2, RED);
    c.plot(i64::MIN, i64::MAX, RED);
    assert_eq!(c.to_rgb(), vec![9, 8, 7, 9, 8, 7, 9, 8, 7, 9, 8, 7]);
}

#[test]
fn rgba_adds_an_opaque_alpha() {
    let mut c = Canvas::filled(2, 1, GRAY).unwrap();
    c.plot(1, 0, RED);
    assert_eq!(c.to_rgba(), vec![9, 8, 7, 255, 255, 0, 0, 255]);
}

#[test]
fn empty_canvases_are_allowed() {
    let c = Canvas::blank(0, 5).unwrap();
    assert_eq!(c.width(), 0);
    assert_eq!(c.height(), 5);
    assert_eq!(c.to_rgba(), Vec::<u8>::new());
    assert_eq!(c.pixel(0, 0), None);
}

#[test]
fn oversized_canvases_are_refused() {
    assert!(!fits(u32::MAX, u32::MAX));
    assert!(fits(4000, 4000));
    assert!(Canvas::blank(u32::MAX, u32::MAX).is_none());
    assert!(Canvas::filled(u32::MAX, u32::MAX, GRAY).is_none());
}
