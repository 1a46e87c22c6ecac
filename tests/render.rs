use walknav::render::{advance_frame, composit_pixel, point_in, rect, Bitmap, LineType, Rect, StaticImage, TextObject};

#[test]
fn test_composit() {
    let mut bg = [128, 64, 32, 255];
    let obj = [255, 128, 64, 128];
    let res = [191, 96, 48, 255];
    composit_pixel(&mut bg, &obj);
    assert_eq!(bg, res);
}

#[test]
fn opaque_and_transparent_pixels() {
    let mut bg = [10, 20, 30, 40];
    composit_pixel(&mut bg, &[200, 100, 50, 255]);
    assert_eq!(bg, [200, 100, 50, 255]);
    let mut bg = [10, 20, 30, 40];
    composit_pixel(&mut bg, &[200, 100, 50, 0]);
    assert_eq!(bg, [10, 20, 30, 40]);
}

#[test]
fn line_colours() {
    assert_eq!(LineType::Path.colour(), [10, 240, 10, 255]);
    assert_eq!(LineType::Box.colour(), [10, 10, 240, 255]);
    assert_eq!(LineType::Graph.colour(), [255, 255, 255, 255]);
}

#[test]
fn rect_and_bitmap_accessors() {
    let r = rect(3, 2);
    assert_eq!(r.wh(), (3, 2));
    assert_eq!(Rect::new(3, 2), r);
    let data: Vec<u8> = (0..24).collect();
    let bmp = Bitmap::new(data.clone(), r);
    assert_eq!(bmp.cols(), 3);
    assert_eq!(bmp.rows(), 2);
    assert_eq!(bmp.row_partial(1, 2), vec![12, 13, 14, 15, 16, 17, 18, 19]);
    assert_eq!(bmp.data(), &data[..]);
    let img = StaticImage::new(bmp.clone());
    assert_eq!(img.data(), &bmp);
}

#[test]
fn text_strip_appends_glyph_rows() {
    let mut t = TextObject::new(1, 2);
    t.add_glyph(&vec![1, 1, 1, 1, 2, 2, 2, 2]);
    t.add_glyph(&vec![3, 3, 3, 3, 4, 4, 4, 4]);
    assert_eq!(t.buffer, vec![1, 1, 1, 1, 3, 3, 3, 3, 2, 2, 2, 2, 4, 4, 4, 4]);
    let bmp = t.to_bmp();
    assert_eq!(bmp.size, Rect { w: 2, h: 2 });
    assert_eq!(bmp.data.len(), 16);
}

#[test]
fn animation_advances_and_wraps() {
    assert_eq!(advance_frame(0, 3, 0, 40, 75), (0, 40));
    assert_eq!(advance_frame(0, 3, 40, 40, 75), (1, 5));
    assert_eq!(advance_frame(2, 3, 70, 10, 75), (0, 5));
}

#[test]
fn test_point_in() {
    let anchor = walknav::point::point(10, 10);
    let area = Rect::new(10, 10);
    let p = walknav::point::point;
    assert!(point_in(anchor, area, p(11, 11)));
    assert!(point_in(anchor, area, p(20, 20)));
    assert!(!point_in(anchor, area, p(21, 21)));
    assert!(!point_in(anchor, area, p(9, 9)));
    assert!(!point_in(anchor, area, p(9, 21)));
}
