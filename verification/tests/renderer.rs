use endo::base::to_base_vec;
use endo::render::{build, Bitmap, Bucket, Color, Pixel, Position, RGB};

fn add_colors(bucket: &mut Bucket, colors: Vec<Color>) {
    for c in colors {
        bucket.add_color(c);
    }
}

#[test]
fn test_bucket() {
    let b = Color::RGB(RGB(0, 0, 0));
    let r = Color::RGB(RGB(255, 0, 0));
    let m = Color::RGB(RGB(255, 0, 255));
    let w = Color::RGB(RGB(255, 255, 255));
    let y = Color::RGB(RGB(255, 255, 0));
    let c = Color::RGB(RGB(0, 255, 255));
    let t = Color::Transparency(0);
    let o = Color::Transparency(255);

    let mut bucket = Bucket::new();
    add_colors(&mut bucket, vec![o, o, t]);
    assert_eq!(
        bucket.current_pixel(),
        Pixel { rgb: RGB(0, 0, 0), a: 170 }
    );

    bucket.clear();
    add_colors(&mut bucket, vec![c, y, b]);
    assert_eq!(
        bucket.current_pixel(),
        Pixel { rgb: RGB(85, 170, 85), a: 255 }
    );

    bucket.clear();
    add_colors(&mut bucket, vec![o, t, y]);
    assert_eq!(
        bucket.current_pixel(),
        Pixel { rgb: RGB(127, 127, 0), a: 127 }
    );

    bucket.clear();
    let mut colors = vec![];
    colors.extend(&[t; 1]);
    colors.extend(&[o; 3]);
    colors.extend(&[w; 10]);
    colors.extend(&[m; 32]);
    colors.extend(&[m; 7]);
    colors.extend(&[r; 7]);
    colors.extend(&[b; 18]);
    add_colors(&mut bucket, colors);
    assert_eq!(
        bucket.current_pixel(),
        Pixel { rgb: RGB(143, 25, 125), a: 191 }
    );
}

#[test]
fn test_bucket_memo_and_order() {
    // the memoized pixel survives repeated reads, and the average
    // does not depend on the order the samples went in
    let mut b1 = Bucket::new();
    add_colors(&mut b1, vec![Color::RGB(RGB(255, 0, 0)), Color::Transparency(255)]);
    let p1 = b1.current_pixel();
    assert_eq!(b1.current_pixel(), p1);
    let mut b2 = Bucket::new();
    add_colors(&mut b2, vec![Color::Transparency(255), Color::RGB(RGB(255, 0, 0))]);
    assert_eq!(b2.current_pixel(), p1);
}

#[test]
fn test_bitmap_set_get() {
    let mut bm = Bitmap::transparent();
    assert_eq!(bm.get(Position(10, 20)), Pixel { rgb: RGB(0, 0, 0), a: 0 });
    let px = Pixel { rgb: RGB(1, 2, 3), a: 4 };
    bm.set(Position(10, 20), px);
    assert_eq!(bm.get(Position(10, 20)), px);
    assert_eq!(bm.get(Position(20, 10)), Pixel { rgb: RGB(0, 0, 0), a: 0 });
}

#[test]
fn test_draw_line_and_fill() {
    let mut bm = Bitmap::transparent();
    let px = Pixel { rgb: RGB(255, 0, 0), a: 255 };
    bm.draw_line(Position(0, 0), Position(3, 0), px);
    for x in 0..4 {
        assert_eq!(bm.get(Position(x, 0)), px);
    }
    assert_eq!(bm.get(Position(4, 0)), Pixel { rgb: RGB(0, 0, 0), a: 0 });

    // fill the rest of the row 0 region (the whole remaining board)
    let fill_px = Pixel { rgb: RGB(0, 255, 0), a: 255 };
    let mut small = Bitmap::transparent();
    small.draw_line(Position(0, 1), Position(599, 1), px);
    small.fill(Position(0, 0), fill_px);
    // row zero was cut off from the rest by the painted line
    assert_eq!(small.get(Position(5, 0)), fill_px);
    assert_eq!(small.get(Position(5, 1)), px);
    assert_eq!(small.get(Position(5, 2)), Pixel { rgb: RGB(0, 0, 0), a: 0 });
}

#[test]
fn test_compose_clip_identities() {
    let px = Pixel { rgb: RGB(40, 50, 60), a: 70 };
    let mut under = Bitmap::transparent();
    under.set(Position(1, 1), px);

    // composing a fully transparent bitmap changes nothing
    let mut composed = under.clone();
    composed.compose_with(Bitmap::transparent());
    assert_eq!(composed.get(Position(1, 1)), px);
    assert_eq!(composed.get(Position(0, 0)), Pixel { rgb: RGB(0, 0, 0), a: 0 });

    // clipping by a fully transparent mask zeroes everything
    let mut clipped = under.clone();
    clipped.clip_with(Bitmap::transparent());
    assert_eq!(clipped.get(Position(1, 1)), Pixel { rgb: RGB(0, 0, 0), a: 0 });
}

#[test]
fn test_compose_clip_formulas() {
    let top_px = Pixel { rgb: RGB(100, 0, 0), a: 100 };
    let under_px = Pixel { rgb: RGB(0, 200, 0), a: 200 };

    let mut top = Bitmap::transparent();
    top.set(Position(0, 0), top_px);
    let mut under = Bitmap::transparent();
    under.set(Position(0, 0), under_px);
    under.compose_with(top);
    // each channel: top + under * (255 - 100) / 255, truncating
    assert_eq!(
        under.get(Position(0, 0)),
        Pixel { rgb: RGB(100, 121, 0), a: 221 }
    );

    let mut mask = Bitmap::transparent();
    mask.set(Position(0, 0), top_px);
    let mut clipped = Bitmap::transparent();
    clipped.set(Position(0, 0), under_px);
    clipped.clip_with(mask);
    // each channel: under * 100 / 255, truncating
    assert_eq!(
        clipped.get(Position(0, 0)),
        Pixel { rgb: RGB(0, 78, 0), a: 78 }
    );
}

#[test]
fn test_draw_line_diagonal() {
    let mut bm = Bitmap::transparent();
    let px = Pixel { rgb: RGB(0, 0, 255), a: 255 };
    bm.draw_line(Position(0, 0), Position(2, 2), px);
    assert_eq!(bm.get(Position(0, 0)), px);
    assert_eq!(bm.get(Position(1, 1)), px);
    assert_eq!(bm.get(Position(2, 2)), px);
    assert_eq!(bm.get(Position(1, 0)), Pixel { rgb: RGB(0, 0, 0), a: 0 });
    assert_eq!(bm.get(Position(0, 1)), Pixel { rgb: RGB(0, 0, 0), a: 0 });
}

#[test]
fn test_render_smoke() {
    // add-opaque, add-red, mark, move, draw-line, fill
    let rna = to_base_vec(b"PIPIIPPPIPIIIPPCCIFFPPIIIIIPPFFICCPPIIPIIP");
    let bm = build(&endo::base::to_u8_vec(&rna));
    let red = Pixel { rgb: RGB(255, 0, 0), a: 255 };
    assert_eq!(bm.get(Position(0, 0)), red);
    assert_eq!(bm.get(Position(1, 0)), red);
    assert_eq!(bm.get(Position(2, 0)), Pixel { rgb: RGB(0, 0, 0), a: 0 });
    assert_eq!(bm.get(Position(0, 1)), Pixel { rgb: RGB(0, 0, 0), a: 0 });
}

#[test]
fn test_build_unknown_opcodes_are_noops() {
    let bm = build(b"IIIIIIIICFPICFP");
    assert_eq!(bm.get(Position(0, 0)), Pixel { rgb: RGB(0, 0, 0), a: 0 });
}
