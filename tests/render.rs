use daedal::{gen, partition, pixel_colour, receive_imgbuf, ImgSec, PixelBuffer, IN_SET};
use std::cell::Cell;
use std::sync::mpsc;

fn scheme() -> Vec<[u8; 3]> {
    vec![[9, 9, 9], [200, 100, 50]]
}

fn render(x1: u32, x2: u32, y1: u32, y2: u32, colours: &[[u8; 3]], max: u32, escape: impl Fn(u32, u32) -> u32) -> ImgSec {
    let (_keep, rx) = mpsc::channel::<()>();
    gen(rx, x1, x2, y1, y2, colours, max, escape)
}

/// The escape-time count of `c = dx + dy i` under `z -> z^2 + c`.
fn escape_time(dx: f64, dy: f64, max: u32) -> u32 {
    let (mut a, mut b, mut a2, mut b2) = (0.0f64, 0.0f64, 0.0f64, 0.0f64);
    let mut i = 0;
    while a2 + b2 < 4.0 && i != max {
        a2 = a * a;
        b2 = b * b;
        b = 2.0 * a * b + dy;
        a = a2 - b2 + dx;
        i += 1;
    }
    i
}

#[test]
fn whole_tile_is_coloured_from_escape_counts() {
    let colours = scheme();
    let escape = |x: u32, y: u32| if x == 3 && y == 2 { 10 } else { x + y };
    let img = render(2, 5, 1, 3, &colours, 10, escape);
    assert_eq!((img.x, img.y), (2, 1));
    assert_eq!(img.buf.dimensions(), (3, 2));
    for lx in 0..3 {
        for ly in 0..2 {
            let (x, y) = (lx + 2, ly + 1);
            assert_eq!(img.buf.pixel(lx, ly), Some(pixel_colour(&colours, escape(x, y), 10)));
        }
    }
    assert_eq!(img.buf.pixel(1, 1), Some(IN_SET));
    assert_eq!(img.buf.pixel(2, 1), Some([13, 11, 9]));
    assert_eq!(img.buf.pixel(3, 0), None);
}

#[test]
fn cancel_before_start_leaves_tile_black() {
    let (tx, rx) = mpsc::channel();
    tx.send(()).unwrap();
    let img = gen(rx, 0, 4, 0, 4, &scheme(), 10, |_x: u32, _y: u32| 3);
    assert_eq!(img.buf.dimensions(), (4, 4));
    for x in 0..4 {
        for y in 0..4 {
            assert_eq!(img.buf.pixel(x, y), Some([0, 0, 0]));
        }
    }
}

#[test]
fn cancel_midway_keeps_only_reached_pixels() {
    let (tx, rx) = mpsc::channel();
    let calls = Cell::new(0u32);
    let escape = |_x: u32, _y: u32| {
        calls.set(calls.get() + 1);
        if calls.get() == 4 {
            tx.send(()).unwrap();
        }
        0
    };
    let colours = vec![[9, 9, 9]];
    let img = gen(rx, 10, 13, 20, 23, &colours, 10, escape);
    assert_eq!(calls.get(), 4);
    // Column by column: all of column 0, then the top of column 1.
    let reached = [(0, 0), (0, 1), (0, 2), (1, 0)];
    for x in 0..3 {
        for y in 0..3 {
            let expected = if reached.contains(&(x, y)) { [9, 9, 9] } else { [0, 0, 0] };
            assert_eq!(img.buf.pixel(x, y), Some(expected), "pixel ({x}, {y})");
        }
    }
}

#[test]
fn same_request_twice_gives_same_pixels() {
    let colours = scheme();
    let escape = |x: u32, y: u32| (x * 7 + y * 13) % 11;
    let a = render(0, 16, 0, 9, &colours, 10, escape);
    let b = render(0, 16, 0, 9, &colours, 10, escape);
    assert_eq!(a.buf.to_raw(), b.buf.to_raw());
    assert_eq!(a.buf.to_raw().len(), 16 * 9 * 3);
}

#[test]
fn tiles_are_gathered_at_their_offsets() {
    let colours = scheme();
    let escape = |x: u32, y: u32| x * 10 + y;
    let tiles = partition(6, 4, 2);
    let mut sections: Vec<ImgSec> = tiles
        .iter()
        .map(|t| render(t.x1, t.x2, t.y1, t.y2, &colours, 100, escape))
        .collect();
    sections.reverse();
    let mut image = PixelBuffer::new(6, 4).unwrap();
    receive_imgbuf(sections, &mut image);
    for x in 0..6 {
        for y in 0..4 {
            assert_eq!(image.pixel(x, y), Some(pixel_colour(&colours, escape(x, y), 100)));
        }
    }
}

#[test]
fn later_section_overwrites_earlier() {
    let one = render(0, 2, 0, 2, &[[5, 5, 5]], 10, |_x: u32, _y: u32| 0);
    let two = render(1, 2, 1, 2, &[[6, 6, 6]], 10, |_x: u32, _y: u32| 0);
    let mut image = PixelBuffer::new(3, 3).unwrap();
    receive_imgbuf(vec![one, two], &mut image);
    assert_eq!(image.pixel(0, 0), Some([5, 5, 5]));
    assert_eq!(image.pixel(1, 1), Some([6, 6, 6]));
    assert_eq!(image.pixel(2, 2), Some([0, 0, 0]));
}

#[test]
fn paint_sets_one_pixel() {
    let mut sec = ImgSec { x: 5, y: 7, buf: PixelBuffer::new(3, 3).unwrap() };
    sec.paint(6, 8, 10, &[[0, 0, 0]], 10);
    sec.paint(7, 7, 0, &[[40, 50, 60]], 10);
    assert_eq!(sec.buf.pixel(1, 1), Some(IN_SET));
    assert_eq!(sec.buf.pixel(2, 0), Some([40, 50, 60]));
    assert_eq!(sec.buf.pixel(0, 0), Some([0, 0, 0]));
}

#[test]
fn end_to_end_four_workers() {
    let (w, h) = (100u32, 100u32);
    let (posx, posy, zoom, max) = (0.0f64, 0.0f64, 50.0f64, 50u32);
    let colours = vec![[0, 0, 0]];
    let escape = move |x: u32, y: u32| {
        let dx = (x as f64 - (w / 2) as f64) / (zoom * w as f64) + posx;
        let dy = (y as f64 - (h / 2) as f64) / (zoom * (w as f64 / h as f64) * h as f64) + posy;
        escape_time(dx, dy, max)
    };
    let tiles = partition(w, h, 4);
    assert_eq!(tiles.len(), 4);
    let sections: Vec<ImgSec> =
        tiles.iter().map(|t| render(t.x1, t.x2, t.y1, t.y2, &colours, max, escape)).collect();
    let mut image = PixelBuffer::new(w, h).unwrap();
    receive_imgbuf(sections, &mut image);
    assert_eq!(escape(50, 50), max);
    assert_eq!(image.pixel(50, 50), Some(IN_SET));
    // At this zoom the whole view lies inside the main cardioid.
    for x in 0..w {
        for y in 0..h {
            assert_eq!(image.pixel(x, y), Some(IN_SET));
        }
    }
}
