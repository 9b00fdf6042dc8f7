use jelly_cursor::double::Double;
use jelly_cursor::geometry::Point;
use jelly_cursor::raster::{fill_polygon_bgra, fits_polygon, Gradient};

fn d(x: f64) -> Double {
    Double::from_bits(x.to_bits())
}

fn point(x: f64, y: f64) -> Point {
    Point { x: d(x), y: d(y) }
}

#[test]
fn fill_polygon_writes_interior_pixels() {
    let mut data = vec![0u8; 16 * 16 * 4];
    let pts: [Point; 4] = [
        point(2.0, 2.0),
        point(14.0, 2.0),
        point(14.0, 14.0),
        point(2.0, 14.0),
    ];
    let grad = Gradient {
        from: point(2.0, 8.0),
        to: point(14.0, 8.0),
        c_start: [0xff, 0, 0, 0xff],
        c_end: [0, 0, 0xff, 0xff],
    };
    fill_polygon_bgra(&mut data, 16, 16, &pts, &grad);
    let center = (8 * 16 + 8) * 4;
    assert!(data[center + 3] > 0, "interior pixel not painted");
    // Outside bbox pixels cleared by the merged pass.
    assert_eq!(data[0..4], [0, 0, 0, 0]);
    let bottom_left = (15 * 16) * 4;
    assert_eq!(data[bottom_left..bottom_left + 4], [0, 0, 0, 0]);
}

#[test]
fn gradients_run_from_color_to_color() {
    let mut data = vec![0x77u8; 8 * 4];
    let pts = [point(0.0, 0.0), point(8.0, 0.0), point(8.0, 1.0), point(0.0, 1.0)];
    let grad = Gradient {
        from: point(0.5, 0.5),
        to: point(4.5, 0.5),
        c_start: [0, 100, 200, 255],
        c_end: [200, 100, 0, 255],
    };
    fill_polygon_bgra(&mut data, 8, 1, &pts, &grad);
    assert_eq!(data[0..4], [0, 100, 200, 255]);
    assert_eq!(data[4..8], [50, 100, 150, 255]);
    assert_eq!(data[8..12], [100, 100, 100, 255]);
    assert_eq!(data[16..20], [200, 100, 0, 255]);
    assert_eq!(data[28..32], [200, 100, 0, 255]);
}

#[test]
fn nothing_is_drawn_into_no_rows() {
    let mut data = vec![0x77u8; 8];
    let p = point(1.0, 1.0);
    let grad = Gradient { from: p, to: p, c_start: [1; 4], c_end: [1; 4] };
    fill_polygon_bgra(&mut data, 2, 0, &[p, p, p, p], &grad);
    assert_eq!(data, vec![0x77u8; 8]);
    fill_polygon_bgra(&mut data, 0, 5, &[p, p, p, p], &grad);
    assert_eq!(data, vec![0x77u8; 8]);
    // A polygon without an inside clears what it could have covered.
    fill_polygon_bgra(&mut data, 1, 1, &[p, p, p, p], &grad);
    assert_eq!(data, vec![0, 0, 0, 0, 0x77, 0x77, 0x77, 0x77]);
}

#[test]
fn ends_beyond_the_range_of_pixels_are_noticed() {
    let far = 2147483648.0;
    let pts = [point(0.0, 0.0), point(far, 0.0), point(far, 2.0), point(0.0, 2.0)];
    assert!(!fits_polygon(&pts, 2));
    assert!(fits_polygon(&pts, 0));
    let near = [point(0.0, 0.0), point(9.0, 0.0), point(9.0, 2.0), point(0.0, 2.0)];
    assert!(fits_polygon(&near, 2));
}

#[test]
fn a_rectangle_of_zero_width_is_not_drawn() {
    let pts = [point(3.0, 1.0), point(3.0, 1.0), point(3.0, 4.0), point(3.0, 4.0)];
    let grad = Gradient { from: pts[0], to: pts[0], c_start: [9; 4], c_end: [9; 4] };
    let mut data = vec![0x77u8; 6 * 6 * 4];
    fill_polygon_bgra(&mut data, 6, 6, &pts, &grad);
    assert!(data.iter().all(|b| *b == 0));
}

#[test]
fn first_vertex_and_winding_do_not_matter() {
    let p = [point(1.5, 0.25), point(9.0, 2.0), point(7.25, 8.5), point(0.0, 6.0)];
    let grad = Gradient {
        from: point(0.0, 0.0),
        to: point(9.0, 9.0),
        c_start: [0, 50, 100, 255],
        c_end: [255, 150, 0, 64],
    };
    let fill = |pts: [Point; 4]| {
        let mut data = vec![0x77u8; 10 * 9 * 4];
        fill_polygon_bgra(&mut data, 10, 9, &pts, &grad);
        data
    };
    let picture = fill(p);
    assert!(picture.iter().any(|b| *b != 0));
    assert_eq!(picture, fill([p[1], p[2], p[3], p[0]]));
    assert_eq!(picture, fill([p[2], p[3], p[0], p[1]]));
    assert_eq!(picture, fill([p[3], p[0], p[1], p[2]]));
    assert_eq!(picture, fill([p[3], p[2], p[1], p[0]]));
    assert_eq!(picture, fill([p[0], p[3], p[2], p[1]]));
}

#[test]
fn a_gradient_of_no_length_shows_its_last_color() {
    let pts = [point(0.0, 0.0), point(3.0, 0.0), point(3.0, 1.0), point(0.0, 1.0)];
    let grad = Gradient {
        from: point(1.0, 0.0),
        to: point(1.00001, 0.0),
        c_start: [1, 2, 3, 4],
        c_end: [5, 6, 7, 8],
    };
    let mut data = vec![0u8; 3 * 4];
    fill_polygon_bgra(&mut data, 3, 1, &pts, &grad);
    assert_eq!(data, vec![5, 6, 7, 8, 5, 6, 7, 8, 5, 6, 7, 8]);
}

#[test]
fn a_convex_polygon_covers_what_lies_in_it() {
    let pts = [point(9.3, 1.2), point(22.7, 8.9), point(15.1, 29.4), point(2.6, 17.8)];
    let (w, h) = (32, 32);
    let mut data = vec![0x77u8; (w * h * 4) as usize];
    let p = point(0.0, 0.0);
    let grad = Gradient { from: p, to: p, c_start: [9; 4], c_end: [9; 4] };
    fill_polygon_bgra(&mut data, w, h, &pts, &grad);
    let corners = [(9.3, 1.2), (22.7, 8.9), (15.1, 29.4), (2.6, 17.8)];
    let mut inside = 0;
    for py in 0..h {
        for px in 0..w {
            let (x, y) = (px as f64, py as f64 + 0.5);
            // How far the point is to the right of each side.
            let nearest = (0..4)
                .map(|i| {
                    let ((ax, ay), (bx, by)): ((f64, f64), (f64, f64)) =
                        (corners[i], corners[(i + 1) % 4]);
                    let side = (bx - ax) * (y - ay) - (by - ay) * (x - ax);
                    side / (bx - ax).hypot(by - ay)
                })
                .fold(f64::INFINITY, f64::min);
            let at = ((py * w + px) * 4) as usize;
            if nearest > 1e-6 {
                assert_eq!(data[at..at + 4], [9; 4]);
                inside += 1;
            } else if nearest < -1e-6 {
                assert_eq!(data[at..at + 4], [0; 4]);
            }
        }
    }
    assert!(inside > 200);
}

#[test]
fn polygons_that_are_not_far_away_fit() {
    let far = 1073741824.0;
    let pts = [point(-far, -far), point(far, -far), point(far, far), point(-far, far)];
    assert!(fits_polygon(&pts, 1000));
}

#[test]
fn each_channel_is_within_one_of_the_exact_color() {
    let (w, h) = (300, 3);
    let pts = [point(0.0, 0.0), point(300.0, 0.0), point(300.0, 3.0), point(0.0, 3.0)];
    let ways = [((0.3, 0.7), (299.1, 2.9)), ((250.0, 0.0), (17.5, 9.0)), ((90.1, 1.5), (90.2, 1.5))];
    for ((ax, ay), (bx, by)) in ways {
        let grad = Gradient {
            from: point(ax, ay),
            to: point(bx, by),
            c_start: [0, 255, 13, 200],
            c_end: [255, 0, 240, 50],
        };
        let mut data = vec![0u8; (w * h * 4) as usize];
        fill_polygon_bgra(&mut data, w, h, &pts, &grad);
        let (gx, gy): (f64, f64) = (bx - ax, by - ay);
        for py in 0..h {
            for px in 0..w {
                let (x, y) = (px as f64 + 0.5, py as f64 + 0.5);
                let t = ((x - ax) * gx + (y - ay) * gy) / (gx * gx + gy * gy);
                let t = t.clamp(0.0, 1.0);
                for k in 0..4 {
                    let (a, b) = (grad.c_start[k] as f64, grad.c_end[k] as f64);
                    let shown = data[((py * w + px) * 4) as usize + k] as f64;
                    assert!((shown - (a + (b - a) * t)).abs() <= 1.0);
                }
            }
        }
    }
}
