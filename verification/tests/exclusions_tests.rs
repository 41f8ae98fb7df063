use splay_bands::exclusions::Au;
use splay_bands::exclusions::Exclusions;
use splay_bands::exclusions::Point;
use splay_bands::exclusions::Side;
use splay_bands::exclusions::Size;
use splay_bands::exclusions::MAX_AU;

#[test]
fn place_empty_left() {
    let mut e = Exclusions::new(Au(1000));
    let p = e.place(Side::Left, &Size::new(Au(100), Au(0)));
    assert_eq!(p, Point { inline: Au(0), block: Au(0) });
}

#[test]
fn place_empty_right() {
    let mut e = Exclusions::new(Au(1000));
    let p = e.place(Side::Right, &Size::new(Au(100), Au(0)));
    assert_eq!(p, Point { inline: Au(900), block: Au(0) });
}

#[test]
fn exclude_zero_extent_is_noop() {
    let mut e = Exclusions::new(Au(1000));
    e.exclude(Side::Left, &Size::new(Au(0), Au(50)));
    e.exclude(Side::Left, &Size::new(Au(50), Au(0)));
    let p = e.place(Side::Left, &Size::new(Au(10), Au(0)));
    assert_eq!(p, Point { inline: Au(0), block: Au(0) });
}

#[test]
fn left_band_shifts_placement() {
    let mut e = Exclusions::new(Au(1000));
    // a zero-height registration changes nothing...
    e.exclude(Side::Left, &Size::new(Au(200), Au(0)));
    // ...the real one ends its band at block 100
    e.exclude(Side::Left, &Size::new(Au(200), Au(100)));
    for &b in &[0, 50, 99] {
        let p = e.place(Side::Left, &Size::new(Au(100), Au(b)));
        assert_eq!(p, Point { inline: Au(200), block: Au(0) });
    }
}

#[test]
fn right_band_shifts_placement() {
    let mut e = Exclusions::new(Au(1000));
    e.exclude(Side::Right, &Size::new(Au(300), Au(50)));
    let p = e.place(Side::Right, &Size::new(Au(100), Au(10)));
    assert_eq!(p, Point { inline: Au(600), block: Au(0) });
}

#[test]
fn propagation_stops_at_deeper_band() {
    let mut e = Exclusions::new(Au(1000));
    e.exclude(Side::Left, &Size::new(Au(400), Au(100)));
    e.exclude(Side::Left, &Size::new(Au(200), Au(200)));
    // bands now: [0,100) left 400, [100,200) left 200, [200,..) left 0
    let p = e.place(Side::Left, &Size::new(Au(10), Au(0)));
    assert_eq!(p, Point { inline: Au(400), block: Au(0) });
    let p = e.place(Side::Left, &Size::new(Au(650), Au(0)));
    assert_eq!(p, Point { inline: Au(200), block: Au(100) });
    let p = e.place(Side::Left, &Size::new(Au(900), Au(0)));
    assert_eq!(p, Point { inline: Au(0), block: Au(200) });
}

#[test]
fn open_ended_band_is_fallback() {
    let mut e = Exclusions::new(Au(100));
    e.exclude(Side::Left, &Size::new(Au(90), Au(10)));
    let p = e.place(Side::Left, &Size::new(Au(95), Au(5)));
    assert_eq!(p, Point { inline: Au(0), block: Au(10) });
    // wider than everything: still placed, in the open-ended band
    let p = e.place(Side::Left, &Size::new(Au(200), Au(5)));
    assert_eq!(p, Point { inline: Au(0), block: Au(10) });
}

#[test]
fn both_sides_independent() {
    let mut e = Exclusions::new(Au(1000));
    e.exclude(Side::Left, &Size::new(Au(100), Au(50)));
    e.exclude(Side::Right, &Size::new(Au(250), Au(50)));
    let p = e.place(Side::Left, &Size::new(Au(50), Au(0)));
    assert_eq!(p, Point { inline: Au(100), block: Au(0) });
    let p = e.place(Side::Right, &Size::new(Au(50), Au(0)));
    assert_eq!(p, Point { inline: Au(700), block: Au(0) });
}

/// A plain reference model of the band algorithm: bands as a sorted list
/// of (start, end, left, right) with magnitudes stored positively.
struct Model {
    inline_size: i32,
    bands: Vec<(i32, i64, i32, i32)>,
}

impl Model {
    fn new(inline_size: i32) -> Model {
        Model { inline_size, bands: vec![(0, MAX_AU as i64, 0, 0)] }
    }

    fn exclude(&mut self, left_side: bool, inline: i32, block: i32) {
        if inline == 0 || block == 0 {
            return;
        }
        // split at `block`
        let mut split_idx: usize = 0;
        for (i, b) in self.bands.iter().enumerate() {
            if (b.0 as i64) <= block as i64 && (block as i64) < b.1 {
                split_idx = i;
                break;
            }
        }
        let b = self.bands[split_idx];
        if b.0 != block {
            self.bands[split_idx] = (b.0, block as i64, b.2, b.3);
            self.bands.insert(split_idx + 1, (block, b.1, b.2, b.3));
        }
        // walk upward from the band ending at `block`
        let mut i = self.bands.iter().position(|b| b.1 == block as i64);
        while let Some(k) = i {
            let cur = if left_side { self.bands[k].2 } else { self.bands[k].3 };
            if cur > inline {
                break;
            }
            if left_side {
                self.bands[k].2 = inline;
            } else {
                self.bands[k].3 = inline;
            }
            if k == 0 {
                break;
            }
            i = Some(k - 1);
        }
    }

    fn place(&self, left_side: bool, inline: i32) -> (i32, i32) {
        let n = self.bands.len();
        for (i, b) in self.bands.iter().enumerate() {
            let avail = self.inline_size as i64 - b.2 as i64 - b.3 as i64;
            if inline as i64 <= avail || i == n - 1 {
                let x = if left_side {
                    b.2
                } else {
                    self.inline_size - b.3 - inline
                };
                return (x, b.0);
            }
        }
        unreachable!("the last band always qualifies");
    }
}

#[test]
fn matches_reference_band_model() {
    let mut e = Exclusions::new(Au(1000));
    let mut model = Model::new(1000);
    // a deterministic pseudo-random workload
    let mut state: u64 = 12345;
    let mut next = move || {
        state = state.wrapping_mul(6364136223846793005).wrapping_add(1442695040888963407);
        (state >> 33) as i32
    };
    for step in 0..60 {
        let left = next() % 2 == 0;
        let side = if left { Side::Left } else { Side::Right };
        if step % 3 != 2 {
            let inline = next().rem_euclid(500);
            let block = next().rem_euclid(400);
            e.exclude(side, &Size::new(Au(inline), Au(block)));
            model.exclude(left, inline, block);
        } else {
            let inline = next().rem_euclid(600);
            let p = e.place(side, &Size::new(Au(inline), Au(0)));
            let (mx, mb) = model.place(left, inline);
            assert_eq!((p.inline.0, p.block.0), (mx, mb), "step {}", step);
        }
    }
}
