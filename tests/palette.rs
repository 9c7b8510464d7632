use julia_fractal::color::{anchor, colormap, interpolate, normalize, Rgb};

#[test]
fn interpolate_endpoints_and_midpoints() {
    assert_eq!(interpolate(0, 76, 67), 76);
    assert_eq!(interpolate(63, 76, 67), 67);
    assert_eq!(interpolate(32, 76, 67), 71);
    assert_eq!(interpolate(10, 114, 247), 135);
    assert_eq!(interpolate(63, 9, 37), 37);
}

#[test]
fn colormap_starts_at_first_anchor() {
    assert_eq!(colormap(0), Rgb { r: 76, g: 201, b: 240 });
    assert_eq!(colormap(0), anchor(0));
}

#[test]
fn colormap_ends_at_last_anchor() {
    assert_eq!(colormap(255), Rgb { r: 247, g: 37, b: 133 });
    assert_eq!(colormap(254), anchor(4));
    assert_eq!(colormap(253), anchor(4));
    assert_eq!(colormap(1000), anchor(4));
}

#[test]
fn colormap_inside_bands() {
    assert_eq!(colormap(32), Rgb { r: 71, g: 148, b: 238 });
    assert_eq!(colormap(63), anchor(1));
    assert_eq!(colormap(64), anchor(1));
    assert_eq!(colormap(127), anchor(2));
    assert_eq!(colormap(190), anchor(3));
    assert_eq!(colormap(200), Rgb { r: 135, g: 13, b: 175 });
}

#[test]
fn colormap_has_no_jumps() {
    fn gap(a: u8, b: u8) -> u8 {
        if a > b { a - b } else { b - a }
    }
    for v in 0..255u32 {
        let (a, b) = (colormap(v), colormap(v + 1));
        assert!(gap(a.r, b.r) <= 3, "red jumps at {}", v);
        assert!(gap(a.g, b.g) <= 3, "green jumps at {}", v);
        assert!(gap(a.b, b.b) <= 3, "blue jumps at {}", v);
    }
}

#[test]
fn normalize_rounds_to_nearest_level() {
    assert_eq!(normalize(0, 50), 0);
    assert_eq!(normalize(49, 50), 250);
    assert_eq!(normalize(50, 50), 255);
    assert_eq!(normalize(1, 2), 128);
    assert_eq!(normalize(1, 1000), 0);
    assert_eq!(normalize(2, 1000), 1);
    assert_eq!(normalize(999, 1000), 255);
}
