use textraster::pixel::Pix;
use textraster::surface::Surface;

const BLACK: Pix = Pix { r: 0, g: 0, b: 0, a: 255 };
const RED: Pix = Pix { r: 255, g: 0, b: 0, a: 255 };

#[test]
fn new_surface_is_filled() {
    let s = Surface::new(4, 3, BLACK);
    assert_eq!(s.width(), 4);
    assert_eq!(s.height(), 3);
    for y in 0..3 {
        for x in 0..4 {
            assert_eq!(s.get_pixel(x, y), BLACK);
        }
    }
}

#[test]
fn set_pixel_changes_only_its_cell() {
    let mut s = Surface::new(4, 4, BLACK);
    s.set_pixel(2, 1, RED);
    for y in 0..4 {
        for x in 0..4 {
            let expect = if (x, y) == (2, 1) { RED } else { BLACK };
            assert_eq!(s.get_pixel(x, y), expect);
        }
    }
}

#[test]
fn duplicate_is_independent() {
    let mut a = Surface::new(2, 2, BLACK);
    a.set_pixel(0, 1, RED);
    let mut b = a.duplicate();
    assert_eq!(b.get_pixel(0, 1), RED);
    assert_eq!(b.get_pixel(1, 1), BLACK);
    b.set_pixel(1, 1, RED);
    assert_eq!(a.get_pixel(1, 1), BLACK);
}

#[test]
fn zero_sized_surfaces_are_allowed() {
    let s = Surface::new(0, 7, BLACK);
    assert_eq!(s.width(), 0);
    assert_eq!(s.height(), 7);
    let t = Surface::new(7, 0, BLACK);
    assert_eq!(t.width(), 7);
    assert_eq!(t.height(), 0);
}
