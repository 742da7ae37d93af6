use slime::agent::{amount_per_tick, ink, steer};
use slime::angle::{cosine, rotate, sine};
use slime::field::{Rgba, TrailField};
use slime::random::{fraction, hash};
use slime::SimError;

#[test]
fn hash_known_values() {
    assert_eq!(hash(0), 1739749167);
    assert_eq!(hash(1), 150776505);
    assert_eq!(hash(12345), 3826328255);
}

#[test]
fn hash_is_pure() {
    assert_eq!(hash(987654), hash(987654));
    assert_ne!(hash(2), hash(3));
}

#[test]
fn fraction_scales_by_hash() {
    assert_eq!(fraction(0, 1000), 0);
    assert_eq!(fraction(0x8000_0000, 1000), 500);
    assert_eq!(fraction(0xC000_0000, 2000), 1500);
    assert_eq!(fraction(u32::MAX, 1000), 999);
}

#[test]
fn sine_and_cosine_at_quarter_turns() {
    assert_eq!(sine(0), 0);
    assert_eq!(sine(16384), 65536);
    assert_eq!(sine(32768), 0);
    assert_eq!(sine(49152), -65536);
    assert_eq!(cosine(0), 65536);
    assert_eq!(cosine(16384), 0);
    assert_eq!(cosine(32768), -65536);
    assert_eq!(cosine(49152), 0);
}

#[test]
fn sine_between_quarter_turns() {
    assert_eq!(sine(8192), 46260);
    assert_eq!(sine(5461), 32766);
    assert_eq!(sine(32768 + 8192), -46260);
    assert_eq!(cosine(57344), 46260);
}

#[test]
fn rotate_wraps_both_ways() {
    assert_eq!(rotate(100, 50, 0), 150);
    assert_eq!(rotate(100, 0, 150), 65486);
    assert_eq!(rotate(65500, 100, 0), 64);
    assert_eq!(rotate(7, 65536 * 3 + 1, 65536), 8);
}

#[test]
fn amount_per_tick_scales_by_milliseconds() {
    assert_eq!(amount_per_tick(1000, 1000), 1000);
    assert_eq!(amount_per_tick(100, 16), 1);
    assert_eq!(amount_per_tick(u32::MAX, u32::MAX), 18446744065119617);
}

#[test]
fn steer_forward_strongest_keeps_heading() {
    assert_eq!(steer(1000, 9, 5, 5, 0xC000_0000, 1000), 1000);
}

#[test]
fn steer_forward_weakest_turns_randomly_either_way() {
    assert_eq!(steer(1000, 1, 5, 5, 0xC000_0000, 1000), 1500);
    assert_eq!(steer(1000, 1, 5, 5, 0x4000_0000, 1000), 500);
}

#[test]
fn steer_toward_stronger_side() {
    assert_eq!(steer(1000, 5, 9, 1, 0xC000_0000, 1000), 1750);
    assert_eq!(steer(1000, 5, 1, 9, 0xC000_0000, 1000), 250);
}

#[test]
fn steer_equal_sides_keeps_heading() {
    assert_eq!(steer(1000, 5, 5, 5, 0xC000_0000, 1000), 1000);
    assert_eq!(steer(1000, 0, 0, 0, 0xC000_0000, 1000), 1000);
}

#[test]
fn ink_color() {
    assert_eq!(ink(), Rgba { r: 1000, g: 0, b: 500, a: 1000 });
}

#[test]
fn field_rejects_bad_sizes() {
    assert_eq!(TrailField::new(0, 5).err(), Some(SimError::ZeroDimension));
    assert_eq!(TrailField::new(5, 0).err(), Some(SimError::ZeroDimension));
    assert_eq!(TrailField::new(32769, 5).err(), Some(SimError::TooLarge));
    assert!(TrailField::new(32768, 1).is_ok());
}

#[test]
fn field_from_cells_checks_its_input() {
    let black = Rgba { r: 0, g: 0, b: 0, a: 0 };
    assert_eq!(TrailField::from_cells(2, 2, vec![black; 3]).err(), Some(SimError::LengthMismatch));
    let mut cells = vec![black; 4];
    cells[2] = Rgba { r: 0, g: 1001, b: 0, a: 0 };
    assert_eq!(TrailField::from_cells(2, 2, cells).err(), Some(SimError::ChannelOutOfRange));
    let f = TrailField::from_cells(2, 2, vec![Rgba { r: 1, g: 2, b: 3, a: 4 }; 4]).unwrap();
    assert_eq!(f.width(), 2);
    assert_eq!(f.height(), 2);
    assert_eq!(f.get(1, 1), Rgba { r: 1, g: 2, b: 3, a: 4 });
}

#[test]
fn new_field_is_black() {
    let f = TrailField::new(3, 2).unwrap();
    for y in 0..2 {
        for x in 0..3 {
            assert_eq!(f.get(x, y), Rgba { r: 0, g: 0, b: 0, a: 0 });
        }
    }
}

#[test]
fn set_paints_one_cell() {
    let mut f = TrailField::new(3, 3).unwrap();
    f.set(2, 1, ink());
    assert_eq!(f.get(2, 1), ink());
    assert_eq!(f.get(1, 2), Rgba { r: 0, g: 0, b: 0, a: 0 });
}

#[test]
fn rect_sum_clips_nothing_inside() {
    let mut f = TrailField::new(4, 4).unwrap();
    f.set(1, 1, Rgba { r: 100, g: 20, b: 3, a: 7 });
    f.set(2, 2, Rgba { r: 10, g: 0, b: 0, a: 0 });
    assert_eq!(f.rect_sum(0, 4, 0, 4, 0), 110);
    assert_eq!(f.rect_sum(0, 4, 0, 4, 4), 133);
    assert_eq!(f.rect_sum(0, 2, 0, 2, 3), 7);
    assert_eq!(f.rect_sum(2, 4, 0, 2, 4), 0);
}
