use reversi::point::{Disc, Point};
use reversi::storage::ColorStorage;
use reversi::Color;

#[test]
fn parses_valid_notation() {
    let p = Point::from(&String::from("d3")).unwrap();
    assert_eq!(p, Point::new(4, 3));
    let p = Point::from(&String::from("a1")).unwrap();
    assert_eq!(p, Point::new(1, 1));
    let p = Point::from(&String::from("h8")).unwrap();
    assert_eq!(p, Point::new(8, 8));
}

#[test]
fn rejects_trailing_characters() {
    let e = Point::from(&String::from("c4xyz")).unwrap_err();
    assert_eq!(e, "a move is one letter and one digit");
    let e = Point::from(&String::from("a11")).unwrap_err();
    assert_eq!(e, "a move is one letter and one digit");
}

#[test]
fn rejects_bad_column() {
    let e = Point::from(&String::from("z3")).unwrap_err();
    assert_eq!(e, "x must be in a to h");
    let e = Point::from(&String::from("")).unwrap_err();
    assert_eq!(e, "x must be in a to h");
    let e = Point::from(&String::from("59")).unwrap_err();
    assert_eq!(e, "x must be in a to h");
}

#[test]
fn rejects_bad_row() {
    let e = Point::from(&String::from("a9")).unwrap_err();
    assert_eq!(e, "y must be in 1 to 8");
    let e = Point::from(&String::from("a")).unwrap_err();
    assert_eq!(e, "y must be in 1 to 8");
    let e = Point::from(&String::from("h0")).unwrap_err();
    assert_eq!(e, "y must be in 1 to 8");
}

#[test]
fn notation_round_trip() {
    for x in 1..=8usize {
        for y in 1..=8usize {
            let p = Point::new(x, y);
            let s = p.notation();
            assert_eq!(Point::from(&s).unwrap(), p);
        }
    }
    assert_eq!(Point::new(4, 3).notation(), "d3");
    assert_eq!(Point::new(1, 8).notation(), "a8");
}

#[test]
fn disc_carries_point_and_color() {
    let d = Disc::new(Point::new(2, 7), Color::White);
    assert_eq!(d.x(), 2);
    assert_eq!(d.y(), 7);
    assert_eq!(d.color, Color::White);
    assert_eq!(Color::White.opponent(), Color::Black);
    assert_eq!(Color::Black.opponent(), Color::White);
}

#[test]
fn color_storage_reads_back_writes() {
    let mut s: ColorStorage<u32> = ColorStorage::new(7, 50, 7);
    assert_eq!(*s.get(&Color::White), 7);
    assert_eq!(*s.get(&Color::Empty), 50);
    assert_eq!(*s.get(&Color::Black), 7);
    s.set(&Color::Black, 9);
    assert_eq!(*s.get(&Color::Black), 9);
    assert_eq!(*s.get(&Color::White), 7);
}
