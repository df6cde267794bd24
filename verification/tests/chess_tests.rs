use battlemap::chess::{from_map_coordinates, to_map_coordinates, Coordinates, ParseError};

#[test]
fn test_to_map_coordinates() {
    assert_eq!(to_map_coordinates("ZZ1").ok(), Some((701, 0)));
    assert_eq!(to_map_coordinates("ZZ11").ok(), Some((701, 10)));
    assert_eq!(to_map_coordinates("A1").ok(), Some((0, 0)));
    assert_eq!(to_map_coordinates("A5").ok(), Some((0, 4)));
    assert_eq!(to_map_coordinates("B2").ok(), Some((1, 1)));
    assert_eq!(to_map_coordinates("Z1").ok(), Some((25, 0)));
    assert_eq!(to_map_coordinates("AA1").ok(), Some((26, 0)));
    assert_eq!(to_map_coordinates("AB1").ok(), Some((27, 0)));
    assert_eq!(to_map_coordinates("YZ1").ok(), Some((675, 0)));
    assert_eq!(to_map_coordinates("ZA1").ok(), Some((676, 0)));
    assert_eq!(to_map_coordinates("ZB1").ok(), Some((677, 0)));
}

#[test]
fn test_chess_coordinates() {
    assert_eq!("A1", from_map_coordinates(0, 0));
    assert_eq!("A5", from_map_coordinates(0, 4));
    assert_eq!("B2", from_map_coordinates(1, 1));
    assert_eq!("Z1", from_map_coordinates(25, 0));
    assert_eq!("AA1", from_map_coordinates(26, 0));
    assert_eq!("AB1", from_map_coordinates(27, 0));
    assert_eq!("YZ1", from_map_coordinates(675, 0));
    assert_eq!("ZA1", from_map_coordinates(676, 0));
    assert_eq!("ZB1", from_map_coordinates(677, 0));
    assert_eq!("ZZ1", from_map_coordinates(701, 0));
}

#[test]
fn test_coordinates_conversion() {
    assert_eq!(
        Coordinates::Chess("A1".to_string()),
        Coordinates::Chess("A1".to_string())
    );
    assert_eq!(
        Coordinates::Chess("A1".to_string()),
        Coordinates::Chess("A1".to_string()).to_chess()
    );
    assert_eq!(
        Some(Coordinates::Grid(0, 0)),
        Coordinates::Chess("A1".to_string()).to_map().ok()
    );

    assert_eq!(Coordinates::Grid(0, 0), Coordinates::Grid(0, 0));
    assert_eq!(
        Some(Coordinates::Grid(0, 0)),
        Coordinates::Grid(0, 0).to_map().ok()
    );
    assert_eq!(
        Coordinates::Chess("A1".to_string()),
        Coordinates::Grid(0, 0).to_chess()
    );
}

#[test]
fn test_chess_round_trip_literals() {
    for s in ["A1", "Z9", "AA1", "AB12", "ZZ11", "ZZ2147483647", "A0"] {
        let (col, row) = to_map_coordinates(s).unwrap();
        assert_eq!(s, from_map_coordinates(col, row));
    }
}

#[test]
fn test_map_round_trip_literals() {
    for (col, row) in [(0, 0), (25, 0), (26, 0), (701, 10), (350, 2147483646)] {
        let s = from_map_coordinates(col, row);
        assert_eq!(to_map_coordinates(&s).ok(), Some((col, row)));
    }
}

#[test]
fn test_to_map_rejects_bad_notation() {
    assert_eq!(to_map_coordinates(""), Err(ParseError::NoMatch));
    assert_eq!(to_map_coordinates("a1"), Err(ParseError::NoMatch));
    assert_eq!(to_map_coordinates("A"), Err(ParseError::NoMatch));
    assert_eq!(to_map_coordinates("1"), Err(ParseError::NoMatch));
    assert_eq!(to_map_coordinates("1A"), Err(ParseError::NoMatch));
    assert_eq!(to_map_coordinates("A1B"), Err(ParseError::NoMatch));
    assert_eq!(to_map_coordinates("A 1"), Err(ParseError::NoMatch));
    assert_eq!(to_map_coordinates("A-1"), Err(ParseError::NoMatch));
}

#[test]
fn test_to_map_rejects_overflow() {
    assert_eq!(to_map_coordinates("A2147483648"), Err(ParseError::BadNumber));
    assert_eq!(to_map_coordinates("A99999999999"), Err(ParseError::BadNumber));
    assert_eq!(
        to_map_coordinates("AAAAAAAAAAAA1"),
        Err(ParseError::BadNumber)
    );
    assert_eq!(to_map_coordinates("A2147483647").ok(), Some((0, 2147483646)));
}

#[test]
fn test_negative_rows_render_as_written() {
    assert_eq!("A0", from_map_coordinates(0, -1));
    assert_eq!("B-4", from_map_coordinates(1, -5));
}
