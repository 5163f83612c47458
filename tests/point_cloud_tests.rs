use pasture_algorithms::las_writer::{LASWriter, LasWriteError};
use pasture_algorithms::point_cloud::{PointCloud, PointError, Position, COORD_LIMIT};

#[test]
fn cloud_refuses_coordinates_beyond_the_limit() {
    let ok = vec![Position::new(COORD_LIMIT, -COORD_LIMIT, 0)];
    assert!(PointCloud::new(ok).is_ok());
    let bad = vec![Position::new(0, 0, 0), Position::new(0, COORD_LIMIT + 1, 0)];
    assert_eq!(PointCloud::new(bad).err(), Some(PointError::CoordinateOutOfRange(1)));
}

#[test]
fn position_lookup_by_index() {
    let c = PointCloud::new(vec![Position::new(1, 2, 3), Position::new(4, 5, 6)]).unwrap();
    assert_eq!(c.len(), 2);
    assert_eq!(c.position_at(1), Ok(Position::new(4, 5, 6)));
    assert_eq!(c.position_at(2), Err(PointError::OutOfRange(2)));
    assert_eq!(c.positions().len(), 2);
}

#[test]
fn las_writer_emits_one_record_per_point() {
    let empty = LASWriter::new(2, 0).unwrap().into_bytes().unwrap();
    assert_eq!(&empty[..4], b"LASF");
    let mut w = LASWriter::new(2, 0).unwrap();
    let c = PointCloud::new(vec![Position::new(1, 2, 3), Position::new(4, 5, 6)]).unwrap();
    w.write(&c);
    w.write(&c);
    assert_eq!(w.len(), 4);
    let bytes = w.into_bytes().unwrap();
    assert_eq!(&bytes[..4], b"LASF");
    // Format 0 records are 20 bytes long.
    assert_eq!(bytes.len() - empty.len(), 4 * 20);
}

#[test]
fn las_writer_format_zero_succeeds_for_every_version() {
    let c = PointCloud::new(vec![
        Position::new(500000, -524288, 524288),
        Position::new(0, 0, 0),
    ])
    .unwrap();
    for minor in 0..=4u8 {
        let mut w = LASWriter::new(minor, 0).unwrap();
        w.write(&c);
        let bytes = w.into_bytes().unwrap();
        assert_eq!(&bytes[..4], b"LASF");
        assert_eq!((bytes[24], bytes[25]), (1, minor));
    }
}

#[test]
fn las_writer_refuses_unknown_version_and_format() {
    assert!(matches!(LASWriter::new(5, 0), Err(LasWriteError::UnsupportedVersion)));
    assert!(matches!(LASWriter::new(2, 11), Err(LasWriteError::UnsupportedFormat)));
}

#[test]
fn las_writer_reports_a_format_it_cannot_fill() {
    let c = PointCloud::new(vec![Position::new(1, 2, 3)]).unwrap();
    let mut w = LASWriter::new(2, 1).unwrap();
    w.write(&c);
    assert_eq!(w.into_bytes(), Err(LasWriteError::Encoding));
    // Format 6 is not part of LAS 1.2.
    let mut w = LASWriter::new(2, 6).unwrap();
    w.write(&c);
    assert_eq!(w.into_bytes(), Err(LasWriteError::Encoding));
}
