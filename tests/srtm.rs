use std::io::Write;

use elevation_router::srtm::{get_file_name, tile_corner, GeoElevationFile, Sample};

#[test]
fn test_get_file_name() {
    let mut name = get_file_name(538913740, 130838720);
    assert_eq!(name, "N53E013");
    name = get_file_name(461789260, 76392130);
    assert_eq!(name, "N46E007");
}

#[test]
fn file_name_south_west() {
    assert_eq!(get_file_name(-51000000, -101000000), "S06W011");
    assert_eq!(get_file_name(-5000000, 1795000000), "S01E179");
    assert_eq!(get_file_name(0, 0), "N00E000");
    assert_eq!(tile_corner(-51000000, -101000000), (-6, -11));
}

/// A 3x3 raster whose sample (r, c) is 100 * r + c, with a hole at (2, 2).
fn raster() -> Vec<u8> {
    let mut data = Vec::new();
    for r in 0..3i16 {
        for c in 0..3i16 {
            let v: i16 = if r == 2 && c == 2 { -32768 } else { 100 * r + c };
            data.extend_from_slice(&v.to_be_bytes());
        }
    }
    data
}

#[test]
fn tile_geometry_and_samples() {
    let tile = GeoElevationFile::new("N52E013".to_string(), 525000000, 135000000, raster()).unwrap();
    assert_eq!(tile.square_side, 3);
    assert_eq!((tile.latitude, tile.longitude), (52, 13));
    // north-west corner area
    assert_eq!(tile.get_row_and_column(529900000, 130100000), (0, 0));
    // centre of the tile
    assert_eq!(tile.get_row_and_column(525000000, 135000000), (1, 1));
    assert_eq!(tile.get_elevation(525000000, 135000000), Some(101));
    assert_eq!(tile.get_elevation_from_row_and_column(2, 1), Some(201));
    assert_eq!(tile.get_elevation_from_row_and_column(3, 0), None);
    assert_eq!(tile.get_elevation_from_row_and_column(0, -1), None);
    // the hole reads as no data
    assert_eq!(tile.get_elevation(520000000, 140000000), None);
}

#[test]
fn negative_samples_decode() {
    let mut data = raster();
    data[0] = 0xff;
    data[1] = 0x38;
    let tile = GeoElevationFile::new("N52E013".to_string(), 525000000, 135000000, data).unwrap();
    assert_eq!(tile.get_elevation_from_row_and_column(0, 0), Some(-200));
}

#[test]
fn neighbour_samples() {
    let tile = GeoElevationFile::new("N52E013".to_string(), 525000000, 135000000, raster()).unwrap();
    let centre = tile.get_elevation_weight_of_neighbors(525000000, 135000000);
    let rc: Vec<(i16, i64, i64)> = centre.iter().map(|s| (s.elevation, s.row, s.column)).collect();
    assert_eq!(rc, vec![(101, 1, 1), (100, 1, 0), (102, 1, 2), (1, 0, 1), (201, 2, 1)]);
    let corner = tile.get_elevation_weight_of_neighbors(529900000, 130100000);
    assert_eq!(
        corner,
        vec![
            Sample { elevation: 0, row: 0, column: 0 },
            Sample { elevation: 1, row: 0, column: 1 },
            Sample { elevation: 100, row: 1, column: 0 },
        ]
    );
}

#[test]
fn raster_too_small_is_refused() {
    assert!(GeoElevationFile::new("x".to_string(), 0, 0, vec![0, 1]).is_none());
    assert!(GeoElevationFile::new("x".to_string(), 0, 0, vec![]).is_none());
    // 9 samples and a stray byte still make a 3x3 raster
    let mut data = raster();
    data.push(7);
    assert_eq!(GeoElevationFile::new("x".to_string(), 0, 0, data).unwrap().square_side, 3);
}

#[test]
fn tile_from_zip_archive() {
    let mut buf = std::io::Cursor::new(Vec::new());
    {
        let mut zw = zip::ZipWriter::new(&mut buf);
        let options = zip::write::SimpleFileOptions::default()
            .compression_method(zip::CompressionMethod::Deflated);
        zw.start_file("N52E013.hgt", options).unwrap();
        zw.write_all(&raster()).unwrap();
        zw.finish().unwrap();
    }
    let archive = buf.into_inner();
    assert_ne!(archive, raster());
    let tile = GeoElevationFile::from_archive("N52E013".to_string(), 525000000, 135000000, &archive)
        .unwrap();
    assert_eq!(tile.data, raster());
    assert_eq!(tile.get_elevation(525000000, 135000000), Some(101));
    assert!(GeoElevationFile::from_archive("x".to_string(), 0, 0, &raster()).is_none());
}
