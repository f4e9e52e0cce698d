use vstd::prelude::*;

use crate::grid::coords_ok;

verus! {

/// Elevation sample that marks a hole in the raster.
pub const ELEVATION_NULL_VALUE: i16 = -32768;

/// Largest tile side accepted.
pub const MAX_SIDE: usize = 10000;

/// Units of 1e-7 degrees in one degree.
pub const DEGREE: i64 = 10000000;

/// ⌊lat⌋ in whole degrees for a latitude given in 1e-7 degrees.
pub open spec fn floor_lat(lat: i32) -> int {
    (lat + 900000000) / 10000000 - 90
}

/// ⌊lon⌋ in whole degrees for a longitude given in 1e-7 degrees.
pub open spec fn floor_lon(lon: i32) -> int {
    (lon + 1800000000) / 10000000 - 180
}

pub open spec fn digit_char(d: int) -> char {
    ('0' as int + d) as char
}

pub open spec fn abs_int(x: int) -> int {
    if x >= 0 {
        x
    } else {
        -x
    }
}

/// The name of the tile holding a coordinate: `N`/`S`, the absolute floor
/// of the latitude in two digits, `E`/`W`, the absolute floor of the
/// longitude in three digits.
pub open spec fn tile_name(lat: i32, lon: i32) -> Seq<char> {
    let a = abs_int(floor_lat(lat));
    let b = abs_int(floor_lon(lon));
    seq![if lat >= 0 { 'N' } else { 'S' }, digit_char(a / 10), digit_char(a % 10), if lon >= 0 {
        'E'
    } else {
        'W'
    }, digit_char(b / 100), digit_char((b / 10) % 10), digit_char(b % 10)]
}

fn digit_str(d: i32) -> (s: &'static str)
    requires
        0 <= d <= 9,
    ensures
        s@ == seq![digit_char(d as int)],
{
    if d == 0 {
        proof {
            reveal_strlit("0");
        }
        "0"
    } else if d == 1 {
        proof {
            reveal_strlit("1");
        }
        "1"
    } else if d == 2 {
        proof {
            reveal_strlit("2");
        }
        "2"
    } else if d == 3 {
        proof {
            reveal_strlit("3");
        }
        "3"
    } else if d == 4 {
        proof {
            reveal_strlit("4");
        }
        "4"
    } else if d == 5 {
        proof {
            reveal_strlit("5");
        }
        "5"
    } else if d == 6 {
        proof {
            reveal_strlit("6");
        }
        "6"
    } else if d == 7 {
        proof {
            reveal_strlit("7");
        }
        "7"
    } else if d == 8 {
        proof {
            reveal_strlit("8");
        }
        "8"
    } else {
        proof {
            reveal_strlit("9");
        }
        "9"
    }
}

/// ⌊lat⌋ and ⌊lon⌋ in whole degrees: the south-west corner of the tile.
pub fn tile_corner(lat: i32, lon: i32) -> (r: (i32, i32))
    requires
        coords_ok(lat, lon),
    ensures
        r.0 == floor_lat(lat),
        r.1 == floor_lon(lon),
        -90 <= r.0 <= 90,
        -180 <= r.1 <= 180,
{
    let a = ((lat as i64 + 900000000) / DEGREE - 90) as i32;
    let b = ((lon as i64 + 1800000000) / DEGREE - 180) as i32;
    (a, b)
}

pub fn get_file_name(lat: i32, lon: i32) -> (name: String)
    requires
        coords_ok(lat, lon),
    ensures
        name@ == tile_name(lat, lon),
{
    let (fa, fo) = tile_corner(lat, lon);
    let a = if fa >= 0 {
        fa
    } else {
        -fa
    };
    let b = if fo >= 0 {
        fo
    } else {
        -fo
    };
    let mut name = String::new();
    if lat >= 0 {
        proof {
            reveal_strlit("N");
        }
        name.append("N");
    } else {
        proof {
            reveal_strlit("S");
        }
        name.append("S");
    }
    name.append(digit_str(a / 10));
    name.append(digit_str(a % 10));
    if lon >= 0 {
        proof {
            reveal_strlit("E");
        }
        name.append("E");
    } else {
        proof {
            reveal_strlit("W");
        }
        name.append("W");
    }
    name.append(digit_str(b / 100));
    name.append(digit_str((b / 10) % 10));
    name.append(digit_str(b % 10));
    proof {
        assert(name@ =~= tile_name(lat, lon));
    }
    name
}

/// A big-endian signed 16-bit value.
pub open spec fn be_i16(hi: u8, lo: u8) -> int {
    let u = hi * 256 + lo;
    if u >= 32768 {
        u - 65536
    } else {
        u
    }
}

/// Largest `s` with `s * s <= q`.
pub open spec fn is_isqrt(s: int, q: int) -> bool {
    s >= 0 && s * s <= q && (s + 1) * (s + 1) > q
}

/// An elevation raster covering one square degree, whose south-west corner
/// is (`latitude`, `longitude`) in whole degrees; `data` holds
/// `square_side`² big-endian samples, row 0 at the north edge.
pub struct GeoElevationFile {
    pub file_name: String,
    pub latitude: i32,
    pub longitude: i32,
    pub data: Vec<u8>,
    pub square_side: usize,
}

/// A sample of a tile with its row and column.
#[derive(Clone, Copy, Debug, PartialEq, Eq, Structural)]
pub struct Sample {
    pub elevation: i16,
    pub row: i64,
    pub column: i64,
}

impl GeoElevationFile {
    pub open spec fn wf(&self) -> bool {
        &&& 2 <= self.square_side <= MAX_SIDE
        &&& -90 <= self.latitude <= 90
        &&& -180 <= self.longitude <= 180
        &&& 2 * self.square_side * self.square_side <= self.data@.len()
    }

    /// The tile for the coordinate (`latitude`, `longitude`) over the raw
    /// raster `data`; its side is the integer square root of half the byte
    /// count. A raster with a side below 2 or above the limit is refused.
    pub fn new(file_name: String, latitude: i32, longitude: i32, data: Vec<u8>) -> (r: Option<Self>)
        requires
            coords_ok(latitude, longitude),
        ensures
            match r {
                Some(f) => {
                    &&& f.wf()
                    &&& is_isqrt(f.square_side as int, (data@.len() / 2) as int)
                    &&& f.latitude == floor_lat(latitude)
                    &&& f.longitude == floor_lon(longitude)
                    &&& f.data@ == data@
                    &&& f.file_name@ == file_name@
                },
                None => forall|s: int|
                    #[trigger] is_isqrt(s, (data@.len() / 2) as int) ==> s < 2 || s > MAX_SIDE,
            },
    {
        let q = data.len() / 2;
        let mut s: usize = 0;
        loop
            invariant
                s <= MAX_SIDE + 1,
                s * s <= q,
            ensures
                s * s <= q,
                s > MAX_SIDE || (s + 1) * (s + 1) > q,
            decreases MAX_SIDE + 1 - s,
        {
            if s > MAX_SIDE {
                break;
            }
            let t = s + 1;
            proof {
                assert(t * t <= 100020001) by (nonlinear_arith)
                    requires 0 <= t <= 10001;
                assert(100020001 <= usize::MAX);
            }
            if t * t > q {
                break;
            }
            s = t;
        }
        if s > MAX_SIDE || s < 2 {
            proof {
                assert forall|t: int| #[trigger] is_isqrt(t, q as int) implies t < 2 || t > MAX_SIDE by {
                    if s > MAX_SIDE {
                        if t <= MAX_SIDE {
                            assert(t < s);
                            assert((t + 1) * (t + 1) <= s * s) by (nonlinear_arith)
                                requires 0 <= t < s;
                        }
                    } else {
                        assert((s + 1) * (s + 1) > q);
                        if t >= 2 {
                            assert(t > s);
                            assert((s + 1) * (s + 1) <= t * t) by (nonlinear_arith)
                                requires 0 <= s < t;
                        }
                    }
                }
            }
            return None;
        }
        let (lat_sw, lon_sw) = tile_corner(latitude, longitude);
        proof {
            assert(2 * s * s <= data@.len()) by (nonlinear_arith)
                requires s * s <= q, q == data@.len() / 2;
        }
        Some(GeoElevationFile { file_name, latitude: lat_sw, longitude: lon_sw, data, square_side: s })
    }

    /// Row and column of the raster cell holding (`lat`, `lon`):
    /// ⌊(south + 1 − lat)·(side − 1)⌋ and ⌊(lon − west)·(side − 1)⌋.
    pub open spec fn row_of(&self, lat: i32) -> int {
        (((self.latitude + 1) * DEGREE - lat) * (self.square_side - 1)) / (DEGREE as int)
    }

    pub open spec fn column_of(&self, lon: i32) -> int {
        ((lon - self.longitude * DEGREE) * (self.square_side - 1)) / (DEGREE as int)
    }

    pub fn get_row_and_column(&self, lat: i32, lon: i32) -> (r: (i64, i64))
        requires
            self.wf(),
            coords_ok(lat, lon),
        ensures
            r.0 == self.row_of(lat),
            r.1 == self.column_of(lon),
    {
        let k = (self.square_side - 1) as i64;
        proof {
            let da = (self.latitude + 1) * DEGREE - lat;
            let db = lon - self.longitude * DEGREE;
            assert(-4000000000 <= da <= 4000000000);
            assert(-4000000000 <= db <= 4000000000);
            assert(-4000000000 * 10000 <= da * k <= 4000000000 * 10000) by (nonlinear_arith)
                requires -4000000000 <= da <= 4000000000, 0 <= k <= 10000;
            assert(-4000000000 * 10000 <= db * k <= 4000000000 * 10000) by (nonlinear_arith)
                requires -4000000000 <= db <= 4000000000, 0 <= k <= 10000;
        }
        let a = ((self.latitude as i64 + 1) * DEGREE - lat as i64) * k;
        let b = (lon as i64 - self.longitude as i64 * DEGREE) * k;
        (floor_div(a), floor_div(b))
    }

    /// The sample at (`row`, `column`) if that cell lies inside the raster.
    pub fn get_elevation_from_row_and_column(&self, row: i64, column: i64) -> (r: Option<i16>)
        requires
            self.wf(),
        ensures
            r is Some <==> 0 <= row < self.square_side && 0 <= column < self.square_side,
            r matches Some(v) ==> v == be_i16(
                self.data@[2 * (row * self.square_side + column)],
                self.data@[2 * (row * self.square_side + column) + 1],
            ),
    {
        let s = self.square_side as i64;
        if row < 0 || row >= s || column < 0 || column >= s {
            return None;
        }
        proof {
            assert(row * s + column < s * s) by (nonlinear_arith)
                requires 0 <= row < s, 0 <= column < s;
            assert(s * s <= MAX_SIDE * MAX_SIDE) by (nonlinear_arith)
                requires 0 <= s <= MAX_SIDE;
            assert(0 <= row * s) by (nonlinear_arith)
                requires 0 <= row, 0 <= s;
        }
        let i = (row * s + column) as usize;
        proof {
            assert(i as int == row * s + column);
            assert(2 * i + 1 < 2 * s * s) by (nonlinear_arith)
                requires i < s * s;
            assert(2 * s * s == 2 * self.square_side * self.square_side);
        }
        let hi = self.data[2 * i];
        let lo = self.data[2 * i + 1];
        let u = hi as i32 * 256 + lo as i32;
        let v = if u >= 32768 {
            u - 65536
        } else {
            u
        };
        Some(v as i16)
    }

    /// The raw sample at a coordinate; `None` outside the raster or on a hole.
    pub fn get_elevation(&self, lat: i32, lon: i32) -> (r: Option<i16>)
        requires
            self.wf(),
            coords_ok(lat, lon),
        ensures
            ({
                let row = self.row_of(lat);
                let col = self.column_of(lon);
                let inside = 0 <= row < self.square_side && 0 <= col < self.square_side;
                let v = be_i16(
                    self.data@[2 * (row * self.square_side + col)],
                    self.data@[2 * (row * self.square_side + col) + 1],
                );
                r == if inside && v != ELEVATION_NULL_VALUE {
                    Some(v as i16)
                } else {
                    None::<i16>
                }
            }),
    {
        let (row, column) = self.get_row_and_column(lat, lon);
        match self.get_elevation_from_row_and_column(row, column) {
            Some(v) => {
                if v == ELEVATION_NULL_VALUE {
                    None
                } else {
                    Some(v)
                }
            },
            None => None,
        }
    }

    /// The samples inside the raster among `positions`, in order.
    pub open spec fn samples_at(&self, positions: Seq<(int, int)>) -> Seq<Sample>
        decreases positions.len(),
    {
        if positions.len() == 0 {
            Seq::empty()
        } else {
            let (r, c) = positions.last();
            self.samples_at(positions.drop_last()) + if 0 <= r < self.square_side && 0 <= c
                < self.square_side {
                seq![
                    Sample {
                        elevation: be_i16(
                            self.data@[2 * (r * self.square_side + c)],
                            self.data@[2 * (r * self.square_side + c) + 1],
                        ) as i16,
                        row: r as i64,
                        column: c as i64,
                    },
                ]
            } else {
                Seq::empty()
            }
        }
    }

    /// The cell holding a coordinate and its four axis neighbours: west,
    /// east, north, south.
    pub open spec fn neighbourhood(&self, lat: i32, lon: i32) -> Seq<(int, int)> {
        let r = self.row_of(lat);
        let c = self.column_of(lon);
        seq![(r, c), (r, c - 1), (r, c + 1), (r - 1, c), (r + 1, c)]
    }

    /// The samples an interpolation at (`lat`, `lon`) combines: the cell
    /// holding it and its axis neighbours, those outside the raster left out.
    pub fn get_elevation_weight_of_neighbors(&self, lat: i32, lon: i32) -> (r: Vec<Sample>)
        requires
            self.wf(),
            coords_ok(lat, lon),
        ensures
            r@ == self.samples_at(self.neighbourhood(lat, lon)),
    {
        let (row, column) = self.get_row_and_column(lat, lon);
        let ghost ps = self.neighbourhood(lat, lon);
        let mut out: Vec<Sample> = Vec::new();
        proof {
            self.lemma_row_bounds(lat, lon);
        }
        self.push_sample(&mut out, row, column, Ghost(ps.take(0)));
        proof {
            assert(ps.take(1) =~= ps.take(0).push((row as int, column as int)));
        }
        self.push_sample(&mut out, row, column - 1, Ghost(ps.take(1)));
        proof {
            assert(ps.take(2) =~= ps.take(1).push((row as int, column - 1)));
        }
        self.push_sample(&mut out, row, column + 1, Ghost(ps.take(2)));
        proof {
            assert(ps.take(3) =~= ps.take(2).push((row as int, column + 1)));
        }
        self.push_sample(&mut out, row - 1, column, Ghost(ps.take(3)));
        proof {
            assert(ps.take(4) =~= ps.take(3).push((row - 1, column as int)));
        }
        self.push_sample(&mut out, row + 1, column, Ghost(ps.take(4)));
        proof {
            assert(ps.take(5) =~= ps.take(4).push((row + 1, column as int)));
            assert(ps.take(5) =~= ps);
        }
        out
    }

    proof fn lemma_row_bounds(&self, lat: i32, lon: i32)
        requires
            self.wf(),
            coords_ok(lat, lon),
        ensures
            -2000000000 < self.row_of(lat) < 2000000000,
            -2000000000 < self.column_of(lon) < 2000000000,
    {
        let k = self.square_side - 1;
        let da = (self.latitude + 1) * DEGREE - lat;
        let db = lon - self.longitude * DEGREE;
        assert(-4000000000 * 10000 <= da * k <= 4000000000 * 10000) by (nonlinear_arith)
            requires -4000000000 <= da <= 4000000000, 0 <= k <= 10000;
        assert(-4000000000 * 10000 <= db * k <= 4000000000 * 10000) by (nonlinear_arith)
            requires -4000000000 <= db <= 4000000000, 0 <= k <= 10000;
    }

    fn push_sample(&self, out: &mut Vec<Sample>, row: i64, column: i64, Ghost(before): Ghost<Seq<(int, int)>>)
        requires
            self.wf(),
            old(out)@ == self.samples_at(before),
        ensures
            final(out)@ == self.samples_at(before.push((row as int, column as int))),
    {
        proof {
            assert(before.push((row as int, column as int)).drop_last() =~= before);
        }
        match self.get_elevation_from_row_and_column(row, column) {
            Some(v) => {
                out.push(Sample { elevation: v, row, column });
            },
            None => {},
        }
    }
}

/// The bytes of the first entry of a zip archive, when the archive opens
/// with a readable entry.
pub uninterp spec fn first_entry(archive: Seq<u8>) -> Option<Seq<u8>>;

/// Relies on zip::read::read_zipfile_from_stream: it reads the local header
/// at the start of the archive and decompresses that entry; the outcome
/// depends on the archive bytes alone.
#[verifier::external_body]
fn unzip_first(archive: &Vec<u8>) -> (r: Option<Vec<u8>>)
    ensures
        match r {
            Some(v) => first_entry(archive@) == Some(v@),
            None => first_entry(archive@) is None,
        },
{
    let mut cursor = std::io::Cursor::new(archive.as_slice());
    let r = match zip::read::read_zipfile_from_stream(&mut cursor) {
        Ok(Some(mut file)) => {
            let mut buf: Vec<u8> = Vec::new();
            match std::io::Read::read_to_end(&mut file, &mut buf) {
                Ok(_) => Some(buf),
                Err(_) => None,
            }
        },
        _ => None,
    };
    r
}

impl GeoElevationFile {
    /// The tile stored as the first entry of a zip archive, as `new` builds
    /// it from that entry's bytes.
    pub fn from_archive(file_name: String, latitude: i32, longitude: i32, archive: &Vec<u8>) -> (r:
        Option<Self>)
        requires
            coords_ok(latitude, longitude),
        ensures
            first_entry(archive@) is None ==> r is None,
            first_entry(archive@) is Some ==> (r is None <==> (forall|s: int|
                #[trigger] is_isqrt(s, (first_entry(archive@)->0.len() / 2) as int) ==> s < 2 || s
                    > MAX_SIDE)),
            r matches Some(f) ==> first_entry(archive@) == Some(f.data@) && f.wf() && f.latitude
                == floor_lat(latitude) && f.longitude == floor_lon(longitude) && is_isqrt(
                f.square_side as int,
                (f.data@.len() / 2) as int,
            ) && f.file_name@ == file_name@,
    {
        match unzip_first(archive) {
            Some(data) => {
                let ghost d = data@;
                let r = Self::new(file_name, latitude, longitude, data);
                proof {
                    assert(first_entry(archive@)->0 == d);
                    if r is Some {
                        assert(is_isqrt(r->0.square_side as int, (d.len() / 2) as int));
                    }
                }
                r
            },
            None => None,
        }
    }
}

/// ⌊a / DEGREE⌋.
fn floor_div(a: i64) -> (r: i64)
    requires
        -100000000000000 <= a <= 100000000000000,
    ensures
        r == (a as int) / (DEGREE as int),
{
    if a >= 0 {
        (a as u64 / DEGREE as u64) as i64
    } else {
        let p = (-a) as u64;
        let q = (p + DEGREE as u64 - 1) / DEGREE as u64;
        proof {
            let ai = a as int;
            let pi = p as int;
            assert(pi == -ai);
            assert(-((pi + 9999999) / 10000000) == ai / 10000000) by (nonlinear_arith)
                requires pi == -ai, ai < 0;
        }
        -(q as i64)
    }
}

} // verus!
