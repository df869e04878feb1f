//! Cells of the earth's surface, numbered by interleaving the bits of their two
//! components.

use vstd::prelude::*;

verus! {

/// Number of low bits dropped from a Morton code to get its destination cell.
pub const DESTINATION_CELL_SHIFT_BITS: u32 = 36;

/// Largest value of one component of a destination cell.
pub fn destination_cell_component_limit() -> (limit: u32)
    ensures
        limit == 16383,
{
    16383
}

/// The bits of a 32-bit number moved apart: bit `i` goes to bit `2 * i`.
pub open spec fn spread(value: u64) -> u64 {
    let a = (value | (value << 16)) & 0x0000_FFFF_0000_FFFF;
    let b = (a | (a << 8)) & 0x00FF_00FF_00FF_00FF;
    let c = (b | (b << 4)) & 0x0F0F_0F0F_0F0F_0F0F;
    let d = (c | (c << 2)) & 0x3333_3333_3333_3333;
    (d | (d << 1)) & 0x5555_5555_5555_5555
}

/// The even bits of a number moved together: bit `2 * i` goes to bit `i`.
pub open spec fn compact(value: u64) -> u64 {
    let a = value & 0x5555_5555_5555_5555;
    let b = (a | (a >> 1)) & 0x3333_3333_3333_3333;
    let c = (b | (b >> 2)) & 0x0F0F_0F0F_0F0F_0F0F;
    let d = (c | (c >> 4)) & 0x00FF_00FF_00FF_00FF;
    let e = (d | (d >> 8)) & 0x0000_FFFF_0000_FFFF;
    (e | (e >> 16)) & 0x0000_0000_FFFF_FFFF
}

/// Whether a bit of a number is set.
pub open spec fn bit_set(value: u64, bit: u64) -> bool {
    (value >> bit) & 1 == 1
}

/// Moves the bits of a number apart.
pub fn spread_bits(value: u32) -> (wide: u64)
    ensures
        wide == spread(value as u64),
{
    let mut value: u64 = value as u64;
    value = (value | (value << 16)) & 0x0000_FFFF_0000_FFFF;
    value = (value | (value << 8)) & 0x00FF_00FF_00FF_00FF;
    value = (value | (value << 4)) & 0x0F0F_0F0F_0F0F_0F0F;
    value = (value | (value << 2)) & 0x3333_3333_3333_3333;
    value = (value | (value << 1)) & 0x5555_5555_5555_5555;
    value
}

/// Moves the even bits of a number together.
pub fn compact_bits(value: u64) -> (narrow: u32)
    ensures
        narrow == compact(value),
{
    let ghost whole = value;
    let mut value: u64 = value & 0x5555_5555_5555_5555;
    value = (value | (value >> 1)) & 0x3333_3333_3333_3333;
    value = (value | (value >> 2)) & 0x0F0F_0F0F_0F0F_0F0F;
    value = (value | (value >> 4)) & 0x00FF_00FF_00FF_00FF;
    value = (value | (value >> 8)) & 0x0000_FFFF_0000_FFFF;
    let ghost last = value;
    value = (value | (value >> 16)) & 0x0000_0000_FFFF_FFFF;
    assert(value <= 0xFFFF_FFFF) by {
        assert(((last | (last >> 16)) & 0x0000_0000_FFFF_FFFF) <= 0xFFFF_FFFF) by (bit_vector);
    }
    value as u32
}

/// Bit `i` of a number is bit `2 * i` of it spread, and all odd bits are clear.
pub proof fn spread_places_bits(value: u64, bit: u64)
    requires
        value <= 0xFFFF_FFFF,
        bit < 32,
    ensures
        bit_set(spread(value), (2 * bit) as u64) == bit_set(value, bit),
        !bit_set(spread(value), (2 * bit + 1) as u64),
{
    let a = (value | (value << 16)) & 0x0000_FFFF_0000_FFFF;
    let b = (a | (a << 8)) & 0x00FF_00FF_00FF_00FF;
    let c = (b | (b << 4)) & 0x0F0F_0F0F_0F0F_0F0F;
    let d = (c | (c << 2)) & 0x3333_3333_3333_3333;
    let e = (d | (d << 1)) & 0x5555_5555_5555_5555;
    assert(e == spread(value));
    let low = (2 * bit) as u64;
    let high = (2 * bit + 1) as u64;
    assert(((e >> low) & 1 == 1) == ((value >> bit) & 1 == 1) && (e >> high) & 1 != 1) by (bit_vector)
        requires
            value <= 0xFFFF_FFFF,
            bit < 32,
            low == 2 * bit,
            high == 2 * bit + 1,
            a == (value | (value << 16)) & 0x0000_FFFF_0000_FFFF,
            b == (a | (a << 8)) & 0x00FF_00FF_00FF_00FF,
            c == (b | (b << 4)) & 0x0F0F_0F0F_0F0F_0F0F,
            d == (c | (c << 2)) & 0x3333_3333_3333_3333,
            e == (d | (d << 1)) & 0x5555_5555_5555_5555,
    ;
}

/// The number of the cell with two components: the bits of the first at even
/// places, those of the second at odd places.
pub open spec fn cell_of(lon_component: u32, lat_component: u32) -> u64 {
    spread(lon_component as u64) | (spread(lat_component as u64) << 1)
}

/// The first component of a cell.
pub open spec fn lon_of(cell: u64) -> u32 {
    compact(cell) as u32
}

/// The second component of a cell.
pub open spec fn lat_of(cell: u64) -> u32 {
    compact(cell >> 1) as u32
}

/// Both components of a cell are found again in its number.
pub proof fn components_are_found_again(lon: u32, lat: u32)
    ensures
        lon_of(cell_of(lon, lat)) == lon,
        lat_of(cell_of(lon, lat)) == lat,
{
    let x = lon as u64;
    let y = lat as u64;
    let s = spread(x);
    let t = spread(y);
    compact_undoes_spread(x);
    compact_undoes_spread(y);
    spread_is_even(x);
    spread_is_even(y);
    assert((s | (t << 1)) & 0x5555_5555_5555_5555 == s & 0x5555_5555_5555_5555) by (bit_vector)
        requires
            t & 0xAAAA_AAAA_AAAA_AAAA == 0,
    ;
    assert(((s | (t << 1)) >> 1) & 0x5555_5555_5555_5555 == t & 0x5555_5555_5555_5555) by (bit_vector)
        requires
            s & 0xAAAA_AAAA_AAAA_AAAA == 0,
            t & 0xAAAA_AAAA_AAAA_AAAA == 0,
    ;
}

proof fn spread_is_even(value: u64)
    ensures
        spread(value) & 0xAAAA_AAAA_AAAA_AAAA == 0,
{
    let a = (value | (value << 16)) & 0x0000_FFFF_0000_FFFF;
    let b = (a | (a << 8)) & 0x00FF_00FF_00FF_00FF;
    let c = (b | (b << 4)) & 0x0F0F_0F0F_0F0F_0F0F;
    let d = (c | (c << 2)) & 0x3333_3333_3333_3333;
    assert(((d | (d << 1)) & 0x5555_5555_5555_5555) & 0xAAAA_AAAA_AAAA_AAAA == 0) by (bit_vector);
}

/// Moving bits together undoes moving them apart.
pub proof fn compact_undoes_spread(value: u64)
    requires
        value <= 0xFFFF_FFFF,
    ensures
        compact(spread(value)) == value,
{
    let a = (value | (value << 16)) & 0x0000_FFFF_0000_FFFF;
    let b = (a | (a << 8)) & 0x00FF_00FF_00FF_00FF;
    let c = (b | (b << 4)) & 0x0F0F_0F0F_0F0F_0F0F;
    let d = (c | (c << 2)) & 0x3333_3333_3333_3333;
    let e = (d | (d << 1)) & 0x5555_5555_5555_5555;
    let p = e & 0x5555_5555_5555_5555;
    let q = (p | (p >> 1)) & 0x3333_3333_3333_3333;
    let r = (q | (q >> 2)) & 0x0F0F_0F0F_0F0F_0F0F;
    let s = (r | (r >> 4)) & 0x00FF_00FF_00FF_00FF;
    let t = (s | (s >> 8)) & 0x0000_FFFF_0000_FFFF;
    let u = (t | (t >> 16)) & 0x0000_0000_FFFF_FFFF;
    assert(u == value) by (bit_vector)
        requires
            value <= 0xFFFF_FFFF,
            a == (value | (value << 16)) & 0x0000_FFFF_0000_FFFF,
            b == (a | (a << 8)) & 0x00FF_00FF_00FF_00FF,
            c == (b | (b << 4)) & 0x0F0F_0F0F_0F0F_0F0F,
            d == (c | (c << 2)) & 0x3333_3333_3333_3333,
            e == (d | (d << 1)) & 0x5555_5555_5555_5555,
            p == e & 0x5555_5555_5555_5555,
            q == (p | (p >> 1)) & 0x3333_3333_3333_3333,
            r == (q | (q >> 2)) & 0x0F0F_0F0F_0F0F_0F0F,
            s == (r | (r >> 4)) & 0x00FF_00FF_00FF_00FF,
            t == (s | (s >> 8)) & 0x0000_FFFF_0000_FFFF,
            u == (t | (t >> 16)) & 0x0000_0000_FFFF_FFFF,
    ;
}

/// The number of a cell with two components.
pub fn encode_destination_cell(lon_component: u32, lat_component: u32) -> (cell: u64)
    ensures
        cell == cell_of(lon_component, lat_component),
{
    spread_bits(lon_component) | (spread_bits(lat_component) << 1)
}

/// The components of a cell.
pub fn decode_destination_cell(cell: u64) -> (components: (u32, u32))
    ensures
        components == (lon_of(cell), lat_of(cell)),
{
    (compact_bits(cell), compact_bits(cell >> 1))
}

/// The Morton code of a place whose coordinates have been scaled to 32 bits.
pub fn morton_code(latitude: u32, longitude: u32) -> (code: u64)
    ensures
        code == cell_of(longitude, latitude),
{
    spread_bits(longitude) | (spread_bits(latitude) << 1)
}

/// The scaled coordinates of a Morton code, latitude first.
pub fn decode_morton_code(code: u64) -> (coordinates: (u32, u32))
    ensures
        coordinates == (lat_of(code), lon_of(code)),
{
    (compact_bits(code >> 1), compact_bits(code))
}

/// The destination cell of a place whose coordinates have been scaled to 32 bits.
pub open spec fn destination_cell_of(latitude: Option<u32>, longitude: Option<u32>) -> Option<u64> {
    match (latitude, longitude) {
        (Some(lat), Some(lon)) => Some(cell_of(lon, lat) >> DESTINATION_CELL_SHIFT_BITS),
        _ => None,
    }
}

/// The destination cell of a place whose coordinates have been scaled to 32 bits.
pub fn destination_cell(latitude: Option<u32>, longitude: Option<u32>) -> (cell: Option<u64>)
    ensures
        cell == destination_cell_of(latitude, longitude),
{
    match (latitude, longitude) {
        (Some(lat), Some(lon)) => Some(morton_code(lat, lon) >> DESTINATION_CELL_SHIFT_BITS),
        _ => None,
    }
}

/// Places are in the same destination cell if their scaled coordinates agree in
/// the upper 14 bits, and the components of the cell are those bits.
pub proof fn destination_cell_has_upper_bits(latitude: u32, longitude: u32)
    ensures
        destination_cell_of(Some(latitude), Some(longitude)) == Some(cell_of(longitude >> 18, latitude >> 18)),
{
    let x = longitude as u64;
    let y = latitude as u64;
    let a = longitude >> 18;
    let b = latitude >> 18;
    assert(a as u64 == x >> 18) by (bit_vector)
        requires
            a == longitude >> 18,
            x == longitude as u64,
    ;
    assert(b as u64 == y >> 18) by (bit_vector)
        requires
            b == latitude >> 18,
            y == latitude as u64,
    ;
    spread_shifts(x);
    spread_shifts(y);
    let s = spread(x);
    let t = spread(y);
    assert((s | (t << 1)) >> 36 == (s >> 36) | ((t >> 36) << 1)) by (bit_vector)
        requires
            t & 0xAAAA_AAAA_AAAA_AAAA == 0,
    ;
}

proof fn spread_shifts(value: u64)
    requires
        value <= 0xFFFF_FFFF,
    ensures
        spread(value) >> 36 == spread(value >> 18),
        spread(value) & 0xAAAA_AAAA_AAAA_AAAA == 0,
{
    spread_is_even(value);
    let w = value >> 18;
    let a = (value | (value << 16)) & 0x0000_FFFF_0000_FFFF;
    let b = (a | (a << 8)) & 0x00FF_00FF_00FF_00FF;
    let c = (b | (b << 4)) & 0x0F0F_0F0F_0F0F_0F0F;
    let d = (c | (c << 2)) & 0x3333_3333_3333_3333;
    let e = (d | (d << 1)) & 0x5555_5555_5555_5555;
    let p = (w | (w << 16)) & 0x0000_FFFF_0000_FFFF;
    let q = (p | (p << 8)) & 0x00FF_00FF_00FF_00FF;
    let r = (q | (q << 4)) & 0x0F0F_0F0F_0F0F_0F0F;
    let s = (r | (r << 2)) & 0x3333_3333_3333_3333;
    let t = (s | (s << 1)) & 0x5555_5555_5555_5555;
    assert(e >> 36 == t) by (bit_vector)
        requires
            value <= 0xFFFF_FFFF,
            w == value >> 18,
            a == (value | (value << 16)) & 0x0000_FFFF_0000_FFFF,
            b == (a | (a << 8)) & 0x00FF_00FF_00FF_00FF,
            c == (b | (b << 4)) & 0x0F0F_0F0F_0F0F_0F0F,
            d == (c | (c << 2)) & 0x3333_3333_3333_3333,
            e == (d | (d << 1)) & 0x5555_5555_5555_5555,
            p == (w | (w << 16)) & 0x0000_FFFF_0000_FFFF,
            q == (p | (p << 8)) & 0x00FF_00FF_00FF_00FF,
            r == (q | (q << 4)) & 0x0F0F_0F0F_0F0F_0F0F,
            s == (r | (r << 2)) & 0x3333_3333_3333_3333,
            t == (s | (s << 1)) & 0x5555_5555_5555_5555,
    ;
}

/// A component read as a signed number.
pub open spec fn signed(component: u32) -> int {
    if component < 0x8000_0000 { component as int } else { component - 0x1_0000_0000 }
}

fn signed_component(component: u32) -> (value: i64)
    ensures
        value == signed(component),
{
    if component < 0x8000_0000 { component as i64 } else { component as i64 - 0x1_0000_0000 }
}

/// Whether a number is a component of a cell.
pub open spec fn is_component(value: int) -> bool {
    0 <= value <= 16383
}

/// The cells of one row of a window, up to the first `n` columns.
pub open spec fn window_row(lon: int, lat: int, radius: int, n: int) -> Seq<u64>
    decreases n,
{
    if n <= 0 {
        Seq::empty()
    } else {
        let before = window_row(lon, lat, radius, n - 1);
        let next_lon = lon - radius + n - 1;
        if is_component(next_lon) && is_component(lat) { before.push(cell_of(next_lon as u32, lat as u32)) } else { before }
    }
}

/// The cells of the first `n` rows of a window.
pub open spec fn window_rows(lon: int, lat: int, radius: int, n: int) -> Seq<u64>
    decreases n,
{
    if n <= 0 {
        Seq::empty()
    } else {
        window_rows(lon, lat, radius, n - 1) + window_row(lon, lat - radius + n - 1, radius, 2 * radius + 1)
    }
}

/// The cells around a cell, row by row, that exist.
pub open spec fn window_of(cell: u64, radius: int) -> Seq<u64> {
    window_rows(signed(lon_of(cell)), signed(lat_of(cell)), radius, 2 * radius + 1)
}

/// The cells around a cell, row by row. The radius is limited by what a list can
/// hold.
pub fn moore_neighborhood_with_radius(cell: u64, radius_cells: u32) -> (cells: Vec<u64>)
    requires
        radius_cells < 0x2000_0000,
    ensures
        cells@ == window_of(cell, radius_cells as int),
{
    let (lon_component, lat_component) = decode_destination_cell(cell);
    let limit: i64 = destination_cell_component_limit() as i64;
    let lon: i64 = signed_component(lon_component);
    let lat: i64 = signed_component(lat_component);
    let radius: i64 = radius_cells as i64;
    let side: i64 = 2 * radius + 1;
    let mut cells: Vec<u64> = Vec::new();
    let mut row: i64 = 0;
    assert(cells@ =~= window_rows(lon as int, lat as int, radius as int, 0));
    while row < side
        invariant
            limit == 16383,
            0 <= row <= side,
            side == 2 * radius + 1,
            0 <= radius < 0x2000_0000,
            -0x8000_0000 <= lon < 0x8000_0000,
            -0x8000_0000 <= lat < 0x8000_0000,
            cells@ == window_rows(lon as int, lat as int, radius as int, row as int),
        decreases side - row,
    {
        let next_lat: i64 = lat - radius + row;
        let ghost rows = cells@;
        let mut column: i64 = 0;
        assert(rows + window_row(lon as int, next_lat as int, radius as int, 0) =~= rows);
        while column < side
            invariant
                limit == 16383,
                0 <= column <= side,
                side == 2 * radius + 1,
                0 <= radius < 0x2000_0000,
                -0x8000_0000 <= lon < 0x8000_0000,
                -0x8000_0000 <= lat < 0x8000_0000,
                0 <= row < side,
                next_lat == lat - radius + row,
                cells@ == rows + window_row(lon as int, next_lat as int, radius as int, column as int),
            decreases side - column,
        {
            let next_lon: i64 = lon - radius + column;
            if !(next_lon < 0 || next_lat < 0 || next_lon > limit || next_lat > limit) {
                cells.push(encode_destination_cell(next_lon as u32, next_lat as u32));
            }
            column = column + 1;
            assert(cells@ =~= rows + window_row(lon as int, next_lat as int, radius as int, column as int));
        }
        row = row + 1;
    }
    cells
}

/// The cells next to a cell, and the cell itself.
pub fn moore_neighborhood(cell: u64) -> (cells: Vec<u64>)
    ensures
        cells@ == window_of(cell, 1),
{
    moore_neighborhood_with_radius(cell, 1)
}

/// The cells within a distance of a cell.
pub fn destination_cell_window(cell: u64, radius_cells: u32) -> (cells: Vec<u64>)
    requires
        radius_cells < 0x2000_0000,
    ensures
        cells@ == window_of(cell, radius_cells as int),
{
    moore_neighborhood_with_radius(cell, radius_cells)
}

/// The cells next to the cell of a place.
pub fn destination_cell_neighborhood(latitude: Option<u32>, longitude: Option<u32>) -> (cells: Vec<u64>)
    ensures
        cells@ == match destination_cell_of(latitude, longitude) {
            Some(cell) => window_of(cell, 1),
            None => Seq::empty(),
        },
{
    match destination_cell(latitude, longitude) {
        Some(cell) => moore_neighborhood(cell),
        None => Vec::new(),
    }
}

proof fn row_has(lon: int, lat: int, radius: int, n: int, column: int)
    requires
        0 <= column < n,
        is_component(lon - radius + column),
        is_component(lat),
    ensures
        window_row(lon, lat, radius, n).contains(cell_of((lon - radius + column) as u32, lat as u32)),
    decreases n,
{
    let row = window_row(lon, lat, radius, n);
    if column == n - 1 {
        assert(row.last() == cell_of((lon - radius + column) as u32, lat as u32));
    } else {
        row_has(lon, lat, radius, n - 1, column);
        let before = window_row(lon, lat, radius, n - 1);
        let at = choose|at: int| 0 <= at < before.len() && before[at] == cell_of((lon - radius + column) as u32, lat as u32);
        assert(row[at] == before[at]);
    }
}

proof fn rows_have(lon: int, lat: int, radius: int, n: int, row: int, column: int)
    requires
        0 <= row < n,
        0 <= column < 2 * radius + 1,
        is_component(lon - radius + column),
        is_component(lat - radius + row),
    ensures
        window_rows(lon, lat, radius, n).contains(cell_of((lon - radius + column) as u32, (lat - radius + row) as u32)),
    decreases n,
{
    let rows = window_rows(lon, lat, radius, n);
    let before = window_rows(lon, lat, radius, n - 1);
    let last = window_row(lon, lat - radius + n - 1, radius, 2 * radius + 1);
    let cell = cell_of((lon - radius + column) as u32, (lat - radius + row) as u32);
    if row == n - 1 {
        row_has(lon, lat - radius + n - 1, radius, 2 * radius + 1, column);
        let at = choose|at: int| 0 <= at < last.len() && last[at] == cell;
        assert(rows[before.len() + at] == cell);
    } else {
        rows_have(lon, lat, radius, n - 1, row, column);
        let at = choose|at: int| 0 <= at < before.len() && before[at] == cell;
        assert(rows[at] == cell);
    }
}

/// A window holds every cell whose components are within the radius of those of
/// its centre: so the cell itself, and the cells next to it.
pub proof fn windows_have_all_near_cells(cell: u64, radius: int, lon: u32, lat: u32)
    requires
        radius >= 0,
        is_component(lon as int),
        is_component(lat as int),
        -radius <= lon - signed(lon_of(cell)) <= radius,
        -radius <= lat - signed(lat_of(cell)) <= radius,
    ensures
        window_of(cell, radius).contains(cell_of(lon, lat)),
{
    let x = signed(lon_of(cell));
    let y = signed(lat_of(cell));
    rows_have(x, y, radius, 2 * radius + 1, lat - y + radius, lon - x + radius);
}

/// Whether a cell exists and has its components within a radius of two others.
pub open spec fn is_near(cell: u64, lon: int, lat: int, radius: int) -> bool {
    exists|a: u32, b: u32| cell == #[trigger] cell_of(a, b) && is_component(a as int) && is_component(b as int) && -radius <= a - lon <= radius && -radius <= b - lat <= radius
}

proof fn row_is_near(lon: int, row_lat: int, lat: int, radius: int, n: int)
    requires
        n <= 2 * radius + 1,
        -radius <= row_lat - lat <= radius,
    ensures
        forall|i: int| 0 <= i < window_row(lon, row_lat, radius, n).len() ==> is_near(#[trigger] window_row(lon, row_lat, radius, n)[i], lon, lat, radius),
    decreases n,
{
    if n > 0 {
        row_is_near(lon, row_lat, lat, radius, n - 1);
        let before = window_row(lon, row_lat, radius, n - 1);
        let row = window_row(lon, row_lat, radius, n);
        let next_lon = lon - radius + n - 1;
        assert forall|i: int| 0 <= i < row.len() implies is_near(#[trigger] row[i], lon, lat, radius) by {
            if i < before.len() {
                assert(row[i] == before[i]);
            } else {
                assert(row[i] == cell_of(next_lon as u32, row_lat as u32));
            }
        }
    }
}

proof fn rows_are_near(lon: int, lat: int, radius: int, n: int)
    requires
        n <= 2 * radius + 1,
    ensures
        forall|i: int| 0 <= i < window_rows(lon, lat, radius, n).len() ==> is_near(#[trigger] window_rows(lon, lat, radius, n)[i], lon, lat, radius),
    decreases n,
{
    if n > 0 {
        rows_are_near(lon, lat, radius, n - 1);
        row_is_near(lon, lat - radius + n - 1, lat, radius, 2 * radius + 1);
        let before = window_rows(lon, lat, radius, n - 1);
        let last = window_row(lon, lat - radius + n - 1, radius, 2 * radius + 1);
        let rows = window_rows(lon, lat, radius, n);
        assert forall|i: int| 0 <= i < rows.len() implies is_near(#[trigger] rows[i], lon, lat, radius) by {
            if i < before.len() {
                assert(rows[i] == before[i]);
            } else {
                assert(rows[i] == last[i - before.len()]);
            }
        }
    }
}

/// A window holds no cell but those whose components are within the radius of
/// those of its centre.
pub proof fn windows_have_only_near_cells(cell: u64, radius: int)
    ensures
        forall|i: int| 0 <= i < window_of(cell, radius).len() ==> is_near(#[trigger] window_of(cell, radius)[i], signed(lon_of(cell)), signed(lat_of(cell)), radius),
{
    rows_are_near(signed(lon_of(cell)), signed(lat_of(cell)), radius, 2 * radius + 1);
}

} // verus!
