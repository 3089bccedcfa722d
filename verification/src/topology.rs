//! Zone topology of the 9x9 board.
//!
//! Cells are numbered 0..81 row by row. There are 27 zones: rows are zones
//! 0..9, columns are zones 9..18 and boxes are zones 18..27. Everything here is
//! arithmetic on indices; nothing depends on the contents of a grid.

use vstd::prelude::*;

verus! {

/// Zone id of the first row.
pub const ROW_OFFSET: usize = 0;

/// Zone id of the first column.
pub const COL_OFFSET: usize = 9;

/// Zone id of the first box.
pub const FIELD_OFFSET: usize = 18;

/// Row (0..9) of a cell.
#[verifier::opaque]
pub open spec fn row_of(cell: int) -> int {
    cell / 9
}

/// Column (0..9) of a cell.
#[verifier::opaque]
pub open spec fn col_of(cell: int) -> int {
    cell % 9
}

/// Box (0..9) of a cell, boxes numbered row by row.
#[verifier::opaque]
pub open spec fn field_of(cell: int) -> int {
    (cell / 27) * 3 + (cell % 9) / 3
}

/// Zone id of the row that holds `cell`.
pub open spec fn row_zone_of(cell: int) -> int {
    row_of(cell)
}

/// Zone id of the column that holds `cell`.
pub open spec fn col_zone_of(cell: int) -> int {
    9 + col_of(cell)
}

/// Zone id of the box that holds `cell`.
pub open spec fn field_zone_of(cell: int) -> int {
    18 + field_of(cell)
}

/// `cell` is one of the nine members of `zone`.
pub open spec fn in_zone(cell: int, zone: int) -> bool {
    zone == row_zone_of(cell) || zone == col_zone_of(cell) || zone == field_zone_of(cell)
}

/// Two different cells that share a row, a column or a box.
pub open spec fn sees(a: int, b: int) -> bool {
    a != b && (row_of(a) == row_of(b) || col_of(a) == col_of(b) || field_of(a) == field_of(b))
}

/// The `k`-th member (0..9) of `zone`, in ascending cell order.
#[verifier::opaque]
pub open spec fn zone_cell(zone: int, k: int) -> int {
    if zone < 9 {
        zone * 9 + k
    } else if zone < 18 {
        k * 9 + (zone - 9)
    } else {
        ((zone - 18) / 3) * 27 + ((zone - 18) % 3) * 3 + (k / 3) * 9 + k % 3
    }
}

/// Position (0..9) of `cell` inside `zone`, for a zone that holds it.
#[verifier::opaque]
pub open spec fn zone_pos(cell: int, zone: int) -> int {
    if zone < 9 {
        col_of(cell)
    } else if zone < 18 {
        row_of(cell)
    } else {
        (row_of(cell) % 3) * 3 + col_of(cell) % 3
    }
}

/// The `j`-th neighbour (0..20) of `cell`: first the eight other cells of its
/// row, then the eight other cells of its column, then the four cells of its
/// box that lie in neither.
#[verifier::opaque]
pub open spec fn neighbour(cell: int, j: int) -> int {
    let r = row_of(cell);
    let c = col_of(cell);
    if j < 8 {
        r * 9 + (if j < c {
            j
        } else {
            j + 1
        })
    } else if j < 16 {
        (if j - 8 < r {
            j - 8
        } else {
            j - 7
        }) * 9 + c
    } else {
        let rr = (r - r % 3) + (r % 3 + 1 + (j - 16) / 2) % 3;
        let cc = (c - c % 3) + (c % 3 + 1 + (j - 16) % 2) % 3;
        rr * 9 + cc
    }
}

/// Index (0..20) at which `other` stands among the neighbours of `cell`.
#[verifier::opaque]
pub open spec fn neighbour_index(cell: int, other: int) -> int {
    let r = row_of(cell);
    let c = col_of(cell);
    let ro = row_of(other);
    let co = col_of(other);
    if ro == r {
        if co < c {
            co
        } else {
            co - 1
        }
    } else if co == c {
        8 + (if ro < r {
            ro
        } else {
            ro - 1
        })
    } else {
        16 + 2 * ((ro % 3 + 2 - r % 3) % 3) + (co % 3 + 2 - c % 3) % 3
    }
}

/// Row, column and box of a cell in plain arithmetic.
pub proof fn lemma_coordinates(cell: int)
    ensures
        row_of(cell) == cell / 9,
        col_of(cell) == cell % 9,
        field_of(cell) == (cell / 27) * 3 + (cell % 9) / 3,
{
    reveal(row_of);
    reveal(col_of);
    reveal(field_of);
}

/// Place of cell `c` in a scan of all cells that starts right after `last`
/// and wraps around: 0 for the cell after `last`, 80 for `last` itself.
#[verifier::opaque]
pub open spec fn scan_pos(last: int, c: int) -> int {
    (c + 80 - last) % 81
}

/// The scan visits every cell once: places lie in 0..81, two cells have two
/// places, the cell after `last` comes first and `last` comes last.
pub proof fn lemma_scan_pos(last: int, c: int, other: int)
    requires
        0 <= last < 81,
        0 <= c < 81,
        0 <= other < 81,
    ensures
        0 <= scan_pos(last, c) < 81,
        scan_pos(last, c) == scan_pos(last, other) ==> c == other,
        scan_pos(last, (last + 1) % 81) == 0,
        scan_pos(last, c) == 80 <==> c == last,
        scan_pos(last, c) < 80 ==> scan_pos(last, if c == 80 {
            0
        } else {
            c + 1
        }) == scan_pos(last, c) + 1,
{
    reveal(scan_pos);
}

/// A way to fill the board from nine values: cell `c` takes the value at
/// index `pattern(c)`. Each row is the row above shifted by three, and by
/// one more from one band of boxes to the next.
#[verifier::opaque]
pub open spec fn pattern(cell: int) -> int {
    (3 * row_of(cell) + row_of(cell) / 3 + col_of(cell)) % 9
}

/// The pattern uses indices 0..9, gives two cells that see each other two
/// indices, and gives the first row the indices in order.
pub proof fn lemma_pattern(a: int, b: int)
    requires
        0 <= a < 81,
        0 <= b < 81,
    ensures
        0 <= pattern(a) < 9,
        a < 9 ==> pattern(a) == a,
        sees(a, b) ==> pattern(a) != pattern(b),
{
    lemma_coords(a);
    lemma_coords(b);
    let xa = lemma_pattern_offset(a);
    let xb = lemma_pattern_offset(b);
    if sees(a, b) {
        let ra = row_of(a);
        let ca = col_of(a);
        let rb = row_of(b);
        let cb = col_of(b);
        if ra != rb && ca != cb {
            assert(field_of(a) == field_of(b));
            assert(ra / 3 == rb / 3 && ca / 3 == cb / 3);
        }
        lemma_offsets_differ(ra / 3, ra % 3, ca / 3, ca % 3, rb / 3, rb % 3, cb / 3, cb % 3);
    }
}

/// Two cells in one row, one column or one box, given by band and offset
/// of their rows and columns, have offsets that differ modulo nine.
proof fn lemma_offsets_differ(r1: int, i1: int, c1: int, j1: int, r2: int, i2: int, c2: int, j2: int)
    requires
        0 <= r1 < 3 && 0 <= i1 < 3 && 0 <= c1 < 3 && 0 <= j1 < 3,
        0 <= r2 < 3 && 0 <= i2 < 3 && 0 <= c2 < 3 && 0 <= j2 < 3,
        !(r1 == r2 && i1 == i2 && c1 == c2 && j1 == j2),
        (r1 == r2 && i1 == i2) || (c1 == c2 && j1 == j2) || (r1 == r2 && c1 == c2),
    ensures
        (3 * i1 + j1 + r1 + 3 * c1) % 9 != (3 * i2 + j2 + r2 + 3 * c2) % 9,
{
    let d = (3 * i1 + j1 + r1 + 3 * c1) - (3 * i2 + j2 + r2 + 3 * c2);
    assert(-9 < d < 9 && d != 0) by {
        if r1 == r2 && i1 == i2 {
            assert(d == (j1 - j2) + 3 * (c1 - c2));
        } else if c1 == c2 && j1 == j2 {
            assert(d == 3 * (i1 - i2) + (r1 - r2));
        } else {
            assert(d == 3 * (i1 - i2) + (j1 - j2));
        }
    }
}

/// The pattern of a cell is the remainder of a sum of its offsets in band
/// and box, which is returned.
proof fn lemma_pattern_offset(cell: int) -> (x: int)
    requires
        0 <= cell < 81,
    ensures
        x == 3 * (row_of(cell) % 3) + col_of(cell) % 3 + row_of(cell) / 3 + 3 * (col_of(cell) / 3),
        0 <= x < 17,
        pattern(cell) == x % 9,
        cell < 9 ==> x == cell,
{
    reveal(row_of);
    reveal(col_of);
    reveal(pattern);
    let r = cell / 9;
    let c = cell % 9;
    let x = 3 * (r % 3) + c % 3 + r / 3 + 3 * (c / 3);
    assert(3 * r + r / 3 + c == 9 * (r / 3) + x);
    assert((9 * (r / 3) + x) % 9 == x % 9);
    x
}

/// Quotient and remainder of `q * 9 + r`, `q * 3 + r` and `q * 27 + r` for a small `r`.
proof fn lemma_split(q: int, r: int)
    requires
        0 <= q,
        0 <= r,
    ensures
        r < 9 ==> (q * 9 + r) / 9 == q && (q * 9 + r) % 9 == r,
        r < 3 ==> (q * 3 + r) / 3 == q && (q * 3 + r) % 3 == r,
        r < 27 ==> (q * 27 + r) / 27 == q && (q * 27 + r) % 27 == r,
{
}

/// A cell is its row times nine plus its column, and each of the two splits
/// into a band and an offset below three.
proof fn lemma_coords(cell: int)
    requires
        0 <= cell < 81,
    ensures
        cell == row_of(cell) * 9 + col_of(cell),
        0 <= row_of(cell) < 9,
        0 <= col_of(cell) < 9,
        field_of(cell) == (row_of(cell) / 3) * 3 + col_of(cell) / 3,
        0 <= field_of(cell) < 9,
{
    reveal(row_of);
    reveal(col_of);
    reveal(field_of);
    let r = cell / 9;
    let c = cell % 9;
    lemma_split(r / 3, (r % 3) * 9 + c);
    assert(cell == (r / 3) * 27 + ((r % 3) * 9 + c));
}

/// Every zone member is a cell of that zone, at the position it was taken from.
pub proof fn lemma_zone_cell(zone: int, k: int)
    requires
        0 <= zone < 27,
        0 <= k < 9,
    ensures
        0 <= zone_cell(zone, k) < 81,
        in_zone(zone_cell(zone, k), zone),
        zone_pos(zone_cell(zone, k), zone) == k,
{
    reveal(row_of);
    reveal(col_of);
    reveal(field_of);
    reveal(zone_cell);
    reveal(zone_pos);
    let cell = zone_cell(zone, k);
    if zone < 9 {
        lemma_split(zone, k);
    } else if zone < 18 {
        lemma_split(k, zone - 9);
    } else {
        let b = zone - 18;
        let r = (b / 3) * 3 + k / 3;
        let c = (b % 3) * 3 + k % 3;
        assert(cell == r * 9 + c);
        lemma_split(r, c);
        lemma_split(b / 3, k / 3);
        lemma_split(b % 3, k % 3);
        lemma_coords(cell);
    }
}

/// Every cell of a zone is one of its nine listed members.
pub proof fn lemma_zone_pos(cell: int, zone: int)
    requires
        0 <= cell < 81,
        0 <= zone < 27,
        in_zone(cell, zone),
    ensures
        0 <= zone_pos(cell, zone) < 9,
        zone_cell(zone, zone_pos(cell, zone)) == cell,
{
    reveal(row_of);
    reveal(col_of);
    reveal(field_of);
    reveal(zone_cell);
    reveal(zone_pos);
    lemma_coords(cell);
    if zone >= 18 {
        let r = row_of(cell);
        let c = col_of(cell);
        let k = (r % 3) * 3 + c % 3;
        lemma_split(r % 3, c % 3);
        lemma_split(r / 3, c / 3);
    }
}

/// The three zones of a cell are a row, a column and a box zone.
pub proof fn lemma_zones_of_cell(cell: int)
    requires
        0 <= cell < 81,
    ensures
        0 <= row_zone_of(cell) < 9,
        9 <= col_zone_of(cell) < 18,
        18 <= field_zone_of(cell) < 27,
        0 <= row_of(cell) < 9,
        0 <= col_of(cell) < 9,
        0 <= field_of(cell) < 9,
{
    lemma_coords(cell);
}

/// Two cells see each other exactly when they differ and share a zone.
pub proof fn lemma_sees_zone(a: int, b: int)
    requires
        0 <= a < 81,
        0 <= b < 81,
    ensures
        sees(a, b) <==> (a != b && exists|z: int| 0 <= z < 27 && in_zone(a, z) && #[trigger] in_zone(b, z)),
        sees(a, b) == sees(b, a),
{
    reveal(row_of);
    reveal(col_of);
    reveal(field_of);
    lemma_coords(a);
    lemma_coords(b);
    if sees(a, b) {
        if row_of(a) == row_of(b) {
            assert(in_zone(b, row_zone_of(a)));
        } else if col_of(a) == col_of(b) {
            assert(in_zone(b, col_zone_of(a)));
        } else {
            assert(in_zone(b, field_zone_of(a)));
        }
    }
}

/// Every listed neighbour is a cell that sees `cell`, at the index it was taken from.
pub proof fn lemma_neighbour(cell: int, j: int)
    requires
        0 <= cell < 81,
        0 <= j < 20,
    ensures
        0 <= neighbour(cell, j) < 81,
        sees(cell, neighbour(cell, j)),
        neighbour_index(cell, neighbour(cell, j)) == j,
{
    reveal(row_of);
    reveal(col_of);
    reveal(field_of);
    reveal(neighbour);
    reveal(neighbour_index);
    lemma_coords(cell);
    let r = row_of(cell);
    let c = col_of(cell);
    let other = neighbour(cell, j);
    if j < 8 {
        lemma_split(r, if j < c { j } else { j + 1 });
    } else if j < 16 {
        lemma_split(if j - 8 < r { j - 8 } else { j - 7 }, c);
    } else {
        let dr = (r % 3 + 1 + (j - 16) / 2) % 3;
        let dc = (c % 3 + 1 + (j - 16) % 2) % 3;
        let rr = (r - r % 3) + dr;
        let cc = (c - c % 3) + dc;
        lemma_split(rr, cc);
        lemma_split(r / 3, dr);
        lemma_split(c / 3, dc);
        assert(rr == (r / 3) * 3 + dr);
        assert(cc == (c / 3) * 3 + dc);
        assert(row_of(other) == rr);
        assert(col_of(other) == cc);
        lemma_coords(other);
        assert(rr % 3 == dr);
        assert(cc % 3 == dc);
        assert(rr / 3 == r / 3);
        assert(cc / 3 == c / 3);
        assert((dr + 2 - r % 3) % 3 == (j - 16) / 2);
        assert((dc + 2 - c % 3) % 3 == (j - 16) % 2);
    }
}

/// Every cell that sees `cell` is one of its twenty listed neighbours.
pub proof fn lemma_neighbour_index(cell: int, other: int)
    requires
        0 <= cell < 81,
        0 <= other < 81,
        sees(cell, other),
    ensures
        0 <= neighbour_index(cell, other) < 20,
        neighbour(cell, neighbour_index(cell, other)) == other,
{
    reveal(row_of);
    reveal(col_of);
    reveal(field_of);
    reveal(neighbour);
    reveal(neighbour_index);
    lemma_coords(cell);
    lemma_coords(other);
    let r = row_of(cell);
    let c = col_of(cell);
    let ro = row_of(other);
    let co = col_of(other);
    if ro != r && co != c {
        let a = (ro % 3 + 2 - r % 3) % 3;
        let b = (co % 3 + 2 - c % 3) % 3;
        assert(ro / 3 == r / 3 && co / 3 == c / 3);
        assert(ro % 3 != r % 3);
        assert(co % 3 != c % 3);
        assert(0 <= a < 2);
        assert(0 <= b < 2);
        let j = 16 + 2 * a + b;
        assert((j - 16) / 2 == a);
        assert((j - 16) % 2 == b);
        assert((r % 3 + 1 + a) % 3 == ro % 3);
        assert((c % 3 + 1 + b) % 3 == co % 3);
        assert((r - r % 3) + ro % 3 == ro);
        assert((c - c % 3) + co % 3 == co);
    }
}

/// Row of a cell.
pub fn row(cell: u8) -> (r: u8)
    requires
        cell < 81,
    ensures
        r == row_of(cell as int),
        r < 9,
{
    proof {
        reveal(row_of);
    }
    cell / 9
}

/// Column of a cell.
pub fn col(cell: u8) -> (r: u8)
    requires
        cell < 81,
    ensures
        r == col_of(cell as int),
        r < 9,
{
    proof {
        reveal(col_of);
    }
    cell % 9
}

/// Box of a cell.
pub fn field(cell: u8) -> (r: u8)
    requires
        cell < 81,
    ensures
        r == field_of(cell as int),
        r < 9,
{
    proof {
        reveal(field_of);
    }
    (cell / 27) * 3 + (cell % 9) / 3
}

/// Zone id of the row of a cell.
pub fn row_zone(cell: u8) -> (z: usize)
    requires
        cell < 81,
    ensures
        z == row_zone_of(cell as int),
        z < 9,
{
    row(cell) as usize + ROW_OFFSET
}

/// Zone id of the column of a cell.
pub fn col_zone(cell: u8) -> (z: usize)
    requires
        cell < 81,
    ensures
        z == col_zone_of(cell as int),
        9 <= z < 18,
{
    col(cell) as usize + COL_OFFSET
}

/// Zone id of the box of a cell.
pub fn field_zone(cell: u8) -> (z: usize)
    requires
        cell < 81,
    ensures
        z == field_zone_of(cell as int),
        18 <= z < 27,
{
    field(cell) as usize + FIELD_OFFSET
}

/// The nine cells of a zone, in ascending order.
pub fn cells_of_zone(zone: u8) -> (cells: [u8; 9])
    requires
        zone < 27,
    ensures
        forall|k: int| 0 <= k < 9 ==> #[trigger] cells[k] as int == zone_cell(zone as int, k),
{
    let mut cells: [u8; 9] = [0u8;9];
    let mut k: u8 = 0;
    while k < 9
        invariant
            zone < 27,
            k <= 9,
            forall|i: int| 0 <= i < k ==> #[trigger] cells[i] as int == zone_cell(zone as int, i),
        decreases 9 - k,
    {
        proof {
            reveal(zone_cell);
        }
        let cell: u8 = if zone < 9 {
            zone * 9 + k
        } else if zone < 18 {
            k * 9 + (zone - 9)
        } else {
            ((zone - 18) / 3) * 27 + ((zone - 18) % 3) * 3 + (k / 3) * 9 + k % 3
        };
        cells[k as usize] = cell;
        k += 1;
    }
    cells
}

/// The twenty cells that share a zone with `cell`.
pub fn neighbours(cell: u8) -> (cells: [u8; 20])
    requires
        cell < 81,
    ensures
        forall|j: int| 0 <= j < 20 ==> #[trigger] cells[j] as int == neighbour(cell as int, j),
{
    let r: u8 = cell / 9;
    let c: u8 = cell % 9;
    let mut cells: [u8; 20] = [0u8;20];
    let mut j: u8 = 0;
    while j < 20
        invariant
            cell < 81,
            r == cell / 9,
            c == cell % 9,
            j <= 20,
            forall|i: int| 0 <= i < j ==> #[trigger] cells[i] as int == neighbour(cell as int, i),
        decreases 20 - j,
    {
        proof {
            reveal(row_of);
            reveal(col_of);
            reveal(neighbour);
        }
        let other: u8 = if j < 8 {
            r * 9 + (if j < c {
                j
            } else {
                j + 1
            })
        } else if j < 16 {
            (if j - 8 < r {
                j - 8
            } else {
                j - 7
            }) * 9 + c
        } else {
            let rr: u8 = (r - r % 3) + (r % 3 + 1 + (j - 16) / 2) % 3;
            let cc: u8 = (c - c % 3) + (c % 3 + 1 + (j - 16) % 2) % 3;
            rr * 9 + cc
        };
        cells[j as usize] = other;
        j += 1;
    }
    cells
}

} // verus!
