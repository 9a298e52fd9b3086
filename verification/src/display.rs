//! The monochrome framebuffer: a fixed 64x32 grid of one-bit cells.
//!
//! Sprites are composited by XOR, one byte per row (the most significant bit
//! is the leftmost pixel). Coordinates wrap around on both axes. A draw
//! reports whether it erased any lit cell (turned a 1 into a 0).

use vstd::prelude::*;

verus! {

/// The framebuffer. Its view is the flat grid: a sequence of 2048 cells,
/// each 0 or 1, the cell at `(x, y)` stored at index `y * 64 + x`.
pub struct Display {
    cells: Vec<u8>,
}

/// Every cell of the grid is a single bit: 0 or 1.
pub open spec fn cells_ok(s: Seq<u8>) -> bool {
    s.len() == 2048 && forall|i: int| 0 <= i < s.len() ==> s[i] <= 1
}

/// Every cell of the grid is 0.
pub open spec fn all_clear(s: Seq<u8>) -> bool {
    forall|i: int| 0 <= i < s.len() ==> s[i] == 0
}

/// Bit `j` of the row byte `b`, counting from the most significant bit,
/// as a cell value (0 or 1). Meaningful for `0 <= j < 8`.
pub open spec fn bit_at(b: u8, j: int) -> u8 {
    (b >> ((7 - j) as u8)) & 1
}

/// A column offset reduced into `[0, 64)`; `c` is at most `126`.
pub open spec fn wrap_col(c: int) -> int {
    if c < 64 {
        c
    } else {
        c - 64
    }
}

/// Flat index of the cell hit by bit `j` of a row drawn at `(x, y)`.
/// The coordinates are reduced modulo the grid size first.
pub open spec fn cell_at(x: int, y: int, j: int) -> int {
    (y % 32) * 64 + wrap_col(x % 64 + j)
}

/// The grid after XOR-ing the first `k` bits of row byte `b` into the
/// cells starting at `(x, y)`, in bit order from the most significant.
pub open spec fn row_painted(s: Seq<u8>, b: u8, x: int, y: int, k: int) -> Seq<u8>
    decreases k,
{
    if k <= 0 {
        s
    } else {
        let prev = row_painted(s, b, x, y, k - 1);
        let idx = cell_at(x, y, k - 1);
        prev.update(idx, prev[idx] ^ bit_at(b, k - 1))
    }
}

/// Whether XOR-ing the first `k` bits of row byte `b` at `(x, y)` erases a
/// lit cell (a set bit lands on a cell that is 1 when it is reached).
pub open spec fn row_erases(s: Seq<u8>, b: u8, x: int, y: int, k: int) -> bool
    decreases k,
{
    if k <= 0 {
        false
    } else {
        row_erases(s, b, x, y, k - 1) || {
            let prev = row_painted(s, b, x, y, k - 1);
            bit_at(b, k - 1) == 1 && prev[cell_at(x, y, k - 1)] == 1
        }
    }
}

/// The grid after drawing the first `k` rows of the sprite `rows` at
/// `(x, y)`: row `r` is XOR-ed in at `(x, y + r)`.
pub open spec fn sprite_painted(s: Seq<u8>, rows: Seq<u8>, x: int, y: int, k: int) -> Seq<u8>
    decreases k,
{
    if k <= 0 {
        s
    } else {
        row_painted(sprite_painted(s, rows, x, y, k - 1), rows[k - 1], x, y + (k - 1), 8)
    }
}

/// Whether drawing the first `k` rows of the sprite `rows` at `(x, y)`
/// erases any lit cell.
pub open spec fn sprite_erases(s: Seq<u8>, rows: Seq<u8>, x: int, y: int, k: int) -> bool
    decreases k,
{
    if k <= 0 {
        false
    } else {
        sprite_erases(s, rows, x, y, k - 1) || row_erases(
            sprite_painted(s, rows, x, y, k - 1),
            rows[k - 1],
            x,
            y + (k - 1),
            8,
        )
    }
}

impl View for Display {
    type V = Seq<u8>;

    closed spec fn view(&self) -> Seq<u8> {
        self.cells@
    }
}

impl Display {
    /// The framebuffer invariant: 2048 cells, each 0 or 1.
    pub open spec fn wf(&self) -> bool {
        cells_ok(self@)
    }

    /// A fresh, fully dark screen.
    pub fn new() -> (d: Display)
        ensures
            d.wf(),
            all_clear(d@),
    {
        Display { cells: zeroed_cells() }
    }

    /// Clear every cell to 0.
    pub fn clear(&mut self)
        ensures
            final(self).wf(),
            all_clear(final(self)@),
    {
        self.cells = zeroed_cells();
    }

    /// The flat grid, read-only: cell `(x, y)` at index `y * 64 + x`.
    pub fn buffer(&self) -> (r: &[u8])
        ensures
            r@ == self@,
    {
        self.cells.as_slice()
    }

    /// Flat index of the cell at `(x, y)`.
    pub fn index_of(x: usize, y: usize) -> (r: usize)
        requires
            x < 64,
            y < 32,
        ensures
            r == y * 64 + x,
    {
        y * 64 + x
    }

    /// XOR one sprite row byte into the grid at `(x, y)`, wrapping both
    /// coordinates, and report whether a lit cell was erased.
    pub fn draw_byte(&mut self, b: u8, x: usize, y: usize) -> (erased: bool)
        requires
            old(self).wf(),
        ensures
            final(self).wf(),
            final(self)@ == row_painted(old(self)@, b, x as int, y as int, 8),
            erased == row_erases(old(self)@, b, x as int, y as int, 8),
    {
        let xx = x % 64;
        let yy = y % 32;
        let mut erased = false;
        let mut j: usize = 0;
        while j < 8
            invariant
                old(self).wf(),
                self.wf(),
                xx == x as int % 64,
                yy == y as int % 32,
                j <= 8,
                self@ == row_painted(old(self)@, b, x as int, y as int, j as int),
                erased == row_erases(old(self)@, b, x as int, y as int, j as int),
            decreases 8 - j,
        {
            let col = if xx + j < 64 {
                xx + j
            } else {
                xx + j - 64
            };
            let idx = yy * 64 + col;
            let sh = (7 - j) as u8;
            let bit = (b >> sh) & 1;
            let before = self.cells[idx];
            proof {
                assert(idx == cell_at(x as int, y as int, j as int));
                assert(bit == bit_at(b, j as int));
                assert((b >> sh) & 1 <= 1) by (bit_vector);
                assert(before ^ bit <= 1) by (bit_vector)
                    requires
                        before <= 1,
                        bit <= 1,
                ;
            }
            self.cells[idx] = before ^ bit;
            if bit == 1 && before == 1 {
                erased = true;
            }
            j += 1;
        }
        erased
    }
}

/// The bit position (counted from the most significant bit) that lands on
/// column `col` when a row is drawn at reduced column `xx`; in `[0, 64)`
/// for `0 <= xx < 64` and `0 <= col < 64`, and meaningful as a bit of a
/// row byte only when it is below 8.
pub open spec fn joff(xx: int, col: int) -> int {
    if col >= xx {
        col - xx
    } else {
        col + 64 - xx
    }
}

/// Whether sprite row `r`, drawn at vertical origin `y`, lands on grid
/// row `row`.
pub open spec fn row_hit(y: int, r: int, row: int) -> bool {
    row == (y + r) % 32
}

/// Two sprite rows fewer than 32 apart never land on the same grid row.
proof fn lemma_distinct_rows(y: int, r1: int, r2: int)
    requires
        r1 < r2,
        r2 - r1 < 32,
    ensures
        (y + r1) % 32 != (y + r2) % 32,
{
    if (y + r1) % 32 == (y + r2) % 32 {
        vstd::arithmetic::div_mod::lemma_sub_mod_noop(y + r2, y + r1, 32);
        vstd::arithmetic::div_mod::lemma_small_mod((r2 - r1) as nat, 32);
        assert(false);
    }
}

/// What `row_painted` leaves in each cell: the cell at `(col, row)` is
/// XOR-ed with bit `joff` of the row byte when the grid row matches and
/// that bit is among the first `k`; every other cell is untouched.
pub proof fn lemma_row_painted_cell(s: Seq<u8>, b: u8, x: int, y: int, k: int, row: int, col: int)
    requires
        s.len() == 2048,
        0 <= k <= 8,
        0 <= row < 32,
        0 <= col < 64,
    ensures
        row_painted(s, b, x, y, k).len() == 2048,
        row_painted(s, b, x, y, k)[row * 64 + col] == if row == y % 32 && joff(x % 64, col) < k {
            s[row * 64 + col] ^ bit_at(b, joff(x % 64, col))
        } else {
            s[row * 64 + col]
        },
    decreases k,
{
    if k > 0 {
        lemma_row_painted_cell(s, b, x, y, k - 1, row, col);
        let idx = cell_at(x, y, k - 1);
        assert(0 <= y % 32 < 32);
        assert(0 <= wrap_col(x % 64 + (k - 1)) < 64);
        if idx == row * 64 + col {
            assert(row == y % 32 && col == wrap_col(x % 64 + (k - 1)));
            assert(joff(x % 64, col) == k - 1);
        } else {
            assert(!(row == y % 32 && joff(x % 64, col) == k - 1));
        }
    }
}

/// `row_erases` holds exactly when some set bit of the row byte lands on a
/// cell that was lit before the row was drawn.
pub proof fn lemma_row_erases_iff(s: Seq<u8>, b: u8, x: int, y: int, k: int)
    requires
        s.len() == 2048,
        0 <= k <= 8,
    ensures
        row_erases(s, b, x, y, k) <==> exists|j: int|
            0 <= j < k && bit_at(b, j) == 1 && s[cell_at(x, y, j)] == 1,
    decreases k,
{
    if k > 0 {
        lemma_row_erases_iff(s, b, x, y, k - 1);
        let prev = row_painted(s, b, x, y, k - 1);
        lemma_row_painted_cell(s, b, x, y, k - 1, y % 32, wrap_col(x % 64 + (k - 1)));
        assert(cell_at(x, y, k - 1) == (y % 32) * 64 + wrap_col(x % 64 + (k - 1)));
        assert(joff(x % 64, wrap_col(x % 64 + (k - 1))) == k - 1);
        assert(prev[cell_at(x, y, k - 1)] == s[cell_at(x, y, k - 1)]);
        if row_erases(s, b, x, y, k) {
            if row_erases(s, b, x, y, k - 1) {
                let j = choose|j: int|
                    0 <= j < k - 1 && bit_at(b, j) == 1 && s[cell_at(x, y, j)] == 1;
                assert(0 <= j < k && bit_at(b, j) == 1 && s[cell_at(x, y, j)] == 1);
            } else {
                assert(bit_at(b, k - 1) == 1 && s[cell_at(x, y, k - 1)] == 1);
            }
        }
        if exists|j: int| 0 <= j < k && bit_at(b, j) == 1 && s[cell_at(x, y, j)] == 1 {
            let j = choose|j: int| 0 <= j < k && bit_at(b, j) == 1 && s[cell_at(x, y, j)] == 1;
            if j < k - 1 {
                assert(row_erases(s, b, x, y, k - 1));
            } else {
                assert(row_erases(s, b, x, y, k));
            }
        }
    }
}

/// What `sprite_painted` leaves in each cell. At most one of the first
/// `k` rows can land on a given grid row (rows of one sprite are fewer
/// than 32 apart); where row `r` lands and bit `joff` is among the first
/// 8, the cell is XOR-ed with that bit of `rows[r]`; every other cell is
/// untouched.
pub proof fn lemma_sprite_painted_cell(
    s: Seq<u8>,
    rows: Seq<u8>,
    x: int,
    y: int,
    k: int,
    row: int,
    col: int,
)
    requires
        s.len() == 2048,
        0 <= k <= 32,
        0 <= row < 32,
        0 <= col < 64,
    ensures
        sprite_painted(s, rows, x, y, k).len() == 2048,
        forall|r: int|
            0 <= r < k && #[trigger] row_hit(y, r, row) && joff(x % 64, col) < 8 ==> sprite_painted(
                s,
                rows,
                x,
                y,
                k,
            )[row * 64 + col] == s[row * 64 + col] ^ bit_at(rows[r], joff(x % 64, col)),
        !(exists|r: int| 0 <= r < k && #[trigger] row_hit(y, r, row) && joff(x % 64, col) < 8)
            ==> sprite_painted(s, rows, x, y, k)[row * 64 + col] == s[row * 64 + col],
    decreases k,
{
    if k > 0 {
        lemma_sprite_painted_cell(s, rows, x, y, k - 1, row, col);
        let prev = sprite_painted(s, rows, x, y, k - 1);
        lemma_row_painted_cell(prev, rows[k - 1], x, y + (k - 1), 8, row, col);
        let cur = sprite_painted(s, rows, x, y, k);
        let i = row * 64 + col;
        if row_hit(y, k - 1, row) && joff(x % 64, col) < 8 {
            assert forall|r: int| 0 <= r < k - 1 implies !#[trigger] row_hit(y, r, row) by {
                lemma_distinct_rows(y, r, k - 1);
            }
            assert(prev[i] == s[i]);
            assert(cur[i] == s[i] ^ bit_at(rows[k - 1], joff(x % 64, col)));
        } else {
            assert(cur[i] == prev[i]);
            assert forall|r: int|
                0 <= r < k && #[trigger] row_hit(y, r, row) && joff(x % 64, col) < 8 implies cur[i]
                == s[i] ^ bit_at(rows[r], joff(x % 64, col)) by {
                assert(r < k - 1);
            }
        }
    }
}

/// `sprite_erases` holds exactly when some set bit of some drawn row lands
/// on a cell that was lit before the whole draw began.
pub proof fn lemma_sprite_erases_iff(s: Seq<u8>, rows: Seq<u8>, x: int, y: int, k: int)
    requires
        s.len() == 2048,
        0 <= k <= 32,
    ensures
        sprite_erases(s, rows, x, y, k) <==> exists|r: int, j: int|
            0 <= r < k && 0 <= j < 8 && bit_at(rows[r], j) == 1 && s[cell_at(x, y + r, j)] == 1,
    decreases k,
{
    if k > 0 {
        lemma_sprite_erases_iff(s, rows, x, y, k - 1);
        let prev = sprite_painted(s, rows, x, y, k - 1);
        lemma_sprite_painted_cell(s, rows, x, y, k - 1, 0, 0);
        lemma_row_erases_iff(prev, rows[k - 1], x, y + (k - 1), 8);
        assert forall|j: int| 0 <= j < 8 implies prev[#[trigger] cell_at(x, y + (k - 1), j)]
            == s[cell_at(x, y + (k - 1), j)] by {
            let row = (y + (k - 1)) % 32;
            let col = wrap_col(x % 64 + j);
            lemma_sprite_painted_cell(s, rows, x, y, k - 1, row, col);
            assert forall|r: int| 0 <= r < k - 1 implies !#[trigger] row_hit(y, r, row) by {
                lemma_distinct_rows(y, r, k - 1);
            }
            assert(cell_at(x, y + (k - 1), j) == row * 64 + col);
        }
        if sprite_erases(s, rows, x, y, k) {
            if sprite_erases(s, rows, x, y, k - 1) {
                let (r, j) = choose|r: int, j: int|
                    0 <= r < k - 1 && 0 <= j < 8 && bit_at(rows[r], j) == 1 && s[cell_at(
                        x,
                        y + r,
                        j,
                    )] == 1;
                assert(0 <= r < k && 0 <= j < 8 && bit_at(rows[r], j) == 1 && s[cell_at(
                    x,
                    y + r,
                    j,
                )] == 1);
            } else {
                let j = choose|j: int|
                    0 <= j < 8 && bit_at(rows[k - 1], j) == 1 && prev[#[trigger] cell_at(
                        x,
                        y + (k - 1),
                        j,
                    )] == 1;
                assert(0 <= k - 1 < k && 0 <= j < 8 && bit_at(rows[k - 1], j) == 1 && s[cell_at(
                    x,
                    y + (k - 1),
                    j,
                )] == 1);
            }
        }
        if exists|r: int, j: int|
            0 <= r < k && 0 <= j < 8 && bit_at(rows[r], j) == 1 && s[cell_at(x, y + r, j)] == 1 {
            let (r, j) = choose|r: int, j: int|
                0 <= r < k && 0 <= j < 8 && bit_at(rows[r], j) == 1 && s[cell_at(x, y + r, j)]
                    == 1;
            if r < k - 1 {
                assert(sprite_erases(s, rows, x, y, k - 1));
            } else {
                assert(prev[cell_at(x, y + (k - 1), j)] == 1);
                assert(row_erases(prev, rows[k - 1], x, y + (k - 1), 8));
            }
        }
    }
}

/// Law: drawing the same sprite twice at the same location, with nothing
/// in between, restores the framebuffer (XOR is a self-inverse).
pub proof fn lemma_draw_twice_restores(s: Seq<u8>, rows: Seq<u8>, x: int, y: int, k: int)
    requires
        s.len() == 2048,
        0 <= k <= 32,
    ensures
        sprite_painted(sprite_painted(s, rows, x, y, k), rows, x, y, k) == s,
{
    let s1 = sprite_painted(s, rows, x, y, k);
    let s2 = sprite_painted(s1, rows, x, y, k);
    assert forall|i: int| 0 <= i < 2048 implies s2[i] == s[i] by {
        vstd::arithmetic::div_mod::lemma_fundamental_div_mod(i, 64);
        let row = i / 64;
        let col = i % 64;
        assert(i == row * 64 + col);
        assert(0 <= col < 64);
        assert(0 <= row < 32);
        lemma_sprite_painted_cell(s, rows, x, y, k, row, col);
        lemma_sprite_painted_cell(s1, rows, x, y, k, row, col);
        if exists|r: int| 0 <= r < k && #[trigger] row_hit(y, r, row) && joff(x % 64, col) < 8 {
            let r = choose|r: int|
                0 <= r < k && #[trigger] row_hit(y, r, row) && joff(x % 64, col) < 8;
            let bit = bit_at(rows[r], joff(x % 64, col));
            let a = s[i];
            assert(s1[i] == a ^ bit);
            assert(s2[i] == (a ^ bit) ^ bit);
            assert((a ^ bit) ^ bit == a) by (bit_vector);
        } else {
            assert(s1[i] == s[i]);
            assert(s2[i] == s1[i]);
        }
    }
    lemma_sprite_painted_cell(s, rows, x, y, k, 0, 0);
    lemma_sprite_painted_cell(s1, rows, x, y, k, 0, 0);
    assert(s2 =~= s);
}

/// Law: drawing a sprite a second time over its own first draw reports a
/// collision whenever some set bit of the sprite landed on a cell that was
/// dark before the first draw: that bit lit the cell, and the second draw
/// erases it. (A sprite with no set bit never collides, and
/// `lemma_second_draw_quiet` covers the remaining case.)
pub proof fn lemma_second_draw_collides(
    s: Seq<u8>,
    rows: Seq<u8>,
    x: int,
    y: int,
    k: int,
    r: int,
    j: int,
)
    requires
        s.len() == 2048,
        0 <= k <= 32,
        0 <= r < k,
        0 <= j < 8,
        bit_at(rows[r], j) == 1,
        s[cell_at(x, y + r, j)] == 0,
    ensures
        sprite_erases(sprite_painted(s, rows, x, y, k), rows, x, y, k),
{
    let s1 = sprite_painted(s, rows, x, y, k);
    let row = (y + r) % 32;
    let col = wrap_col(x % 64 + j);
    let i = cell_at(x, y + r, j);
    assert(i == row * 64 + col);
    assert(0 <= row < 32);
    assert(0 <= col < 64);
    lemma_sprite_painted_cell(s, rows, x, y, k, row, col);
    assert(joff(x % 64, col) == j);
    assert(row_hit(y, r, row));
    assert(s1[i] == s[i] ^ bit_at(rows[r], j));
    assert(0u8 ^ 1u8 == 1u8) by (bit_vector);
    assert(s1[i] == 1);
    lemma_sprite_erases_iff(s1, rows, x, y, k);
}

/// Law: if every set bit of the sprite lands on a lit cell, the first
/// draw erases them all, and drawing the same sprite a second time
/// reports no collision.
pub proof fn lemma_second_draw_quiet(s: Seq<u8>, rows: Seq<u8>, x: int, y: int, k: int)
    requires
        s.len() == 2048,
        0 <= k <= 32,
        forall|r: int, j: int|
            0 <= r < k && 0 <= j < 8 && bit_at(rows[r], j) == 1 ==> s[#[trigger] cell_at(
                x,
                y + r,
                j,
            )] == 1,
    ensures
        !sprite_erases(sprite_painted(s, rows, x, y, k), rows, x, y, k),
{
    let s1 = sprite_painted(s, rows, x, y, k);
    lemma_sprite_painted_cell(s, rows, x, y, k, 0, 0);
    lemma_sprite_erases_iff(s1, rows, x, y, k);
    if sprite_erases(s1, rows, x, y, k) {
        let (r, j) = choose|r: int, j: int|
            0 <= r < k && 0 <= j < 8 && bit_at(rows[r], j) == 1 && s1[cell_at(x, y + r, j)] == 1;
        let row = (y + r) % 32;
        let col = wrap_col(x % 64 + j);
        let i = cell_at(x, y + r, j);
        assert(i == row * 64 + col);
        assert(0 <= row < 32);
        assert(0 <= col < 64);
        lemma_sprite_painted_cell(s, rows, x, y, k, row, col);
        assert(joff(x % 64, col) == j);
        assert(row_hit(y, r, row));
        assert(s[i] == 1);
        assert(s1[i] == s[i] ^ bit_at(rows[r], j));
        assert(1u8 ^ 1u8 == 0u8) by (bit_vector);
        assert(false);
    }
}

/// A vector of 2048 zero cells.
fn zeroed_cells() -> (v: Vec<u8>)
    ensures
        v@.len() == 2048,
        all_clear(v@),
{
    let mut v: Vec<u8> = Vec::new();
    while v.len() < 2048
        invariant
            v@.len() <= 2048,
            all_clear(v@),
        decreases 2048 - v@.len(),
    {
        v.push(0);
    }
    v
}

} // verus!
