//! Floor acquisition: module readers and the floor aggregator.
//!
//! A module delivers newline-terminated lines of exactly 36 comma-separated
//! integers over its serial link. One `FloorModule` keeps the latest lines
//! of one module and decodes the freshest one into a 6×6 grid, placing each
//! value by the module's orientation. A `Floor` owns one module per layout
//! cell and, once every module has produced a line, stitches the grids into
//! one `6R × 6C` floor matrix.
//!
//! The serial I/O itself stays outside the library: a reader task hands each
//! received line to `FloorModule::push_line`, and the aggregation loop calls
//! `Floor::cycle` once `Floor::all_modules_available` reports readiness.

use vstd::prelude::*;

use crate::errors::ProtocolError;
use crate::orientation::{
    cell_index, lemma_cell_index_bijective, lemma_placement_bijective, orient_col, orient_row,
    place_cells,
};
use crate::wire::{
    is_int_token, mat_view, parse_i32, split_bytes, split_bytes_spec, strip_newlines, strip_nl,
    token_value, views, COMMA,
};

verus! {

/// The comma-separated tokens of a module line, newline bytes stripped.
pub open spec fn cell_tokens(line: Seq<u8>) -> Seq<Seq<u8>> {
    split_bytes_spec(strip_nl(line), COMMA)
}

/// A well-formed module line: exactly 36 tokens, each a signed decimal
/// integer in `i32` range.
pub open spec fn valid_cell_line(line: Seq<u8>) -> bool {
    let t = cell_tokens(line);
    t.len() == 36 && forall|i: int|
        0 <= i < 36 ==> is_int_token(#[trigger] t[i]) && i32::MIN <= token_value(t[i])
            <= i32::MAX
}

/// The 36 cell values of a module line, in line order.
pub open spec fn cell_values(line: Seq<u8>) -> Seq<int> {
    cell_tokens(line).map_values(|t: Seq<u8>| token_value(t))
}

/// A 6×6 grid.
pub open spec fn is_grid(g: Seq<Vec<i32>>) -> bool {
    g.len() == 6 && forall|r: int| 0 <= r < 6 ==> (#[trigger] g[r])@.len() == 6
}

/// Computes the linear index of cell `(r, c)` under the given orientation.
pub fn cell_index_of(direction: i32, r: usize, c: usize) -> (i: usize)
    requires
        r < 6,
        c < 6,
    ensures
        i as int == cell_index(direction as int, r as int, c as int),
        i < 36,
{
    proof {
        lemma_cell_index_bijective(direction as int, r as int, c as int);
    }
    let (rx, cx) = if direction == 0 {
        (r, c)
    } else {
        (5 - r, 5 - c)
    };
    6 * rx + cx
}

/// Decodes one module line into a 6×6 grid.
///
/// The line must hold exactly 36 comma-separated integers (newline bytes are
/// ignored); integer `i` of the line is placed at the cell the orientation's
/// permutation assigns to index `i`. Anything else is a fatal protocol
/// violation, reported as `MalformedCells`.
pub fn decode_cells(line: &[u8], direction: i32) -> (r: Result<Vec<Vec<i32>>, ProtocolError>)
    ensures
        r is Ok <==> valid_cell_line(line@),
        r matches Ok(g) ==> is_grid(g@) && mat_view(g@) == place_cells(
            direction as int,
            cell_values(line@),
        ),
        r is Err ==> r == Err::<Vec<Vec<i32>>, ProtocolError>(ProtocolError::MalformedCells),
{
    let stripped = strip_newlines(line);
    let tokens = split_bytes(stripped.as_slice(), COMMA);
    let ghost spec_toks = cell_tokens(line@);
    proof {
        assert(views(tokens@) == spec_toks);
    }
    if tokens.len() != 36 {
        return Err(ProtocolError::MalformedCells);
    }
    let mut values: Vec<i32> = Vec::new();
    let mut j: usize = 0;
    while j < 36
        invariant
            values@.len() == j,
            j <= 36,
            tokens@.len() == 36,
            views(tokens@) == spec_toks,
            spec_toks == cell_tokens(line@),
            spec_toks.len() == 36,
            forall|t: int|
                0 <= t < j ==> is_int_token(#[trigger] spec_toks[t]) && i32::MIN <= token_value(
                    spec_toks[t],
                ) <= i32::MAX,
            forall|t: int| 0 <= t < j ==> values@[t] as int == token_value(spec_toks[t]),
        decreases 36 - j,
    {
        match parse_i32(tokens[j].as_slice()) {
            Some(v) => {
                values.push(v);
            },
            None => {
                proof {
                    assert(cell_tokens(line@)[j as int] == tokens@[j as int]@);
                    assert(!(is_int_token(cell_tokens(line@)[j as int]) && i32::MIN
                        <= token_value(cell_tokens(line@)[j as int]) <= i32::MAX));
                    assert(!valid_cell_line(line@));
                }
                return Err(ProtocolError::MalformedCells);
            },
        }
        j += 1;
    }
    let ghost vals = cell_values(line@);
    proof {
        assert(vals.len() == 36);
        assert(forall|t: int| 0 <= t < 36 ==> vals[t] == token_value(spec_toks[t]));
    }
    let mut grid: Vec<Vec<i32>> = Vec::new();
    let mut r: usize = 0;
    while r < 6
        invariant
            r <= 6,
            grid@.len() == r,
            values@.len() == 36,
            vals == cell_values(line@),
            vals.len() == 36,
            forall|t: int| 0 <= t < 36 ==> values@[t] as int == vals[t],
            forall|rr: int| 0 <= rr < r ==> (#[trigger] grid@[rr])@.len() == 6,
            forall|rr: int, cc: int|
                0 <= rr < r && 0 <= cc < 6 ==> (#[trigger] grid@[rr]@[cc]) as int == vals[
                    cell_index(direction as int, rr, cc)
                ],
        decreases 6 - r,
    {
        let mut row: Vec<i32> = Vec::new();
        let mut c: usize = 0;
        while c < 6
            invariant
                c <= 6,
                r < 6,
                row@.len() == c,
                values@.len() == 36,
                vals.len() == 36,
                forall|t: int| 0 <= t < 36 ==> values@[t] as int == vals[t],
                forall|cc: int|
                    0 <= cc < c ==> (#[trigger] row@[cc]) as int == vals[
                        cell_index(direction as int, r as int, cc)
                    ],
            decreases 6 - c,
        {
            let i = cell_index_of(direction, r, c);
            row.push(values[i]);
            c += 1;
        }
        grid.push(row);
        r += 1;
    }
    proof {
        let gv = mat_view(grid@);
        let pc = place_cells(direction as int, vals);
        assert forall|rr: int| 0 <= rr < 6 implies gv[rr] == pc[rr] by {
            assert(gv[rr] =~= pc[rr]);
        }
        assert(gv =~= pc);
    }
    Ok(grid)
}

/// Row-major indexing: a cell of an earlier row lies strictly before the
/// block of the current row.
proof fn lemma_row_major_bound(rr: int, cc: int, rows: int, cols: int)
    requires
        0 <= rr < rows,
        0 <= cc < cols,
    ensures
        0 <= rr * cols + cc,
        rr * cols + cc < rows * cols,
{
    assert(0 <= rr * cols + cc && rr * cols + cc < rows * cols) by (nonlinear_arith)
        requires
            0 <= rr < rows,
            0 <= cc < cols,
    ;
}

/// The bytes of a line held as a `String`.
pub open spec fn line_bytes(l: String) -> Seq<u8> {
    vstd::utf8::encode_utf8(l@)
}

/// One hardware sensing module: its serial port name, its mounting
/// orientation, and the lines received from it that are not yet consumed.
///
/// The serial reader task stays outside the library; it delivers each
/// received line through `push_line`. The aggregator only ever wants the
/// freshest reading, so `read` is latest-wins: it drains the whole queue and
/// yields the newest line.
pub struct FloorModule {
    pub port_name: String,
    pub direction: i32,
    pub queue: Vec<String>,
}

impl FloorModule {
    /// A module with no received lines yet.
    pub fn new(port_name: String, direction: i32) -> (m: FloorModule)
        ensures
            m.port_name == port_name,
            m.direction == direction,
            m.queue@.len() == 0,
    {
        FloorModule { port_name, direction, queue: Vec::new() }
    }

    /// Appends one received line.
    pub fn push_line(&mut self, line: String)
        ensures
            final(self).queue@ == old(self).queue@.push(line),
            final(self).port_name == old(self).port_name,
            final(self).direction == old(self).direction,
    {
        self.queue.push(line);
    }

    /// Whether a line has arrived since the last read.
    pub fn data_available(&self) -> (r: bool)
        ensures
            r == (self.queue@.len() > 0),
    {
        self.queue.len() > 0
    }

    /// Takes the newest line and discards the rest: latest-wins, not FIFO.
    pub fn read(&mut self) -> (r: Option<String>)
        ensures
            final(self).queue@.len() == 0,
            final(self).port_name == old(self).port_name,
            final(self).direction == old(self).direction,
            old(self).queue@.len() == 0 ==> r is None,
            old(self).queue@.len() > 0 ==> r == Some(old(self).queue@.last()),
    {
        let r = self.queue.pop();
        self.queue.clear();
        r
    }

    /// Takes the newest line and decodes it into a 6×6 grid placed by this
    /// module's orientation.
    ///
    /// `Ok(None)` when no line has arrived; a malformed line is the fatal
    /// condition `MalformedCells`. In every case the queue is drained.
    pub fn read_cells(&mut self) -> (r: Result<Option<Vec<Vec<i32>>>, ProtocolError>)
        ensures
            final(self).queue@.len() == 0,
            final(self).port_name == old(self).port_name,
            final(self).direction == old(self).direction,
            old(self).queue@.len() == 0 ==> r == Ok::<Option<Vec<Vec<i32>>>, ProtocolError>(
                None,
            ),
            old(self).queue@.len() > 0 ==> {
                let lb = line_bytes(old(self).queue@.last());
                &&& (r is Ok <==> valid_cell_line(lb))
                &&& (r matches Ok(og) ==> og matches Some(g) && is_grid(g@) && mat_view(g@)
                    == place_cells(old(self).direction as int, cell_values(lb)))
                &&& (r is Err ==> r == Err::<Option<Vec<Vec<i32>>>, ProtocolError>(
                    ProtocolError::MalformedCells,
                ))
            },
    {
        match self.read() {
            None => Ok(None),
            Some(line) => {
                let bytes = line.as_str().as_bytes();
                match decode_cells(bytes, self.direction) {
                    Ok(g) => Ok(Some(g)),
                    Err(e) => Err(e),
                }
            },
        }
    }
}

/// The layout description handed in at startup: one port name and one
/// orientation flag per floor position. Loading it from disk is outside the
/// library; the library only checks its shape.
pub struct FloorConfig {
    pub module_layout: Vec<Vec<String>>,
    pub module_direction: Vec<Vec<i32>>,
}

impl FloorConfig {
    /// Number of module rows.
    pub open spec fn rows(&self) -> int {
        self.module_layout@.len() as int
    }

    /// Number of module columns.
    pub open spec fn cols(&self) -> int {
        if self.rows() > 0 {
            self.module_layout@[0]@.len() as int
        } else {
            0
        }
    }

    /// A usable configuration: a non-empty rectangular layout, a direction
    /// for every position, and a floor small enough to index.
    pub open spec fn wf(&self) -> bool {
        &&& self.rows() >= 1
        &&& self.cols() >= 1
        &&& self.module_direction@.len() == self.rows()
        &&& forall|r: int|
            0 <= r < self.rows() ==> (#[trigger] self.module_layout@[r])@.len() == self.cols()
        &&& forall|r: int|
            0 <= r < self.rows() ==> (#[trigger] self.module_direction@[r])@.len()
                == self.cols()
        &&& 36 * self.rows() * self.cols() <= usize::MAX
    }

    /// Checks `wf` at runtime, so that startup can reject a bad layout
    /// before aggregation begins.
    pub fn is_well_formed(&self) -> (r: bool)
        ensures
            r == self.wf(),
    {
        let rows = self.module_layout.len();
        if rows == 0 {
            return false;
        }
        let cols = self.module_layout[0].len();
        if cols == 0 {
            return false;
        }
        if self.module_direction.len() != rows {
            return false;
        }
        let cells = match rows.checked_mul(cols) {
            Some(p) => p,
            None => {
                proof {
                    assert(36 * (rows as int) * (cols as int) > usize::MAX) by (nonlinear_arith)
                        requires
                            (rows as int) * (cols as int) > usize::MAX,
                            rows as int >= 1,
                            cols as int >= 1,
                    ;
                }
                return false;
            },
        };
        if cells.checked_mul(36).is_none() {
            proof {
                assert(36 * (rows as int) * (cols as int) > usize::MAX) by (nonlinear_arith)
                    requires
                        (cells as int) * 36 > usize::MAX,
                        cells as int == (rows as int) * (cols as int),
                ;
            }
            return false;
        }
        proof {
            assert(36 * (rows as int) * (cols as int) <= usize::MAX) by (nonlinear_arith)
                requires
                    (cells as int) * 36 <= usize::MAX,
                    cells as int == (rows as int) * (cols as int),
            ;
        }
        let mut r: usize = 0;
        while r < rows
            invariant
                r <= rows,
                rows == self.rows(),
                cols == self.cols(),
                rows >= 1,
                cols >= 1,
                self.module_direction@.len() == rows,
                36 * self.rows() * self.cols() <= usize::MAX,
                forall|t: int|
                    0 <= t < r ==> (#[trigger] self.module_layout@[t])@.len() == cols,
                forall|t: int|
                    0 <= t < r ==> (#[trigger] self.module_direction@[t])@.len() == cols,
            decreases rows - r,
        {
            if self.module_layout[r].len() != cols {
                return false;
            }
            if self.module_direction[r].len() != cols {
                return false;
            }
            r += 1;
        }
        true
    }
}

/// The floor aggregator: one module per layout cell (row-major) and the
/// queue of completed floor matrices, oldest first.
///
/// The aggregation loop outside the library busy-polls
/// `all_modules_available` and calls `cycle` on readiness; `read` is
/// latest-wins like a module's read.
pub struct Floor {
    pub rows: usize,
    pub cols: usize,
    pub modules: Vec<FloorModule>,
    pub queue: Vec<Vec<Vec<i32>>>,
}

impl Floor {
    /// A usable floor: at least one module, a module for every layout cell,
    /// and a floor small enough to index.
    pub open spec fn wf(&self) -> bool {
        &&& self.rows >= 1
        &&& self.cols >= 1
        &&& self.modules@.len() == self.rows * self.cols
        &&& 36 * (self.rows as int) * (self.cols as int) <= usize::MAX
    }

    /// The module at layout cell `(r, c)`.
    pub open spec fn module_at(&self, r: int, c: int) -> FloorModule {
        self.modules@[r * self.cols + c]
    }

    /// Builds the floor of a well-formed configuration: one fresh module per
    /// layout cell, with the configured port name and orientation.
    pub fn new(config: &FloorConfig) -> (f: Floor)
        requires
            config.wf(),
        ensures
            f.wf(),
            f.rows == config.rows(),
            f.cols == config.cols(),
            f.queue@.len() == 0,
            forall|r: int, c: int|
                0 <= r < f.rows && 0 <= c < f.cols ==> {
                    let m = #[trigger] f.module_at(r, c);
                    &&& m.port_name@ == config.module_layout@[r]@[c]@
                    &&& m.direction == config.module_direction@[r]@[c]
                    &&& m.queue@.len() == 0
                },
    {
        let rows = config.module_layout.len();
        let cols = config.module_layout[0].len();
        let mut modules: Vec<FloorModule> = Vec::new();
        let mut r: usize = 0;
        while r < rows
            invariant
                r <= rows,
                config.wf(),
                rows == config.rows(),
                cols == config.cols(),
                modules@.len() == r * cols,
                forall|rr: int, cc: int|
                    0 <= rr < r && 0 <= cc < cols ==> {
                        let m = #[trigger] modules@[rr * cols + cc];
                        &&& m.port_name@ == config.module_layout@[rr]@[cc]@
                        &&& m.direction == config.module_direction@[rr]@[cc]
                        &&& m.queue@.len() == 0
                    },
            decreases rows - r,
        {
            let mut c: usize = 0;
            while c < cols
                invariant
                    c <= cols,
                    r < rows,
                    config.wf(),
                    rows == config.rows(),
                    cols == config.cols(),
                    modules@.len() == r * cols + c,
                    forall|rr: int, cc: int|
                        0 <= rr < r && 0 <= cc < cols ==> {
                            let m = #[trigger] modules@[rr * cols + cc];
                            &&& m.port_name@ == config.module_layout@[rr]@[cc]@
                            &&& m.direction == config.module_direction@[rr]@[cc]
                            &&& m.queue@.len() == 0
                        },
                    forall|cc: int|
                        0 <= cc < c ==> {
                            let m = #[trigger] modules@[r as int * cols + cc];
                            &&& m.port_name@ == config.module_layout@[r as int]@[cc]@
                            &&& m.direction == config.module_direction@[r as int]@[cc]
                            &&& m.queue@.len() == 0
                        },
                decreases cols - c,
            {
                let port = config.module_layout[r][c].clone();
                let direction = config.module_direction[r][c];
                let ghost pre_modules = modules@;
                modules.push(FloorModule::new(port, direction));
                proof {
                    assert forall|rr: int, cc: int| 0 <= rr < r && 0 <= cc < cols implies {
                        let m = #[trigger] modules@[rr * cols + cc];
                        &&& m.port_name@ == config.module_layout@[rr]@[cc]@
                        &&& m.direction == config.module_direction@[rr]@[cc]
                        &&& m.queue@.len() == 0
                    } by {
                        lemma_row_major_bound(rr, cc, r as int, cols as int);
                        assert(modules@[rr * cols + cc] == pre_modules[rr * cols + cc]);
                    }
                    assert forall|cc: int| 0 <= cc < c + 1 implies {
                        let m = #[trigger] modules@[r as int * cols + cc];
                        &&& m.port_name@ == config.module_layout@[r as int]@[cc]@
                        &&& m.direction == config.module_direction@[r as int]@[cc]
                        &&& m.queue@.len() == 0
                    } by {
                        assert(r as int * cols >= 0) by (nonlinear_arith)
                            requires
                                r as int >= 0,
                                cols as int >= 0,
                        ;
                        if cc < c {
                            assert(modules@[r as int * cols + cc] == pre_modules[
                                r as int * cols + cc
                            ]);
                        } else {
                            assert(modules@[r as int * cols + cc] == modules@.last());
                        }
                    }
                }
                c += 1;
            }
            proof {
                assert((r as int + 1) * cols == r as int * cols + cols) by (nonlinear_arith);
                assert forall|rr: int, cc: int| 0 <= rr < r + 1 && 0 <= cc < cols implies {
                    let m = #[trigger] modules@[rr * cols + cc];
                    &&& m.port_name@ == config.module_layout@[rr]@[cc]@
                    &&& m.direction == config.module_direction@[rr]@[cc]
                    &&& m.queue@.len() == 0
                } by {
                    if rr == r {
                        assert(modules@[r as int * cols + cc].port_name@
                            == config.module_layout@[r as int]@[cc]@);
                    }
                }
            }
            r += 1;
        }
        Floor { rows, cols, modules, queue: Vec::new() }
    }

    /// Delivers one received line to the module at layout cell `(r, c)`.
    pub fn push_line(&mut self, r: usize, c: usize, line: String)
        requires
            old(self).wf(),
            r < old(self).rows,
            c < old(self).cols,
        ensures
            final(self).wf(),
            final(self).rows == old(self).rows,
            final(self).cols == old(self).cols,
            final(self).queue == old(self).queue,
            final(self).modules@.len() == old(self).modules@.len(),
            ({
                let k = r as int * old(self).cols + c as int;
                &&& final(self).modules@[k].queue@ == old(self).modules@[k].queue@.push(line)
                &&& final(self).modules@[k].port_name == old(self).modules@[k].port_name
                &&& final(self).modules@[k].direction == old(self).modules@[k].direction
                &&& forall|t: int|
                    0 <= t < old(self).modules@.len() && t != k ==> final(self).modules@[t]
                        == old(self).modules@[t]
            }),
    {
        proof {
            lemma_row_major_bound(
                r as int,
                c as int,
                old(self).rows as int,
                old(self).cols as int,
            );
        }
        let n = self.modules.len();
        proof {
            assert(r as int * self.cols + c < n);
        }
        let k = r * self.cols + c;
        self.modules[k].push_line(line);
    }

    /// Whether every module has produced at least one line since its last
    /// read: the readiness condition of one aggregation cycle.
    pub fn all_modules_available(&self) -> (r: bool)
        ensures
            r == forall|k: int|
                0 <= k < self.modules@.len() ==> (#[trigger] self.modules@[k]).queue@.len()
                    > 0,
    {
        let mut k: usize = 0;
        while k < self.modules.len()
            invariant
                k <= self.modules@.len(),
                forall|t: int|
                    0 <= t < k ==> (#[trigger] self.modules@[t]).queue@.len() > 0,
            decreases self.modules@.len() - k,
        {
            if self.modules[k].queue.len() == 0 {
                proof {
                    assert((self.modules@[k as int]).queue@.len() == 0);
                }
                return false;
            }
            k += 1;
        }
        true
    }

    /// Whether a completed floor matrix is waiting.
    pub fn data_available(&self) -> (r: bool)
        ensures
            r == (self.queue@.len() > 0),
    {
        self.queue.len() > 0
    }

    /// Takes the newest completed floor matrix and discards the rest:
    /// latest-wins, like a module's read.
    pub fn read(&mut self) -> (r: Option<Vec<Vec<i32>>>)
        ensures
            final(self).queue@.len() == 0,
            final(self).rows == old(self).rows,
            final(self).cols == old(self).cols,
            final(self).modules == old(self).modules,
            old(self).queue@.len() == 0 ==> r is None,
            old(self).queue@.len() > 0 ==> r == Some(old(self).queue@.last()),
    {
        let r = self.queue.pop();
        self.queue.clear();
        r
    }
}

/// The line one cycle consumes from module `k`: its newest queued line.
pub open spec fn module_line_at(f: Floor, k: int) -> Seq<u8> {
    line_bytes(f.modules@[k].queue@.last())
}

/// Every module's newest line is a well-formed cell line.
pub open spec fn modules_valid(f: Floor) -> bool {
    forall|k: int|
        0 <= k < f.modules@.len() ==> valid_cell_line(#[trigger] module_line_at(f, k))
}

/// The grid of module `k`: its newest line's values placed by its
/// orientation.
pub open spec fn module_grid(f: Floor, k: int) -> Seq<Seq<int>> {
    place_cells(f.modules@[k].direction as int, cell_values(module_line_at(f, k)))
}

/// The floor matrix one cycle assembles: `6R × 6C`, with cell
/// `(6r + i, 6c + j)` equal to cell `(i, j)` of module `(r, c)`'s grid.
pub open spec fn assembled_matrix(f: Floor) -> Seq<Seq<int>> {
    Seq::new(
        (6 * f.rows) as nat,
        |fr: int|
            Seq::new(
                (6 * f.cols) as nat,
                |fc: int| module_grid(f, (fr / 6) * f.cols + fc / 6)[fr % 6][fc % 6],
            ),
    )
}

/// A cycle emptied every module queue and touched nothing else of the
/// modules.
pub open spec fn drained_from(cur: Floor, pre: Floor) -> bool {
    &&& cur.rows == pre.rows
    &&& cur.cols == pre.cols
    &&& cur.modules@.len() == pre.modules@.len()
    &&& forall|k: int|
        0 <= k < cur.modules@.len() ==> {
            let m = #[trigger] cur.modules@[k];
            &&& m.queue@.len() == 0
            &&& m.port_name == pre.modules@[k].port_name
            &&& m.direction == pre.modules@[k].direction
        }
}

/// Law: for an `R×C` floor the assembled matrix has dimensions `6R × 6C`,
/// and cell `(6r + i, 6c + j)` equals cell `(i, j)` of module `(r, c)`'s
/// grid, for all valid `r`, `c`, `i`, `j`.
pub proof fn lemma_assembled_matrix_cell(f: Floor, r: int, c: int, i: int, j: int)
    requires
        f.wf(),
        0 <= r < f.rows,
        0 <= c < f.cols,
        0 <= i < 6,
        0 <= j < 6,
    ensures
        assembled_matrix(f).len() == 6 * f.rows,
        forall|fr: int|
            0 <= fr < 6 * f.rows ==> (#[trigger] assembled_matrix(f)[fr]).len() == 6 * f.cols,
        assembled_matrix(f)[6 * r + i][6 * c + j] == module_grid(f, r * f.cols + c)[i][j],
{
    assert((6 * r + i) / 6 == r && (6 * r + i) % 6 == i);
    assert((6 * c + j) / 6 == c && (6 * c + j) % 6 == j);
}

/// Law: after orientation remap, cell `(6r + row(d, k), 6c + col(d, k))` of
/// the assembled matrix holds value `k` of module `(r, c)`'s line, where `d`
/// is that module's orientation.
pub proof fn lemma_assembled_matrix_remap(f: Floor, r: int, c: int, k: int)
    requires
        f.wf(),
        0 <= r < f.rows,
        0 <= c < f.cols,
        0 <= k < 36,
        valid_cell_line(module_line_at(f, r * f.cols + c)),
    ensures
        ({
            let d = f.modules@[r * f.cols + c].direction as int;
            assembled_matrix(f)[6 * r + orient_row(d, k)][6 * c + orient_col(d, k)]
                == cell_values(module_line_at(f, r * f.cols + c))[k]
        }),
{
    let m = r * f.cols + c;
    let d = f.modules@[m].direction as int;
    lemma_placement_bijective(d, k);
    lemma_assembled_matrix_cell(f, r, c, orient_row(d, k), orient_col(d, k));
}

impl Floor {
    /// One aggregation cycle: drains every module's newest line, decodes
    /// each into its oriented grid, stitches the grids into one `6R × 6C`
    /// floor matrix, and queues the matrix.
    ///
    /// A malformed line is the fatal condition `MalformedCells`: nothing is
    /// queued, though the module queues are still drained.
    pub fn cycle(&mut self) -> (res: Result<(), ProtocolError>)
        requires
            old(self).wf(),
            forall|k: int|
                0 <= k < old(self).modules@.len()
                    ==> (#[trigger] old(self).modules@[k]).queue@.len() > 0,
        ensures
            final(self).wf(),
            drained_from(*final(self), *old(self)),
            res is Ok <==> modules_valid(*old(self)),
            res is Err ==> res == Err::<(), ProtocolError>(ProtocolError::MalformedCells)
                && final(self).queue == old(self).queue,
            res is Ok ==> final(self).queue@.len() == old(self).queue@.len() + 1
                && final(self).queue@.subrange(0, old(self).queue@.len() as int)
                == old(self).queue@
                && mat_view(final(self).queue@.last()@) == assembled_matrix(*old(self)),
    {
        let ghost pre = *self;
        let n = self.modules.len();
        let mut grids: Vec<Vec<Vec<i32>>> = Vec::new();
        let mut malformed = false;
        let mut k: usize = 0;
        while k < n
            invariant
                pre.wf(),
                n == pre.modules@.len(),
                k <= n,
                self.rows == pre.rows,
                self.cols == pre.cols,
                self.queue == pre.queue,
                self.modules@.len() == n,
                forall|t: int|
                    0 <= t < n ==> (#[trigger] pre.modules@[t]).queue@.len() > 0,
                forall|t: int| k <= t < n ==> #[trigger] self.modules@[t] == pre.modules@[t],
                forall|t: int|
                    0 <= t < k ==> {
                        let m = #[trigger] self.modules@[t];
                        &&& m.queue@.len() == 0
                        &&& m.port_name == pre.modules@[t].port_name
                        &&& m.direction == pre.modules@[t].direction
                    },
                !malformed ==> grids@.len() == k,
                !malformed ==> forall|t: int|
                    0 <= t < k ==> valid_cell_line(#[trigger] module_line_at(pre, t)),
                !malformed ==> forall|t: int|
                    0 <= t < k ==> is_grid((#[trigger] grids@[t])@) && mat_view(grids@[t]@)
                        == module_grid(pre, t),
                malformed ==> exists|t: int|
                    0 <= t < n && !valid_cell_line(#[trigger] module_line_at(pre, t)),
            decreases n - k,
        {
            match self.modules[k].read_cells() {
                Ok(opt) => match opt {
                    Some(g) => {
                        if !malformed {
                            grids.push(g);
                        }
                    },
                    None => {
                        proof {
                            assert(pre.modules@[k as int].queue@.len() > 0);
                            assert(false);
                        }
                    },
                },
                Err(_) => {
                    proof {
                        assert(!valid_cell_line(module_line_at(pre, k as int)));
                    }
                    malformed = true;
                },
            }
            k += 1;
        }
        if malformed {
            proof {
                let t = choose|t: int|
                    0 <= t < n && !valid_cell_line(#[trigger] module_line_at(pre, t));
                assert(!valid_cell_line(module_line_at(pre, t)));
            }
            return Err(ProtocolError::MalformedCells);
        }
        proof {
            assert(modules_valid(pre));
        }
        let rows6 = {
            proof {
                assert(6 * (pre.rows as int) <= 36 * (pre.rows as int) * (pre.cols as int)
                    && 6 * (pre.cols as int) <= 36 * (pre.rows as int) * (pre.cols as int))
                    by (nonlinear_arith)
                    requires
                        pre.rows as int >= 1,
                        pre.cols as int >= 1,
                ;
            }
            6 * self.rows
        };
        let cols6 = 6 * self.cols;
        let mut matrix: Vec<Vec<i32>> = Vec::new();
        let mut fr: usize = 0;
        while fr < rows6
            invariant
                pre.wf(),
                n == pre.modules@.len(),
                rows6 == 6 * pre.rows,
                cols6 == 6 * pre.cols,
                self.rows == pre.rows,
                self.cols == pre.cols,
                self.queue == pre.queue,
                drained_from(*self, pre),
                modules_valid(pre),
                grids@.len() == n,
                forall|t: int|
                    0 <= t < n ==> is_grid((#[trigger] grids@[t])@) && mat_view(grids@[t]@)
                        == module_grid(pre, t),
                fr <= rows6,
                matrix@.len() == fr,
                forall|fi: int|
                    0 <= fi < fr ==> (#[trigger] matrix@[fi])@.len() == cols6,
                forall|fi: int, fj: int|
                    0 <= fi < fr && 0 <= fj < cols6 ==> (#[trigger] matrix@[fi]@[fj]) as int
                        == assembled_matrix(pre)[fi][fj],
            decreases rows6 - fr,
        {
            let mr = fr / 6;
            let rr = fr % 6;
            let mut row: Vec<i32> = Vec::new();
            let mut mc: usize = 0;
            while mc < self.cols
                invariant
                    pre.wf(),
                    n == pre.modules@.len(),
                    cols6 == 6 * pre.cols,
                    self.cols == pre.cols,
                    grids@.len() == n,
                    forall|t: int|
                        0 <= t < n ==> is_grid((#[trigger] grids@[t])@) && mat_view(
                            grids@[t]@,
                        ) == module_grid(pre, t),
                    fr < 6 * pre.rows,
                    mr == fr as int / 6,
                    rr == fr as int % 6,
                    mc <= pre.cols,
                    row@.len() == 6 * mc,
                    forall|fj: int|
                        0 <= fj < 6 * mc ==> (#[trigger] row@[fj]) as int == assembled_matrix(
                            pre,
                        )[fr as int][fj],
                decreases pre.cols - mc,
            {
                proof {
                    lemma_row_major_bound(mr as int, mc as int, pre.rows as int, pre.cols as int);
                }
                let gi = mr * self.cols + mc;
                let g = &grids[gi];
                let mut j: usize = 0;
                while j < 6
                    invariant
                        pre.wf(),
                        n == pre.modules@.len(),
                        grids@.len() == n,
                        gi < n,
                        gi as int == mr as int * pre.cols + mc,
                        is_grid((grids@[gi as int])@),
                        mat_view(grids@[gi as int]@) == module_grid(pre, gi as int),
                        g == &grids[gi as int],
                        fr < 6 * pre.rows,
                        mr == fr as int / 6,
                        rr == fr as int % 6,
                        mc < pre.cols,
                        j <= 6,
                        row@.len() == 6 * mc + j,
                        forall|fj: int|
                            0 <= fj < 6 * mc + j ==> (#[trigger] row@[fj]) as int
                                == assembled_matrix(pre)[fr as int][fj],
                    decreases 6 - j,
                {
                    let v = g[rr][j];
                    row.push(v);
                    proof {
                        let fj = 6 * (mc as int) + j;
                        assert(fj / 6 == mc && fj % 6 == j);
                        assert(v as int == mat_view(grids@[gi as int]@)[rr as int][j as int]);
                        assert(assembled_matrix(pre)[fr as int][fj] == module_grid(
                            pre,
                            gi as int,
                        )[rr as int][j as int]);
                    }
                    j += 1;
                }
                mc += 1;
            }
            matrix.push(row);
            fr += 1;
        }
        let ghost pre_queue = self.queue@;
        self.queue.push(matrix);
        proof {
            assert(self.queue@.subrange(0, pre_queue.len() as int) =~= pre_queue);
            let mv = mat_view(self.queue@.last()@);
            let am = assembled_matrix(pre);
            assert forall|fi: int| 0 <= fi < 6 * pre.rows implies mv[fi] == am[fi] by {
                assert(mv[fi] =~= am[fi]);
            }
            assert(mv =~= am);
        }
        Ok(())
    }
}

/// The producer that acquires live frames from the serial modules of a
/// floor. The loop that opens the ports, feeds `Floor::push_line`,
/// busy-polls readiness and serializes each completed matrix runs outside
/// the library against `Floor` and `format_frame`.
pub struct SerialFloorMessanger {
    pub filename: String,
}

impl SerialFloorMessanger {
    /// A live-acquisition producer for the given layout-configuration file.
    pub fn new(filename: String) -> (r: SerialFloorMessanger)
        ensures
            r.filename == filename,
    {
        SerialFloorMessanger { filename }
    }
}

} // verus!
