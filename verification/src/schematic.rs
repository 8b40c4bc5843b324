//! A rectangular character grid loaded row by row, scanned for maximal
//! horizontal digit runs, each tested for adjacency (including diagonals)
//! to a symbol: a character that is neither a digit nor the `'.'` sentinel.

use vstd::prelude::*;
use crate::text::{
    is_digit_char, is_digit, digits_val, digit_value, chars_of,
    first_digit_at_or_after, run_end_from, lemma_first_digit_props, lemma_run_end_props,
    lemma_first_digit_exact, lemma_digits_val_prefix,
};

verus! {

/// A character that counts as a symbol: neither a digit nor the
/// empty-space sentinel `'.'`.
pub open spec fn is_symbol_char(c: char) -> bool {
    c != '.' && !is_digit_char(c)
}

/// The character at `(xi, yi)`, or the sentinel `'.'` when the
/// coordinate lies outside the grid.
pub open spec fn spec_guarded(g: Seq<Seq<char>>, xi: int, yi: int) -> char {
    if 0 <= yi < g.len() && 0 <= xi < g[yi].len() {
        g[yi][xi]
    } else {
        '.'
    }
}

/// A symbol in the row above or below `y`, at horizontal offset `i`
/// from column `x`.
pub open spec fn above_below_symbol(g: Seq<Seq<char>>, x: int, y: int, i: int) -> bool {
    is_symbol_char(spec_guarded(g, x + i, y - 1)) || is_symbol_char(spec_guarded(g, x + i, y + 1))
}

/// Whether a symbol stands anywhere in the 8-connected border of the
/// horizontal run of `len` cells starting at `(x, y)`: the rows above
/// and below from one column before the run to one past it, and the
/// cells immediately left and right of it.
pub open spec fn spec_symbol_adjacent(g: Seq<Seq<char>>, x: int, y: int, len: int) -> bool {
    (exists|i: int| -1 <= i <= len && above_below_symbol(g, x, y, i))
        || is_symbol_char(spec_guarded(g, x - 1, y))
        || is_symbol_char(spec_guarded(g, x + len, y))
}

/// A horizontal digit run: the cells of row `row` from column `start`
/// (inclusive) to column `end` (exclusive).
pub ghost struct Run {
    pub start: int,
    pub row: int,
    pub end: int,
}

/// The first digit run of `row` at or after column `x`: its start and
/// its end, one past the last digit.
pub open spec fn spec_next_run_in_row(row: Seq<char>, x: int) -> Option<(int, int)> {
    match first_digit_at_or_after(row, x) {
        None => None,
        Some(s) => Some((s, run_end_from(row, s))),
    }
}

/// The first digit run at or after the cursor `(x, y)`: row `y` is
/// searched from column `x`, every later row from column 0.
pub open spec fn spec_find_next(g: Seq<Seq<char>>, x: int, y: int) -> Option<Run>
    decreases g.len() - y,
{
    if y < 0 || y >= g.len() {
        None
    } else {
        match spec_next_run_in_row(g[y], x) {
            Some((s, e)) => Some(Run { start: s, row: y, end: e }),
            None => spec_find_next(g, 0, y + 1),
        }
    }
}

/// The numeric value of the digits a run covers.
pub open spec fn run_val(g: Seq<Seq<char>>, r: Run) -> nat {
    digits_val(g[r.row].subrange(r.start, r.end))
}

/// Whether a run's value fits in a `u32`.
pub open spec fn run_fits(g: Seq<Seq<char>>, r: Run) -> bool {
    run_val(g, r) <= u32::MAX
}

/// What `spec_find_next` finds: a digit run at or after the cursor,
/// with nothing but non-digits between the cursor and its start — or
/// nothing, when no digit stands at or after the cursor.
pub proof fn lemma_find_next_props(g: Seq<Seq<char>>, x: int, y: int)
    requires
        0 <= x,
        0 <= y,
    ensures
        match spec_find_next(g, x, y) {
            Some(r) => {
                &&& y <= r.row < g.len()
                &&& 0 <= r.start < r.end <= g[r.row].len()
                &&& (r.row == y ==> x <= r.start)
                &&& forall|j: int| r.start <= j < r.end ==> is_digit_char(#[trigger] g[r.row][j])
                &&& (r.end < g[r.row].len() ==> !is_digit_char(g[r.row][r.end]))
                &&& forall|yy: int, j: int|
                    y <= yy <= r.row && 0 <= j < g[yy].len() && (yy == y ==> x <= j) && (yy
                        == r.row ==> j < r.start) ==> !is_digit_char(#[trigger] g[yy][j])
            },
            None => forall|yy: int, j: int|
                y <= yy < g.len() && 0 <= j < g[yy].len() && (yy == y ==> x <= j)
                    ==> !is_digit_char(#[trigger] g[yy][j]),
        },
    decreases g.len() - y,
{
    if 0 <= y < g.len() {
        lemma_first_digit_props(g[y], x);
        match first_digit_at_or_after(g[y], x) {
            Some(s) => {
                lemma_run_end_props(g[y], s);
            },
            None => {
                lemma_find_next_props(g, 0, y + 1);
            },
        }
    }
}

/// One more than the length of row `y`, or zero outside the grid; the
/// second component of the cursor's termination measure.
pub open spec fn rowlen_plus(g: Seq<Seq<char>>, y: int) -> int {
    if 0 <= y < g.len() {
        g[y].len() + 1int
    } else {
        0
    }
}

/// Every digit run a forward cursor scan from `(x, y)` discovers:
/// repeatedly the next run, resuming just past each run's end.
pub open spec fn spec_runs_from(g: Seq<Seq<char>>, x: int, y: int) -> Seq<Run>
    decreases g.len() - y, rowlen_plus(g, y) - x
        when 0 <= x && 0 <= y
{
    proof {
        lemma_find_next_props(g, x, y);
    }
    match spec_find_next(g, x, y) {
        None => Seq::empty(),
        Some(r) => seq![r] + spec_runs_from(g, r.end, r.row),
    }
}

/// The runs a full scan of the grid discovers, in row-major order.
pub open spec fn spec_all_runs(g: Seq<Seq<char>>) -> Seq<Run> {
    spec_runs_from(g, 0, 0)
}

/// The values of the symbol-adjacent runs among `runs`, in order.
pub open spec fn spec_selected_values(g: Seq<Seq<char>>, runs: Seq<Run>) -> Seq<u32>
    decreases runs.len(),
{
    if runs.len() == 0 {
        Seq::empty()
    } else {
        (if spec_symbol_adjacent(g, runs[0].start, runs[0].row, runs[0].end - runs[0].start) {
            seq![run_val(g, runs[0]) as u32]
        } else {
            Seq::empty()
        }) + spec_selected_values(g, runs.drop_first())
    }
}

/// The result of a whole scan: the values of the symbol-adjacent runs,
/// in discovery order.
pub open spec fn spec_adjacent_values(g: Seq<Seq<char>>) -> Seq<u32> {
    spec_selected_values(g, spec_all_runs(g))
}

/// Every run the scan discovers has a value that fits in a `u32`.
pub open spec fn all_run_values_fit(g: Seq<Seq<char>>) -> bool {
    forall|i: int| 0 <= i < spec_all_runs(g).len() ==> run_fits(g, #[trigger] spec_all_runs(g)[i])
}

/// The run `find_next_num_in_row` would find fits in a `u32`.
pub open spec fn row_run_fits(g: Seq<Seq<char>>, x: int, y: int) -> bool {
    0 <= y < g.len() ==> match spec_next_run_in_row(g[y], x) {
        Some((s, e)) => digits_val(g[y].subrange(s, e)) <= u32::MAX,
        None => true,
    }
}

/// The run `find_next_num` would find fits in a `u32`.
pub open spec fn found_run_fits(g: Seq<Seq<char>>, x: int, y: int) -> bool {
    match spec_find_next(g, x, y) {
        Some(r) => run_fits(g, r),
        None => true,
    }
}

/// What `find_next_num` promises of its result: it is determined by the
/// grid's view and the cursor alone.
pub open spec fn find_next_post(
    g: Seq<Seq<char>>,
    x: int,
    y: int,
    r: Option<(u32, usize, usize, usize)>,
) -> bool {
    match r {
        None => spec_find_next(g, x, y) is None,
        Some((v, sx, sy, slen)) => {
            &&& spec_find_next(g, x, y) == Some(
                Run { start: sx as int, row: sy as int, end: sx as int + slen as int },
            )
            &&& v as nat == digits_val(
                g[sy as int].subrange(sx as int, sx as int + slen as int),
            )
        },
    }
}

/// The grid: an ordered sequence of rows of characters, built once by
/// appending rows and then only read.
pub struct Grid {
    pub rows: Vec<Vec<char>>,
}

impl View for Grid {
    type V = Seq<Seq<char>>;

    open spec fn view(&self) -> Seq<Seq<char>> {
        self.rows.deep_view()
    }
}

/// Executable symbol test.
pub fn is_symbol(c: char) -> (b: bool)
    ensures
        b == is_symbol_char(c),
{
    c != '.' && !is_digit(c)
}

impl Grid {
    /// The rows of the view are the views of the rows.
    pub proof fn lemma_view(&self)
        ensures
            self@.len() == self.rows@.len(),
            forall|i: int| 0 <= i < self@.len() ==> self@[i] == self.rows@[i]@,
    {
        assert forall|i: int| 0 <= i < self@.len() implies self@[i] == self.rows@[i]@ by {
            assert(self@[i] =~= self.rows@[i]@);
        }
    }

    /// An empty grid.
    pub fn new() -> (g: Grid)
        ensures
            g@ == Seq::<Seq<char>>::empty(),
    {
        let g = Grid { rows: Vec::new() };
        proof {
            assert(g@ =~= Seq::<Seq<char>>::empty());
        }
        g
    }

    /// Appends one row, decomposed into its characters in order.
    pub fn add_row(&mut self, row: &String)
        ensures
            final(self)@ == old(self)@.push(row@),
    {
        let cs = chars_of(row.as_str());
        self.rows.push(cs);
        proof {
            assert(self@ =~~= old(self)@.push(row@));
        }
    }

    /// Whether every row has the same length as the first.
    pub fn verify(&self) -> (ok: bool)
        requires
            self@.len() > 0,
        ensures
            ok == forall|i: int| 0 <= i < self@.len() ==> (#[trigger] self@[i].len()) == self@[0].len(),
    {
        proof {
            self.lemma_view();
        }
        let first_len = self.rows[0].len();
        let n = self.rows.len();
        let mut i: usize = 0;
        while i < n
            invariant
                n == self@.len(),
                first_len == self@[0].len(),
                i <= n,
                forall|j: int| 0 <= j < i ==> (#[trigger] self@[j].len()) == self@[0].len(),
                self@.len() == self.rows@.len(),
                forall|j: int| 0 <= j < self@.len() ==> self@[j] == self.rows@[j]@,
            decreases n - i,
        {
            if self.rows[i].len() != first_len {
                proof {
                    assert(self@[i as int].len() != self@[0].len());
                }
                return false;
            }
            i = i + 1;
        }
        true
    }

    /// The character at column `x` of row `y`; the coordinate must be
    /// inside the grid.
    pub fn get(&self, x: usize, y: usize) -> (c: char)
        requires
            y < self@.len(),
            x < self@[y as int].len(),
        ensures
            c == self@[y as int][x as int],
    {
        proof {
            self.lemma_view();
        }
        self.rows[y][x]
    }

    /// The character at `(x + add_x, y + add_y)`, or `'.'` when that
    /// coordinate lies outside the grid. Never reads out of bounds, for
    /// any base coordinate and any offsets.
    pub fn get_protected(&self, x: usize, y: usize, add_x: i32, add_y: i32) -> (c: char)
        ensures
            c == spec_guarded(self@, x as int + add_x as int, y as int + add_y as int),
    {
        proof {
            self.lemma_view();
        }
        let nrows = self.rows.len();
        let ny: usize;
        if add_y >= 0 {
            let d = add_y as usize;
            if usize::MAX - d < y {
                return '.';
            }
            ny = y + d;
        } else {
            let d = (-(add_y as i64)) as usize;
            if d > y {
                return '.';
            }
            ny = y - d;
        }
        if ny >= nrows {
            return '.';
        }
        let row_len = self.rows[ny].len();
        let nx: usize;
        if add_x >= 0 {
            let d = add_x as usize;
            if usize::MAX - d < x {
                return '.';
            }
            nx = x + d;
        } else {
            let d = (-(add_x as i64)) as usize;
            if d > x {
                return '.';
            }
            nx = x - d;
        }
        if nx >= row_len {
            return '.';
        }
        self.rows[ny][nx]
    }

    /// Whether a symbol stands in the 8-connected border of the run of
    /// `len` cells starting at `(x, y)`.
    pub fn is_symbol_adjacent(&self, x: usize, y: usize, len: usize) -> (b: bool)
        requires
            len as int + 2 <= i32::MAX as int,
        ensures
            b == spec_symbol_adjacent(self@, x as int, y as int, len as int),
    {
        let ghost g = self@;
        let mut symbol_found = false;
        let mut i: usize = 0;
        while i < len + 2
            invariant
                g == self@,
                len as int + 2 <= i32::MAX as int,
                i <= len + 2,
                symbol_found == exists|k: int|
                    -1 <= k < i as int - 1 && above_below_symbol(g, x as int, y as int, k),
            decreases len + 2 - i,
        {
            let c_up = self.get_protected(x, y, (i as i32) - 1, -1);
            let c_down = self.get_protected(x, y, (i as i32) - 1, 1);
            if is_symbol(c_up) || is_symbol(c_down) {
                proof {
                    assert(above_below_symbol(g, x as int, y as int, i as int - 1));
                }
                symbol_found = true;
            }
            i = i + 1;
        }
        let c_left = self.get_protected(x, y, -1, 0);
        let c_right = self.get_protected(x, y, len as i32, 0);
        if is_symbol(c_left) || is_symbol(c_right) {
            symbol_found = true;
        }
        symbol_found
    }

    /// The next digit run of row `y` at or after column `x`: its value,
    /// start column, row index, and length in characters.
    pub fn find_next_num_in_row(&self, x: usize, y: usize) -> (r: Option<(u32, usize, usize, usize)>)
        requires
            row_run_fits(self@, x as int, y as int),
        ensures
            ({
                let g = self@;
                match r {
                    None => y as int >= g.len() || spec_next_run_in_row(g[y as int], x as int)
                        is None,
                    Some((v, sx, sy, slen)) => {
                        &&& (y as int) < g.len()
                        &&& sy == y
                        &&& slen > 0
                        &&& x <= sx
                        &&& sx as int + slen as int <= g[y as int].len()
                        &&& spec_next_run_in_row(g[y as int], x as int) == Some(
                            (sx as int, sx as int + slen as int),
                        )
                        &&& v as nat == digits_val(
                            g[y as int].subrange(sx as int, sx as int + slen as int),
                        )
                    },
                }
            }),
    {
        proof {
            self.lemma_view();
        }
        if y >= self.rows.len() {
            return None;
        }
        let ghost row: Seq<char> = self@[y as int];
        let row_len = self.rows[y].len();
        if x >= row_len {
            return None;
        }
        let mut i: usize = x;
        while i < row_len && !is_digit(self.rows[y][i])
            invariant
                (y as int) < self@.len(),
                self@[y as int] == row,
                row_len == row.len(),
                x <= i <= row_len,
                forall|j: int| x <= j < i ==> !is_digit_char(row[j]),
                self@.len() == self.rows@.len(),
                forall|k: int| 0 <= k < self@.len() ==> self@[k] == self.rows@[k]@,
            decreases row_len - i,
        {
            i = i + 1;
        }
        if i == row_len {
            proof {
                lemma_first_digit_exact(row, x as int, i as int);
            }
            return None;
        }
        let start = i;
        proof {
            lemma_first_digit_exact(row, x as int, start as int);
            lemma_run_end_props(row, start as int);
        }
        let ghost e: int = run_end_from(row, start as int);
        let mut j: usize = start;
        let mut val: u32 = 0;
        while j < row_len && is_digit(self.rows[y][j])
            invariant
                (y as int) < self@.len(),
                self@[y as int] == row,
                row_len == row.len(),
                x <= start,
                start as int <= j as int <= e,
                e <= row_len as int,
                run_end_from(row, start as int) == e,
                forall|k: int| start as int <= k < e ==> is_digit_char(row[k]),
                e < row.len() ==> !is_digit_char(row[e]),
                digits_val(row.subrange(start as int, e)) <= u32::MAX,
                val as nat == digits_val(row.subrange(start as int, j as int)),
                self@.len() == self.rows@.len(),
                forall|k: int| 0 <= k < self@.len() ==> self@[k] == self.rows@[k]@,
            decreases row_len - j,
        {
            proof {
                lemma_digits_val_prefix(row.subrange(start as int, e), j as int + 1 - start as int);
                assert(row.subrange(start as int, e).subrange(0, j as int + 1 - start as int)
                    =~= row.subrange(start as int, j as int + 1));
                assert(row.subrange(start as int, j as int + 1).drop_last() =~= row.subrange(
                    start as int,
                    j as int,
                ));
            }
            val = val * 10 + digit_value(self.rows[y][j]);
            j = j + 1;
        }
        proof {
            assert(j as int == e);
        }
        Some((val, start, y, j - start))
    }

    /// The first digit run at or after the cursor `(x, y)`: row `y` is
    /// searched from column `x`, every later row from its start.
    pub fn find_next_num(&self, x: usize, y: usize) -> (r: Option<(u32, usize, usize, usize)>)
        requires
            found_run_fits(self@, x as int, y as int),
        ensures
            find_next_post(self@, x as int, y as int, r),
            match r {
                Some((v, sx, sy, slen)) => (sy as int) < self@.len() && slen > 0 && sx as int
                    + slen as int <= self@[sy as int].len(),
                None => true,
            },
    {
        let ghost g = self@;
        proof {
            if (y as int) < g.len() {
                match spec_next_run_in_row(g[y as int], x as int) {
                    Some((s, e)) => {
                        assert(spec_find_next(g, x as int, y as int) == Some(
                            Run { start: s, row: y as int, end: e },
                        ));
                    },
                    None => {},
                }
            }
        }
        let r0 = self.find_next_num_in_row(x, y);
        if let Some(t) = r0 {
            return Some(t);
        }
        let n = self.rows.len();
        proof {
            self.lemma_view();
        }
        if y >= n {
            return None;
        }
        let mut y2: usize = y + 1;
        while y2 < n
            invariant
                g == self@,
                n == g.len(),
                y < y2 <= n,
                found_run_fits(g, x as int, y as int),
                spec_find_next(g, x as int, y as int) == spec_find_next(g, 0, y2 as int),
            decreases n - y2,
        {
            proof {
                match spec_next_run_in_row(g[y2 as int], 0) {
                    Some((s, e)) => {
                        assert(spec_find_next(g, 0, y2 as int) == Some(
                            Run { start: s, row: y2 as int, end: e },
                        ));
                    },
                    None => {},
                }
            }
            let r1 = self.find_next_num_in_row(0, y2);
            if let Some(t) = r1 {
                return Some(t);
            }
            y2 = y2 + 1;
        }
        proof {
            assert(spec_find_next(g, 0, n as int) is None);
        }
        None
    }

    /// Scans the whole grid with a forward cursor and collects the value
    /// of every digit run that is adjacent to a symbol, in discovery
    /// order.
    pub fn find_all_adjacent_numbers(&self) -> (nums: Vec<u32>)
        requires
            all_run_values_fit(self@),
            forall|yy: int| 0 <= yy < self@.len() ==> (#[trigger] self@[yy].len()) + 2
                <= i32::MAX as int,
        ensures
            nums@ == spec_adjacent_values(self@),
    {
        let ghost g = self@;
        let mut nums: Vec<u32> = Vec::new();
        let mut next_x: usize = 0;
        let mut next_y: usize = 0;
        let ghost mut done: Seq<Run> = Seq::empty();
        proof {
            assert(spec_all_runs(g) =~= done + spec_runs_from(g, 0, 0));
            assert(nums@ =~= spec_selected_values(g, done));
        }
        loop
            invariant
                g == self@,
                all_run_values_fit(g),
                forall|yy: int| 0 <= yy < g.len() ==> (#[trigger] g[yy].len()) + 2
                    <= i32::MAX as int,
                spec_all_runs(g) == done + spec_runs_from(g, next_x as int, next_y as int),
                nums@ == spec_selected_values(g, done),
            ensures
                nums@ == spec_adjacent_values(g),
            decreases g.len() - next_y, rowlen_plus(g, next_y as int) - next_x,
        {
            proof {
                lemma_find_next_props(g, next_x as int, next_y as int);
                match spec_find_next(g, next_x as int, next_y as int) {
                    Some(rr) => {
                        assert(spec_runs_from(g, next_x as int, next_y as int) == seq![rr]
                            + spec_runs_from(g, rr.end, rr.row));
                        assert(spec_all_runs(g)[done.len() as int] == rr);
                        assert(run_fits(g, rr));
                    },
                    None => {},
                }
            }
            let r = self.find_next_num(next_x, next_y);
            match r {
                None => {
                    proof {
                        assert(spec_runs_from(g, next_x as int, next_y as int)
                            =~= Seq::<Run>::empty());
                        assert(spec_all_runs(g) =~= done);
                    }
                    break;
                },
                Some((num, x, y, len)) => {
                    let ghost rr = Run { start: x as int, row: y as int, end: x as int + len as int };
                    if self.is_symbol_adjacent(x, y, len) {
                        nums.push(num);
                    }
                    proof {
                        lemma_selected_push(g, done, rr);
                        assert(done.push(rr) =~= done + seq![rr]);
                        assert(done + (seq![rr] + spec_runs_from(g, rr.end, rr.row)) =~= (done
                            + seq![rr]) + spec_runs_from(g, rr.end, rr.row));
                        done = done.push(rr);
                    }
                    next_x = x + len;
                    next_y = y;
                },
            }
        }
        nums
    }
}

/// Whether run `r` covers the cell at column `xx` of row `yy`.
pub open spec fn run_covers(r: Run, xx: int, yy: int) -> bool {
    r.row == yy && r.start <= xx < r.end
}

/// A run that lies inside the grid and covers only digit cells.
pub open spec fn run_wf(g: Seq<Seq<char>>, r: Run) -> bool {
    &&& 0 <= r.row < g.len()
    &&& 0 <= r.start < r.end <= g[r.row].len()
    &&& forall|j: int| r.start <= j < r.end ==> is_digit_char(#[trigger] g[r.row][j])
}

/// The cell `(xx, yy)` lies at or after the cursor `(x, y)` in
/// row-major order.
pub open spec fn at_or_after(xx: int, yy: int, x: int, y: int) -> bool {
    yy > y || (yy == y && xx >= x)
}

proof fn lemma_runs_from_cover(g: Seq<Seq<char>>, x: int, y: int)
    requires
        0 <= x,
        0 <= y,
    ensures
        ({
            let rs = spec_runs_from(g, x, y);
            &&& forall|i: int| 0 <= i < rs.len() ==> run_wf(g, #[trigger] rs[i])
            &&& forall|i: int| 0 <= i < rs.len() ==> at_or_after(
                (#[trigger] rs[i]).start,
                rs[i].row,
                x,
                y,
            )
            &&& forall|i: int, k: int| 0 <= i < k < rs.len() ==> ((#[trigger] rs[k]).row > (
            #[trigger] rs[i]).row || (rs[k].row == rs[i].row && rs[k].start >= rs[i].end))
            &&& forall|yy: int, xx: int|
                0 <= yy < g.len() && 0 <= xx < g[yy].len() && at_or_after(xx, yy, x, y)
                    && is_digit_char(#[trigger] g[yy][xx]) ==> exists|i: int|
                    0 <= i < rs.len() && run_covers(#[trigger] rs[i], xx, yy)
        }),
    decreases g.len() - y, rowlen_plus(g, y) - x,
{
    lemma_find_next_props(g, x, y);
    let rs = spec_runs_from(g, x, y);
    match spec_find_next(g, x, y) {
        None => {
            assert(rs =~= Seq::<Run>::empty());
        },
        Some(r) => {
            lemma_runs_from_cover(g, r.end, r.row);
            let rest = spec_runs_from(g, r.end, r.row);
            assert(rs == seq![r] + rest);
            assert(rs[0] == r);
            assert(forall|i: int| 1 <= i < rs.len() ==> rs[i] == rest[i - 1]);
            assert forall|yy: int, xx: int|
                0 <= yy < g.len() && 0 <= xx < g[yy].len() && at_or_after(xx, yy, x, y)
                    && is_digit_char(#[trigger] g[yy][xx]) implies exists|i: int|
                0 <= i < rs.len() && run_covers(#[trigger] rs[i], xx, yy) by {
                if run_covers(r, xx, yy) {
                    assert(run_covers(rs[0], xx, yy));
                } else {
                    assert(at_or_after(xx, yy, r.end, r.row));
                    let i = choose|i: int| 0 <= i < rest.len() && run_covers(rest[i], xx, yy);
                    assert(run_covers(rs[i + 1], xx, yy));
                }
            }
        },
    }
}

/// Law: the runs a full scan discovers reconstruct the digit cells of
/// the grid exactly: every run covers only digit cells, every digit
/// cell lies in some run, and no cell lies in two distinct runs — no
/// digit skipped, none double-counted.
pub proof fn lemma_runs_reconstruct_digits(g: Seq<Seq<char>>)
    ensures
        forall|i: int| 0 <= i < spec_all_runs(g).len() ==> run_wf(g, #[trigger] spec_all_runs(g)[i]),
        forall|yy: int, xx: int|
            0 <= yy < g.len() && 0 <= xx < g[yy].len() && is_digit_char(#[trigger] g[yy][xx])
                ==> exists|i: int|
                0 <= i < spec_all_runs(g).len() && run_covers(#[trigger] spec_all_runs(g)[i], xx, yy),
        forall|i: int, k: int, xx: int, yy: int|
            0 <= i < k < spec_all_runs(g).len() ==> !((#[trigger] run_covers(
                spec_all_runs(g)[i],
                xx,
                yy,
            )) && (#[trigger] run_covers(spec_all_runs(g)[k], xx, yy))),
{
    lemma_runs_from_cover(g, 0, 0);
    assert forall|yy: int, xx: int|
        0 <= yy < g.len() && 0 <= xx < g[yy].len() && is_digit_char(
            #[trigger] g[yy][xx],
        ) implies exists|i: int|
        0 <= i < spec_all_runs(g).len() && run_covers(#[trigger] spec_all_runs(g)[i], xx, yy) by {
        assert(at_or_after(xx, yy, 0, 0));
        let rs = spec_runs_from(g, 0, 0);
        let i = choose|i: int| 0 <= i < rs.len() && run_covers(rs[i], xx, yy);
        assert(run_covers(spec_all_runs(g)[i], xx, yy));
    }
}

/// Law: a grid without a single digit cell yields no runs, so a whole
/// scan returns the empty sequence.
pub proof fn lemma_no_digits_no_values(g: Seq<Seq<char>>)
    requires
        forall|yy: int, xx: int|
            0 <= yy < g.len() && 0 <= xx < g[yy].len() ==> !is_digit_char(#[trigger] g[yy][xx]),
    ensures
        spec_all_runs(g) == Seq::<Run>::empty(),
        spec_adjacent_values(g) == Seq::<u32>::empty(),
{
    lemma_find_next_props(g, 0, 0);
    match spec_find_next(g, 0, 0) {
        Some(r) => {
            assert(is_digit_char(g[r.row][r.start]));
            assert(false);
        },
        None => {},
    }
    assert(spec_runs_from(g, 0, 0) =~= Seq::<Run>::empty());
    assert(spec_selected_values(g, Seq::<Run>::empty()) =~= Seq::<u32>::empty());
}

/// Law: finding the next number is a pure function of the grid's view
/// and the cursor: any two results that `find_next_num`'s contract
/// admits for the same arguments are equal, so re-invocation with the
/// same arguments returns the same answer.
pub proof fn lemma_find_next_deterministic(
    g: Seq<Seq<char>>,
    x: int,
    y: int,
    r1: Option<(u32, usize, usize, usize)>,
    r2: Option<(u32, usize, usize, usize)>,
)
    requires
        find_next_post(g, x, y, r1),
        find_next_post(g, x, y, r2),
    ensures
        r1 == r2,
{
}

/// Law: every coordinate outside the grid reads as the sentinel `'.'`,
/// whatever the offsets that produced it.
pub proof fn lemma_guarded_out_of_bounds(g: Seq<Seq<char>>, xi: int, yi: int)
    requires
        !(0 <= yi < g.len()) || !(0 <= xi < g[yi].len()),
    ensures
        spec_guarded(g, xi, yi) == '.',
{
}

/// The symbol-adjacent runs among `runs`, in order.
pub open spec fn spec_adjacent_runs(g: Seq<Seq<char>>, runs: Seq<Run>) -> Seq<Run>
    decreases runs.len(),
{
    if runs.len() == 0 {
        Seq::empty()
    } else {
        (if spec_symbol_adjacent(g, runs[0].start, runs[0].row, runs[0].end - runs[0].start) {
            seq![runs[0]]
        } else {
            Seq::empty()
        }) + spec_adjacent_runs(g, runs.drop_first())
    }
}

/// Law: the scan's values are exactly the values of the symbol-adjacent
/// runs, in order.
pub proof fn lemma_selected_are_adjacent_values(g: Seq<Seq<char>>, runs: Seq<Run>)
    ensures
        spec_selected_values(g, runs) == spec_adjacent_runs(g, runs).map_values(
            |r: Run| run_val(g, r) as u32,
        ),
    decreases runs.len(),
{
    let f = |r: Run| run_val(g, r) as u32;
    if runs.len() == 0 {
        assert(spec_selected_values(g, runs) =~= spec_adjacent_runs(g, runs).map_values(f));
    } else {
        lemma_selected_are_adjacent_values(g, runs.drop_first());
        assert(spec_selected_values(g, runs) =~= spec_adjacent_runs(g, runs).map_values(f));
    }
}

proof fn lemma_adjacent_runs_reject(g: Seq<Seq<char>>, runs: Seq<Run>, r: Run)
    requires
        !spec_symbol_adjacent(g, r.start, r.row, r.end - r.start),
    ensures
        !spec_adjacent_runs(g, runs).contains(r),
    decreases runs.len(),
{
    if runs.len() > 0 {
        lemma_adjacent_runs_reject(g, runs.drop_first(), r);
        let t = spec_adjacent_runs(g, runs.drop_first());
        if spec_adjacent_runs(g, runs).contains(r) {
            let i = choose|i: int|
                0 <= i < spec_adjacent_runs(g, runs).len() && spec_adjacent_runs(g, runs)[i] == r;
            if spec_symbol_adjacent(g, runs[0].start, runs[0].row, runs[0].end - runs[0].start) {
                if i == 0 {
                    assert(r == runs[0]);
                    assert(false);
                } else {
                    assert(t[i - 1] == r);
                    assert(t.contains(r));
                    assert(false);
                }
            } else {
                assert(t[i] == r);
                assert(t.contains(r));
                assert(false);
            }
        }
    }
}

/// Law: a run with no symbol anywhere in its 8-connected border is
/// excluded: it never appears among the runs whose values the scan
/// reports.
pub proof fn lemma_non_adjacent_excluded(g: Seq<Seq<char>>, r: Run)
    requires
        !spec_symbol_adjacent(g, r.start, r.row, r.end - r.start),
    ensures
        !spec_adjacent_runs(g, spec_all_runs(g)).contains(r),
{
    lemma_adjacent_runs_reject(g, spec_all_runs(g), r);
}

/// The sum of a sequence of numbers.
pub open spec fn spec_sum(s: Seq<u32>) -> nat
    decreases s.len(),
{
    if s.len() == 0 {
        0
    } else {
        spec_sum(s.drop_last()) + s.last() as nat
    }
}

/// A prefix never sums to more than the whole sequence.
pub proof fn lemma_sum_prefix(s: Seq<u32>, i: int)
    requires
        0 <= i <= s.len(),
    ensures
        spec_sum(s.subrange(0, i)) <= spec_sum(s),
    decreases s.len() - i,
{
    if i < s.len() {
        let t = s.subrange(0, i + 1);
        assert(t.drop_last() =~= s.subrange(0, i));
        lemma_sum_prefix(s, i + 1);
        assert(s.subrange(0, s.len() as int) =~= s);
    } else {
        assert(s.subrange(0, i) =~= s);
    }
}

/// Adds up the collected numbers.
pub fn sum_numbers(nums: &Vec<u32>) -> (s: u32)
    requires
        spec_sum(nums@) <= u32::MAX,
    ensures
        s as nat == spec_sum(nums@),
{
    let mut acc: u32 = 0;
    let mut i: usize = 0;
    while i < nums.len()
        invariant
            i <= nums@.len(),
            spec_sum(nums@) <= u32::MAX,
            acc as nat == spec_sum(nums@.subrange(0, i as int)),
        decreases nums@.len() - i,
    {
        proof {
            lemma_sum_prefix(nums@, i as int + 1);
            assert(nums@.subrange(0, i as int + 1).drop_last() =~= nums@.subrange(0, i as int));
        }
        acc = acc + nums[i];
        i = i + 1;
    }
    proof {
        assert(nums@.subrange(0, nums@.len() as int) =~= nums@);
    }
    acc
}

/// `spec_selected_values` over a run list extended on the right: the
/// selection of the new run is appended to the old values.
pub proof fn lemma_selected_push(g: Seq<Seq<char>>, runs: Seq<Run>, r: Run)
    ensures
        spec_selected_values(g, runs.push(r)) == spec_selected_values(g, runs) + (if spec_symbol_adjacent(
            g,
            r.start,
            r.row,
            r.end - r.start,
        ) {
            seq![run_val(g, r) as u32]
        } else {
            Seq::<u32>::empty()
        }),
    decreases runs.len(),
{
    if runs.len() == 0 {
        assert(runs.push(r)[0] == r);
        assert(runs.push(r).drop_first() =~= Seq::<Run>::empty());
        assert(spec_selected_values(g, Seq::<Run>::empty()) =~= Seq::<u32>::empty());
        assert(runs =~= Seq::<Run>::empty());
        assert(spec_selected_values(g, runs.push(r)) =~= spec_selected_values(g, runs) + (
        if spec_symbol_adjacent(g, r.start, r.row, r.end - r.start) {
            seq![run_val(g, r) as u32]
        } else {
            Seq::<u32>::empty()
        }));
    } else {
        assert(runs.push(r)[0] == runs[0]);
        assert(runs.push(r).drop_first() =~= runs.drop_first().push(r));
        lemma_selected_push(g, runs.drop_first(), r);
        assert(spec_selected_values(g, runs.push(r)) =~= spec_selected_values(g, runs) + (
        if spec_symbol_adjacent(g, r.start, r.row, r.end - r.start) {
            seq![run_val(g, r) as u32]
        } else {
            Seq::<u32>::empty()
        }));
    }
}

} // verus!
