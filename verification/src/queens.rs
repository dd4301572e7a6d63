use vstd::prelude::*;
use std::collections::VecDeque;
use crate::text::push_char;

verus! {

/// One queen on the board.
#[derive(Clone, Copy, Debug, PartialEq, Eq, Structural)]
pub struct Queen {
    pub row: u8,
    pub col: u8,
}

/// Distance between two coordinates.
pub open spec fn spec_abs_dist(lhs: u8, rhs: u8) -> int {
    if lhs >= rhs { lhs - rhs } else { rhs - lhs }
}

/// Whether queen `a` attacks queen `b`: same row, same column, or same diagonal.
pub open spec fn attacks(a: Queen, b: Queen) -> bool {
    ||| a.row == b.row
    ||| a.col == b.col
    ||| spec_abs_dist(a.col, b.col) == spec_abs_dist(a.row, b.row)
}

fn abs_dist(lhs: u8, rhs: u8) -> (d: u8)
    ensures d == spec_abs_dist(lhs, rhs),
{
    if lhs >= rhs { lhs - rhs } else { rhs - lhs }
}

impl Queen {
    pub fn can_attack(&self, other: &Queen) -> (r: bool)
        ensures r == attacks(*self, *other),
    {
        (self.row == other.row) || (self.col == other.col)
            || (abs_dist(self.col, other.col) == abs_dist(self.row, other.row))
    }
}

/// std's I/O error, carried through as an opaque value.
#[verifier::external_type_specification]
#[verifier::external_body]
pub struct ExIoError(std::io::Error);

/// Builds the error that `try_push_queen` reports for a full board
/// (std's `io::Error::from(io::ErrorKind::OutOfMemory)`).
/// Trusted: nothing is stated of the value, which is opaque here.
#[verifier::external_body]
fn out_of_memory_error() -> std::io::Error {
    std::io::Error::from(std::io::ErrorKind::OutOfMemory)
}

/// The checkerboard pattern: light on even `col + row`, dark on odd.
pub open spec fn tile_char(col: int, row: int) -> char {
    if (col + row) % 2 == 0 { '\u{2591}' } else { '\u{2588}' }
}

/// Position of a cell in the board's table of `n * n` cells (column major).
pub open spec fn cell_index(n: nat, col: int, row: int) -> int {
    col * n + row
}

/// Whether some queen of `qs` is drawn on the cell at table position `k`.
pub open spec fn queen_at(n: nat, qs: Seq<Queen>, k: int) -> bool {
    exists|i: int| 0 <= i < qs.len() && #[trigger] cell_index(n, qs[i].col as int, qs[i].row as int) == k
}

/// The character shown for cell (`col`, `row`).
pub open spec fn cell_char(n: nat, qs: Seq<Queen>, col: int, row: int) -> char {
    if queen_at(n, qs, cell_index(n, col, row)) { 'Q' } else { tile_char(col, row) }
}

/// Column `col` of the drawing, up to row `k`: each cell twice.
pub open spec fn drawn_line(n: nat, qs: Seq<Queen>, col: int, k: int) -> Seq<char>
    decreases k,
{
    if k <= 0 {
        Seq::empty()
    } else {
        let c = cell_char(n, qs, col, k - 1);
        drawn_line(n, qs, col, k - 1) + seq![c, c]
    }
}

/// The first `k` lines of the drawing, each ended by a newline.
pub open spec fn drawn_lines(n: nat, qs: Seq<Queen>, k: int) -> Seq<char>
    decreases k,
{
    if k <= 0 {
        Seq::empty()
    } else {
        drawn_lines(n, qs, k - 1) + drawn_line(n, qs, k - 1, n as int) + seq!['\n']
    }
}

/// A board of side `BOARD_SIZE` holding the queens placed so far.
#[derive(Debug, PartialEq)]
pub struct QueensBoard<const BOARD_SIZE: u8> {
    queens: VecDeque<Queen>,
}

impl<const BOARD_SIZE: u8> View for QueensBoard<BOARD_SIZE> {
    type V = Seq<Queen>;

    closed spec fn view(&self) -> Seq<Queen> {
        self.queens@
    }
}

impl<const BOARD_SIZE: u8> QueensBoard<BOARD_SIZE> {
    pub fn new() -> (b: Self)
        ensures b@ == Seq::<Queen>::empty(),
    {
        Self { queens: VecDeque::with_capacity(BOARD_SIZE as usize) }
    }

    /// Draws the board as text: one line per column, two characters per cell.
    pub fn draw(&self) -> (r: String)
        requires
            forall|i: int| 0 <= i < self@.len() ==>
                #[trigger] cell_index(BOARD_SIZE as nat, self@[i].col as int, self@[i].row as int)
                < 2 * BOARD_SIZE * BOARD_SIZE,
        ensures
            r@ == drawn_lines(BOARD_SIZE as nat, self@, BOARD_SIZE as int),
    {
        let n: usize = BOARD_SIZE as usize;
        let ghost gn = BOARD_SIZE as nat;
        let mut res = String::new();
        let mut col: usize = 0;
        while col < n
            invariant
                n == gn,
                n == BOARD_SIZE,
                col <= n,
                res@ == drawn_lines(gn, self@, col as int),
            decreases n - col,
        {
            let ghost before = res@;
            let mut row: usize = 0;
            while row < n
                invariant
                    n == gn,
                    n == BOARD_SIZE,
                    col < n,
                    row <= n,
                    res@ == before + drawn_line(gn, self@, col as int, row as int),
                decreases n - row,
            {
                let c = self.cell_at(col, row);
                push_char(&mut res, c);
                push_char(&mut res, c);
                assert(res@ =~= before + drawn_line(gn, self@, col as int, row + 1));
                row = row + 1;
            }
            push_char(&mut res, '\n');
            assert(res@ =~= drawn_lines(gn, self@, col + 1));
            col = col + 1;
        }
        res
    }

    fn cell_at(&self, col: usize, row: usize) -> (c: char)
        requires
            col < BOARD_SIZE,
            row < BOARD_SIZE,
        ensures
            c == cell_char(BOARD_SIZE as nat, self@, col as int, row as int),
    {
        let n: usize = BOARD_SIZE as usize;
        assert(col * n + row <= 255 * 255 + 255) by (nonlinear_arith)
            requires col < n, row < n, n <= 255;
        let k: usize = col * n + row;
        let mut i: usize = 0;
        while i < self.queens.len()
            invariant
                n == BOARD_SIZE,
                k == cell_index(n as nat, col as int, row as int),
                i <= self@.len(),
                forall|j: int| 0 <= j < i ==>
                    #[trigger] cell_index(n as nat, self@[j].col as int, self@[j].row as int) != k,
            decreases self@.len() - i,
        {
            let q = self.queens[i];
            assert(q.col * n + q.row <= 255 * 255 + 255) by (nonlinear_arith)
                requires q.col <= 255, q.row <= 255, n <= 255;
            if (q.col as usize) * n + (q.row as usize) == k {
                assert(cell_index(n as nat, self@[i as int].col as int, self@[i as int].row as int) == k);
                return 'Q';
            }
            i = i + 1;
        }
        if (col + row) % 2 == 0 { '\u{2591}' } else { '\u{2588}' }
    }

    /// Places a queen unless the board already holds `BOARD_SIZE` queens.
    pub fn try_push_queen(&mut self, new_queen: Queen) -> (r: Result<(), std::io::Error>)
        ensures
            r is Ok <==> old(self)@.len() < BOARD_SIZE,
            r is Ok ==> final(self)@ == old(self)@.push(new_queen),
            r is Err ==> final(self)@ == old(self)@,
            old(self)@.len() <= BOARD_SIZE ==> final(self)@.len() <= BOARD_SIZE,
    {
        if !self.is_full() {
            self.queens.push_back(new_queen);
            Ok(())
        } else {
            Err(out_of_memory_error())
        }
    }

    pub fn is_full(&self) -> (r: bool)
        ensures r == (self@.len() >= BOARD_SIZE),
    {
        self.queens.len() >= BOARD_SIZE as usize
    }

    pub fn push_queen_unchecked(&mut self, new_queen: Queen)
        ensures final(self)@ == old(self)@.push(new_queen),
    {
        self.queens.push_back(new_queen);
    }

    pub fn pop_queen(&mut self) -> (r: Option<Queen>)
        ensures
            old(self)@.len() == 0 ==> r is None && final(self)@ == old(self)@,
            old(self)@.len() > 0 ==> r == Some(old(self)@.last()) && final(self)@ == old(self)@.drop_last(),
    {
        self.queens.pop_back()
    }

    pub fn get_queens(&self) -> (r: &VecDeque<Queen>)
        ensures r@ == self@,
    {
        &self.queens
    }
}

impl<const BOARD_SIZE: u8> Clone for QueensBoard<BOARD_SIZE> {
    fn clone(&self) -> (r: Self)
        ensures r@ == self@,
    {
        let q = self.queens.clone();
        assert(q@ == self.queens@);
        Self { queens: q }
    }
}

/// The queen that the solver tries next on top of `qs`: the next column, in row `row`.
pub open spec fn candidate(qs: Seq<Queen>, row: int) -> Queen {
    Queen { row: row as u8, col: qs.len() as u8 }
}

/// Whether some queen of `qs` attacks `q`.
pub open spec fn attacked_by_any(qs: Seq<Queen>, q: Queen) -> bool {
    exists|i: int| 0 <= i < qs.len() && #[trigger] attacks(qs[i], q)
}

/// Every full board reachable from `qs` by placing, column after column,
/// queens that no earlier queen attacks; candidates are tried in row order.
pub open spec fn solutions(n: nat, qs: Seq<Queen>) -> Seq<Seq<Queen>>
    decreases n - qs.len(), n + 1,
{
    if qs.len() >= n {
        seq![qs]
    } else {
        solutions_rows(n, qs, n as int)
    }
}

/// The solutions found after trying the rows `0..r` for the next queen.
pub open spec fn solutions_rows(n: nat, qs: Seq<Queen>, r: int) -> Seq<Seq<Queen>>
    decreases n - qs.len(), r,
{
    if r <= 0 || qs.len() >= n {
        Seq::empty()
    } else {
        let q = candidate(qs, r - 1);
        solutions_rows(n, qs, r - 1) + if !attacked_by_any(qs, q) {
            solutions(n, qs.push(q))
        } else {
            Seq::empty()
        }
    }
}

/// The number of candidate placements the solver examines starting from `qs`.
pub open spec fn count_nodes(n: nat, qs: Seq<Queen>) -> nat
    decreases n - qs.len(), n + 1,
{
    if qs.len() >= n {
        0
    } else {
        count_nodes_rows(n, qs, n as int)
    }
}

/// The candidate placements examined after trying the rows `0..r` for the next queen.
pub open spec fn count_nodes_rows(n: nat, qs: Seq<Queen>, r: int) -> nat
    decreases n - qs.len(), r,
{
    if r <= 0 || qs.len() >= n {
        0
    } else {
        let q = candidate(qs, r - 1);
        count_nodes_rows(n, qs, r - 1) + 1 + if !attacked_by_any(qs, q) {
            count_nodes(n, qs.push(q))
        } else {
            0
        }
    }
}

/// The queens of each board, in order.
pub open spec fn boards_view<const BOARD_SIZE: u8>(v: Seq<QueensBoard<BOARD_SIZE>>) -> Seq<Seq<Queen>> {
    v.map_values(|b: QueensBoard<BOARD_SIZE>| b@)
}

proof fn lemma_count_nodes_rows_monotonic(n: nat, qs: Seq<Queen>, r1: int, r2: int)
    requires r1 <= r2,
    ensures count_nodes_rows(n, qs, r1) <= count_nodes_rows(n, qs, r2),
    decreases r2 - r1,
{
    if r1 < r2 {
        lemma_count_nodes_rows_monotonic(n, qs, r1, r2 - 1);
    }
}

fn any_attacks(queens: &VecDeque<Queen>, q: &Queen) -> (r: bool)
    ensures r == attacked_by_any(queens@, *q),
{
    let mut i: usize = 0;
    while i < queens.len()
        invariant
            i <= queens@.len(),
            forall|j: int| 0 <= j < i ==> !attacks(queens@[j], *q),
        decreases queens@.len() - i,
    {
        if queens[i].can_attack(q) {
            assert(attacks(queens@[i as int], *q));
            return true;
        }
        i = i + 1;
    }
    false
}

/// Backtracking search for every completion of `queens_board`.
/// Returns the number of candidate placements examined and the full boards found.
pub fn try_solve_low_mem_serial_proc<const BOARD_SIZE: u8>(
    queens_board: &mut QueensBoard<BOARD_SIZE>,
) -> (r: (u128, Vec<QueensBoard<BOARD_SIZE>>))
    requires
        count_nodes(BOARD_SIZE as nat, old(queens_board)@) <= u128::MAX,
    ensures
        final(queens_board)@ == old(queens_board)@,
        r.0 == count_nodes(BOARD_SIZE as nat, old(queens_board)@),
        boards_view(r.1@) == solutions(BOARD_SIZE as nat, old(queens_board)@),
    decreases BOARD_SIZE - old(queens_board)@.len(),
{
    let ghost n = BOARD_SIZE as nat;
    let ghost qs = queens_board@;
    let mut res: Vec<QueensBoard<BOARD_SIZE>> = Vec::new();
    let mut nodes: u128 = 0;
    if queens_board.is_full() {
        res.push(queens_board.clone());
        assert(boards_view(res@) =~= seq![qs]);
    } else {
        let mut new_queen = Queen { col: queens_board.get_queens().len() as u8, row: 0 };
        let mut row: u8 = 0;
        while row < BOARD_SIZE
            invariant
                n == BOARD_SIZE as nat,
                qs.len() < n,
                queens_board@ == qs,
                old(queens_board)@ == qs,
                new_queen.col == qs.len(),
                row <= BOARD_SIZE,
                nodes == count_nodes_rows(n, qs, row as int),
                boards_view(res@) == solutions_rows(n, qs, row as int),
                count_nodes(n, qs) <= u128::MAX,
            decreases BOARD_SIZE - row,
        {
            new_queen.row = row;
            let ghost q = candidate(qs, row as int);
            assert(new_queen == q);
            proof {
                lemma_count_nodes_rows_monotonic(n, qs, row + 1, n as int);
            }
            nodes = nodes + 1;
            if !any_attacks(queens_board.get_queens(), &new_queen) {
                queens_board.push_queen_unchecked(new_queen);
                assert(queens_board@.len() == qs.len() + 1);
                let (other_nodes, mut reses) = try_solve_low_mem_serial_proc(queens_board);
                nodes = nodes + other_nodes;
                let ghost before = res@;
                res.append(&mut reses);
                assert(boards_view(res@) =~= boards_view(before) + solutions(n, qs.push(q)));
                new_queen = queens_board.pop_queen().unwrap();
                assert(queens_board@ =~= qs);
            } else {
                assert(boards_view(res@) =~= solutions_rows(n, qs, row + 1));
            }
            row = row + 1;
        }
    }
    (nodes, res)
}

}

verus! {

/// Queen `j` of `s` stands in column `j`, on one of the `n` rows, and no
/// queen before it attacks it.
pub open spec fn safe_step(n: nat, s: Seq<Queen>, j: int) -> bool {
    &&& s[j].col == j
    &&& s[j].row < n
    &&& !attacked_by_any(s.take(j), s[j])
}

/// `s` is what the search can reach from `qs`: `qs` itself once it holds
/// `n` queens or more, else a board of `n` queens that starts with `qs` and
/// whose further queens are all safe steps.
pub open spec fn is_completion(n: nat, qs: Seq<Queen>, s: Seq<Queen>) -> bool {
    if qs.len() >= n {
        s == qs
    } else {
        &&& s.len() == n
        &&& s.take(qs.len() as int) == qs
        &&& forall|j: int| qs.len() <= j < n ==> #[trigger] safe_step(n, s, j)
    }
}

/// No two queens of `qs` attack each other.
pub open spec fn no_two_attack(qs: Seq<Queen>) -> bool {
    forall|i: int, j: int| 0 <= i < j < qs.len() ==> !attacks(#[trigger] qs[i], #[trigger] qs[j])
}

proof fn lemma_sound_rows(n: nat, qs: Seq<Queen>, r: int)
    requires
        n <= 255,
        qs.len() < n,
        r <= n,
    ensures
        forall|i: int| 0 <= i < solutions_rows(n, qs, r).len() ==> {
            let s = #[trigger] solutions_rows(n, qs, r)[i];
            &&& is_completion(n, qs, s)
            &&& s[qs.len() as int].row < r
        },
    decreases n - qs.len(), r,
{
    if r > 0 {
        lemma_sound_rows(n, qs, r - 1);
        let q = candidate(qs, r - 1);
        if !attacked_by_any(qs, q) {
            let qs2 = qs.push(q);
            lemma_sound(n, qs2);
            let a = solutions_rows(n, qs, r - 1);
            let b = solutions(n, qs2);
            assert forall|i: int| 0 <= i < b.len() implies {
                let s = #[trigger] b[i];
                &&& is_completion(n, qs, s)
                &&& s[qs.len() as int].row < r
            } by {
                let s = b[i];
                assert(is_completion(n, qs2, s));
                assert(s.len() == n);
                assert(s.take(qs2.len() as int) == qs2);
                assert(s[qs.len() as int] == s.take(qs2.len() as int)[qs.len() as int]);
                assert(s.take(qs.len() as int) =~= qs2.take(qs.len() as int));
                assert(qs2.take(qs.len() as int) =~= qs);
                assert forall|j: int| qs.len() <= j < n implies #[trigger] safe_step(n, s, j) by {
                    if j == qs.len() {
                        assert(s[j] == q);
                    }
                }
            }
            assert(solutions_rows(n, qs, r) =~= a + b);
        }
    }
}

/// Every board the search returns is a completion of the board it started from.
pub proof fn lemma_sound(n: nat, qs: Seq<Queen>)
    requires
        n <= 255,
    ensures
        forall|i: int| 0 <= i < solutions(n, qs).len() ==>
            is_completion(n, qs, #[trigger] solutions(n, qs)[i]),
    decreases n - qs.len(), n + 1,
{
    if qs.len() < n {
        lemma_sound_rows(n, qs, n as int);
        assert(solutions(n, qs) == solutions_rows(n, qs, n as int));
    } else {
        assert(solutions(n, qs) =~= seq![qs]);
    }
}

proof fn lemma_complete_rows(n: nat, qs: Seq<Queen>, r: int, s: Seq<Queen>)
    requires
        n <= 255,
        qs.len() < n,
        r <= n,
        is_completion(n, qs, s),
        s[qs.len() as int].row < r,
    ensures
        solutions_rows(n, qs, r).contains(s),
    decreases n - qs.len(), r,
{
    let k = qs.len() as int;
    let q = candidate(qs, r - 1);
    let a = solutions_rows(n, qs, r - 1);
    assert(safe_step(n, s, k));
    if s[k].row == r - 1 {
        assert(s[k] == q);
        assert(s.take(k) == qs);
        assert(!attacked_by_any(qs, q));
        let qs2 = qs.push(q);
        assert(s.take(k + 1) =~= qs2) by {
            assert forall|j: int| 0 <= j < k + 1 implies s.take(k + 1)[j] == qs2[j] by {
                if j < k {
                    assert(s.take(k)[j] == s[j]);
                }
            }
        }
        if qs2.len() >= n {
            assert(s =~= qs2);
            assert(solutions(n, qs2) =~= seq![qs2]);
            assert(solutions(n, qs2)[0] == s);
        } else {
            assert(is_completion(n, qs2, s));
            lemma_complete(n, qs2, s);
        }
        let b = solutions(n, qs2);
        let idx = choose|i: int| 0 <= i < b.len() && b[i] == s;
        assert(solutions_rows(n, qs, r) =~= a + b);
        assert((a + b)[a.len() + idx] == s);
    } else {
        lemma_complete_rows(n, qs, r - 1, s);
        let idx = choose|i: int| 0 <= i < a.len() && a[i] == s;
        if !attacked_by_any(qs, q) {
            assert(solutions_rows(n, qs, r) =~= a + solutions(n, qs.push(q)));
        } else {
            assert(solutions_rows(n, qs, r) =~= a);
        }
        assert(solutions_rows(n, qs, r)[idx] == s);
    }
}

/// Every completion of a board is among the boards the search returns.
pub proof fn lemma_complete(n: nat, qs: Seq<Queen>, s: Seq<Queen>)
    requires
        n <= 255,
        is_completion(n, qs, s),
    ensures
        solutions(n, qs).contains(s),
    decreases n - qs.len(), n + 1,
{
    if qs.len() >= n {
        assert(solutions(n, qs)[0] == s);
    } else {
        assert(safe_step(n, s, qs.len() as int));
        lemma_complete_rows(n, qs, n as int, s);
    }
}

/// Starting from a board on which no two queens attack each other, every
/// board the search returns has no two queens attacking each other either.
pub proof fn lemma_solutions_no_two_attack(n: nat, qs: Seq<Queen>)
    requires
        n <= 255,
        no_two_attack(qs),
    ensures
        forall|i: int| 0 <= i < solutions(n, qs).len() ==>
            no_two_attack(#[trigger] solutions(n, qs)[i]),
{
    lemma_sound(n, qs);
    assert forall|i: int| 0 <= i < solutions(n, qs).len() implies
        no_two_attack(#[trigger] solutions(n, qs)[i]) by {
        let s = solutions(n, qs)[i];
        assert(is_completion(n, qs, s));
        if qs.len() < n {
            assert forall|a: int, b: int| 0 <= a < b < s.len() implies
                !attacks(#[trigger] s[a], #[trigger] s[b]) by {
                if b < qs.len() {
                    assert(s[a] == s.take(qs.len() as int)[a]);
                    assert(s[b] == s.take(qs.len() as int)[b]);
                } else {
                    assert(safe_step(n, s, b));
                    assert(s.take(b)[a] == s[a]);
                }
            }
        }
    }
}

/// The board that a chain of queens stands for, the newest queen first: its
/// queens are pushed in that order, as long as the board has room.
pub fn linked_to_board<const BOARD_SIZE: u8>(chain: &Vec<Queen>) -> (r: QueensBoard<BOARD_SIZE>)
    ensures
        r@ == chain@.take(if chain@.len() < BOARD_SIZE { chain@.len() as int } else { BOARD_SIZE as int }),
{
    let mut board = QueensBoard::<BOARD_SIZE>::new();
    let mut i: usize = 0;
    while i < chain.len()
        invariant
            i <= chain@.len(),
            board@ == chain@.take(if i < BOARD_SIZE { i as int } else { BOARD_SIZE as int }),
        decreases chain@.len() - i,
    {
        let _ = board.try_push_queen(chain[i]);
        assert(chain@.take(i + 1).drop_last() =~= chain@.take(i as int));
        i = i + 1;
    }
    board
}

/// Whether some queen of the chain attacks `new_queen`.
pub fn is_attacked_by_chain(chain: &Vec<Queen>, new_queen: &Queen) -> (r: bool)
    ensures
        r == attacked_by_any(chain@, *new_queen),
{
    let mut is_attacked = false;
    let mut i: usize = 0;
    while i < chain.len()
        invariant_except_break
            !is_attacked,
        invariant
            i <= chain@.len(),
            forall|j: int| 0 <= j < i ==> !attacks(chain@[j], *new_queen),
        ensures
            is_attacked == attacked_by_any(chain@, *new_queen),
        decreases chain@.len() - i,
    {
        is_attacked = is_attacked || chain[i].can_attack(new_queen);
        if is_attacked {
            assert(attacks(chain@[i as int], *new_queen));
            break;
        }
        i = i + 1;
    }
    is_attacked
}

/// Popping right after pushing a queen gives that queen back and leaves the
/// board as it was before the push.
pub proof fn lemma_pop_undoes_push(qs: Seq<Queen>, q: Queen)
    ensures
        qs.push(q).len() > 0,
        qs.push(q).last() == q,
        qs.push(q).drop_last() == qs,
{
    assert(qs.push(q).drop_last() =~= qs);
}

/// An upper bound on the candidates examined with `k` columns still to fill
/// on a board of side `n`: each column tries `n` rows, each of which may
/// open a search of the remaining columns.
pub open spec fn nodes_bound(n: nat, k: int) -> nat
    decreases k,
{
    if k <= 0 {
        0
    } else {
        n + n * nodes_bound(n, k - 1)
    }
}

proof fn lemma_count_nodes_rows_bound(n: nat, qs: Seq<Queen>, r: int)
    requires
        qs.len() < n,
        0 <= r <= n,
    ensures
        count_nodes_rows(n, qs, r) <= r * (1 + nodes_bound(n, n - qs.len() - 1)),
    decreases n - qs.len(), r,
{
    if r > 0 {
        lemma_count_nodes_rows_bound(n, qs, r - 1);
        let q = candidate(qs, r - 1);
        if !attacked_by_any(qs, q) {
            lemma_count_nodes_bound(n, qs.push(q));
        }
        assert(r * (1 + nodes_bound(n, n - qs.len() - 1)) == (r - 1) * (1 + nodes_bound(n, n - qs.len() - 1))
            + (1 + nodes_bound(n, n - qs.len() - 1))) by (nonlinear_arith);
    }
}

/// The search from `qs` examines at most `nodes_bound(n, n - qs.len())`
/// candidates; a caller can evaluate this bound to meet the `requires` of
/// `try_solve_low_mem_serial_proc`.
pub proof fn lemma_count_nodes_bound(n: nat, qs: Seq<Queen>)
    ensures
        count_nodes(n, qs) <= nodes_bound(n, n - qs.len()),
    decreases n - qs.len(), n + 1,
{
    if qs.len() < n {
        lemma_count_nodes_rows_bound(n, qs, n as int);
        assert(n * (1 + nodes_bound(n, n - qs.len() - 1)) == n + n * nodes_bound(n, n - qs.len() - 1))
            by (nonlinear_arith);
    }
}

/// Two queens attack each other exactly when they share a row, a column, or
/// one of the two diagonals (the column distance equals the row distance,
/// whichever queen is to the left or above); and attack is symmetric.
pub proof fn lemma_attacks_rows_cols_diagonals(a: Queen, b: Queen)
    ensures
        attacks(a, b) <==> (a.row == b.row || a.col == b.col || (a.col as int) - (b.col as int)
            == (a.row as int) - (b.row as int) || (a.col as int) - (b.col as int) == (b.row as int)
            - (a.row as int)),
        attacks(a, b) == attacks(b, a),
{
}

proof fn lemma_drawn_line(n: nat, qs: Seq<Queen>, col: int, k: int)
    requires
        0 <= k,
    ensures
        drawn_line(n, qs, col, k).len() == 2 * k,
        forall|j: int| 0 <= j < 2 * k ==> #[trigger] drawn_line(n, qs, col, k)[j] == cell_char(n, qs, col, j / 2),
    decreases k,
{
    if k > 0 {
        lemma_drawn_line(n, qs, col, k - 1);
        let prev = drawn_line(n, qs, col, k - 1);
        let c = cell_char(n, qs, col, k - 1);
        assert(drawn_line(n, qs, col, k) == prev + seq![c, c]);
        assert forall|j: int| 0 <= j < 2 * k implies #[trigger] drawn_line(n, qs, col, k)[j] == cell_char(n, qs, col, j / 2) by {
            if j >= 2 * (k - 1) {
                assert(j / 2 == k - 1);
            }
        }
    }
}

proof fn lemma_drawn_lines(n: nat, qs: Seq<Queen>, k: int)
    requires
        0 <= k,
    ensures
        drawn_lines(n, qs, k).len() == k * (2 * n + 1),
        forall|c: int, j: int| 0 <= c < k && 0 <= j < 2 * n ==>
            #[trigger] drawn_lines(n, qs, k)[c * (2 * n + 1) + j] == cell_char(n, qs, c, j / 2),
        forall|c: int| 0 <= c < k ==> #[trigger] drawn_lines(n, qs, k)[c * (2 * n + 1) + 2 * n] == '\n',
    decreases k,
{
    if k > 0 {
        lemma_drawn_lines(n, qs, k - 1);
        lemma_drawn_line(n, qs, k - 1, n as int);
        let w = 2 * n + 1;
        let prev = drawn_lines(n, qs, k - 1);
        let line = drawn_line(n, qs, k - 1, n as int);
        assert(drawn_lines(n, qs, k) == prev + line + seq!['\n']);
        assert(k * w == (k - 1) * w + w) by (nonlinear_arith);
        assert(drawn_lines(n, qs, k).len() == (k - 1) * w + w);
        assert forall|c: int, j: int| 0 <= c < k && 0 <= j < 2 * n implies
            #[trigger] drawn_lines(n, qs, k)[c * (2 * n + 1) + j] == cell_char(n, qs, c, j / 2) by {
            if c < k - 1 {
                assert(c * w + j < (k - 1) * w) by (nonlinear_arith)
                    requires c < k - 1, 0 <= j < 2 * n, w == 2 * n + 1, 0 <= c;
                assert(c * w + j >= 0) by (nonlinear_arith)
                    requires 0 <= j, w >= 1, 0 <= c;
            } else {
                assert(c * w == (k - 1) * w);
            }
        }
        assert forall|c: int| 0 <= c < k implies #[trigger] drawn_lines(n, qs, k)[c * (2 * n + 1) + 2 * n] == '\n' by {
            if c < k - 1 {
                assert(c * w + 2 * n < (k - 1) * w) by (nonlinear_arith)
                    requires c < k - 1, w == 2 * n + 1, 0 <= c;
                assert(c * w + 2 * n >= 0) by (nonlinear_arith)
                    requires w >= 1, 0 <= c;
            } else {
                assert(c * w == (k - 1) * w);
            }
        }
    } else {
        assert(k * (2 * n + 1) == 0) by (nonlinear_arith)
            requires k == 0;
    }
}

/// Where cell (`c`, `r`) of a board of side `n` starts in its drawing.
pub open spec fn cell_pos(n: nat, c: int, r: int) -> int {
    c * (2 * n + 1) + 2 * r
}

/// Where line `c` of the drawing of a board of side `n` ends (its newline).
pub open spec fn line_end_pos(n: nat, c: int) -> int {
    c * (2 * n + 1) + 2 * n
}

/// The drawing of a board of side `n`: `n` lines of `2 * n` characters, each
/// ended by a newline; line `c` shows cells (`c`, 0) .. (`c`, n - 1), two
/// characters each. Every queen of the board inside it is shown as `QQ` in its
/// cell; a cell that no queen's position in the table reaches shows the
/// checkerboard: light when `c + r` is even, dark when odd.
pub proof fn lemma_drawing_shows_board(n: nat, qs: Seq<Queen>)
    ensures
        drawn_lines(n, qs, n as int).len() == n * (2 * n + 1),
        forall|c: int| 0 <= c < n ==> drawn_lines(n, qs, n as int)[#[trigger] line_end_pos(n, c)] == '\n',
        forall|i: int| 0 <= i < qs.len() && qs[i].col < n && qs[i].row < n ==> {
            &&& drawn_lines(n, qs, n as int)[cell_pos(n, (#[trigger] qs[i]).col as int, qs[i].row as int)] == 'Q'
            &&& drawn_lines(n, qs, n as int)[cell_pos(n, qs[i].col as int, qs[i].row as int) + 1] == 'Q'
        },
        forall|c: int, r: int|
            0 <= c < n && 0 <= r < n && (forall|i: int| 0 <= i < qs.len() ==>
                (qs[i].col as int) * n + (qs[i].row as int) != c * n + r) ==> {
                &&& drawn_lines(n, qs, n as int)[#[trigger] cell_pos(n, c, r)]
                    == (if (c + r) % 2 == 0 { '\u{2591}' } else { '\u{2588}' })
                &&& drawn_lines(n, qs, n as int)[cell_pos(n, c, r) + 1]
                    == (if (c + r) % 2 == 0 { '\u{2591}' } else { '\u{2588}' })
            },
{
    lemma_drawn_lines(n, qs, n as int);
    let d = drawn_lines(n, qs, n as int);
    assert forall|c: int| 0 <= c < n implies d[#[trigger] line_end_pos(n, c)] == '\n' by {
        assert(d[c * (2 * n + 1) + 2 * n] == '\n');
    }
    assert forall|i: int| 0 <= i < qs.len() && qs[i].col < n && qs[i].row < n implies {
        &&& d[cell_pos(n, (#[trigger] qs[i]).col as int, qs[i].row as int)] == 'Q'
        &&& d[cell_pos(n, qs[i].col as int, qs[i].row as int) + 1] == 'Q'
    } by {
        let c = qs[i].col as int;
        let r = qs[i].row as int;
        assert(queen_at(n, qs, cell_index(n, c, r)));
        assert(d[c * (2 * n + 1) + 2 * r] == cell_char(n, qs, c, (2 * r) / 2));
        assert(d[c * (2 * n + 1) + (2 * r + 1)] == cell_char(n, qs, c, (2 * r + 1) / 2));
    }
    assert forall|c: int, r: int|
        0 <= c < n && 0 <= r < n && (forall|i: int| 0 <= i < qs.len() ==>
            (qs[i].col as int) * n + (qs[i].row as int) != c * n + r) implies {
            &&& d[#[trigger] cell_pos(n, c, r)] == (if (c + r) % 2 == 0 { '\u{2591}' } else { '\u{2588}' })
            &&& d[cell_pos(n, c, r) + 1] == (if (c + r) % 2 == 0 { '\u{2591}' } else { '\u{2588}' })
        } by {
        assert(!queen_at(n, qs, cell_index(n, c, r)));
        assert(d[c * (2 * n + 1) + 2 * r] == cell_char(n, qs, c, (2 * r) / 2));
        assert(d[c * (2 * n + 1) + (2 * r + 1)] == cell_char(n, qs, c, (2 * r + 1) / 2));
    }
}

}
