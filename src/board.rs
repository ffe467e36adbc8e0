//! The 9x9 grid and the solver that works on it.
use vstd::prelude::*;
use vstd::string::StringSliceAdditionalSpecFns;
use crate::cell::Cell;
use vstd::utf8::encode_utf8;
use crate::options::{digit_text, digits, is_digit, lemma_nine_digits, single_digit, CellOptions};
use crate::text::{append_str, builder_bytes, finish, lemma_encode_concat, new_builder};

verus! {

/// Row-major position of the cell in row `r`, column `c`.
pub open spec fn idx(r: int, c: int) -> int {
    r * 9 + c
}

pub open spec fn row_of(i: int) -> int {
    i / 9
}

pub open spec fn col_of(i: int) -> int {
    i % 9
}

/// Cells `i` and `j` lie in the same 3x3 box.
pub open spec fn same_box(i: int, j: int) -> bool {
    row_of(i) / 3 == row_of(j) / 3 && col_of(i) / 3 == col_of(j) / 3
}

/// Cell `j` shares a row, a column or a box with cell `i`, and is not `i` itself.
pub open spec fn is_peer(i: int, j: int) -> bool {
    i != j && (row_of(i) == row_of(j) || col_of(i) == col_of(j) || same_box(i, j))
}

/// No unassigned peer of cell `i` still has `i`'s digit as a candidate.
pub open spec fn prop_ok(g: Seq<Cell>, i: int) -> bool {
    forall|j: int|
        0 <= j < 81 && is_peer(i, j) && !(#[trigger] g[j]).assigned() ==> !g[j].candidates().contains(
            g[i].value(),
        )
}

/// Cell `i` is assigned and its digit has not yet been removed from all its peers.
pub open spec fn pending(g: Seq<Cell>, i: int) -> bool {
    g[i].assigned() && !prop_ok(g, i)
}

/// No unassigned cell is left with a single candidate.
pub open spec fn settled(g: Seq<Cell>) -> bool {
    forall|j: int| 0 <= j < 81 && !(#[trigger] g[j]).assigned() ==> !single_digit(g[j].candidates())
}

/// Nothing is left for the cascade to do: every assigned digit has been removed from the
/// peers, and no unassigned cell is down to one candidate.
pub open spec fn quiescent(g: Seq<Cell>) -> bool {
    &&& settled(g)
    &&& forall|i: int| 0 <= i < 81 && (#[trigger] g[i]).assigned() ==> prop_ok(g, i)
}

/// `b` is reached from `a` by solving steps: assigned cells keep their digit and
/// candidate sets only shrink.
pub open spec fn grows(a: Seq<Cell>, b: Seq<Cell>) -> bool {
    &&& a.len() == b.len()
    &&& forall|j: int|
        0 <= j < a.len() ==> (a[j].assigned() ==> #[trigger] b[j] == a[j]) && b[j].candidates().subset_of(
            a[j].candidates(),
        )
}

/// Every cell unassigned, with every digit possible.
pub open spec fn blank(g: Seq<Cell>) -> bool {
    &&& g.len() == 81
    &&& forall|j: int| 0 <= j < 81 ==> (#[trigger] g[j]).value() == ' ' && g[j].candidates() == digits()
}

/// Every cell assigned.
pub open spec fn all_assigned(g: Seq<Cell>) -> bool {
    forall|j: int| 0 <= j < 81 ==> (#[trigger] g[j]).assigned()
}

/// The number of unassigned cells.
pub open spec fn n_unassigned(g: Seq<Cell>) -> nat
    decreases g.len(),
{
    if g.len() == 0 {
        0
    } else {
        n_unassigned(g.drop_last()) + if g.last().assigned() {
            0nat
        } else {
            1nat
        }
    }
}

/// Replacing one cell changes the count by that cell alone.
pub proof fn lemma_count_update(g: Seq<Cell>, j: int, x: Cell)
    requires
        0 <= j < g.len(),
    ensures
        n_unassigned(g.update(j, x)) + (if g[j].assigned() { 0int } else { 1int }) == n_unassigned(g)
            + (if x.assigned() { 0int } else { 1int }),
    decreases g.len(),
{
    let u = g.update(j, x);
    if j == g.len() - 1 {
        assert(u.drop_last() =~= g.drop_last());
    } else {
        assert(u.drop_last() =~= g.drop_last().update(j, x));
        lemma_count_update(g.drop_last(), j, x);
    }
}

/// Solving steps never raise the number of unassigned cells.
pub proof fn lemma_grows_count(a: Seq<Cell>, b: Seq<Cell>)
    requires
        grows(a, b),
    ensures
        n_unassigned(b) <= n_unassigned(a),
    decreases a.len(),
{
    if a.len() > 0 {
        assert(grows(a.drop_last(), b.drop_last())) by {
            assert forall|j: int| 0 <= j < a.len() - 1 implies (a.drop_last()[j].assigned()
                ==> #[trigger] b.drop_last()[j] == a.drop_last()[j]) && b.drop_last()[j].candidates().subset_of(
                a.drop_last()[j].candidates(),
            ) by {
                assert(a.drop_last()[j] == a[j]);
                assert(b.drop_last()[j] == b[j]);
            }
        }
        lemma_grows_count(a.drop_last(), b.drop_last());
        assert(a.last() == a[a.len() - 1]);
        assert(b.last() == b[b.len() - 1]);
    }
}

/// A digit set of nine is not a single digit.
proof fn lemma_digits_not_single()
    ensures
        !single_digit(digits()),
{
    if single_digit(digits()) {
        let d = choose|d: char| is_digit(d) && digits() == set![d];
        assert(digits().contains('1'));
        assert(digits().contains('2'));
        assert(set![d].contains('1'));
    }
}

/// Row and column read back from a row-major position.
pub proof fn lemma_idx(r: int, c: int)
    requires
        0 <= r < 9,
        0 <= c < 9,
    ensures
        0 <= idx(r, c) < 81,
        row_of(idx(r, c)) == r,
        col_of(idx(r, c)) == c,
{
    assert((r * 9 + c) / 9 == r && (r * 9 + c) % 9 == c) by (nonlinear_arith)
        requires
            0 <= r < 9,
            0 <= c < 9,
    ;
}

/// A position is rebuilt from its row and column.
pub proof fn lemma_pos_parts(j: int)
    requires
        0 <= j < 81,
    ensures
        j == idx(row_of(j), col_of(j)),
        0 <= row_of(j) < 9,
        0 <= col_of(j) < 9,
{
}

/// The `k`-th cell of the box of (`row`, `col`), counted in row-major order within the box.
pub proof fn lemma_box_cell(row: int, col: int, k: int)
    requires
        0 <= row < 9,
        0 <= col < 9,
        0 <= k < 9,
    ensures
        0 <= row - row % 3 + k / 3 < 9,
        0 <= col - col % 3 + k % 3 < 9,
        (row - row % 3 + k / 3) / 3 == row / 3,
        (col - col % 3 + k % 3) / 3 == col / 3,
{
}

/// Every cell of the box of (`row`, `col`) is reached by some `k` below 9.
pub proof fn lemma_box_cover(row: int, col: int, j: int)
    requires
        0 <= row < 9,
        0 <= col < 9,
        0 <= j < 81,
        row_of(j) / 3 == row / 3,
        col_of(j) / 3 == col / 3,
    ensures
        ({
            let k = (row_of(j) - (row - row % 3)) * 3 + (col_of(j) - (col - col % 3));
            &&& 0 <= k < 9
            &&& j == idx(row - row % 3 + k / 3, col - col % 3 + k % 3)
        }),
{
    lemma_pos_parts(j);
}

/// Solving steps compose.
pub proof fn lemma_grows_trans(a: Seq<Cell>, b: Seq<Cell>, c: Seq<Cell>)
    requires
        grows(a, b),
        grows(b, c),
    ensures
        grows(a, c),
{
    assert forall|j: int| 0 <= j < a.len() implies (a[j].assigned() ==> #[trigger] c[j] == a[j])
        && c[j].candidates().subset_of(a[j].candidates()) by {
        assert(b[j] == a[j] || !a[j].assigned());
        assert(b[j].candidates().subset_of(a[j].candidates()));
        assert(c[j] == b[j] || !b[j].assigned());
        assert(c[j].candidates().subset_of(b[j].candidates()));
    }
}

/// The candidates of cell `i` that no unassigned cell among the first `m` of its row,
/// other than `i`, also has.
pub open spec fn row_ded_upto(g: Seq<Cell>, i: int, m: int) -> Set<char> {
    g[i].candidates().filter(
        |d: char|
            forall|k: int|
                0 <= k < m && k != col_of(i) && !(#[trigger] g[idx(row_of(i), k)]).assigned()
                    ==> !g[idx(row_of(i), k)].candidates().contains(d),
    )
}

/// The candidates of cell `i` that no unassigned cell among the first `m` of its column,
/// other than `i`, also has.
pub open spec fn col_ded_upto(g: Seq<Cell>, i: int, m: int) -> Set<char> {
    g[i].candidates().filter(
        |d: char|
            forall|k: int|
                0 <= k < m && k != row_of(i) && !(#[trigger] g[idx(k, col_of(i))]).assigned()
                    ==> !g[idx(k, col_of(i))].candidates().contains(d),
    )
}

/// The `k`-th cell, in row-major order, of the box that holds cell `i`.
pub open spec fn box_cell(i: int, k: int) -> int {
    idx(row_of(i) - row_of(i) % 3 + k / 3, col_of(i) - col_of(i) % 3 + k % 3)
}

/// The candidates of cell `i` that no unassigned cell among the first `m` of its box,
/// other than `i`, also has.
pub open spec fn box_ded_upto(g: Seq<Cell>, i: int, m: int) -> Set<char> {
    g[i].candidates().filter(
        |d: char|
            forall|k: int|
                0 <= k < m && box_cell(i, k) != i && !(#[trigger] g[box_cell(i, k)]).assigned()
                    ==> !g[box_cell(i, k)].candidates().contains(d),
    )
}

/// Row deduction: the candidates of cell `i` that no other unassigned cell of its row has.
pub open spec fn row_ded(g: Seq<Cell>, i: int) -> Set<char> {
    row_ded_upto(g, i, 9)
}

/// Column deduction: the candidates of cell `i` that no other unassigned cell of its column has.
pub open spec fn col_ded(g: Seq<Cell>, i: int) -> Set<char> {
    col_ded_upto(g, i, 9)
}

/// Box deduction: the candidates of cell `i` that no other unassigned cell of its box has.
pub open spec fn box_ded(g: Seq<Cell>, i: int) -> Set<char> {
    box_ded_upto(g, i, 9)
}

/// None of the three deductions leaves an unassigned cell with a single digit.
pub open spec fn stuck(g: Seq<Cell>) -> bool {
    forall|i: int|
        0 <= i < 81 && !(#[trigger] g[i]).assigned() ==> !single_digit(row_ded(g, i)) && !single_digit(
            col_ded(g, i),
        ) && !single_digit(box_ded(g, i))
}

/// The first `m` cells, in row-major order, are assigned or admit no deduction.
pub open spec fn stuck_upto(g: Seq<Cell>, m: int) -> bool {
    forall|i: int|
        0 <= i < m && !(#[trigger] g[i]).assigned() ==> !single_digit(row_ded(g, i)) && !single_digit(
            col_ded(g, i),
        ) && !single_digit(box_ded(g, i))
}

/// The cells that a puzzle text describes, one per relevant byte in order: a digit
/// '1' to '9' gives that digit, '*' a blank (`None`); every other byte is skipped.
/// Bytes of a multi-byte character are all 128 or more, so only ASCII characters count.
pub open spec fn tokens(s: Seq<u8>) -> Seq<Option<char>>
    decreases s.len(),
{
    if s.len() == 0 {
        seq![]
    } else {
        let t = tokens(s.drop_last());
        let b = s.last();
        if 49 <= b <= 57 {
            t.push(Some(b as char))
        } else if b == 42 {
            t.push(None)
        } else {
            t
        }
    }
}

/// The tokens of a prefix are a prefix of the tokens of a longer one.
pub proof fn lemma_tokens_prefix(s: Seq<u8>, i: int, j: int)
    requires
        0 <= i <= j <= s.len(),
    ensures
        tokens(s.subrange(0, i)).len() <= tokens(s.subrange(0, j)).len(),
        forall|k: int|
            0 <= k < tokens(s.subrange(0, i)).len() ==> tokens(s.subrange(0, j))[k] == #[trigger] tokens(
                s.subrange(0, i),
            )[k],
    decreases j - i,
{
    if i < j {
        lemma_tokens_prefix(s, i, j - 1);
        assert(s.subrange(0, j).drop_last() =~= s.subrange(0, j - 1));
    }
}

/// Grid `g` holds what the tokens `t` describe for its 81 cells: a digit where a token
/// gives one, and a blank with every candidate where it gives none.
pub open spec fn loaded(g: Seq<Cell>, t: Seq<Option<char>>) -> bool {
    &&& g.len() == 81
    &&& t.len() >= 81
    &&& forall|i: int|
        0 <= i < 81 ==> match #[trigger] t[i] {
            Some(d) => g[i].value() == d && g[i].candidates() == set![d],
            None => g[i].value() == ' ' && g[i].candidates() == digits(),
        }
}

/// The border line drawn above the grid, below it, and between bands of three rows.
pub open spec fn border() -> Seq<char> {
    let bar = seq!['+', '-', '-', '-', '-', '-', '-', '-'];
    bar + bar + bar + seq!['+', '\n']
}

/// The first `k` cells of row `r` as text: each character followed by a space, with
/// "| " before columns 0, 3 and 6.
pub open spec fn row_text_upto(g: Seq<Cell>, r: int, k: int) -> Seq<char>
    decreases k,
{
    if k <= 0 {
        seq![]
    } else {
        row_text_upto(g, r, k - 1) + (if (k - 1) % 3 == 0 {
            seq!['|', ' ']
        } else {
            seq![]
        }) + seq![g[idx(r, k - 1)].value(), ' ']
    }
}

/// Row `r` as one line of text.
pub open spec fn row_text(g: Seq<Cell>, r: int) -> Seq<char> {
    row_text_upto(g, r, 9) + seq!['|', '\n']
}

/// The first `m` rows as text, with a border line before rows 0, 3 and 6.
pub open spec fn grid_text_upto(g: Seq<Cell>, m: int) -> Seq<char>
    decreases m,
{
    if m <= 0 {
        seq![]
    } else {
        grid_text_upto(g, m - 1) + (if (m - 1) % 3 == 0 {
            border()
        } else {
            seq![]
        }) + row_text(g, m - 1)
    }
}

/// The whole grid as text, closed by a border line.
pub open spec fn grid_text(g: Seq<Cell>) -> Seq<char> {
    grid_text_upto(g, 9) + border()
}

/// `sol` is a filled grid: a digit in each of the 81 cells, no two peers alike.
pub open spec fn valid_solution(sol: Seq<char>) -> bool {
    &&& sol.len() == 81
    &&& forall|i: int| 0 <= i < 81 ==> is_digit(#[trigger] sol[i])
    &&& forall|i: int, j: int|
        0 <= i < 81 && 0 <= j < 81 && is_peer(i, j) ==> #[trigger] sol[i] != #[trigger] sol[j]
}

/// Grid `g` allows the filled grid `sol`: each cell has `sol`'s digit among its candidates
/// (so an assigned cell holds that digit).
pub open spec fn admits(g: Seq<Cell>, sol: Seq<char>) -> bool {
    forall|j: int| 0 <= j < 81 ==> (#[trigger] g[j]).candidates().contains(sol[j])
}

/// Every solution that grid `a` allows, grid `b` allows too: going from `a` to `b` made
/// no guess.
pub open spec fn keeps(a: Seq<Cell>, b: Seq<Cell>) -> bool {
    forall|sol: Seq<char>| valid_solution(sol) && #[trigger] admits(a, sol) ==> admits(b, sol)
}

/// Ruling out guesses composes.
pub proof fn lemma_keeps_trans(a: Seq<Cell>, b: Seq<Cell>, c: Seq<Cell>)
    requires
        keeps(a, b),
        keeps(b, c),
    ensures
        keeps(a, c),
{
}

/// A deduction over a group of nine mutual peers is sound. If digit `d` is a candidate of
/// the unassigned cell `i` in the group and of no other unassigned cell of it, then every
/// solution that a grid with no pending cell allows puts `d` in cell `i`.
proof fn lemma_group_sound(
    g: Seq<Cell>,
    i: int,
    d: char,
    sol: Seq<char>,
    cells: spec_fn(int) -> int,
    ki: int,
)
    requires
        g.len() == 81,
        forall|j: int| 0 <= j < 81 ==> (#[trigger] g[j]).wf(),
        forall|j: int| 0 <= j < 81 ==> !pending(g, j),
        0 <= i < 81,
        !g[i].assigned(),
        is_digit(d),
        g[i].candidates().contains(d),
        valid_solution(sol),
        admits(g, sol),
        forall|k: int| 0 <= k < 9 ==> 0 <= #[trigger] cells(k) < 81,
        0 <= ki < 9,
        cells(ki) == i,
        forall|k1: int, k2: int|
            0 <= k1 < 9 && 0 <= k2 < 9 && k1 != k2 ==> is_peer(#[trigger] cells(k1), #[trigger] cells(k2)),
        forall|k: int|
            0 <= k < 9 && #[trigger] cells(k) != i && !g[cells(k)].assigned() ==> !g[cells(
                k,
            )].candidates().contains(d),
    ensures
        sol[i] == d,
{
    let s = Seq::new(9, |k: int| sol[cells(k)]);
    assert forall|k1: int, k2: int| 0 <= k1 < s.len() && 0 <= k2 < s.len() && k1 != k2 implies s[k1]
        != s[k2] by {
        assert(is_peer(cells(k1), cells(k2)));
        assert(sol[cells(k1)] != sol[cells(k2)]);
    }
    assert(s.no_duplicates());
    assert forall|k: int| 0 <= k < 9 implies is_digit(#[trigger] s[k]) by {
        assert(is_digit(sol[cells(k)]));
    }
    lemma_nine_digits(s, d);
    let k = choose|k: int| 0 <= k < s.len() && s[k] == d;
    let j = cells(k);
    assert(sol[j] == d);
    if j != i {
        assert(is_peer(cells(k), cells(ki)));
        assert(g[j].candidates().contains(sol[j]));
        if g[j].assigned() {
            g[j].lemma_wf_parts();
            assert(g[j].value() == d);
            assert(!pending(g, j));
            assert(is_peer(j, i));
            assert(!g[i].candidates().contains(g[j].value()));
        }
    }
}

/// Removing the digit `chr` of the assigned cell `start` from `start` or from a peer of it
/// makes no guess.
proof fn lemma_keeps_step(a: Seq<Cell>, g: Seq<Cell>, g2: Seq<Cell>, j: int, chr: char, start: int)
    requires
        keeps(a, g),
        g.len() == 81,
        0 <= start < 81,
        0 <= j < 81,
        g[start].assigned(),
        g[start].candidates() == set![chr],
        g2 == g.update(j, g2[j]),
        g[j].assigned() ==> g2[j] == g[j],
        !g[j].assigned() ==> g2[j].candidates() == g[j].candidates().remove(chr),
        j == start || is_peer(start, j),
    ensures
        keeps(a, g2),
{
    assert forall|sol: Seq<char>| valid_solution(sol) && #[trigger] admits(a, sol) implies admits(
        g2,
        sol,
    ) by {
        assert(admits(g, sol));
        assert(g[start].candidates().contains(sol[start]));
        assert(sol[start] == chr);
        assert forall|k: int| 0 <= k < 81 implies (#[trigger] g2[k]).candidates().contains(sol[k]) by {
            assert(g[k].candidates().contains(sol[k]));
            if k == j && j != start {
                assert(sol[start] != sol[j]);
            }
        }
    }
}

/// The row deduction is sound.
proof fn lemma_row_sound(g: Seq<Cell>, i: int, d: char, sol: Seq<char>)
    requires
        g.len() == 81,
        forall|j: int| 0 <= j < 81 ==> (#[trigger] g[j]).wf(),
        forall|j: int| 0 <= j < 81 ==> !pending(g, j),
        0 <= i < 81,
        !g[i].assigned(),
        is_digit(d),
        valid_solution(sol),
        admits(g, sol),
        row_ded(g, i) == set![d],
    ensures
        sol[i] == d,
{
    lemma_pos_parts(i);
    let r = row_of(i);
    let c = col_of(i);
    assert(row_ded(g, i).contains(d));
    let cells = |k: int| idx(r, k);
    assert forall|k1: int, k2: int|
        0 <= k1 < 9 && 0 <= k2 < 9 && k1 != k2 implies is_peer(#[trigger] cells(k1), #[trigger] cells(k2)) by {
        lemma_idx(r, k1);
        lemma_idx(r, k2);
    }
    assert forall|k: int| 0 <= k < 9 implies 0 <= #[trigger] cells(k) < 81 by {
        lemma_idx(r, k);
    }
    lemma_group_sound(g, i, d, sol, cells, c);
}

/// The column deduction is sound.
proof fn lemma_col_sound(g: Seq<Cell>, i: int, d: char, sol: Seq<char>)
    requires
        g.len() == 81,
        forall|j: int| 0 <= j < 81 ==> (#[trigger] g[j]).wf(),
        forall|j: int| 0 <= j < 81 ==> !pending(g, j),
        0 <= i < 81,
        !g[i].assigned(),
        is_digit(d),
        valid_solution(sol),
        admits(g, sol),
        col_ded(g, i) == set![d],
    ensures
        sol[i] == d,
{
    lemma_pos_parts(i);
    let r = row_of(i);
    let c = col_of(i);
    assert(col_ded(g, i).contains(d));
    let cells = |k: int| idx(k, c);
    assert forall|k1: int, k2: int|
        0 <= k1 < 9 && 0 <= k2 < 9 && k1 != k2 implies is_peer(#[trigger] cells(k1), #[trigger] cells(k2)) by {
        lemma_idx(k1, c);
        lemma_idx(k2, c);
    }
    assert forall|k: int| 0 <= k < 9 implies 0 <= #[trigger] cells(k) < 81 by {
        lemma_idx(k, c);
    }
    lemma_group_sound(g, i, d, sol, cells, r);
}

/// The box deduction is sound.
proof fn lemma_box_sound(g: Seq<Cell>, i: int, d: char, sol: Seq<char>)
    requires
        g.len() == 81,
        forall|j: int| 0 <= j < 81 ==> (#[trigger] g[j]).wf(),
        forall|j: int| 0 <= j < 81 ==> !pending(g, j),
        0 <= i < 81,
        !g[i].assigned(),
        is_digit(d),
        valid_solution(sol),
        admits(g, sol),
        box_ded(g, i) == set![d],
    ensures
        sol[i] == d,
{
    lemma_pos_parts(i);
    let r = row_of(i);
    let c = col_of(i);
    assert(box_ded(g, i).contains(d));
    let cells = |k: int| box_cell(i, k);
    assert forall|k1: int, k2: int|
        0 <= k1 < 9 && 0 <= k2 < 9 && k1 != k2 implies is_peer(#[trigger] cells(k1), #[trigger] cells(k2)) by {
        lemma_box_cell(r, c, k1);
        lemma_box_cell(r, c, k2);
        lemma_idx(r - r % 3 + k1 / 3, c - c % 3 + k1 % 3);
        lemma_idx(r - r % 3 + k2 / 3, c - c % 3 + k2 % 3);
    }
    assert forall|k: int| 0 <= k < 9 implies 0 <= #[trigger] cells(k) < 81 by {
        lemma_box_cell(r, c, k);
        lemma_idx(r - r % 3 + k / 3, c - c % 3 + k % 3);
    }
    let ki = (r % 3) * 3 + c % 3;
    assert(cells(ki) == i);
    lemma_group_sound(g, i, d, sol, cells, ki);
}

/// The row, column and box deductions are sound: when one of them leaves the unassigned
/// cell `i` with the single digit `d`, every solution that a grid with no pending cell
/// allows puts `d` in cell `i`.
pub proof fn lemma_deduction_sound(g: Seq<Cell>, i: int, d: char, sol: Seq<char>)
    requires
        g.len() == 81,
        forall|j: int| 0 <= j < 81 ==> (#[trigger] g[j]).wf(),
        forall|j: int| 0 <= j < 81 ==> !pending(g, j),
        0 <= i < 81,
        !g[i].assigned(),
        is_digit(d),
        row_ded(g, i) == set![d] || col_ded(g, i) == set![d] || box_ded(g, i) == set![d],
        valid_solution(sol),
        admits(g, sol),
    ensures
        sol[i] == d,
{
    if row_ded(g, i) == set![d] {
        lemma_row_sound(g, i, d, sol);
    } else if col_ded(g, i) == set![d] {
        lemma_col_sound(g, i, d, sol);
    } else {
        lemma_box_sound(g, i, d, sol);
    }
}

/// After one cell of the work stack has spread its digit, a pending cell is still one that
/// was pending from the start or one that waits on the stack.
proof fn lemma_pending_after_spread(
    a: Seq<Cell>,
    start: int,
    g: Seq<Cell>,
    g2: Seq<Cell>,
    st: Seq<(usize, usize)>,
    s1: Seq<(usize, usize)>,
    s2: Seq<(usize, usize)>,
    top: (usize, usize),
)
    requires
        st.len() > 0,
        top == st[st.len() - 1],
        s1 == st.drop_last(),
        cascade_inv(g, g2, s1, s2),
        prop_ok(g2, pos(top)),
        forall|i: int|
            0 <= i < 81 && pending(g, i) ==> (pending(a, i) && i != start) || exists|k: int|
                0 <= k < st.len() && pos(#[trigger] st[k]) == i,
    ensures
        forall|i: int|
            0 <= i < 81 && pending(g2, i) ==> (pending(a, i) && i != start) || exists|k: int|
                0 <= k < s2.len() && pos(#[trigger] s2[k]) == i,
{
    let tp = pos(top);
    assert(s1.len() == st.len() - 1);
    assert forall|i: int| 0 <= i < 81 && pending(g2, i) implies (pending(a, i) && i != start)
        || exists|k: int| 0 <= k < s2.len() && pos(#[trigger] s2[k]) == i by {
        if g[i].assigned() {
            if prop_ok(g, i) {
                lemma_prop_stable(g, g2, i);
            }
            assert(pending(g, i));
            if !(pending(a, i) && i != start) {
                assert(pending(g, i));
                assert(exists|k: int| 0 <= k < st.len() && pos(#[trigger] st[k]) == i);
                let k = choose|k: int| 0 <= k < st.len() && pos(#[trigger] st[k]) == i;
                if k == st.len() - 1 {
                    assert(st[k] == top);
                    assert(prop_ok(g2, tp));
                } else {
                    assert(k < s1.len());
                    assert(s1[k] == st.drop_last()[k]);
                    assert(s2.subrange(0, s1.len() as int) == s1);
                    assert(s2.subrange(0, s1.len() as int)[k] == s2[k]);
                    assert(pos(s2[k]) == i);
                }
            }
        } else {
            let k = choose|k: int| s1.len() <= k < s2.len() && pos(#[trigger] s2[k]) == i;
        }
                }
}

/// Row-major position of a (row, column) pair.
pub open spec fn pos(p: (usize, usize)) -> int {
    idx(p.0 as int, p.1 as int)
}

/// What the cascade keeps while it works from grid `a` with work stack `s0` to grid `g`
/// with stack `s`: `g` follows from `a` by solving steps, `s` extends `s0` by cells that
/// were assigned on the way, every such cell is on it, and each push paid for itself by
/// one assignment.
pub open spec fn cascade_inv(
    a: Seq<Cell>,
    g: Seq<Cell>,
    s0: Seq<(usize, usize)>,
    s: Seq<(usize, usize)>,
) -> bool {
    &&& a.len() == 81
    &&& grows(a, g)
    &&& s.len() >= s0.len()
    &&& s.subrange(0, s0.len() as int) == s0
    &&& forall|k: int|
        s0.len() <= k < s.len() ==> (#[trigger] s[k]).0 < 9 && s[k].1 < 9 && g[pos(s[k])].assigned()
            && !a[pos(s[k])].assigned()
    &&& forall|i: int|
        0 <= i < 81 && (#[trigger] g[i]).assigned() && !a[i].assigned() ==> exists|k: int|
            s0.len() <= k < s.len() && pos(#[trigger] s[k]) == i
    &&& n_unassigned(g) + s.len() <= n_unassigned(a) + s0.len()
}

/// A cell that keeps its digit keeps having it removed from its peers as the grid grows.
pub proof fn lemma_prop_stable(a: Seq<Cell>, b: Seq<Cell>, i: int)
    requires
        a.len() == 81,
        grows(a, b),
        0 <= i < 81,
        a[i].assigned(),
        prop_ok(a, i),
    ensures
        prop_ok(b, i),
{
    assert forall|j: int|
        0 <= j < 81 && is_peer(i, j) && !(#[trigger] b[j]).assigned() implies !b[j].candidates().contains(
            b[i].value(),
        ) by {
        assert(b[i] == a[i]);
        if a[j].assigned() {
            assert(b[j] == a[j]);
        }
    }
}

/// One call of `propagate_apply` keeps the cascade's bookkeeping.
proof fn lemma_cascade_step(
    a: Seq<Cell>,
    g: Seq<Cell>,
    g2: Seq<Cell>,
    s0: Seq<(usize, usize)>,
    s: Seq<(usize, usize)>,
    s2: Seq<(usize, usize)>,
    p: (usize, usize),
    chr: char,
    r: bool,
)
    requires
        cascade_inv(a, g, s0, s),
        p.0 < 9,
        p.1 < 9,
        g2 == g.update(pos(p), g2[pos(p)]),
        g[pos(p)].assigned() ==> g2[pos(p)] == g[pos(p)] && !r,
        !g[pos(p)].assigned() ==> g2[pos(p)].candidates() == g[pos(p)].candidates().remove(chr) && r
            == g2[pos(p)].assigned(),
        s2 == (if r { s.push(p) } else { s }),
    ensures
        cascade_inv(a, g2, s0, s2),
{
    let j = pos(p);
    lemma_count_update(g, j, g2[j]);
    assert(grows(a, g2)) by {
        assert forall|i: int| 0 <= i < a.len() implies (a[i].assigned() ==> #[trigger] g2[i] == a[i])
            && g2[i].candidates().subset_of(a[i].candidates()) by {
            assert(g[i] == a[i] || !a[i].assigned());
            assert(g[i].candidates().subset_of(a[i].candidates()));
        }
    }
    assert(s2.subrange(0, s0.len() as int) =~= s0) by {
        assert(s.subrange(0, s0.len() as int) == s0);
    }
    assert forall|i: int|
        0 <= i < 81 && (#[trigger] g2[i]).assigned() && !a[i].assigned() implies exists|k: int|
        s0.len() <= k < s2.len() && pos(#[trigger] s2[k]) == i by {
        if i == j && r {
            assert(pos(s2[s2.len() - 1]) == i);
        } else {
            assert(g[i].assigned());
            let k = choose|k: int| s0.len() <= k < s.len() && pos(#[trigger] s[k]) == i;
            assert(s2[k] == s[k]);
        }
    }
}

/// The one-character string of a cell's character: a blank or a digit.
fn cell_text(c: char) -> (r: &'static str)
    requires
        c == ' ' || is_digit(c),
    ensures
        r@ == seq![c],
{
    if c == ' ' {
        proof {
            reveal_strlit(" ");
        }
        " "
    } else {
        let offset: u16 = (c as u32 - '1' as u32) as u16;
        let r = digit_text(offset);
        proof {
            assert(offset + 49 == c as u32);
        }
        r
    }
}

/// A 9x9 Sudoku grid held in row-major order.
pub struct Board {
    entries: Vec<Cell>,
}

impl View for Board {
    type V = Seq<Cell>;

    closed spec fn view(&self) -> Seq<Cell> {
        self.entries@
    }
}

impl Board {
    /// 81 valid cells, none of them unassigned with a single candidate.
    pub open spec fn wf(&self) -> bool {
        &&& self@.len() == 81
        &&& forall|j: int| 0 <= j < 81 ==> (#[trigger] self@[j]).wf()
        &&& settled(self@)
    }

    /// A grid with every cell unassigned.
    pub fn new() -> (r: Board)
        ensures
            r.wf(),
            blank(r@),
    {
        let mut entries: Vec<Cell> = Vec::new();
        let mut i: usize = 0;
        while i < 81
            invariant
                i <= 81,
                entries@.len() == i,
                forall|j: int| 0 <= j < i ==> (#[trigger] entries@[j]).wf() && entries@[j].value()
                    == ' ' && entries@[j].candidates() == digits(),
            decreases 81 - i,
        {
            entries.push(Cell::new());
            i += 1;
        }
        proof {
            lemma_digits_not_single();
        }
        Board { entries }
    }

    /// Makes every cell unassigned, with every digit possible.
    pub fn clear(&mut self)
        requires
            old(self)@.len() == 81,
        ensures
            final(self).wf(),
            blank(final(self)@),
    {
        let mut index: usize = 0;
        while index < 81
            invariant
                index <= 81,
                self@.len() == 81,
                forall|j: int| 0 <= j < index ==> (#[trigger] self@[j]).wf() && self@[j].value()
                    == ' ' && self@[j].candidates() == digits(),
            decreases 81 - index,
        {
            let mut cell = self.entries[index];
            cell.clear();
            self.entries.set(index, cell);
            index += 1;
        }
        proof {
            lemma_digits_not_single();
        }
    }

    /// Loads a puzzle from its text: each '1' to '9' assigns that digit to the next cell in
    /// row-major order, each '*' leaves the next cell blank, and every other character is
    /// skipped. Succeeds when the text describes at least 81 cells; otherwise the grid is
    /// left blank.
    pub fn load(&mut self, text: &str) -> (r: bool)
        requires
            old(self)@.len() == 81,
        ensures
            final(self).wf(),
            r == (tokens(text.spec_bytes()).len() >= 81),
            r ==> loaded(final(self)@, tokens(text.spec_bytes())),
            !r ==> blank(final(self)@),
    {
        self.clear();
        let bytes = text.as_bytes();
        let ghost s = bytes@;
        let mut board_index: usize = 0;
        let mut i: usize = 0;
        proof {
            assert(s.subrange(0, 0) =~= Seq::<u8>::empty());
        }
        while i < bytes.len() && board_index < 81
            invariant
                self.wf(),
                s == bytes@,
                s == text.spec_bytes(),
                i <= s.len(),
                board_index <= 81,
                board_index == tokens(s.subrange(0, i as int)).len(),
                forall|k: int|
                    0 <= k < board_index ==> match #[trigger] tokens(s.subrange(0, i as int))[k] {
                        Some(d) => self@[k].value() == d && self@[k].candidates() == set![d],
                        None => self@[k].value() == ' ' && self@[k].candidates() == digits(),
                    },
                forall|k: int|
                    board_index <= k < 81 ==> (#[trigger] self@[k]).value() == ' '
                        && self@[k].candidates() == digits(),
            decreases s.len() - i,
        {
            let c = bytes[i];
            proof {
                assert(s.subrange(0, i + 1).drop_last() =~= s.subrange(0, i as int));
                assert(s.subrange(0, i + 1).last() == c);
            }
            if 49u8 <= c && c <= 57u8 {
                let mut cell = self.entries[board_index];
                cell.set(c as char);
                self.entries.set(board_index, cell);
                board_index += 1;
            } else if c == 42u8 {
                board_index += 1;
            }
            i += 1;
        }
        proof {
            lemma_tokens_prefix(s, i as int, s.len() as int);
            assert(s.subrange(0, s.len() as int) =~= s);
        }
        if board_index < 81 {
            self.clear();
            return false;
        }
        true
    }

    /// The grid as text, nine lines of cells between border lines; a blank cell shows as
    /// a space.
    pub fn render(&self) -> (r: String)
        requires
            self.wf(),
        ensures
            r@ == grid_text(self@),
    {
        let ghost g = self@;
        let mut builder = new_builder();
        proof {
            assert(builder_bytes(builder) =~= encode_utf8(grid_text_upto(g, 0)));
        }
        let mut row: usize = 0;
        while row < 9
            invariant
                self.wf(),
                g == self@,
                row <= 9,
                builder_bytes(builder) == encode_utf8(grid_text_upto(g, row as int)),
            decreases 9 - row,
        {
            let ghost before = grid_text_upto(g, row as int);
            if row % 3 == 0 {
                append_str(&mut builder, "+-------+-------+-------+\n");
                proof {
                    reveal_strlit("+-------+-------+-------+\n");
                    assert("+-------+-------+-------+\n"@ =~= border());
                    lemma_encode_concat(before, border());
                }
            }
            let ghost head = before + (if row % 3 == 0 {
                border()
            } else {
                seq![]
            });
            proof {
                assert(head + row_text_upto(g, row as int, 0) =~= head);
                if row % 3 != 0 {
                    assert(head =~= before);
                }
            }
            let mut col: usize = 0;
            while col < 9
                invariant
                    self.wf(),
                    g == self@,
                    row < 9,
                    col <= 9,
                    builder_bytes(builder) == encode_utf8(head + row_text_upto(g, row as int, col as int)),
                decreases 9 - col,
            {
                let ghost line = head + row_text_upto(g, row as int, col as int);
                if col % 3 == 0 {
                    append_str(&mut builder, "| ");
                    proof {
                        reveal_strlit("| ");
                        assert("| "@ =~= seq!['|', ' ']);
                        lemma_encode_concat(line, seq!['|', ' ']);
                    }
                }
                let ghost bar = if col % 3 == 0 { seq!['|', ' '] } else { seq![] };
                proof {
                    if col % 3 != 0 {
                        assert(line + bar =~= line);
                    }
                }
                let cell = self.entry(row, col);
                let ch = cell.character();
                proof {
                    lemma_idx(row as int, col as int);
                    assert(cell.wf());
                }
                append_str(&mut builder, cell_text(ch));
                append_str(&mut builder, " ");
                proof {
                    reveal_strlit(" ");
                    assert(" "@ =~= seq![' ']);
                    lemma_encode_concat(line + bar, seq![ch]);
                    lemma_encode_concat(line + bar + seq![ch], seq![' ']);
                    assert(line + bar + seq![ch] + seq![' '] =~= head + row_text_upto(g, row as int, col + 1));
                }
                col += 1;
            }
            append_str(&mut builder, "|\n");
            proof {
                reveal_strlit("|\n");
                assert("|\n"@ =~= seq!['|', '\n']);
                let line = head + row_text_upto(g, row as int, 9);
                lemma_encode_concat(line, seq!['|', '\n']);
                assert(line + seq!['|', '\n'] =~= grid_text_upto(g, row + 1));
            }
            row += 1;
        }
        append_str(&mut builder, "+-------+-------+-------+\n");
        proof {
            reveal_strlit("+-------+-------+-------+\n");
            assert("+-------+-------+-------+\n"@ =~= border());
            lemma_encode_concat(grid_text_upto(g, 9), border());
        }
        finish(builder, Ghost(grid_text(g)))
    }

    /// Whether every cell holds a digit.
    pub fn is_solved(&self) -> (r: bool)
        requires
            self@.len() == 81,
        ensures
            r == all_assigned(self@),
    {
        let mut index: usize = 0;
        while index < 81
            invariant
                index <= 81,
                self@.len() == 81,
                forall|j: int| 0 <= j < index ==> (#[trigger] self@[j]).assigned(),
            decreases 81 - index,
        {
            if !self.entries[index].is_set() {
                return false;
            }
            index += 1;
        }
        true
    }

    /// Row-major position of row `row`, column `col`.
    fn index_at_entry(row: usize, col: usize) -> (r: usize)
        requires
            row < 9,
            col < 9,
        ensures
            r == idx(row as int, col as int),
            r < 81,
    {
        row * 9 + col
    }

    /// A copy of the cell at row `row`, column `col`.
    pub fn entry(&self, row: usize, col: usize) -> (r: Cell)
        requires
            self@.len() == 81,
            row < 9,
            col < 9,
        ensures
            r == self@[idx(row as int, col as int)],
    {
        self.entries[Board::index_at_entry(row, col)]
    }

    /// Removes `chr` from the cell at (`row`, `col`) if it is unassigned, and assigns
    /// the cell if one candidate is left. Returns whether it was assigned.
    fn propagate_apply(&mut self, row: usize, col: usize, chr: char) -> (r: bool)
        requires
            old(self).wf(),
            row < 9,
            col < 9,
            is_digit(chr),
        ensures
            final(self).wf(),
            ({
                let j = idx(row as int, col as int);
                let a = old(self)@[j];
                let b = final(self)@[j];
                &&& final(self)@ == old(self)@.update(j, b)
                &&& a.assigned() ==> b == a && !r
                &&& !a.assigned() ==> b.candidates() == a.candidates().remove(chr) && r
                    == b.assigned()
                &&& !a.assigned() && !a.candidates().contains(chr) ==> b == a && !r
            }),
    {
        let i = Board::index_at_entry(row, col);
        let mut entry = self.entries[i];
        let mut result = false;
        if !entry.is_set() {
            entry.remove_option(chr);
            if entry.has_one_option() {
                entry.apply_option();
                result = true;
            }
            self.entries.set(i, entry);
        }
        proof {
            assert(self@ =~= old(self)@.update(i as int, self@[i as int]));
        }
        result
    }

    /// Solves the grid by propagation alone: the cascade from each given digit, then sweeps
    /// that try the row, column and box deductions on each unassigned cell, until every
    /// cell is assigned or a sweep assigns nothing. Returns whether every cell was assigned.
    /// Assigned cells keep their digits, and the grid is left quiescent; when it fails, no
    /// deduction applies to any unassigned cell.
    pub fn solve(&mut self) -> (r: bool)
        requires
            old(self).wf(),
        ensures
            final(self).wf(),
            grows(old(self)@, final(self)@),
            keeps(old(self)@, final(self)@),
            quiescent(final(self)@),
            r == all_assigned(final(self)@),
            !r ==> stuck(final(self)@),
    {
        let ghost a = self@;
        self.first_pass();
        loop
            invariant
                self.wf(),
                a == old(self)@,
                grows(a, self@),
                keeps(a, self@),
                forall|i: int| 0 <= i < 81 ==> !pending(self@, i),
            decreases n_unassigned(self@),
        {
            if self.is_solved() {
                return true;
            }
            let ghost g0 = self@;
            proof {
                assert(grows(g0, g0));
            }
            let mut made_updates = false;
            let mut row: usize = 0;
            while row < 9
                invariant
                    self.wf(),
                    row <= 9,
                    a == old(self)@,
                    grows(a, self@),
                    keeps(a, self@),
                    grows(g0, self@),
                    !all_assigned(g0),
                    forall|i: int| 0 <= i < 81 ==> !pending(self@, i),
                    made_updates ==> n_unassigned(self@) < n_unassigned(g0),
                    !made_updates ==> self@ == g0 && stuck_upto(g0, row * 9),
                decreases 9 - row,
            {
                let mut col: usize = 0;
                while col < 9
                    invariant
                        self.wf(),
                        row < 9,
                        col <= 9,
                        a == old(self)@,
                        grows(a, self@),
                        keeps(a, self@),
                        grows(g0, self@),
                        !all_assigned(g0),
                        forall|i: int| 0 <= i < 81 ==> !pending(self@, i),
                        made_updates ==> n_unassigned(self@) < n_unassigned(g0),
                        !made_updates ==> self@ == g0 && stuck_upto(g0, row * 9 + col),
                    decreases 9 - col,
                {
                    let ghost g1 = self@;
                    let solved = self.sweep_cell(row, col);
                    if solved {
                        made_updates = true;
                    }
                    proof {
                        let i = idx(row as int, col as int);
                        lemma_idx(row as int, col as int);
                        lemma_grows_trans(a, g1, self@);
                        lemma_keeps_trans(a, g1, self@);
                        lemma_grows_trans(g0, g1, self@);
                        lemma_grows_count(g0, g1);
                        if !made_updates {
                            assert forall|j: int|
                                0 <= j < i + 1 && !(#[trigger] g0[j]).assigned() implies !single_digit(
                                    row_ded(g0, j),
                                ) && !single_digit(col_ded(g0, j)) && !single_digit(box_ded(g0, j)) by {
                                if j < i {
                                    assert(stuck_upto(g0, i));
                                }
                            }
                        }
                    }
                    col += 1;
                }
                row += 1;
            }
            if !made_updates {
                proof {
                    assert forall|i: int| 0 <= i < 81 && (#[trigger] self@[i]).assigned() implies prop_ok(
                        self@,
                        i,
                    ) by {
                        assert(!pending(self@, i));
                    }
                }
                return false;
            }
        }
    }

    /// One step of a sweep: for an unassigned cell at (`row`, `col`), tries the row, then
    /// the column, then the box deduction, each from the cell's current candidates; on the
    /// first that leaves one digit, assigns it and runs the cascade. Returns whether it did.
    fn sweep_cell(&mut self, row: usize, col: usize) -> (r: bool)
        requires
            old(self).wf(),
            row < 9,
            col < 9,
            forall|i: int| 0 <= i < 81 ==> !pending(old(self)@, i),
        ensures
            final(self).wf(),
            grows(old(self)@, final(self)@),
            keeps(old(self)@, final(self)@),
            forall|i: int| 0 <= i < 81 ==> !pending(final(self)@, i),
            r ==> n_unassigned(final(self)@) < n_unassigned(old(self)@),
            !r ==> final(self)@ == old(self)@,
            !r && !old(self)@[idx(row as int, col as int)].assigned() ==> !single_digit(
                row_ded(old(self)@, idx(row as int, col as int)),
            ) && !single_digit(col_ded(old(self)@, idx(row as int, col as int))) && !single_digit(
                box_ded(old(self)@, idx(row as int, col as int)),
            ),
    {
        proof {
            lemma_idx(row as int, col as int);
        }
        let ghost i = idx(row as int, col as int);
        let ghost g1 = self@;
        let mut solved_current = false;
        if !self.entry(row, col).is_set() {
            // Walk the row
            let mut options = self.row_options(row, col);
            if options.has_one_option() {
                let d = options.get_last_option();
                proof {
                    assert(options@.contains(d));
                    assert forall|sol: Seq<char>| valid_solution(sol) && #[trigger] admits(g1, sol) implies sol[i] == d by {
                        lemma_deduction_sound(g1, i, d, sol);
                    }
                }
                self.set_entry(row, col, d);
                solved_current = true;
            }
            if !solved_current {
                // Walk the column
                options = self.col_options(row, col);
                if options.has_one_option() {
                    let d = options.get_last_option();
                    proof {
                        assert(options@.contains(d));
                        assert forall|sol: Seq<char>| valid_solution(sol) && #[trigger] admits(g1, sol) implies sol[i] == d by {
                            lemma_deduction_sound(g1, i, d, sol);
                        }
                    }
                    self.set_entry(row, col, d);
                    solved_current = true;
                }
            }
            if !solved_current {
                // Walk the local box
                options = self.box_options(row, col);
                if options.has_one_option() {
                    let d = options.get_last_option();
                    proof {
                        assert(options@.contains(d));
                        assert forall|sol: Seq<char>| valid_solution(sol) && #[trigger] admits(g1, sol) implies sol[i] == d by {
                            lemma_deduction_sound(g1, i, d, sol);
                        }
                    }
                    self.set_entry(row, col, d);
                    solved_current = true;
                }
            }
            if solved_current {
                let ghost g2 = self@;
                proof {
                    assert forall|j: int| 0 <= j < 81 && j != i implies !pending(g2, j) by {
                        if g1[j].assigned() {
                            assert(!pending(g1, j));
                            lemma_prop_stable(g1, g2, j);
                        } else {
                            assert(g2[j] == g1[j]);
                        }
                    }
                }
                self.propagate(row, col);
                proof {
                    lemma_grows_trans(g1, g2, self@);
                    lemma_grows_count(g2, self@);
                    lemma_keeps_trans(g1, g2, self@);
                }
            }
        }
        proof {
            if !solved_current {
                assert(grows(g1, g1));
            }
        }
        solved_current
    }

    /// Assigns digit `d`, one of its candidates, to the cell at (`row`, `col`).
    fn set_entry(&mut self, row: usize, col: usize, d: char)
        requires
            old(self).wf(),
            row < 9,
            col < 9,
            is_digit(d),
            old(self)@[idx(row as int, col as int)].candidates().contains(d),
            !old(self)@[idx(row as int, col as int)].assigned(),
            forall|sol: Seq<char>|
                valid_solution(sol) && #[trigger] admits(old(self)@, sol) ==> sol[idx(
                    row as int,
                    col as int,
                )] == d,
        ensures
            final(self).wf(),
            final(self)@ == old(self)@.update(idx(row as int, col as int), final(self)@[idx(row as int, col as int)]),
            final(self)@[idx(row as int, col as int)].assigned(),
            grows(old(self)@, final(self)@),
            keeps(old(self)@, final(self)@),
            n_unassigned(final(self)@) + 1 == n_unassigned(old(self)@),
    {
        let i = Board::index_at_entry(row, col);
        let mut cell = self.entries[i];
        cell.set(d);
        self.entries.set(i, cell);
        proof {
            assert(self@ =~= old(self)@.update(i as int, cell));
            lemma_count_update(old(self)@, i as int, cell);
            assert forall|sol: Seq<char>| valid_solution(sol) && #[trigger] admits(old(self)@, sol) implies admits(
                self@,
                sol,
            ) by {
                assert forall|k: int| 0 <= k < 81 implies (#[trigger] self@[k]).candidates().contains(sol[k]) by {
                    assert(old(self)@[k].candidates().contains(sol[k]));
                }
            }
        }
    }

    /// Runs the cascade from every assigned cell, in row-major order.
    fn first_pass(&mut self)
        requires
            old(self).wf(),
        ensures
            final(self).wf(),
            grows(old(self)@, final(self)@),
            keeps(old(self)@, final(self)@),
            forall|i: int| 0 <= i < 81 ==> !pending(final(self)@, i),
    {
        let ghost a = self@;
        proof {
            assert(grows(a, a));
        }
        let mut row: usize = 0;
        while row < 9
            invariant
                self.wf(),
                row <= 9,
                a == old(self)@,
                grows(a, self@),
                keeps(a, self@),
                forall|i: int| 0 <= i < 81 && pending(self@, i) ==> i >= row * 9,
            decreases 9 - row,
        {
            let mut col: usize = 0;
            while col < 9
                invariant
                    self.wf(),
                    row < 9,
                    col <= 9,
                    a == old(self)@,
                    grows(a, self@),
                    keeps(a, self@),
                    forall|i: int| 0 <= i < 81 && pending(self@, i) ==> i >= row * 9 + col,
                decreases 9 - col,
            {
                proof {
                    lemma_idx(row as int, col as int);
                }
                if self.entry(row, col).is_set() {
                    let ghost g = self@;
                    self.propagate(row, col);
                    proof {
                        lemma_grows_trans(a, g, self@);
                        lemma_keeps_trans(a, g, self@);
                    }
                }
                col += 1;
            }
            row += 1;
        }
    }

    /// The row deduction for the cell at (`row`, `col`).
    fn row_options(&self, row: usize, col: usize) -> (r: CellOptions)
        requires
            self.wf(),
            row < 9,
            col < 9,
        ensures
            r.wf(),
            r@ == row_ded(self@, idx(row as int, col as int)),
    {
        let ghost i = idx(row as int, col as int);
        proof {
            lemma_idx(row as int, col as int);
        }
        let mut options = *self.entry(row, col).options();
        proof {
            assert(options@ =~= row_ded_upto(self@, i, 0));
        }
        let mut c: usize = 0;
        while c < 9
            invariant
                self.wf(),
                row < 9,
                col < 9,
                c <= 9,
                i == idx(row as int, col as int),
                row_of(i) == row,
                col_of(i) == col,
                options.wf(),
                options@ == row_ded_upto(self@, i, c as int),
            decreases 9 - c,
        {
            proof {
                lemma_idx(row as int, c as int);
            }
            if c != col {
                let other = self.entry(row, c);
                if !other.is_set() {
                    options = options.difference(other.options());
                }
            }
            proof {
                assert(options@ =~= row_ded_upto(self@, i, c + 1));
            }
            c += 1;
        }
        options
    }

    /// The column deduction for the cell at (`row`, `col`).
    fn col_options(&self, row: usize, col: usize) -> (r: CellOptions)
        requires
            self.wf(),
            row < 9,
            col < 9,
        ensures
            r.wf(),
            r@ == col_ded(self@, idx(row as int, col as int)),
    {
        let ghost i = idx(row as int, col as int);
        proof {
            lemma_idx(row as int, col as int);
        }
        let mut options = *self.entry(row, col).options();
        proof {
            assert(options@ =~= col_ded_upto(self@, i, 0));
        }
        let mut r: usize = 0;
        while r < 9
            invariant
                self.wf(),
                row < 9,
                col < 9,
                r <= 9,
                i == idx(row as int, col as int),
                row_of(i) == row,
                col_of(i) == col,
                options.wf(),
                options@ == col_ded_upto(self@, i, r as int),
            decreases 9 - r,
        {
            proof {
                lemma_idx(r as int, col as int);
            }
            if r != row {
                let other = self.entry(r, col);
                if !other.is_set() {
                    options = options.difference(other.options());
                }
            }
            proof {
                assert(options@ =~= col_ded_upto(self@, i, r + 1));
            }
            r += 1;
        }
        options
    }

    /// The box deduction for the cell at (`row`, `col`).
    fn box_options(&self, row: usize, col: usize) -> (r: CellOptions)
        requires
            self.wf(),
            row < 9,
            col < 9,
        ensures
            r.wf(),
            r@ == box_ded(self@, idx(row as int, col as int)),
    {
        let ghost i = idx(row as int, col as int);
        proof {
            lemma_idx(row as int, col as int);
        }
        let mut options = *self.entry(row, col).options();
        proof {
            assert(options@ =~= box_ded_upto(self@, i, 0));
        }
        let r0 = row - (row % 3);
        let c0 = col - (col % 3);
        let mut t: usize = 0;
        while t < 9
            invariant
                self.wf(),
                row < 9,
                col < 9,
                t <= 9,
                r0 == row - row % 3,
                c0 == col - col % 3,
                i == idx(row as int, col as int),
                row_of(i) == row,
                col_of(i) == col,
                options.wf(),
                options@ == box_ded_upto(self@, i, t as int),
            decreases 9 - t,
        {
            proof {
                lemma_box_cell(row as int, col as int, t as int);
            }
            let r = r0 + t / 3;
            let c = c0 + t % 3;
            proof {
                lemma_idx(r as int, c as int);
                assert(box_cell(i, t as int) == idx(r as int, c as int));
            }
            if !(r == row && c == col) {
                let other = self.entry(r, c);
                if !other.is_set() {
                    options = options.difference(other.options());
                }
            }
            proof {
                assert(options@ =~= box_ded_upto(self@, i, t + 1));
            }
            t += 1;
        }
        options
    }

    /// The cascade from the newly assigned cell (`row`, `col`): its digit leaves the
    /// candidates of its peers; a peer left with one candidate is assigned and cascades in
    /// turn, most recently assigned first. Afterwards no cell is pending that was not
    /// pending before, this one included; from a quiescent grid it changes nothing.
    pub fn propagate(&mut self, row: usize, col: usize)
        requires
            old(self).wf(),
            row < 9,
            col < 9,
            old(self)@[idx(row as int, col as int)].assigned(),
        ensures
            final(self).wf(),
            grows(old(self)@, final(self)@),
            forall|i: int|
                0 <= i < 81 && pending(final(self)@, i) ==> pending(old(self)@, i) && i != idx(
                    row as int,
                    col as int,
                ),
            keeps(old(self)@, final(self)@),
            quiescent(old(self)@) ==> final(self)@ == old(self)@,
    {
        let ghost a = self@;
        let ghost start = idx(row as int, col as int);
        let mut to_propagate: Vec<(usize, usize)> = Vec::new();
        to_propagate.push((row, col));
        proof {
            assert(grows(a, a));
            assert(pos(to_propagate@[0]) == start);
        }
        while to_propagate.len() > 0
            invariant
                self.wf(),
                a == old(self)@,
                start == idx(row as int, col as int),
                grows(a, self@),
                keeps(a, self@),
                forall|k: int|
                    0 <= k < to_propagate@.len() ==> (#[trigger] to_propagate@[k]).0 < 9
                        && to_propagate@[k].1 < 9 && self@[pos(to_propagate@[k])].assigned(),
                forall|i: int|
                    0 <= i < 81 && pending(self@, i) ==> (pending(a, i) && i != start) || exists|
                        k: int,
                    |
                        0 <= k < to_propagate@.len() && pos(#[trigger] to_propagate@[k]) == i,
                quiescent(a) ==> self@ == a && to_propagate@.len() <= 1 && (to_propagate@.len()
                    == 1 ==> to_propagate@[0] == (row, col)),
            decreases n_unassigned(self@) + to_propagate@.len(),
        {
            let ghost g = self@;
            let ghost st = to_propagate@;
            let top = to_propagate.pop().unwrap();
            let ghost s1 = to_propagate@;
            proof {
                assert(st[st.len() - 1] == top);
                assert(s1 =~= st.drop_last());
                assert(s1.len() == st.len() - 1);
            }
            self.spread(top.0, top.1, &mut to_propagate);
            proof {
                let g2 = self@;
                let s2 = to_propagate@;
                let tp = pos(top);
                assert(grows(a, g2)) by {
                    assert forall|i: int| 0 <= i < a.len() implies (a[i].assigned() ==> #[trigger] g2[i]
                        == a[i]) && g2[i].candidates().subset_of(a[i].candidates()) by {
                        assert(g[i] == a[i] || !a[i].assigned());
                        assert(g[i].candidates().subset_of(a[i].candidates()));
                        assert(g2[i] == g[i] || !g[i].assigned());
                        assert(g2[i].candidates().subset_of(g[i].candidates()));
                    }
                }
                lemma_grows_count(g, g2);
                assert forall|k: int| 0 <= k < s2.len() implies (#[trigger] s2[k]).0 < 9 && s2[k].1 < 9
                    && g2[pos(s2[k])].assigned() by {
                    if k < s1.len() {
                        assert(s2.subrange(0, s1.len() as int)[k] == s2[k]);
                        assert(s1[k] == st[k]);
                        assert(g[pos(st[k])].assigned());
                    }
                }
                lemma_pending_after_spread(a, start, g, g2, st, s1, s2, top);
                lemma_keeps_trans(a, g, g2);
            }
        }
    }

    /// Removes the digit of the assigned cell (`row`, `col`) from every unassigned peer,
    /// and pushes each peer that this leaves with one candidate, which it assigns.
    fn spread(&mut self, row: usize, col: usize, to_propagate: &mut Vec<(usize, usize)>)
        requires
            old(self).wf(),
            row < 9,
            col < 9,
            old(self)@[idx(row as int, col as int)].assigned(),
        ensures
            final(self).wf(),
            cascade_inv(old(self)@, final(self)@, old(to_propagate)@, final(to_propagate)@),
            prop_ok(final(self)@, idx(row as int, col as int)),
            keeps(old(self)@, final(self)@),
            quiescent(old(self)@) ==> final(self)@ == old(self)@ && final(to_propagate)@ == old(
                to_propagate,
            )@,
    {
        let ghost a = self@;
        let ghost s0 = to_propagate@;
        let ghost start = idx(row as int, col as int);
        let chr: char = self.entry(row, col).character();
        proof {
            assert(to_propagate@.subrange(0, s0.len() as int) =~= s0);
            lemma_idx(row as int, col as int);
            a[start].lemma_wf_parts();
        }
        // Walk the row, removing the digit.
        let mut c: usize = 0;
        while c < 9
            invariant
                self.wf(),
                c <= 9,
                row < 9,
                col < 9,
                a == old(self)@,
                s0 == old(to_propagate)@,
                chr == a[start].value(),
                is_digit(chr),
                start == idx(row as int, col as int),
                0 <= start < 81,
                a[start].assigned(),
                self@[start] == a[start],
                a[start].candidates() == set![chr],
                keeps(a, self@),
                cascade_inv(a, self@, s0, to_propagate@),
                quiescent(a) ==> self@ == a && to_propagate@ == s0,
                forall|k: int| 0 <= k < c ==> (#[trigger] self@[idx(row as int, k)]).assigned() || !self@[idx(row as int, k)].candidates().contains(chr),
            decreases 9 - c,
        {
            let ghost g = self@;
            let ghost s = to_propagate@;
            proof {
                lemma_idx(row as int, c as int);
                lemma_idx(row as int, col as int);
                if quiescent(a) && idx(row as int, c as int) != start {
                    assert(is_peer(start, idx(row as int, c as int)));
                    assert(prop_ok(a, start));
                }
            }
            let r = self.propagate_apply(row, c, chr);
            if r {
                to_propagate.push((row, c));
            }
            proof {
                lemma_cascade_step(a, g, self@, s0, s, to_propagate@, (row, c), chr, r);
                if idx(row as int, c as int) != start {
                    assert(is_peer(start, idx(row as int, c as int)));
                }
                lemma_keeps_step(a, g, self@, idx(row as int, c as int), chr, start);
            }
            c += 1;
        }
        // Walk the column, removing the digit.
        let mut r0: usize = 0;
        while r0 < 9
            invariant
                self.wf(),
                r0 <= 9,
                row < 9,
                col < 9,
                a == old(self)@,
                s0 == old(to_propagate)@,
                chr == a[start].value(),
                is_digit(chr),
                start == idx(row as int, col as int),
                0 <= start < 81,
                a[start].assigned(),
                self@[start] == a[start],
                a[start].candidates() == set![chr],
                keeps(a, self@),
                cascade_inv(a, self@, s0, to_propagate@),
                quiescent(a) ==> self@ == a && to_propagate@ == s0,
                forall|k: int| 0 <= k < 9 ==> (#[trigger] self@[idx(row as int, k)]).assigned() || !self@[idx(row as int, k)].candidates().contains(chr),
                forall|k: int| 0 <= k < r0 ==> (#[trigger] self@[idx(k, col as int)]).assigned() || !self@[idx(k, col as int)].candidates().contains(chr),
            decreases 9 - r0,
        {
            let ghost g = self@;
            let ghost s = to_propagate@;
            proof {
                lemma_idx(r0 as int, col as int);
                lemma_idx(row as int, col as int);
                if quiescent(a) && idx(r0 as int, col as int) != start {
                    assert(is_peer(start, idx(r0 as int, col as int)));
                    assert(prop_ok(a, start));
                }
            }
            let r = self.propagate_apply(r0, col, chr);
            if r {
                to_propagate.push((r0, col));
            }
            proof {
                lemma_cascade_step(a, g, self@, s0, s, to_propagate@, (r0, col), chr, r);
                if idx(r0 as int, col as int) != start {
                    assert(is_peer(start, idx(r0 as int, col as int)));
                }
                lemma_keeps_step(a, g, self@, idx(r0 as int, col as int), chr, start);
            }
            r0 += 1;
        }
        // Walk the local box, removing the digit.
        let br = row - (row % 3);
        let bc = col - (col % 3);
        let mut t: usize = 0;
        while t < 9
            invariant
                self.wf(),
                t <= 9,
                row < 9,
                col < 9,
                br == row - row % 3,
                bc == col - col % 3,
                a == old(self)@,
                s0 == old(to_propagate)@,
                chr == a[start].value(),
                is_digit(chr),
                start == idx(row as int, col as int),
                0 <= start < 81,
                a[start].assigned(),
                self@[start] == a[start],
                a[start].candidates() == set![chr],
                keeps(a, self@),
                cascade_inv(a, self@, s0, to_propagate@),
                quiescent(a) ==> self@ == a && to_propagate@ == s0,
                forall|k: int| 0 <= k < 9 ==> (#[trigger] self@[idx(row as int, k)]).assigned() || !self@[idx(row as int, k)].candidates().contains(chr),
                forall|k: int| 0 <= k < 9 ==> (#[trigger] self@[idx(k, col as int)]).assigned() || !self@[idx(k, col as int)].candidates().contains(chr),
                forall|k: int| 0 <= k < t ==> (#[trigger] self@[idx(br + k / 3, bc + k % 3)]).assigned() || !self@[idx(br + k / 3, bc + k % 3)].candidates().contains(chr),
            decreases 9 - t,
        {
            let ghost g = self@;
            let ghost s = to_propagate@;
            proof {
                lemma_box_cell(row as int, col as int, t as int);
            }
            let pr = br + t / 3;
            let pc = bc + t % 3;
            proof {
                lemma_idx(pr as int, pc as int);
                lemma_idx(row as int, col as int);
                if quiescent(a) && idx(pr as int, pc as int) != start {
                    assert(is_peer(start, idx(pr as int, pc as int)));
                    assert(prop_ok(a, start));
                }
            }
            let r = self.propagate_apply(pr, pc, chr);
            if r {
                to_propagate.push((pr, pc));
            }
            proof {
                lemma_cascade_step(a, g, self@, s0, s, to_propagate@, (pr, pc), chr, r);
                if idx(pr as int, pc as int) != start {
                    assert(is_peer(start, idx(pr as int, pc as int)));
                }
                lemma_keeps_step(a, g, self@, idx(pr as int, pc as int), chr, start);
            }
            t += 1;
        }
        proof {
            let g = self@;
            assert forall|j: int|
                0 <= j < 81 && is_peer(start, j) && !(#[trigger] g[j]).assigned() implies !g[j].candidates().contains(
                    g[start].value(),
                ) by {
                lemma_idx(row as int, col as int);
                lemma_pos_parts(j);
                if row_of(j) == row as int {
                    assert(j == idx(row as int, col_of(j)));
                } else if col_of(j) == col as int {
                    assert(j == idx(row_of(j), col as int));
                } else {
                    lemma_box_cover(row as int, col as int, j);
                    let k = (row_of(j) - br) * 3 + (col_of(j) - bc);
                    assert(j == idx(br + k / 3, bc + k % 3));
                }
            }
        }
    }
}

/// Loading 81 digits and nothing else succeeds, and assigns every cell the digit at its
/// position in row-major order.
pub proof fn lemma_load_all_digits(s: Seq<u8>)
    requires
        s.len() == 81,
        forall|i: int| 0 <= i < 81 ==> 49 <= #[trigger] s[i] <= 57,
    ensures
        tokens(s).len() >= 81,
        forall|g: Seq<Cell>|
            #[trigger] loaded(g, tokens(s)) ==> forall|i: int|
                0 <= i < 81 ==> (#[trigger] g[i]).assigned() && g[i].value() == s[i] as char,
{
    assert forall|n: int| 0 <= n <= 81 implies #[trigger] tokens(s.subrange(0, n)).len() == n && forall|i: int|
        0 <= i < n ==> tokens(s.subrange(0, n))[i] == Some(s[i] as char) by {
        lemma_tokens_digits(s, n);
    }
    assert(s.subrange(0, 81) =~= s);
    assert(tokens(s.subrange(0, 81)).len() == 81);
    assert forall|g: Seq<Cell>| #[trigger] loaded(g, tokens(s)) implies forall|i: int|
        0 <= i < 81 ==> (#[trigger] g[i]).assigned() && g[i].value() == s[i] as char by {
        assert forall|i: int| 0 <= i < 81 implies (#[trigger] g[i]).assigned() && g[i].value() == s[i]
            as char by {
            assert(tokens(s.subrange(0, 81))[i] == Some(s[i] as char));
            assert(tokens(s)[i] == Some(s[i] as char));
        }
    }
}

proof fn lemma_tokens_digits(s: Seq<u8>, n: int)
    requires
        0 <= n <= s.len(),
        forall|i: int| 0 <= i < s.len() ==> 49 <= #[trigger] s[i] <= 57,
    ensures
        tokens(s.subrange(0, n)).len() == n,
        forall|i: int| 0 <= i < n ==> tokens(s.subrange(0, n))[i] == Some(s[i] as char),
    decreases n,
{
    if n > 0 {
        lemma_tokens_digits(s, n - 1);
        assert(s.subrange(0, n).drop_last() =~= s.subrange(0, n - 1));
        assert(s.subrange(0, n).last() == s[n - 1]);
    }
}

/// A grid that was reached without guesses and is fully assigned is the solution: it
/// matches every solution that the starting grid allows.
pub proof fn lemma_solved_is_solution(a: Seq<Cell>, b: Seq<Cell>, sol: Seq<char>)
    requires
        keeps(a, b),
        b.len() == 81,
        forall|j: int| 0 <= j < 81 ==> (#[trigger] b[j]).wf(),
        all_assigned(b),
        valid_solution(sol),
        admits(a, sol),
    ensures
        forall|i: int| 0 <= i < 81 ==> (#[trigger] b[i]).value() == sol[i],
{
    assert(admits(b, sol));
    assert forall|i: int| 0 <= i < 81 implies (#[trigger] b[i]).value() == sol[i] by {
        b[i].lemma_wf_parts();
        assert(b[i].candidates().contains(sol[i]));
    }
}

} // verus!
