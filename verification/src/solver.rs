//! The incremental solver: simplex tableau, pivoting, edit variables, and
//! change tracking.
//!
//! The solver owns the live constraint set, a tableau mapping basic symbols
//! to rows over nonbasic symbols, the set of edit variables with their
//! private stay constraints, and a snapshot of every tracked variable's last
//! reported value.  After every successful mutation the tableau is feasible;
//! a failed mutation leaves the solver exactly as it was (each mutating call
//! works on a private copy and commits only on success).  Tableau invariants
//! that the algorithm relies on are additionally checked at run time, and a
//! violation is reported as `InternalSolverError` rather than silently
//! continuing with an inconsistent tableau.

use vstd::prelude::*;
use vstd::pervasive::VecAdditionalExecFns;
use crate::num::{Ratio, ratio_wf, eq_val, sum_val};
use crate::linear::{Variable, Constraint, constraint_wf, Expression, expression_wf, RelOp, Term};
use crate::strength::{Strength, REQUIRED_MAGNITUDE};

verus! {

/// What failed, reported synchronously by the failing call.
#[derive(Clone, Copy, Debug, PartialEq, Eq, Structural)]
pub enum SolverError {
    /// The same constraint (by identity) was added twice.
    DuplicateConstraint,
    /// Adding the required constraint would make the required subset
    /// infeasible; the call was rolled back entirely.
    UnsatisfiableConstraint,
    /// A removal referenced a constraint that is not currently tracked.
    UnknownConstraint,
    /// A suggestion or removal referenced a variable with no edit entry.
    UnknownEditVariable,
    /// The variable already has an edit entry.
    DuplicateEditVariable,
    /// An edit variable was registered at the required strength.
    BadRequiredStrength,
    /// A tableau invariant was violated or internal arithmetic overflowed;
    /// a programming-bug signal, not a recoverable user error.
    InternalSolverError,
}

/// The role of an internal solver symbol.
#[derive(Clone, Copy, Debug, PartialEq, Eq, Structural)]
enum SymKind {
    /// Stands for a caller-visible variable.
    External,
    /// Nonnegative symbol converting an inequality into an equality row.
    Slack,
    /// Nonnegative symbol measuring a non-required constraint's violation.
    Error,
    /// Marker symbol for required equalities, never pivoted on.
    Dummy,
}

/// An internal solver symbol.
#[derive(Clone, Copy, Debug, PartialEq, Eq, Structural)]
struct Symbol {
    id: u64,
    kind: SymKind,
}

/// A tableau row: a constant plus coefficients over nonbasic symbols.
#[derive(Debug)]
struct Row {
    cells: Vec<(Symbol, Ratio)>,
    constant: Ratio,
}

/// The marker symbols a constraint left in the tableau, used to remove it.
#[derive(Clone, Copy, Debug)]
struct Tag {
    marker: Symbol,
    other: Option<Symbol>,
}

/// Bookkeeping for one tracked constraint.
#[derive(Clone, Copy, Debug)]
struct CnInfo {
    marker: Symbol,
    other: Option<Symbol>,
    strength: u64,
}

/// Bookkeeping for one edit variable: its stay constraint's markers and the
/// current suggested value.
#[derive(Clone, Copy, Debug)]
struct EditInfo {
    marker: Symbol,
    other: Option<Symbol>,
    constant: Ratio,
    strength: u64,
}

/// Bookkeeping for one caller-visible variable: its symbol and the value
/// last reported through `fetch_changes`.
#[derive(Clone, Copy, Debug)]
struct VarInfo {
    symbol: Symbol,
    last: Ratio,
}

/// The linear form of a tracked constraint, kept so that satisfaction of
/// the required constraints can be checked and stated after every mutation.
#[derive(Debug)]
struct StoredCn {
    terms: Vec<Term>,
    constant: Ratio,
    operator: RelOp,
    required: bool,
}

spec fn cells_distinct(cs: Seq<(Symbol, Ratio)>) -> bool {
    forall|a: int, b: int| 0 <= a < b < cs.len() ==> (#[trigger] cs[a]).0 != (#[trigger] cs[b]).0
}

spec fn cells_wf(cs: Seq<(Symbol, Ratio)>) -> bool {
    &&& forall|a: int| 0 <= a < cs.len() ==> ratio_wf((#[trigger] cs[a]).1)
    &&& cells_distinct(cs)
}

spec fn row_wf(r: Row) -> bool {
    &&& ratio_wf(r.constant)
    &&& cells_wf(r.cells@)
}

spec fn has_cell(cs: Seq<(Symbol, Ratio)>, s: Symbol) -> bool {
    exists|a: int| 0 <= a < cs.len() && (#[trigger] cs[a]).0 == s
}

spec fn rows_distinct(rs: Seq<(Symbol, Row)>) -> bool {
    forall|a: int, b: int| 0 <= a < b < rs.len() ==> (#[trigger] rs[a]).0 != (#[trigger] rs[b]).0
}

spec fn rows_wf(rs: Seq<(Symbol, Row)>) -> bool {
    &&& forall|a: int| 0 <= a < rs.len() ==> row_wf((#[trigger] rs[a]).1)
    &&& rows_distinct(rs)
}

spec fn has_basic(rs: Seq<(Symbol, Row)>, s: Symbol) -> bool {
    exists|a: int| 0 <= a < rs.len() && (#[trigger] rs[a]).0 == s
}

spec fn basic_index(rs: Seq<(Symbol, Row)>, s: Symbol) -> int {
    choose|a: int| 0 <= a < rs.len() && (#[trigger] rs[a]).0 == s
}

/// The current tableau value of a symbol: its row constant when basic,
/// zero when nonbasic.
#[verifier::opaque]
spec fn sym_constant(rs: Seq<(Symbol, Row)>, s: Symbol) -> Ratio {
    if has_basic(rs, s) {
        rs[basic_index(rs, s)].1.constant
    } else {
        Ratio { num: 0, den: 1 }
    }
}

spec fn keys_distinct<T>(es: Seq<(u64, T)>) -> bool {
    forall|a: int, b: int| 0 <= a < b < es.len() ==> (#[trigger] es[a]).0 != (#[trigger] es[b]).0
}

spec fn has_key<T>(es: Seq<(u64, T)>, k: u64) -> bool {
    exists|a: int| 0 <= a < es.len() && (#[trigger] es[a]).0 == k
}

spec fn key_index<T>(es: Seq<(u64, T)>, k: u64) -> int {
    choose|a: int| 0 <= a < es.len() && (#[trigger] es[a]).0 == k
}

/// After a `swap_remove` on an association list with distinct keys, the
/// keys stay distinct, the removed key is gone entirely, and every other
/// entry is kept.
proof fn lemma_swap_remove_entries<K, V>(pre: Seq<(K, V)>, post: Seq<(K, V)>, i: int)
    requires
        0 <= i < pre.len(),
        post == pre.update(i, pre.last()).drop_last(),
        forall|a: int, b: int| 0 <= a < b < pre.len()
            ==> (#[trigger] pre[a]).0 != (#[trigger] pre[b]).0,
    ensures
        forall|a: int, b: int| 0 <= a < b < post.len()
            ==> (#[trigger] post[a]).0 != (#[trigger] post[b]).0,
        forall|a: int| 0 <= a < post.len() ==> (#[trigger] post[a]).0 != pre[i].0,
        forall|a: int| 0 <= a < post.len()
            ==> #[trigger] post[a] == (if a == i { pre[pre.len() - 1] } else { pre[a] }),
{
    assert(forall|a: int| 0 <= a < post.len()
        ==> #[trigger] post[a] == (if a == i { pre[pre.len() - 1] } else { pre[a] }));
}

/// Finds the cell of symbol `s` in a row's cell list.
fn find_cell(cs: &Vec<(Symbol, Ratio)>, s: Symbol) -> (r: Option<usize>)
    ensures
        r matches Some(i) ==> i < cs@.len() && cs@[i as int].0 == s,
        r is None ==> !has_cell(cs@, s),
{
    let mut i: usize = 0;
    while i < cs.len()
        invariant
            i <= cs@.len(),
            forall|k: int| 0 <= k < i ==> (#[trigger] cs@[k]).0 != s,
        decreases cs@.len() - i,
    {
        if cs[i].0 == s {
            return Some(i);
        }
        i = i + 1;
    }
    None
}

/// Finds the row whose basic symbol is `s`.
fn find_basic(rs: &Vec<(Symbol, Row)>, s: Symbol) -> (r: Option<usize>)
    ensures
        r matches Some(i) ==> i < rs@.len() && rs@[i as int].0 == s,
        r is None ==> !has_basic(rs@, s),
{
    let mut i: usize = 0;
    while i < rs.len()
        invariant
            i <= rs@.len(),
            forall|k: int| 0 <= k < i ==> (#[trigger] rs@[k]).0 != s,
        decreases rs@.len() - i,
    {
        if rs[i].0 == s {
            return Some(i);
        }
        i = i + 1;
    }
    None
}

/// Finds the entry with key `k` in a `u64`-keyed association list.
fn find_key_at<T>(es: &Vec<(u64, T)>, k: u64) -> (r: Option<usize>)
    ensures
        r matches Some(i) ==> i < es@.len() && es@[i as int].0 == k,
        r is None ==> !has_key(es@, k),
{
    let mut i: usize = 0;
    while i < es.len()
        invariant
            i <= es@.len(),
            forall|a: int| 0 <= a < i ==> (#[trigger] es@[a]).0 != k,
        decreases es@.len() - i,
    {
        if es[i].0 == k {
            return Some(i);
        }
        i = i + 1;
    }
    None
}

/// A copy of a vector of copyable entries.
fn dup_vec<T: Copy>(v: &Vec<T>) -> (r: Vec<T>)
    ensures
        r@ == v@,
{
    let mut r: Vec<T> = Vec::new();
    let mut i: usize = 0;
    while i < v.len()
        invariant
            i <= v@.len(),
            r@ == v@.subrange(0, i as int),
        decreases v@.len() - i,
    {
        r.push(v[i]);
        i = i + 1;
    }
    proof {
        assert(r@ == v@);
    }
    r
}

/// An empty row.
fn empty_row() -> (r: Row)
    ensures
        row_wf(r),
        r.cells@.len() == 0,
        r.constant == (Ratio { num: 0, den: 1 }),
{
    Row { cells: Vec::new(), constant: Ratio::zero() }
}

/// A copy of a row.
fn dup_row(r: &Row) -> (d: Row)
    ensures
        d.cells@ == r.cells@,
        d.constant == r.constant,
{
    Row { cells: dup_vec(&r.cells), constant: r.constant }
}

/// Removes the cell of symbol `s`, if present.
fn row_remove_symbol(row: &mut Row, s: Symbol)
    requires
        row_wf(*old(row)),
    ensures
        row_wf(*final(row)),
        final(row).constant == old(row).constant,
{
    match find_cell(&row.cells, s) {
        None => {},
        Some(i) => {
            let ghost pre = row.cells@;
            let _ = row.cells.swap_remove(i);
            proof {
                lemma_swap_remove_entries(pre, row.cells@, i as int);
            }
        },
    }
}

/// Adds `coeff` to the cell of symbol `s`, creating or removing the cell as
/// needed so that no cell holds an exact zero.  `false` on overflow.
fn row_insert_symbol(row: &mut Row, s: Symbol, coeff: Ratio) -> (ok: bool)
    requires
        row_wf(*old(row)),
        ratio_wf(coeff),
    ensures
        row_wf(*final(row)),
        final(row).constant == old(row).constant,
{
    if coeff.is_zero() {
        return true;
    }
    match find_cell(&row.cells, s) {
        Some(i) => {
            let cur: (Symbol, Ratio) = row.cells[i];
            match cur.1.add(coeff) {
                None => false,
                Some(n) => {
                    if n.is_zero() {
                        let ghost pre = row.cells@;
                        let _ = row.cells.swap_remove(i);
                        proof {
                            lemma_swap_remove_entries(pre, row.cells@, i as int);
                        }
                    } else {
                        row.cells.set(i, (s, n));
                    }
                    true
                },
            }
        },
        None => {
            row.cells.push((s, coeff));
            true
        },
    }
}

/// Adds `coeff * other` into `row`, cell by cell.  `false` on overflow.
fn row_insert_row(row: &mut Row, other: &Row, coeff: Ratio) -> (ok: bool)
    requires
        row_wf(*old(row)),
        row_wf(*other),
        ratio_wf(coeff),
    ensures
        row_wf(*final(row)),
{
    let scaled = match coeff.mul(other.constant) {
        None => { return false; },
        Some(s) => s,
    };
    let newc = match row.constant.add(scaled) {
        None => { return false; },
        Some(c) => c,
    };
    row.constant = newc;
    let mut i: usize = 0;
    while i < other.cells.len()
        invariant
            i <= other.cells@.len(),
            row_wf(*row),
            row_wf(*other),
            ratio_wf(coeff),
        decreases other.cells@.len() - i,
    {
        let cell: (Symbol, Ratio) = other.cells[i];
        let c = match coeff.mul(cell.1) {
            None => { return false; },
            Some(c) => c,
        };
        if !row_insert_symbol(row, cell.0, c) {
            return false;
        }
        i = i + 1;
    }
    true
}

/// Negates the whole row.  `false` on overflow.
fn row_reverse_sign(row: &mut Row) -> (ok: bool)
    requires
        row_wf(*old(row)),
    ensures
        row_wf(*final(row)),
{
    let newc = match row.constant.neg() {
        None => { return false; },
        Some(c) => c,
    };
    row.constant = newc;
    let mut i: usize = 0;
    while i < row.cells.len()
        invariant
            i <= row.cells@.len(),
            row_wf(*row),
            row.cells@.len() == old(row).cells@.len(),
            forall|a: int| 0 <= a < row.cells@.len()
                ==> (#[trigger] row.cells@[a]).0 == old(row).cells@[a].0,
        decreases row.cells@.len() - i,
    {
        let cell: (Symbol, Ratio) = row.cells[i];
        let c = match cell.1.neg() {
            None => { return false; },
            Some(c) => c,
        };
        row.cells.set(i, (cell.0, c));
        proof {
            assert(cells_distinct(row.cells@));
        }
        i = i + 1;
    }
    true
}

/// Solves the row for symbol `s`: removes its cell and scales the row by
/// `-1 / coefficient`, so that `s = row` holds.  `false` when `s` has no
/// usable coefficient or on overflow.
fn row_solve_for_symbol(row: &mut Row, s: Symbol) -> (ok: bool)
    requires
        row_wf(*old(row)),
    ensures
        row_wf(*final(row)),
{
    let i = match find_cell(&row.cells, s) {
        None => { return false; },
        Some(i) => i,
    };
    let cell: (Symbol, Ratio) = row.cells[i];
    if cell.1.is_zero() {
        return false;
    }
    let ghost pre = row.cells@;
    let _ = row.cells.swap_remove(i);
    proof {
        lemma_swap_remove_entries(pre, row.cells@, i as int);
    }
    let minus_one = Ratio { num: -1, den: 1 };
    let factor = match minus_one.div(cell.1) {
        None => { return false; },
        Some(f) => f,
    };
    let newc = match factor.mul(row.constant) {
        None => { return false; },
        Some(c) => c,
    };
    row.constant = newc;
    let mut j: usize = 0;
    while j < row.cells.len()
        invariant
            j <= row.cells@.len(),
            row_wf(*row),
            ratio_wf(factor),
        decreases row.cells@.len() - j,
    {
        let c: (Symbol, Ratio) = row.cells[j];
        let n = match factor.mul(c.1) {
            None => { return false; },
            Some(n) => n,
        };
        let ghost before = row.cells@;
        row.cells.set(j, (c.0, n));
        proof {
            assert(forall|a: int| 0 <= a < row.cells@.len()
                ==> (#[trigger] row.cells@[a]).0 == before[a].0);
            assert(cells_distinct(row.cells@));
        }
        j = j + 1;
    }
    true
}

/// Makes `lhs` a cell with coefficient `-1` and then solves for `rhs`, so
/// that the row expresses `rhs` in terms of `lhs` and the rest.
fn row_solve_for_symbols(row: &mut Row, lhs: Symbol, rhs: Symbol) -> (ok: bool)
    requires
        row_wf(*old(row)),
    ensures
        row_wf(*final(row)),
{
    if !row_insert_symbol(row, lhs, Ratio { num: -1, den: 1 }) {
        return false;
    }
    row_solve_for_symbol(row, rhs)
}

/// Replaces symbol `s` in the row, if present, by the given row.  `false`
/// on overflow.
fn row_substitute(row: &mut Row, s: Symbol, other: &Row) -> (ok: bool)
    requires
        row_wf(*old(row)),
        row_wf(*other),
    ensures
        row_wf(*final(row)),
{
    match find_cell(&row.cells, s) {
        None => true,
        Some(i) => {
            let cell: (Symbol, Ratio) = row.cells[i];
            let ghost pre = row.cells@;
            let _ = row.cells.swap_remove(i);
            proof {
                lemma_swap_remove_entries(pre, row.cells@, i as int);
            }
            row_insert_row(row, other, cell.1)
        },
    }
}

/// The coefficient of symbol `s` in the row, zero when absent.
fn row_coeff(row: &Row, s: Symbol) -> (c: Ratio)
    requires
        row_wf(*row),
    ensures
        ratio_wf(c),
        !has_cell(row.cells@, s) ==> c.num == 0,
{
    match find_cell(&row.cells, s) {
        None => Ratio::zero(),
        Some(i) => row.cells[i].1,
    }
}


/// A cap on pivot steps per optimization, a defensive guard against cycling;
/// exceeding it is reported as an internal error.
const PIVOT_LIMIT: u64 = 100_000;

/// Takes the row at index `i` out of the tableau, keeping the remaining
/// basic symbols distinct.
fn take_row(rows: &mut Vec<(Symbol, Row)>, i: usize) -> (r: (Symbol, Row))
    requires
        rows_wf(old(rows)@),
        i < old(rows)@.len(),
    ensures
        rows_wf(final(rows)@),
        r.0 == old(rows)@[i as int].0,
        row_wf(r.1),
        final(rows)@.len() == old(rows)@.len() - 1,
        forall|a: int| 0 <= a < final(rows)@.len()
            ==> (#[trigger] final(rows)@[a]).0 != old(rows)@[i as int].0,
        forall|a: int| 0 <= a < final(rows)@.len()
            ==> #[trigger] final(rows)@[a]
                == (if a == i as int { old(rows)@[old(rows)@.len() - 1] } else { old(rows)@[a] }),
{
    let ghost pre = rows@;
    let r = rows.swap_remove(i);
    proof {
        lemma_swap_remove_entries(pre, rows@, i as int);
        assert forall|a: int| 0 <= a < rows@.len() implies row_wf((#[trigger] rows@[a]).1) by {
            if a == i as int {
                assert(rows@[a] == pre[pre.len() - 1]);
            } else {
                assert(rows@[a] == pre[a]);
            }
        }
    }
    r
}

/// Takes the entry at index `i` out of a `u64`-keyed association list,
/// keeping the remaining keys distinct.
fn take_entry<T>(es: &mut Vec<(u64, T)>, i: usize) -> (r: (u64, T))
    requires
        keys_distinct(old(es)@),
        i < old(es)@.len(),
    ensures
        keys_distinct(final(es)@),
        r == old(es)@[i as int],
        final(es)@.len() == old(es)@.len() - 1,
        forall|a: int| 0 <= a < final(es)@.len()
            ==> (#[trigger] final(es)@[a]).0 != old(es)@[i as int].0,
        forall|a: int| 0 <= a < final(es)@.len()
            ==> #[trigger] final(es)@[a]
                == (if a == i as int { old(es)@[old(es)@.len() - 1] } else { old(es)@[a] }),
{
    let ghost pre = es@;
    let r = es.swap_remove(i);
    proof {
        lemma_swap_remove_entries(pre, es@, i as int);
    }
    r
}

/// Substitutes `s := other` into every tableau row, the objective, and the
/// auxiliary objective.  Basic symbols are unchanged.  `false` on overflow.
fn substitute_all(
    rows: &mut Vec<(Symbol, Row)>,
    objective: &mut Row,
    art: &mut Row,
    s: Symbol,
    other: &Row,
) -> (ok: bool)
    requires
        rows_wf(old(rows)@),
        row_wf(*old(objective)),
        row_wf(*old(art)),
        row_wf(*other),
    ensures
        rows_wf(final(rows)@),
        row_wf(*final(objective)),
        row_wf(*final(art)),
        final(rows)@.len() == old(rows)@.len(),
        forall|a: int| 0 <= a < old(rows)@.len()
            ==> (#[trigger] final(rows)@[a]).0 == old(rows)@[a].0,
{
    let mut i: usize = 0;
    while i < rows.len()
        invariant
            i <= rows@.len(),
            rows_wf(rows@),
            row_wf(*other),
            row_wf(*objective),
            row_wf(*art),
            rows@.len() == old(rows)@.len(),
            forall|a: int| 0 <= a < rows@.len()
                ==> (#[trigger] rows@[a]).0 == old(rows)@[a].0,
        decreases rows@.len() - i,
    {
        let mut slot: (Symbol, Row) = (Symbol { id: 0, kind: SymKind::Dummy }, empty_row());
        rows.set_and_swap(i, &mut slot);
        let (key, mut r) = slot;
        let ok = row_substitute(&mut r, s, other);
        let mut back: (Symbol, Row) = (key, r);
        rows.set_and_swap(i, &mut back);
        proof {
            assert(forall|a: int| 0 <= a < rows@.len()
                ==> (#[trigger] rows@[a]).0 == old(rows)@[a].0);
            assert(rows_distinct(rows@));
        }
        if !ok {
            return false;
        }
        i = i + 1;
    }
    if !row_substitute(objective, s, other) {
        return false;
    }
    row_substitute(art, s, other)
}

/// Removes the column of symbol `s` from every tableau row.
fn remove_column(rows: &mut Vec<(Symbol, Row)>, s: Symbol)
    requires
        rows_wf(old(rows)@),
    ensures
        rows_wf(final(rows)@),
        final(rows)@.len() == old(rows)@.len(),
        forall|a: int| 0 <= a < old(rows)@.len()
            ==> (#[trigger] final(rows)@[a]).0 == old(rows)@[a].0,
{
    let mut i: usize = 0;
    while i < rows.len()
        invariant
            i <= rows@.len(),
            rows_wf(rows@),
            rows@.len() == old(rows)@.len(),
            forall|a: int| 0 <= a < rows@.len()
                ==> (#[trigger] rows@[a]).0 == old(rows)@[a].0,
        decreases rows@.len() - i,
    {
        let mut slot: (Symbol, Row) = (Symbol { id: 0, kind: SymKind::Dummy }, empty_row());
        rows.set_and_swap(i, &mut slot);
        let (key, mut r) = slot;
        row_remove_symbol(&mut r, s);
        let mut back: (Symbol, Row) = (key, r);
        rows.set_and_swap(i, &mut back);
        proof {
            assert(forall|a: int| 0 <= a < rows@.len()
                ==> (#[trigger] rows@[a]).0 == old(rows)@[a].0);
            assert(rows_distinct(rows@));
        }
        i = i + 1;
    }
}

/// One primal simplex optimization over the chosen objective (`art` when
/// `use_art`): pivots until no improving entry remains.  `false` when the
/// objective is unbounded, on overflow, or past the pivot cap.
fn optimize(
    rows: &mut Vec<(Symbol, Row)>,
    objective: &mut Row,
    art: &mut Row,
    use_art: bool,
) -> (ok: bool)
    requires
        rows_wf(old(rows)@),
        row_wf(*old(objective)),
        row_wf(*old(art)),
    ensures
        rows_wf(final(rows)@),
        row_wf(*final(objective)),
        row_wf(*final(art)),
{
    let mut fuel: u64 = PIVOT_LIMIT;
    while fuel > 0
        invariant
            rows_wf(rows@),
            row_wf(*objective),
            row_wf(*art),
        decreases fuel,
    {
        fuel = fuel - 1;
        // Entering symbol: the first non-dummy cell with a negative
        // objective coefficient.
        let mut entering_opt: Option<Symbol> = None;
        {
            let obj: &Row = if use_art { art } else { objective };
            let mut k: usize = 0;
            while k < obj.cells.len()
                invariant
                    k <= obj.cells@.len(),
                decreases obj.cells@.len() - k,
            {
                let cell: (Symbol, Ratio) = obj.cells[k];
                if entering_opt.is_none() && !matches!(cell.0.kind, SymKind::Dummy)
                    && cell.1.num < 0 {
                    entering_opt = Some(cell.0);
                }
                k = k + 1;
            }
        }
        let entering = match entering_opt {
            None => { return true; },
            Some(e) => e,
        };
        // Leaving row: the restricted row with the least ratio
        // `-constant / coefficient` among negative coefficients.
        let mut best: Option<usize> = None;
        let mut best_ratio: Ratio = Ratio::zero();
        let mut i: usize = 0;
        while i < rows.len()
            invariant
                i <= rows@.len(),
                rows_wf(rows@),
                row_wf(*objective),
                row_wf(*art),
                ratio_wf(best_ratio),
                best matches Some(b) ==> b < rows@.len(),
            decreases rows@.len() - i,
        {
            let sym = rows[i].0;
            if !matches!(sym.kind, SymKind::External) {
                let coeff = row_coeff(&rows[i].1, entering);
                if coeff.num < 0 {
                    let cst: Ratio = rows[i].1.constant;
                    let nc = match cst.neg() {
                        None => { return false; },
                        Some(x) => x,
                    };
                    let ratio = match nc.div(coeff) {
                        None => { return false; },
                        Some(x) => x,
                    };
                    if best.is_none() || ratio.lt(best_ratio) {
                        best = Some(i);
                        best_ratio = ratio;
                    }
                }
            }
            i = i + 1;
        }
        let bi = match best {
            None => { return false; },
            Some(b) => b,
        };
        let (leaving, mut lrow) = take_row(rows, bi);
        if !row_solve_for_symbols(&mut lrow, leaving, entering) {
            return false;
        }
        if !substitute_all(rows, objective, art, entering, &lrow) {
            return false;
        }
        if find_basic(rows, entering).is_some() {
            return false;
        }
        rows.push((entering, lrow));
        proof {
            assert(rows_distinct(rows@));
        }
    }
    false
}

/// Dual-simplex pass: restores primal feasibility by pivoting only among
/// the rows whose basic variable became negative.  `false` on failure.
fn dual_optimize(
    rows: &mut Vec<(Symbol, Row)>,
    objective: &mut Row,
    infeasible: &mut Vec<Symbol>,
) -> (ok: bool)
    requires
        rows_wf(old(rows)@),
        row_wf(*old(objective)),
    ensures
        rows_wf(final(rows)@),
        row_wf(*final(objective)),
{
    let mut fuel: u64 = PIVOT_LIMIT;
    while fuel > 0 && infeasible.len() > 0
        invariant
            rows_wf(rows@),
            row_wf(*objective),
        decreases fuel,
    {
        fuel = fuel - 1;
        let leaving = match infeasible.pop() {
            None => { return false; },
            Some(s) => s,
        };
        let i = match find_basic(rows, leaving) {
            None => { continue; },
            Some(i) => i,
        };
        if rows[i].1.constant.num >= 0 {
            continue;
        }
        // Entering symbol: minimize objective coefficient over row
        // coefficient among positive non-dummy cells.
        let mut best: Option<Symbol> = None;
        let mut best_ratio: Ratio = Ratio::zero();
        let mut k: usize = 0;
        while k < rows[i].1.cells.len()
            invariant
                i < rows@.len(),
                k <= rows@[i as int].1.cells@.len(),
                rows_wf(rows@),
                row_wf(*objective),
                ratio_wf(best_ratio),
            decreases rows@[i as int].1.cells@.len() - k,
        {
            let cell: (Symbol, Ratio) = rows[i].1.cells[k];
            if !matches!(cell.0.kind, SymKind::Dummy) && cell.1.num > 0 {
                let oc = row_coeff(objective, cell.0);
                let r = match oc.div(cell.1) {
                    None => { return false; },
                    Some(r) => r,
                };
                if best.is_none() || r.lt(best_ratio) {
                    best = Some(cell.0);
                    best_ratio = r;
                }
            }
            k = k + 1;
        }
        let entering = match best {
            None => { return false; },
            Some(e) => e,
        };
        let (lsym, mut lrow) = take_row(rows, i);
        if !row_solve_for_symbols(&mut lrow, lsym, entering) {
            return false;
        }
        let mut scratch = empty_row();
        if !substitute_all(rows, objective, &mut scratch, entering, &lrow) {
            return false;
        }
        if find_basic(rows, entering).is_some() {
            return false;
        }
        rows.push((entering, lrow));
        proof {
            assert(rows_distinct(rows@));
        }
    }
    infeasible.len() == 0
}

/// The subject to solve the new row for: an external symbol when one
/// occurs, else a negative-coefficient slack or error marker.
fn choose_subject(row: &Row, tag: Tag) -> (r: Option<Symbol>)
    requires
        row_wf(*row),
{
    let mut k: usize = 0;
    while k < row.cells.len()
        invariant
            k <= row.cells@.len(),
        decreases row.cells@.len() - k,
    {
        let cell: (Symbol, Ratio) = row.cells[k];
        if matches!(cell.0.kind, SymKind::External) {
            return Some(cell.0);
        }
        k = k + 1;
    }
    if matches!(tag.marker.kind, SymKind::Slack) || matches!(tag.marker.kind, SymKind::Error) {
        if row_coeff(row, tag.marker).num < 0 {
            return Some(tag.marker);
        }
    }
    match tag.other {
        Some(o) => {
            if matches!(o.kind, SymKind::Slack) || matches!(o.kind, SymKind::Error) {
                if row_coeff(row, o).num < 0 {
                    return Some(o);
                }
            }
        },
        None => {},
    }
    None
}

/// Whether every cell of the row is a dummy symbol.
fn row_all_dummies(row: &Row) -> (r: bool)
{
    let mut k: usize = 0;
    while k < row.cells.len()
        invariant
            k <= row.cells@.len(),
        decreases row.cells@.len() - k,
    {
        if !matches!(row.cells[k].0.kind, SymKind::Dummy) {
            return false;
        }
        k = k + 1;
    }
    true
}

/// The first slack or error cell of the row, used to pivot an artificial
/// variable out of the basis.
fn any_pivotable_symbol(row: &Row) -> (r: Option<Symbol>)
{
    let mut k: usize = 0;
    while k < row.cells.len()
        invariant
            k <= row.cells@.len(),
        decreases row.cells@.len() - k,
    {
        let cell: (Symbol, Ratio) = row.cells[k];
        if matches!(cell.0.kind, SymKind::Slack) || matches!(cell.0.kind, SymKind::Error) {
            return Some(cell.0);
        }
        k = k + 1;
    }
    None
}


/// After pushing a fresh entry, an association list holds a key exactly
/// when the old list held it or it is the new entry's key.
proof fn lemma_push_key_iff<T>(pre: Seq<(u64, T)>, post: Seq<(u64, T)>, e: (u64, T))
    requires
        post == pre.push(e),
    ensures
        forall|id: u64| #[trigger] has_key(post, id) <==> (has_key(pre, id) || id == e.0),
{
    assert forall|id: u64| #[trigger] has_key(post, id) implies (has_key(pre, id) || id == e.0) by {
        let a = choose|a: int| 0 <= a < post.len() && (#[trigger] post[a]).0 == id;
        if a < pre.len() {
            assert(post[a] == pre[a]);
        } else {
            assert(post[a] == e);
        }
    }
    assert forall|id: u64| (has_key(pre, id) || id == e.0) implies #[trigger] has_key(post, id) by {
        if has_key(pre, id) {
            let a = choose|a: int| 0 <= a < pre.len() && (#[trigger] pre[a]).0 == id;
            assert(post[a] == pre[a]);
            assert((post[a]).0 == id);
        } else {
            assert((post[pre.len() as int]).0 == id);
        }
    }
}

/// After a `swap_remove`, an association list with distinct keys holds a
/// key exactly when the old list held it and it is not the removed key.
proof fn lemma_remove_key_iff<T>(pre: Seq<(u64, T)>, post: Seq<(u64, T)>, i: int)
    requires
        0 <= i < pre.len(),
        keys_distinct(pre),
        post.len() == pre.len() - 1,
        forall|a: int| 0 <= a < post.len()
            ==> #[trigger] post[a] == (if a == i { pre[pre.len() - 1] } else { pre[a] }),
    ensures
        forall|id: u64| #[trigger] has_key(post, id) <==> (has_key(pre, id) && id != pre[i].0),
{
    assert forall|id: u64| #[trigger] has_key(post, id)
        implies (has_key(pre, id) && id != pre[i].0) by {
        let a = choose|a: int| 0 <= a < post.len() && (#[trigger] post[a]).0 == id;
        if a == i {
            assert(post[a] == pre[pre.len() - 1]);
            assert((pre[pre.len() - 1]).0 == id);
        } else {
            assert(post[a] == pre[a]);
            assert((pre[a]).0 == id);
        }
    }
    assert forall|id: u64| (has_key(pre, id) && id != pre[i].0)
        implies #[trigger] has_key(post, id) by {
        let m = choose|m: int| 0 <= m < pre.len() && (#[trigger] pre[m]).0 == id;
        assert(m != i);
        if m == pre.len() - 1 {
            assert(post[i] == pre[m]);
            assert((post[i]).0 == id);
        } else {
            assert(post[m] == pre[m]);
            assert((post[m]).0 == id);
        }
    }
}

/// Two solvers that assign every variable the same current value give
/// every term sequence the same value.
proof fn lemma_eval_congruent(s1: Solver, s2: Solver, terms: Seq<Term>)
    requires
        forall|u: Variable| #[trigger] s1.current_value(u) == s2.current_value(u),
    ensures
        eval_terms(s1, terms) == eval_terms(s2, terms),
    decreases terms.len(),
{
    if terms.len() > 0 {
        lemma_eval_congruent(s1, s2, terms.drop_last());
        assert(s1.current_value(terms.last().variable)
            == s2.current_value(terms.last().variable));
    }
}

/// Two solvers whose stored forms are entrywise equal record exactly the
/// same constraints.
proof fn lemma_records_equiv(s1: Solver, s2: Solver)
    requires
        s2.forms@.len() == s1.forms@.len(),
        forall|a: int| 0 <= a < s1.forms@.len()
            ==> (#[trigger] s2.forms@[a]).0 == s1.forms@[a].0
                && s2.forms@[a].1.terms@ == s1.forms@[a].1.terms@
                && s2.forms@[a].1.constant == s1.forms@[a].1.constant
                && s2.forms@[a].1.operator == s1.forms@[a].1.operator
                && s2.forms@[a].1.required == s1.forms@[a].1.required,
    ensures
        forall|u: Constraint| #[trigger] s1.records(u) <==> s2.records(u),
{
    assert forall|u: Constraint| #[trigger] s1.records(u) implies s2.records(u) by {
        let i = choose|i: int| #[trigger] s1.records_at(u, i);
        assert(s2.records_at(u, i));
    }
    assert forall|u: Constraint| #[trigger] s2.records(u) implies s1.records(u) by {
        let i = choose|i: int| #[trigger] s2.records_at(u, i);
        assert(s1.records_at(u, i));
    }
}

/// A copy of the tableau rows, entry by entry.
fn dup_rows(rs: &Vec<(Symbol, Row)>) -> (d: Vec<(Symbol, Row)>)
    requires
        rows_wf(rs@),
    ensures
        rows_wf(d@),
        d@.len() == rs@.len(),
        forall|a: int| 0 <= a < rs@.len() ==> (#[trigger] d@[a]).0 == rs@[a].0
            && d@[a].1.cells@ == rs@[a].1.cells@
            && d@[a].1.constant == rs@[a].1.constant,
{
    let mut d: Vec<(Symbol, Row)> = Vec::new();
    let mut i: usize = 0;
    while i < rs.len()
        invariant
            i <= rs@.len(),
            rows_wf(rs@),
            d@.len() == i,
            forall|a: int| 0 <= a < i ==> (#[trigger] d@[a]).0 == rs@[a].0
                && d@[a].1.cells@ == rs@[a].1.cells@
                && d@[a].1.constant == rs@[a].1.constant,
        decreases rs@.len() - i,
    {
        let key = rs[i].0;
        let rc = dup_row(&rs[i].1);
        proof {
            assert(row_wf(rs@[i as int].1));
            assert(row_wf(rc));
        }
        d.push((key, rc));
        i = i + 1;
    }
    proof {
        assert(rows_distinct(d@));
        assert forall|a: int| 0 <= a < d@.len() implies row_wf((#[trigger] d@[a]).1) by {
            assert(row_wf(rs@[a].1));
        }
    }
    d
}

/// A copy of the stored constraint forms, entry by entry.
fn dup_forms(fs: &Vec<(u64, StoredCn)>) -> (d: Vec<(u64, StoredCn)>)
    ensures
        d@.len() == fs@.len(),
        forall|a: int| 0 <= a < fs@.len() ==> (#[trigger] d@[a]).0 == fs@[a].0
            && d@[a].1.terms@ == fs@[a].1.terms@
            && d@[a].1.constant == fs@[a].1.constant
            && d@[a].1.operator == fs@[a].1.operator
            && d@[a].1.required == fs@[a].1.required,
{
    let mut d: Vec<(u64, StoredCn)> = Vec::new();
    let mut i: usize = 0;
    while i < fs.len()
        invariant
            i <= fs@.len(),
            d@.len() == i,
            forall|a: int| 0 <= a < i ==> (#[trigger] d@[a]).0 == fs@[a].0
                && d@[a].1.terms@ == fs@[a].1.terms@
                && d@[a].1.constant == fs@[a].1.constant
                && d@[a].1.operator == fs@[a].1.operator
                && d@[a].1.required == fs@[a].1.required,
        decreases fs@.len() - i,
    {
        let key = fs[i].0;
        let f = &fs[i].1;
        d.push((key, StoredCn {
            terms: dup_vec(&f.terms),
            constant: f.constant,
            operator: f.operator,
            required: f.required,
        }));
        i = i + 1;
    }
    d
}

/// Adds `d` to the constant of row `i`, reporting whether the new constant
/// is negative.  `Err` on overflow.
fn row_constant_add(rows: &mut Vec<(Symbol, Row)>, i: usize, d: Ratio) -> (r: Result<bool, ()>)
    requires
        rows_wf(old(rows)@),
        i < old(rows)@.len(),
        ratio_wf(d),
    ensures
        rows_wf(final(rows)@),
        final(rows)@.len() == old(rows)@.len(),
        forall|a: int| 0 <= a < old(rows)@.len()
            ==> (#[trigger] final(rows)@[a]).0 == old(rows)@[a].0,
{
    let mut slot: (Symbol, Row) = (Symbol { id: 0, kind: SymKind::Dummy }, empty_row());
    rows.set_and_swap(i, &mut slot);
    let (key, mut r) = slot;
    let ghost prewf = row_wf(r);
    let newc = match r.constant.add(d) {
        None => {
            let mut back: (Symbol, Row) = (key, r);
            rows.set_and_swap(i, &mut back);
            proof {
                assert(forall|a: int| 0 <= a < rows@.len()
                    ==> (#[trigger] rows@[a]).0 == old(rows)@[a].0);
                assert(rows_distinct(rows@));
            }
            return Err(());
        },
        Some(c) => c,
    };
    r.constant = newc;
    let neg = r.constant.num < 0;
    let mut back: (Symbol, Row) = (key, r);
    rows.set_and_swap(i, &mut back);
    proof {
        assert(forall|a: int| 0 <= a < rows@.len()
            ==> (#[trigger] rows@[a]).0 == old(rows)@[a].0);
        assert(rows_distinct(rows@));
    }
    Ok(neg)
}


/// The current tableau value of a symbol.
fn current_of(rs: &Vec<(Symbol, Row)>, s: Symbol) -> (c: Ratio)
    requires
        rows_wf(rs@),
    ensures
        c == sym_constant(rs@, s),
        ratio_wf(c),
{
    proof {
        reveal(sym_constant);
    }
    match find_basic(rs, s) {
        Some(j) => {
            proof {
                assert(has_basic(rs@, s));
                let b = basic_index(rs@, s);
                if b != j as int {
                    assert((rs@[b]).0 == s);
                    assert(false);
                }
                assert(row_wf(rs@[j as int].1));
            }
            rs[j].1.constant
        },
        None => Ratio::zero(),
    }
}

/// Whether some pair of the report list names this variable.
pub open spec fn reports_id(out: Seq<(Variable, Ratio)>, id: u64) -> bool {
    exists|j: int| 0 <= j < out.len() && (#[trigger] out[j]).0.id == id
}

/// Turns the report bookkeeping of a change extraction into its public
/// statement: every reported pair is a due change with its current value,
/// every due change is reported, and no variable is reported twice.
proof fn lemma_fetch_report(s: Solver, out: Seq<(Variable, Ratio)>, picks: Seq<int>, rev: Seq<int>)
    requires
        picks.len() == out.len(),
        forall|j: int| 0 <= j < out.len() ==> 0 <= #[trigger] picks[j] < s.tracked_count(),
        forall|j: int| 0 <= j < out.len()
            ==> (#[trigger] out[j]).0.id == s.tracked_id(picks[j])
                && out[j].1 == s.tracked_current(picks[j])
                && s.change_due(picks[j]),
        forall|j1: int, j2: int| 0 <= j1 < j2 < out.len()
            ==> #[trigger] picks[j1] < #[trigger] picks[j2],
        rev.len() == s.tracked_count(),
        forall|k: int| 0 <= k < s.tracked_count() && #[trigger] s.change_due(k)
            ==> 0 <= rev[k] < out.len() && out[rev[k]].0.id == s.tracked_id(k),
        forall|k1: int, k2: int| 0 <= k1 < k2 < s.tracked_count()
            ==> #[trigger] s.tracked_id(k1) != #[trigger] s.tracked_id(k2),
    ensures
        forall|j: int| 0 <= j < out.len() ==> s.reported(#[trigger] out[j]),
        forall|i: int| 0 <= i < s.tracked_count() && #[trigger] s.change_due(i)
            ==> reports_id(out, s.tracked_id(i)),
        forall|j1: int, j2: int| 0 <= j1 < j2 < out.len()
            ==> (#[trigger] out[j1]).0.id != (#[trigger] out[j2]).0.id,
{
    assert forall|j: int| 0 <= j < out.len() implies s.reported(#[trigger] out[j]) by {
        let kw = picks[j];
        assert(0 <= kw < s.tracked_count());
        assert(out[j].0.id == s.tracked_id(kw));
        assert(s.change_due(kw));
        assert(out[j].1 == s.tracked_current(kw));
        assert(s.reported(out[j]));
    }
    assert forall|i: int| 0 <= i < s.tracked_count() && #[trigger] s.change_due(i)
        implies reports_id(out, s.tracked_id(i)) by {
        let jw = rev[i];
        assert(0 <= jw < out.len() && out[jw].0.id == s.tracked_id(i));
        assert(reports_id(out, s.tracked_id(i)));
    }
    assert forall|j1: int, j2: int| 0 <= j1 < j2 < out.len()
        implies (#[trigger] out[j1]).0.id != (#[trigger] out[j2]).0.id by {
        assert(picks[j1] < picks[j2]);
        assert(s.tracked_id(picks[j1]) != s.tracked_id(picks[j2]));
    }
}

/// Exact rational addition on (numerator, denominator) pairs.
pub open spec fn rp_add(a: (int, int), b: (int, int)) -> (int, int) {
    (a.0 * b.1 + b.0 * a.1, a.1 * b.1)
}

/// Adding exact rational pairs is associative.
#[verifier::rlimit(100)]
proof fn lemma_rp_add_assoc(a: (int, int), b: (int, int), c: (int, int))
    ensures
        rp_add(a, rp_add(b, c)) == rp_add(rp_add(a, b), c),
{
    assert(a.0 * (b.1 * c.1) == (a.0 * b.1) * c.1) by (nonlinear_arith);
    assert((b.0 * c.1 + c.0 * b.1) * a.1 == (b.0 * a.1) * c.1 + c.0 * (a.1 * b.1))
        by (nonlinear_arith);
    assert((a.0 * b.1) * c.1 + (b.0 * a.1) * c.1 == (a.0 * b.1 + b.0 * a.1) * c.1)
        by (nonlinear_arith);
    assert(a.1 * (b.1 * c.1) == (a.1 * b.1) * c.1) by (nonlinear_arith);
}

/// If `a` denotes the pair `p`, `b` denotes the pair `q`, and `c` is the
/// exact sum of `a` and `b`, then `c` denotes the pair sum of `p` and `q`.
#[verifier::rlimit(100)]
proof fn lemma_sum_denotes(a: Ratio, b: Ratio, c: Ratio, p: (int, int), q: (int, int))
    requires
        sum_val(c, a, b),
        a.num * p.1 == p.0 * a.den,
        b.num * q.1 == q.0 * b.den,
        a.den > 0,
        b.den > 0,
        c.den > 0,
        p.1 > 0,
        q.1 > 0,
    ensures
        c.num * (rp_add(p, q)).1 == (rp_add(p, q)).0 * c.den,
{
    let k = a.den * b.den;
    let m = p.1 * q.1;
    let u = a.num * b.den + b.num * a.den;
    let w = p.0 * q.1 + q.0 * p.1;
    assert(c.num * m * k == u * c.den * m) by (nonlinear_arith)
        requires
            c.num * (a.den * b.den) == u * c.den,
            k == a.den * b.den,
            m == p.1 * q.1,
    ;
    assert((a.num * b.den) * m == (a.num * p.1) * (b.den * q.1)) by (nonlinear_arith)
        requires
            m == p.1 * q.1,
    ;
    assert((b.num * a.den) * m == (b.num * q.1) * (a.den * p.1)) by (nonlinear_arith)
        requires
            m == p.1 * q.1,
    ;
    assert(u * m == (a.num * b.den) * m + (b.num * a.den) * m) by (nonlinear_arith)
        requires
            u == a.num * b.den + b.num * a.den,
    ;
    assert((a.num * p.1) * (b.den * q.1) == (p.0 * a.den) * (b.den * q.1)) by (nonlinear_arith)
        requires
            a.num * p.1 == p.0 * a.den,
    ;
    assert((b.num * q.1) * (a.den * p.1) == (q.0 * b.den) * (a.den * p.1)) by (nonlinear_arith)
        requires
            b.num * q.1 == q.0 * b.den,
    ;
    assert((p.0 * a.den) * (b.den * q.1) == (p.0 * q.1) * k) by (nonlinear_arith)
        requires
            k == a.den * b.den,
    ;
    assert((q.0 * b.den) * (a.den * p.1) == (q.0 * p.1) * k) by (nonlinear_arith)
        requires
            k == a.den * b.den,
    ;
    assert(w * k == (p.0 * q.1) * k + (q.0 * p.1) * k) by (nonlinear_arith)
        requires
            w == p.0 * q.1 + q.0 * p.1,
    ;
    assert(u * m == w * k);
    assert(u * c.den * m == (u * m) * c.den) by (nonlinear_arith);
    assert((w * k) * c.den == w * c.den * k) by (nonlinear_arith);
    assert(c.num * m * k == w * c.den * k);
    assert(k > 0) by (nonlinear_arith)
        requires
            a.den > 0,
            b.den > 0,
            k == a.den * b.den,
    ;
    assert(c.num * m == w * c.den) by (nonlinear_arith)
        requires
            c.num * m * k == w * c.den * k,
            k > 0,
    ;
}

/// The value of a prefix-closed term sequence at the solver's current
/// values, as an exact rational (numerator, denominator) pair.
pub open spec fn eval_terms(s: Solver, terms: Seq<Term>) -> (int, int)
    decreases terms.len(),
{
    if terms.len() == 0 {
        (0int, 1int)
    } else {
        let t = terms.last();
        let v = s.current_value(t.variable);
        rp_add(eval_terms(s, terms.drop_last()),
            (t.coefficient.num * v.num, t.coefficient.den * v.den))
    }
}

/// The value of a linear form (terms plus constant) at the solver's
/// current values, as an exact rational (numerator, denominator) pair.
pub open spec fn lin_value(s: Solver, terms: Seq<Term>, k: Ratio) -> (int, int) {
    rp_add((k.num as int, k.den as int), eval_terms(s, terms))
}

/// The value of a linear expression at the solver's current values.
pub open spec fn eval_expression(s: Solver, e: Expression) -> (int, int) {
    lin_value(s, e.terms@, e.constant)
}

/// The rational pair stands in the given relation to zero.
pub open spec fn relation_holds(p: (int, int), op: RelOp) -> bool {
    match op {
        RelOp::LessOrEqual => p.0 * p.1 <= 0,
        RelOp::Equal => p.0 == 0,
        RelOp::GreaterOrEqual => p.0 * p.1 >= 0,
    }
}

/// The incremental constraint solver.
///
/// It owns the constraint set, the tableau, the edit-variable entries, and
/// the snapshot of last-reported variable values.  Every mutating call
/// either completes and leaves a consistent state or fails and leaves the
/// pre-call state unchanged.
#[derive(Debug)]
pub struct Solver {
    rows: Vec<(Symbol, Row)>,
    objective: Row,
    cns: Vec<(u64, CnInfo)>,
    forms: Vec<(u64, StoredCn)>,
    edits: Vec<(u64, EditInfo)>,
    vars: Vec<(u64, VarInfo)>,
    next_symbol: u64,
}

impl Solver {
    /// Internal well-formedness: the tableau rows and objective are
    /// well-formed with distinct basic symbols, and every bookkeeping list
    /// has distinct keys and well-formed values.
    pub closed spec fn wf(self) -> bool {
        &&& rows_wf(self.rows@)
        &&& row_wf(self.objective)
        &&& keys_distinct(self.cns@)
        &&& keys_distinct(self.edits@)
        &&& keys_distinct(self.vars@)
        &&& keys_distinct(self.forms@)
        &&& forall|i: int| 0 <= i < self.forms@.len()
            ==> ratio_wf((#[trigger] self.forms@[i]).1.constant)
        &&& forall|i: int, t: int| 0 <= i < self.forms@.len()
                && 0 <= t < (#[trigger] self.forms@[i]).1.terms@.len()
            ==> ratio_wf(#[trigger] self.forms@[i].1.terms@[t].coefficient)
        &&& forall|i: int| 0 <= i < self.edits@.len()
            ==> ratio_wf((#[trigger] self.edits@[i]).1.constant)
        &&& forall|i: int| 0 <= i < self.vars@.len()
            ==> ratio_wf((#[trigger] self.vars@[i]).1.last)
        &&& forall|i: int| 0 <= i < self.cns@.len()
            ==> (#[trigger] self.cns@[i]).1.strength <= REQUIRED_MAGNITUDE
        &&& forall|i: int| 0 <= i < self.edits@.len()
            ==> (#[trigger] self.edits@[i]).1.strength < REQUIRED_MAGNITUDE
    }

    /// Whether the constraint with this identity is currently tracked.
    pub closed spec fn has_constraint(self, id: u64) -> bool {
        has_key(self.cns@, id)
    }

    /// Whether the variable currently has an edit entry.
    pub closed spec fn has_edit(self, v: Variable) -> bool {
        has_key(self.edits@, v.id)
    }

    /// The current suggested value of an edit variable.
    pub closed spec fn edit_target(self, v: Variable) -> Ratio {
        self.edits@[key_index(self.edits@, v.id)].1.constant
    }

    /// How many variables the solver tracks (every variable that has
    /// appeared in an added constraint or edit entry).
    pub closed spec fn tracked_count(self) -> nat {
        self.vars@.len()
    }

    /// The handle of the `i`-th tracked variable.
    pub closed spec fn tracked_id(self, i: int) -> u64 {
        self.vars@[i].0
    }

    /// The snapshot value last reported for the `i`-th tracked variable.
    pub closed spec fn tracked_last(self, i: int) -> Ratio {
        self.vars@[i].1.last
    }

    /// The current tableau-derived value of the `i`-th tracked variable.
    pub closed spec fn tracked_current(self, i: int) -> Ratio {
        sym_constant(self.rows@, self.vars@[i].1.symbol)
    }

    /// Whether the `i`-th tracked variable's tableau value differs from its
    /// last-reported snapshot value, so that a report of it is due.
    #[verifier::opaque]
    pub closed spec fn change_due(self, i: int) -> bool {
        !eq_val(self.tracked_current(i), self.tracked_last(i))
    }

    /// Primal feasibility of the tableau: every basic slack, error, or
    /// dummy variable (the ones bounded below by zero) has a nonnegative
    /// row constant.  Every successful mutation leaves the solver feasible.
    pub closed spec fn feasible(self) -> bool {
        forall|i: int| 0 <= i < self.rows@.len()
                && (#[trigger] self.rows@[i]).0.kind != SymKind::External
            ==> self.rows@[i].1.constant.num >= 0
    }

    /// Local optimality of the weighted objective under primal simplex: no
    /// non-dummy objective cell has a negative coefficient, so no improving
    /// pivot remains.
    pub closed spec fn objective_optimal(self) -> bool {
        forall|i: int| 0 <= i < self.objective.cells@.len()
                && (#[trigger] self.objective.cells@[i]).0.kind != SymKind::Dummy
            ==> self.objective.cells@[i].1.num >= 0
    }

    /// The constraint holds of the solver's current values: its expression,
    /// evaluated exactly at the tracked variables' current values, stands in
    /// the constraint's relation to zero.
    pub open spec fn constraint_satisfied(self, c: Constraint) -> bool {
        relation_holds(eval_expression(self, c.expression), c.operator)
    }

    /// Every tracked required constraint holds of the solver's current
    /// values.
    pub closed spec fn required_satisfied(self) -> bool {
        forall|i: int| 0 <= i < self.forms@.len() && (#[trigger] self.forms@[i]).1.required
            ==> relation_holds(
                lin_value(self, self.forms@[i].1.terms@, self.forms@[i].1.constant),
                self.forms@[i].1.operator)
    }

    /// The solver stores the constraint's linear form at index `i`.
    pub closed spec fn records_at(self, c: Constraint, i: int) -> bool {
        &&& 0 <= i < self.forms@.len()
        &&& (self.forms@[i]).0 == c.id
        &&& self.forms@[i].1.terms@ == c.expression.terms@
        &&& self.forms@[i].1.constant == c.expression.constant
        &&& self.forms@[i].1.operator == c.operator
        &&& self.forms@[i].1.required == c.strength.is_required()
    }

    /// The solver tracks the constraint with its exact linear form, so
    /// that `required_satisfied` speaks of it when it is required.
    pub closed spec fn records(self, c: Constraint) -> bool {
        exists|i: int| #[trigger] self.records_at(c, i)
    }

    /// The pair is a faithful report: it names a tracked variable whose
    /// value moved since the last extraction, paired with that variable's
    /// current value.
    pub open spec fn reported(self, p: (Variable, Ratio)) -> bool {
        exists|i: int| 0 <= i < self.tracked_count()
            && p.0.id == #[trigger] self.tracked_id(i)
            && self.change_due(i)
            && p.1 == self.tracked_current(i)
    }

    /// The snapshot agrees with the tableau for every tracked variable:
    /// nothing has changed since the last extraction.
    pub closed spec fn clean(self) -> bool {
        forall|i: int| 0 <= i < self.tracked_count()
            ==> eq_val(#[trigger] self.tracked_current(i), self.tracked_last(i))
    }

    /// The current tableau-derived value of a variable, zero when never
    /// tracked.
    pub closed spec fn current_value(self, v: Variable) -> Ratio {
        if has_key(self.vars@, v.id) {
            sym_constant(self.rows@, self.vars@[key_index(self.vars@, v.id)].1.symbol)
        } else {
            Ratio { num: 0, den: 1 }
        }
    }

    /// The last-reported value of a variable, zero when never tracked.
    pub closed spec fn snapshot_value(self, v: Variable) -> Ratio {
        if has_key(self.vars@, v.id) {
            self.vars@[key_index(self.vars@, v.id)].1.last
        } else {
            Ratio { num: 0, den: 1 }
        }
    }

    /// An empty solver: no constraints, no edit variables, no tracked
    /// variables.
    pub fn new() -> (s: Solver)
        ensures
            s.wf(),
            s.tracked_count() == 0,
            forall|id: u64| !(#[trigger] s.has_constraint(id)),
            forall|v: Variable| !(#[trigger] s.has_edit(v)),
            forall|u: Constraint| !(#[trigger] s.records(u)),
            s.clean(),
            s.feasible(),
            s.objective_optimal(),
            s.required_satisfied(),
    {
        Solver {
            rows: Vec::new(),
            objective: empty_row(),
            cns: Vec::new(),
            forms: Vec::new(),
            edits: Vec::new(),
            vars: Vec::new(),
            next_symbol: 0,
        }
    }

    /// A deep copy of the whole solver state; mutating calls work on it
    /// and commit only on success.
    fn duplicate(&self) -> (w: Solver)
        requires
            self.wf(),
        ensures
            w.wf(),
            w.cns@ == self.cns@,
            w.edits@ == self.edits@,
            w.vars@ == self.vars@,
            w.forms@.len() == self.forms@.len(),
            forall|a: int| 0 <= a < self.forms@.len()
                ==> (#[trigger] w.forms@[a]).0 == self.forms@[a].0
                    && w.forms@[a].1.terms@ == self.forms@[a].1.terms@
                    && w.forms@[a].1.constant == self.forms@[a].1.constant
                    && w.forms@[a].1.operator == self.forms@[a].1.operator
                    && w.forms@[a].1.required == self.forms@[a].1.required,
            forall|sym: Symbol| #[trigger] sym_constant(w.rows@, sym)
                == sym_constant(self.rows@, sym),
    {
        let w = Solver {
            rows: dup_rows(&self.rows),
            objective: dup_row(&self.objective),
            cns: dup_vec(&self.cns),
            forms: dup_forms(&self.forms),
            edits: dup_vec(&self.edits),
            vars: dup_vec(&self.vars),
            next_symbol: self.next_symbol,
        };
        proof {
            assert forall|sym: Symbol| #[trigger] sym_constant(w.rows@, sym)
                == sym_constant(self.rows@, sym) by {
                reveal(sym_constant);
                if has_basic(self.rows@, sym) {
                    let a = basic_index(self.rows@, sym);
                    assert((w.rows@[a]).0 == sym);
                    assert(has_basic(w.rows@, sym));
                    let b = basic_index(w.rows@, sym);
                    if b != a {
                        assert((w.rows@[b]).0 == sym);
                        assert((self.rows@[b]).0 == sym);
                        assert(false);
                    }
                } else {
                    if has_basic(w.rows@, sym) {
                        let b = basic_index(w.rows@, sym);
                        assert((self.rows@[b]).0 == sym);
                        assert(false);
                    }
                }
            }
        }
        w
    }

    /// The symbol standing for a caller-visible variable, created and
    /// tracked on first sight.
    fn get_var_symbol(&mut self, v: Variable) -> (r: Result<Symbol, SolverError>)
        requires
            old(self).wf(),
        ensures
            final(self).wf(),
            final(self).forms == old(self).forms,
            final(self).cns@ == old(self).cns@,
            final(self).edits@ == old(self).edits@,
            final(self).rows == old(self).rows,
            final(self).objective == old(self).objective,
            final(self).vars@.len() >= old(self).vars@.len(),
            forall|a: int| 0 <= a < old(self).vars@.len()
                ==> #[trigger] final(self).vars@[a] == old(self).vars@[a],
            r matches Err(e) ==> e == SolverError::InternalSolverError,
    {
        match find_key_at(&self.vars, v.id) {
            Some(i) => Ok(self.vars[i].1.symbol),
            None => {
                if self.next_symbol == u64::MAX {
                    return Err(SolverError::InternalSolverError);
                }
                let sym = Symbol { id: self.next_symbol, kind: SymKind::External };
                self.next_symbol = self.next_symbol + 1;
                self.vars.push((v.id, VarInfo { symbol: sym, last: Ratio::zero() }));
                proof {
                    assert(keys_distinct(self.vars@));
                }
                Ok(sym)
            },
        }
    }

    /// Builds the tableau row for `expression OP 0` at the given strength:
    /// substitutes basic variables, adds slack, error, or dummy symbols,
    /// and enters error symbols into the objective.
    fn create_row(&mut self, e: &Expression, op: RelOp, strength: u64)
        -> (r: Result<(Row, Tag), SolverError>)
        requires
            old(self).wf(),
            expression_wf(*e),
            strength <= REQUIRED_MAGNITUDE,
        ensures
            final(self).wf(),
            final(self).forms == old(self).forms,
            final(self).cns@ == old(self).cns@,
            final(self).edits@ == old(self).edits@,
            final(self).vars@.len() >= old(self).vars@.len(),
            forall|a: int| 0 <= a < old(self).vars@.len()
                ==> #[trigger] final(self).vars@[a] == old(self).vars@[a],
            r matches Ok(p) ==> row_wf(p.0),
            r matches Err(e2) ==> e2 == SolverError::InternalSolverError,
    {
        let mut row = empty_row();
        row.constant = e.constant;
        let mut i: usize = 0;
        while i < e.terms.len()
            invariant
                i <= e.terms@.len(),
                expression_wf(*e),
                self.wf(),
                row_wf(row),
                self.forms == old(self).forms,
                self.cns@ == old(self).cns@,
                self.edits@ == old(self).edits@,
                self.vars@.len() >= old(self).vars@.len(),
                forall|a: int| 0 <= a < old(self).vars@.len()
                    ==> #[trigger] self.vars@[a] == old(self).vars@[a],
            decreases e.terms@.len() - i,
        {
            let t: crate::linear::Term = e.terms[i];
            if !t.coefficient.is_zero() {
                let sym = match self.get_var_symbol(t.variable) {
                    Err(e2) => { return Err(e2); },
                    Ok(s) => s,
                };
                match find_basic(&self.rows, sym) {
                    Some(j) => {
                        if !row_insert_row(&mut row, &self.rows[j].1, t.coefficient) {
                            return Err(SolverError::InternalSolverError);
                        }
                    },
                    None => {
                        if !row_insert_symbol(&mut row, sym, t.coefficient) {
                            return Err(SolverError::InternalSolverError);
                        }
                    },
                }
            }
            i = i + 1;
        }
        let tag: Tag;
        match op {
            RelOp::LessOrEqual | RelOp::GreaterOrEqual => {
                let coeff = if matches!(op, RelOp::LessOrEqual) {
                    Ratio { num: 1, den: 1 }
                } else {
                    Ratio { num: -1, den: 1 }
                };
                if self.next_symbol == u64::MAX {
                    return Err(SolverError::InternalSolverError);
                }
                let slack = Symbol { id: self.next_symbol, kind: SymKind::Slack };
                self.next_symbol = self.next_symbol + 1;
                if !row_insert_symbol(&mut row, slack, coeff) {
                    return Err(SolverError::InternalSolverError);
                }
                if strength < REQUIRED_MAGNITUDE {
                    if self.next_symbol == u64::MAX {
                        return Err(SolverError::InternalSolverError);
                    }
                    let error = Symbol { id: self.next_symbol, kind: SymKind::Error };
                    self.next_symbol = self.next_symbol + 1;
                    let minus_coeff = Ratio { num: if coeff.num == 1 { -1 } else { 1 }, den: 1 };
                    if !row_insert_symbol(&mut row, error, minus_coeff) {
                        return Err(SolverError::InternalSolverError);
                    }
                    if !row_insert_symbol(&mut self.objective, error,
                        Ratio { num: strength as i64, den: 1 }) {
                        return Err(SolverError::InternalSolverError);
                    }
                    tag = Tag { marker: slack, other: Some(error) };
                } else {
                    tag = Tag { marker: slack, other: None };
                }
            },
            RelOp::Equal => {
                if strength < REQUIRED_MAGNITUDE {
                    if self.next_symbol >= u64::MAX - 1 {
                        return Err(SolverError::InternalSolverError);
                    }
                    let errplus = Symbol { id: self.next_symbol, kind: SymKind::Error };
                    let errminus = Symbol { id: self.next_symbol + 1, kind: SymKind::Error };
                    self.next_symbol = self.next_symbol + 2;
                    if !row_insert_symbol(&mut row, errplus, Ratio { num: -1, den: 1 }) {
                        return Err(SolverError::InternalSolverError);
                    }
                    if !row_insert_symbol(&mut row, errminus, Ratio { num: 1, den: 1 }) {
                        return Err(SolverError::InternalSolverError);
                    }
                    let w = Ratio { num: strength as i64, den: 1 };
                    if !row_insert_symbol(&mut self.objective, errplus, w) {
                        return Err(SolverError::InternalSolverError);
                    }
                    if !row_insert_symbol(&mut self.objective, errminus, w) {
                        return Err(SolverError::InternalSolverError);
                    }
                    tag = Tag { marker: errplus, other: Some(errminus) };
                } else {
                    if self.next_symbol == u64::MAX {
                        return Err(SolverError::InternalSolverError);
                    }
                    let dummy = Symbol { id: self.next_symbol, kind: SymKind::Dummy };
                    self.next_symbol = self.next_symbol + 1;
                    if !row_insert_symbol(&mut row, dummy, Ratio { num: 1, den: 1 }) {
                        return Err(SolverError::InternalSolverError);
                    }
                    tag = Tag { marker: dummy, other: None };
                }
            },
        }
        if row.constant.num < 0 {
            if !row_reverse_sign(&mut row) {
                return Err(SolverError::InternalSolverError);
            }
        }
        Ok((row, tag))
    }

    /// Runs one primal optimization of the main objective.
    fn optimize_main(&mut self) -> (ok: bool)
        requires
            old(self).wf(),
        ensures
            final(self).wf(),
            final(self).forms == old(self).forms,
            final(self).cns@ == old(self).cns@,
            final(self).edits@ == old(self).edits@,
            final(self).vars@ == old(self).vars@,
    {
        let mut scratch = empty_row();
        optimize(&mut self.rows, &mut self.objective, &mut scratch, false)
    }

    /// Uses the standard artificial-variable technique to find a feasible
    /// basis for a row with no usable subject.  `Ok(false)` means the
    /// required constraint set is infeasible.
    fn add_with_artificial(&mut self, row: &Row) -> (r: Result<bool, SolverError>)
        requires
            old(self).wf(),
            row_wf(*row),
        ensures
            final(self).wf(),
            final(self).forms == old(self).forms,
            final(self).cns@ == old(self).cns@,
            final(self).edits@ == old(self).edits@,
            final(self).vars@ == old(self).vars@,
            r matches Err(e2) ==> e2 == SolverError::InternalSolverError,
    {
        if self.next_symbol == u64::MAX {
            return Err(SolverError::InternalSolverError);
        }
        let art = Symbol { id: self.next_symbol, kind: SymKind::Slack };
        self.next_symbol = self.next_symbol + 1;
        if find_basic(&self.rows, art).is_some() {
            return Err(SolverError::InternalSolverError);
        }
        let rowcopy = dup_row(row);
        proof {
            assert(row_wf(rowcopy));
        }
        self.rows.push((art, rowcopy));
        proof {
            assert(rows_distinct(self.rows@));
        }
        let mut artrow = dup_row(row);
        proof {
            assert(row_wf(artrow));
        }
        if !optimize(&mut self.rows, &mut self.objective, &mut artrow, true) {
            return Err(SolverError::InternalSolverError);
        }
        let success = artrow.constant.is_zero();
        match find_basic(&self.rows, art) {
            None => {},
            Some(i) => {
                let (asym, mut arow) = take_row(&mut self.rows, i);
                if arow.cells.len() == 0 {
                    // The artificial row became trivial; drop it.
                } else {
                    match any_pivotable_symbol(&arow) {
                        None => { return Ok(false); },
                        Some(entering) => {
                            if !row_solve_for_symbols(&mut arow, asym, entering) {
                                return Err(SolverError::InternalSolverError);
                            }
                            let mut scratch = empty_row();
                            if !substitute_all(&mut self.rows, &mut self.objective,
                                &mut scratch, entering, &arow) {
                                return Err(SolverError::InternalSolverError);
                            }
                            if find_basic(&self.rows, entering).is_some() {
                                return Err(SolverError::InternalSolverError);
                            }
                            self.rows.push((entering, arow));
                            proof {
                                assert(rows_distinct(self.rows@));
                            }
                        },
                    }
                }
            },
        }
        remove_column(&mut self.rows, art);
        row_remove_symbol(&mut self.objective, art);
        Ok(success)
    }

    /// Enters a prepared row into the tableau: picks a subject, pivots it
    /// in (through an artificial variable when necessary), and re-optimizes.
    fn integrate_row(&mut self, row: Row, tag: Tag) -> (r: Result<(), SolverError>)
        requires
            old(self).wf(),
            row_wf(row),
        ensures
            final(self).wf(),
            final(self).forms == old(self).forms,
            final(self).cns@ == old(self).cns@,
            final(self).edits@ == old(self).edits@,
            final(self).vars@ == old(self).vars@,
            r matches Err(e2) ==> e2 == SolverError::UnsatisfiableConstraint
                || e2 == SolverError::InternalSolverError,
    {
        let mut row = row;
        let subject: Symbol;
        match choose_subject(&row, tag) {
            Some(s) => { subject = s; },
            None => {
                if row_all_dummies(&row) {
                    if !row.constant.is_zero() {
                        return Err(SolverError::UnsatisfiableConstraint);
                    }
                    subject = tag.marker;
                } else {
                    let ok = match self.add_with_artificial(&row) {
                        Err(e2) => { return Err(e2); },
                        Ok(ok) => ok,
                    };
                    if !ok {
                        return Err(SolverError::UnsatisfiableConstraint);
                    }
                    if !self.optimize_main() {
                        return Err(SolverError::InternalSolverError);
                    }
                    return Ok(());
                }
            },
        }
        if !row_solve_for_symbol(&mut row, subject) {
            return Err(SolverError::InternalSolverError);
        }
        let mut scratch = empty_row();
        if !substitute_all(&mut self.rows, &mut self.objective, &mut scratch, subject, &row) {
            return Err(SolverError::InternalSolverError);
        }
        if find_basic(&self.rows, subject).is_some() {
            return Err(SolverError::InternalSolverError);
        }
        self.rows.push((subject, row));
        proof {
            assert(rows_distinct(self.rows@));
        }
        if !self.optimize_main() {
            return Err(SolverError::InternalSolverError);
        }
        Ok(())
    }

    /// The current tableau-derived value of a caller variable.
    fn current_value_exec(&self, v: Variable) -> (r: Ratio)
        requires
            self.wf(),
        ensures
            r == self.current_value(v),
            ratio_wf(r),
    {
        match find_key_at(&self.vars, v.id) {
            None => Ratio::zero(),
            Some(i) => {
                proof {
                    let a = key_index(self.vars@, v.id);
                    assert(self.vars@[i as int].0 == v.id);
                    assert(has_key(self.vars@, v.id));
                    if a != i as int {
                        assert((self.vars@[a]).0 == v.id);
                        assert(false);
                    }
                }
                current_of(&self.rows, self.vars[i].1.symbol)
            },
        }
    }

    /// Evaluates a linear form exactly at the solver's current values.
    /// `None` on component overflow.
    #[verifier::rlimit(100)]
    fn eval_linear_exec(&self, terms: &Vec<Term>, k: Ratio) -> (r: Option<Ratio>)
        requires
            self.wf(),
            ratio_wf(k),
            forall|t: int| 0 <= t < terms@.len()
                ==> ratio_wf(#[trigger] terms@[t].coefficient),
        ensures
            r matches Some(acc) ==> {
                let p = lin_value(*self, terms@, k);
                &&& ratio_wf(acc)
                &&& acc.num * p.1 == p.0 * acc.den
                &&& p.1 > 0
            },
    {
        let mut acc: Ratio = k;
        let ghost cp: (int, int) = (k.num as int, k.den as int);
        let ghost mut pp: (int, int) = cp;
        proof {
            assert(terms@.subrange(0, 0).len() == 0);
            assert(eval_terms(*self, terms@.subrange(0, 0)) == (0int, 1int));
            assert((rp_add(cp, (0int, 1int))).0 == cp.0 * 1 + 0 * cp.1 == cp.0);
            assert((rp_add(cp, (0int, 1int))).1 == cp.1 * 1 == cp.1);
            assert(pp == rp_add(cp, eval_terms(*self, terms@.subrange(0, 0))));
        }
        let mut i: usize = 0;
        while i < terms.len()
            invariant
                i <= terms@.len(),
                self.wf(),
                ratio_wf(k),
                forall|t: int| 0 <= t < terms@.len()
                    ==> ratio_wf(#[trigger] terms@[t].coefficient),
                ratio_wf(acc),
                pp.1 > 0,
                acc.num * pp.1 == pp.0 * acc.den,
                cp == (k.num as int, k.den as int),
                pp == rp_add(cp, eval_terms(*self, terms@.subrange(0, i as int))),
            decreases terms@.len() - i,
        {
            let t: Term = terms[i];
            let val = self.current_value_exec(t.variable);
            let tv = match t.coefficient.mul(val) {
                None => { return None; },
                Some(x) => x,
            };
            let acc2 = match acc.add(tv) {
                None => { return None; },
                Some(x) => x,
            };
            let ghost tp: (int, int) =
                (t.coefficient.num * val.num, t.coefficient.den * val.den);
            proof {
                assert(tp.1 > 0) by (nonlinear_arith)
                    requires
                        t.coefficient.den > 0,
                        val.den > 0,
                        tp.1 == t.coefficient.den * val.den,
                ;
                assert(tv.num * tp.1 == tp.0 * tv.den);
                lemma_sum_denotes(acc, tv, acc2, pp, tp);
                let ghost ei = eval_terms(*self, terms@.subrange(0, i as int));
                assert(terms@.subrange(0, i + 1).drop_last()
                    =~= terms@.subrange(0, i as int));
                assert(terms@.subrange(0, i + 1).last() == terms@[i as int]);
                assert(eval_terms(*self, terms@.subrange(0, i + 1)) == rp_add(ei, tp));
                lemma_rp_add_assoc(cp, ei, tp);
                pp = rp_add(pp, tp);
                assert(pp == rp_add(cp, eval_terms(*self, terms@.subrange(0, i + 1))));
                assert(pp.1 > 0) by (nonlinear_arith)
                    requires
                        pp.1 == (rp_add(cp, eval_terms(*self, terms@.subrange(0, i as int)))).1
                            * tp.1,
                        (rp_add(cp, eval_terms(*self, terms@.subrange(0, i as int)))).1 > 0,
                        tp.1 > 0,
                ;
            }
            acc = acc2;
            i = i + 1;
        }
        proof {
            assert(terms@.subrange(0, terms@.len() as int) =~= terms@);
            assert(pp == lin_value(*self, terms@, k));
        }
        Some(acc)
    }

    /// Decides whether a linear form stands in the given relation to zero
    /// at the solver's current values.  `None` on component overflow.
    fn check_relation(&self, terms: &Vec<Term>, k: Ratio, op: RelOp) -> (r: Option<bool>)
        requires
            self.wf(),
            ratio_wf(k),
            forall|t: int| 0 <= t < terms@.len()
                ==> ratio_wf(#[trigger] terms@[t].coefficient),
        ensures
            r matches Some(b) ==> b == relation_holds(lin_value(*self, terms@, k), op),
    {
        let acc = match self.eval_linear_exec(terms, k) {
            None => { return None; },
            Some(a) => a,
        };
        proof {
            let p = lin_value(*self, terms@, k);
            assert((acc.num <= 0) == (p.0 * p.1 <= 0)) by (nonlinear_arith)
                requires
                    acc.num * p.1 == p.0 * acc.den,
                    acc.den > 0,
                    p.1 > 0,
            ;
            assert((acc.num == 0) == (p.0 == 0)) by (nonlinear_arith)
                requires
                    acc.num * p.1 == p.0 * acc.den,
                    acc.den > 0,
                    p.1 > 0,
            ;
            assert((acc.num >= 0) == (p.0 * p.1 >= 0)) by (nonlinear_arith)
                requires
                    acc.num * p.1 == p.0 * acc.den,
                    acc.den > 0,
                    p.1 > 0,
            ;
        }
        match op {
            RelOp::LessOrEqual => Some(acc.num <= 0),
            RelOp::Equal => Some(acc.num == 0),
            RelOp::GreaterOrEqual => Some(acc.num >= 0),
        }
    }

    /// Decides whether a constraint holds of the solver's current values.
    /// `None` on component overflow during evaluation.
    fn check_constraint_satisfied(&self, c: &Constraint) -> (r: Option<bool>)
        requires
            self.wf(),
            constraint_wf(*c),
        ensures
            r matches Some(b) ==> b == self.constraint_satisfied(*c),
    {
        self.check_relation(&c.expression.terms, c.expression.constant, c.operator)
    }

    /// Checks at run time that every tracked required constraint holds of
    /// the current values.
    fn check_required_satisfied(&self) -> (ok: bool)
        requires
            self.wf(),
        ensures
            ok ==> self.required_satisfied(),
    {
        let mut i: usize = 0;
        while i < self.forms.len()
            invariant
                i <= self.forms@.len(),
                self.wf(),
                forall|a: int| 0 <= a < i && (#[trigger] self.forms@[a]).1.required
                    ==> relation_holds(
                        lin_value(*self, self.forms@[a].1.terms@, self.forms@[a].1.constant),
                        self.forms@[a].1.operator),
            decreases self.forms@.len() - i,
        {
            if self.forms[i].1.required {
                let r = self.check_relation(&self.forms[i].1.terms, self.forms[i].1.constant,
                    self.forms[i].1.operator);
                match r {
                    Some(true) => {},
                    _ => { return false; },
                }
            }
            i = i + 1;
        }
        true
    }

    /// Checks primal feasibility of the tableau at run time.
    fn check_feasible(&self) -> (r: bool)
        ensures
            r == self.feasible(),
    {
        let mut i: usize = 0;
        while i < self.rows.len()
            invariant
                i <= self.rows@.len(),
                forall|k: int| 0 <= k < i
                    ==> ((#[trigger] self.rows@[k]).0.kind != SymKind::External
                        ==> self.rows@[k].1.constant.num >= 0),
            decreases self.rows@.len() - i,
        {
            let sym = self.rows[i].0;
            if !matches!(sym.kind, SymKind::External) && self.rows[i].1.constant.num < 0 {
                proof {
                    assert(!self.feasible());
                }
                return false;
            }
            i = i + 1;
        }
        true
    }

    /// Checks at run time that no improving objective pivot remains.
    fn check_objective_optimal(&self) -> (r: bool)
        ensures
            r == self.objective_optimal(),
    {
        let mut i: usize = 0;
        while i < self.objective.cells.len()
            invariant
                i <= self.objective.cells@.len(),
                forall|k: int| 0 <= k < i
                    ==> ((#[trigger] self.objective.cells@[k]).0.kind != SymKind::Dummy
                        ==> self.objective.cells@[k].1.num >= 0),
            decreases self.objective.cells@.len() - i,
        {
            let cell: (Symbol, Ratio) = self.objective.cells[i];
            if !matches!(cell.0.kind, SymKind::Dummy) && cell.1.num < 0 {
                proof {
                    assert(!self.objective_optimal());
                }
                return false;
            }
            i = i + 1;
        }
        true
    }

    /// Removes the objective contribution of an error marker.
    fn remove_marker_effects(&mut self, marker: Symbol, strength: u64)
        -> (r: Result<(), SolverError>)
        requires
            old(self).wf(),
            strength <= REQUIRED_MAGNITUDE,
        ensures
            final(self).wf(),
            final(self).forms == old(self).forms,
            final(self).cns@ == old(self).cns@,
            final(self).edits@ == old(self).edits@,
            final(self).vars@ == old(self).vars@,
            r matches Err(e2) ==> e2 == SolverError::InternalSolverError,
    {
        if !matches!(marker.kind, SymKind::Error) {
            return Ok(());
        }
        let coeff = Ratio { num: -(strength as i64), den: 1 };
        match find_basic(&self.rows, marker) {
            Some(i) => {
                if !row_insert_row(&mut self.objective, &self.rows[i].1, coeff) {
                    return Err(SolverError::InternalSolverError);
                }
            },
            None => {
                if !row_insert_symbol(&mut self.objective, marker, coeff) {
                    return Err(SolverError::InternalSolverError);
                }
            },
        }
        Ok(())
    }

    /// The row to pivot so that a marker with no row of its own can leave
    /// the basis: the least-ratio restricted row holding the marker, else
    /// any external row holding it.
    fn marker_leaving_index(&self, marker: Symbol) -> (r: Option<usize>)
        requires
            self.wf(),
        ensures
            r matches Some(i) ==> i < self.rows@.len(),
    {
        let mut first: Option<usize> = None;
        let mut first_ratio: Ratio = Ratio::zero();
        let mut second: Option<usize> = None;
        let mut second_ratio: Ratio = Ratio::zero();
        let mut third: Option<usize> = None;
        let mut i: usize = 0;
        while i < self.rows.len()
            invariant
                i <= self.rows@.len(),
                self.wf(),
                ratio_wf(first_ratio),
                ratio_wf(second_ratio),
                first matches Some(a) ==> a < self.rows@.len(),
                second matches Some(a) ==> a < self.rows@.len(),
                third matches Some(a) ==> a < self.rows@.len(),
            decreases self.rows@.len() - i,
        {
            let c = row_coeff(&self.rows[i].1, marker);
            if c.num != 0 {
                let sym = self.rows[i].0;
                if matches!(sym.kind, SymKind::External) {
                    third = Some(i);
                } else {
                    let cst: Ratio = self.rows[i].1.constant;
                    if c.num < 0 {
                        let nc = match cst.neg() {
                            None => { return None; },
                            Some(x) => x,
                        };
                        let ratio = match nc.div(c) {
                            None => { return None; },
                            Some(x) => x,
                        };
                        if first.is_none() || ratio.lt(first_ratio) {
                            first = Some(i);
                            first_ratio = ratio;
                        }
                    } else {
                        let ratio = match cst.div(c) {
                            None => { return None; },
                            Some(x) => x,
                        };
                        if second.is_none() || ratio.lt(second_ratio) {
                            second = Some(i);
                            second_ratio = ratio;
                        }
                    }
                }
            }
            i = i + 1;
        }
        match first {
            Some(a) => Some(a),
            None => match second {
                Some(a) => Some(a),
                None => third,
            },
        }
    }

    /// Removes a constraint's tableau footprint given its markers, then
    /// re-optimizes.
    fn remove_tag(&mut self, marker: Symbol, other: Option<Symbol>, strength: u64)
        -> (r: Result<(), SolverError>)
        requires
            old(self).wf(),
            strength <= REQUIRED_MAGNITUDE,
        ensures
            final(self).wf(),
            final(self).forms == old(self).forms,
            final(self).cns@ == old(self).cns@,
            final(self).edits@ == old(self).edits@,
            final(self).vars@ == old(self).vars@,
            r matches Err(e2) ==> e2 == SolverError::InternalSolverError,
    {
        match self.remove_marker_effects(marker, strength) {
            Err(e2) => { return Err(e2); },
            Ok(()) => {},
        }
        match other {
            Some(o) => {
                match self.remove_marker_effects(o, strength) {
                    Err(e2) => { return Err(e2); },
                    Ok(()) => {},
                }
            },
            None => {},
        }
        match find_basic(&self.rows, marker) {
            Some(i) => {
                let _ = take_row(&mut self.rows, i);
            },
            None => {
                let i = match self.marker_leaving_index(marker) {
                    None => { return Err(SolverError::InternalSolverError); },
                    Some(i) => i,
                };
                let (lsym, mut lrow) = take_row(&mut self.rows, i);
                if !row_solve_for_symbols(&mut lrow, lsym, marker) {
                    return Err(SolverError::InternalSolverError);
                }
                let mut scratch = empty_row();
                if !substitute_all(&mut self.rows, &mut self.objective, &mut scratch,
                    marker, &lrow) {
                    return Err(SolverError::InternalSolverError);
                }
            },
        }
        if !self.optimize_main() {
            return Err(SolverError::InternalSolverError);
        }
        Ok(())
    }

    /// Adds a constraint.
    ///
    /// Fails with `DuplicateConstraint` exactly when the same constraint
    /// (by identity) is already tracked, with `UnsatisfiableConstraint`
    /// when a required constraint makes the required subset infeasible, and
    /// with `InternalSolverError` on a defensive internal check.  Every
    /// failure leaves the solver exactly as it was.
    pub fn add_constraint(&mut self, c: &Constraint) -> (r: Result<(), SolverError>)
        requires
            old(self).wf(),
            constraint_wf(*c),
        ensures
            final(self).wf(),
            r is Err ==> *final(self) == *old(self),
            (r matches Err(e2) && e2 == SolverError::DuplicateConstraint)
                <==> old(self).has_constraint(c.id),
            r matches Err(e2) ==> e2 == SolverError::DuplicateConstraint
                || e2 == SolverError::UnsatisfiableConstraint
                || e2 == SolverError::InternalSolverError,
            (r matches Err(e2) && e2 == SolverError::UnsatisfiableConstraint)
                ==> c.strength.is_required(),
            r is Ok ==> final(self).has_constraint(c.id),
            r is Ok ==> forall|id: u64| #[trigger] final(self).has_constraint(id)
                <==> (old(self).has_constraint(id) || id == c.id),
            r is Ok ==> final(self).feasible(),
            r is Ok ==> final(self).objective_optimal(),
            r is Ok && c.strength.is_required() ==> final(self).constraint_satisfied(*c),
            r is Ok ==> final(self).records(*c),
            r is Ok ==> final(self).required_satisfied(),
            r is Ok ==> forall|u: Constraint| old(self).records(u)
                ==> #[trigger] final(self).records(u),
            forall|v: Variable| #[trigger] final(self).has_edit(v) <==> old(self).has_edit(v),
    {
        match find_key_at(&self.cns, c.id) {
            Some(_) => { return Err(SolverError::DuplicateConstraint); },
            None => {},
        }
        let mut w = self.duplicate();
        let (row, tag) = match w.create_row(&c.expression, c.operator, c.strength.value) {
            Err(e2) => { return Err(e2); },
            Ok(p) => p,
        };
        match w.integrate_row(row, tag) {
            Err(e2) => {
                if matches!(e2, SolverError::UnsatisfiableConstraint)
                    && c.strength.value < REQUIRED_MAGNITUDE {
                    // A non-required constraint is always satisfiable by
                    // violating it; reaching this point is a solver bug.
                    return Err(SolverError::InternalSolverError);
                }
                return Err(e2);
            },
            Ok(()) => {},
        }
        if !w.check_feasible() {
            return Err(SolverError::InternalSolverError);
        }
        if !w.check_objective_optimal() {
            return Err(SolverError::InternalSolverError);
        }
        let ghost pre_cns = w.cns@;
        let info = CnInfo { marker: tag.marker, other: tag.other, strength: c.strength.value };
        w.cns.push((c.id, info));
        proof {
            assert(keys_distinct(w.cns@));
            lemma_push_key_iff(pre_cns, w.cns@, (c.id, info));
        }
        if find_key_at(&w.forms, c.id).is_some() {
            return Err(SolverError::InternalSolverError);
        }
        let ghost pre_forms = w.forms@;
        w.forms.push((c.id, StoredCn {
            terms: dup_vec(&c.expression.terms),
            constant: c.expression.constant,
            operator: c.operator,
            required: c.strength.value >= REQUIRED_MAGNITUDE,
        }));
        proof {
            assert(keys_distinct(w.forms@));
            assert(w.records_at(*c, w.forms@.len() - 1));
            assert(w.records(*c));
            assert forall|u: Constraint| old(self).records(u)
                implies #[trigger] w.records(u) by {
                let i = choose|i: int| #[trigger] old(self).records_at(u, i);
                assert(pre_forms[i] == w.forms@[i]);
                assert(w.records_at(u, i));
            }
            assert forall|a: int, t: int| 0 <= a < w.forms@.len()
                    && 0 <= t < (#[trigger] w.forms@[a]).1.terms@.len()
                implies ratio_wf(#[trigger] w.forms@[a].1.terms@[t].coefficient) by {
                if a < w.forms@.len() - 1 {
                    assert(w.forms@[a] == pre_forms[a]);
                } else {
                    assert(w.forms@[a].1.terms@[t] == c.expression.terms@[t]);
                }
            }
        }
        if c.strength.value >= REQUIRED_MAGNITUDE {
            match w.check_constraint_satisfied(c) {
                Some(true) => {},
                _ => { return Err(SolverError::InternalSolverError); },
            }
        }
        if !w.check_required_satisfied() {
            return Err(SolverError::InternalSolverError);
        }
        *self = w;
        Ok(())
    }

    /// Adds several constraints as one atomic batch: either every one is
    /// added, or the call fails and none is.
    pub fn add_constraints(&mut self, cs: &Vec<Constraint>) -> (r: Result<(), SolverError>)
        requires
            old(self).wf(),
            forall|i: int| 0 <= i < cs@.len() ==> constraint_wf(#[trigger] cs@[i]),
        ensures
            final(self).wf(),
            r is Err ==> *final(self) == *old(self),
            r matches Err(e2) ==> e2 == SolverError::DuplicateConstraint
                || e2 == SolverError::UnsatisfiableConstraint
                || e2 == SolverError::InternalSolverError,
            (r matches Err(e2) && e2 == SolverError::UnsatisfiableConstraint)
                ==> exists|i: int| 0 <= i < cs@.len()
                    && (#[trigger] cs@[i]).strength.is_required(),
            r is Ok ==> forall|i: int| 0 <= i < cs@.len()
                ==> final(self).has_constraint((#[trigger] cs@[i]).id),
            r is Ok ==> forall|id: u64| #[trigger] final(self).has_constraint(id)
                <==> (old(self).has_constraint(id)
                    || exists|k: int| 0 <= k < cs@.len() && (#[trigger] cs@[k]).id == id),
            r is Ok ==> final(self).feasible(),
            r is Ok ==> final(self).objective_optimal(),
            r is Ok ==> forall|i: int| 0 <= i < cs@.len()
                    && (#[trigger] cs@[i]).strength.is_required()
                ==> final(self).constraint_satisfied(cs@[i]),
            r is Ok ==> forall|i: int| 0 <= i < cs@.len()
                ==> final(self).records(#[trigger] cs@[i]),
            r is Ok ==> final(self).required_satisfied(),
            r is Ok ==> forall|u: Constraint| old(self).records(u)
                ==> #[trigger] final(self).records(u),
            forall|v: Variable| #[trigger] final(self).has_edit(v) <==> old(self).has_edit(v),
    {
        let mut w = self.duplicate();
        proof {
            lemma_records_equiv(*old(self), w);
        }
        let mut i: usize = 0;
        while i < cs.len()
            invariant
                i <= cs@.len(),
                old(self).wf(),
                w.wf(),
                forall|k: int| 0 <= k < cs@.len() ==> constraint_wf(#[trigger] cs@[k]),
                forall|k: int| 0 <= k < i ==> w.records(#[trigger] cs@[k]),
                forall|u: Constraint| old(self).records(u) ==> #[trigger] w.records(u),
                forall|k: int| 0 <= k < i ==> w.has_constraint((#[trigger] cs@[k]).id),
                forall|id: u64| #[trigger] w.has_constraint(id)
                    <==> (old(self).has_constraint(id)
                        || exists|k: int| 0 <= k < i && (#[trigger] cs@[k]).id == id),
                forall|v: Variable| #[trigger] w.has_edit(v) <==> old(self).has_edit(v),
            decreases cs@.len() - i,
        {
            let ghost w_pre = w;
            match w.add_constraint(&cs[i]) {
                Err(e2) => {
                    proof {
                        if e2 == SolverError::UnsatisfiableConstraint {
                            assert(cs@[i as int].strength.is_required());
                        }
                    }
                    return Err(e2);
                },
                Ok(()) => {},
            }
            proof {
                assert forall|id: u64| #[trigger] w.has_constraint(id)
                    <==> (old(self).has_constraint(id)
                        || exists|k: int| 0 <= k < i + 1 && (#[trigger] cs@[k]).id == id) by {
                    if w.has_constraint(id) {
                        assert(w_pre.has_constraint(id) || id == cs@[i as int].id);
                        if !old(self).has_constraint(id) {
                            if w_pre.has_constraint(id) {
                                let k = choose|k: int| 0 <= k < i
                                    && (#[trigger] cs@[k]).id == id;
                                assert(0 <= k < i + 1 && cs@[k].id == id);
                            } else {
                                assert(cs@[i as int].id == id);
                            }
                        }
                    }
                    if old(self).has_constraint(id) {
                        assert(w_pre.has_constraint(id));
                        assert(w.has_constraint(id));
                    }
                    if exists|k: int| 0 <= k < i + 1 && (#[trigger] cs@[k]).id == id {
                        let k = choose|k: int| 0 <= k < i + 1 && (#[trigger] cs@[k]).id == id;
                        if k < i {
                            assert(w_pre.has_constraint(id));
                            assert(w.has_constraint(id));
                        } else {
                            assert(cs@[i as int].id == id);
                            assert(w.has_constraint(id));
                        }
                    }
                }
            }
            i = i + 1;
        }
        let mut j: usize = 0;
        while j < cs.len()
            invariant
                j <= cs@.len(),
                old(self).wf(),
                w.wf(),
                forall|k: int| 0 <= k < cs@.len() ==> constraint_wf(#[trigger] cs@[k]),
                forall|k: int| 0 <= k < j && (#[trigger] cs@[k]).strength.is_required()
                    ==> w.constraint_satisfied(cs@[k]),
            decreases cs@.len() - j,
        {
            if cs[j].strength.value >= REQUIRED_MAGNITUDE {
                match w.check_constraint_satisfied(&cs[j]) {
                    Some(true) => {},
                    _ => { return Err(SolverError::InternalSolverError); },
                }
            }
            j = j + 1;
        }
        if !w.check_required_satisfied() {
            return Err(SolverError::InternalSolverError);
        }
        if !w.check_feasible() {
            return Err(SolverError::InternalSolverError);
        }
        if !w.check_objective_optimal() {
            return Err(SolverError::InternalSolverError);
        }
        *self = w;
        Ok(())
    }

    /// Removes a previously added constraint.
    ///
    /// Fails with `UnknownConstraint` exactly when the constraint is not
    /// currently tracked.  A failure leaves the solver exactly as it was.
    pub fn remove_constraint(&mut self, c: &Constraint) -> (r: Result<(), SolverError>)
        requires
            old(self).wf(),
        ensures
            final(self).wf(),
            r is Err ==> *final(self) == *old(self),
            (r matches Err(e2) && e2 == SolverError::UnknownConstraint)
                <==> !old(self).has_constraint(c.id),
            r matches Err(e2) ==> e2 == SolverError::UnknownConstraint
                || e2 == SolverError::InternalSolverError,
            r is Ok ==> forall|id: u64| #[trigger] final(self).has_constraint(id)
                <==> (old(self).has_constraint(id) && id != c.id),
            r is Ok ==> final(self).feasible(),
            r is Ok ==> final(self).objective_optimal(),
            r is Ok ==> final(self).required_satisfied(),
            r is Ok ==> forall|u: Constraint| old(self).records(u) && u.id != c.id
                ==> #[trigger] final(self).records(u),
            forall|v: Variable| #[trigger] final(self).has_edit(v) <==> old(self).has_edit(v),
    {
        let idx = match find_key_at(&self.cns, c.id) {
            None => { return Err(SolverError::UnknownConstraint); },
            Some(i) => i,
        };
        let mut w = self.duplicate();
        proof {
            lemma_records_equiv(*old(self), w);
        }
        let ghost pre_cns = w.cns@;
        let entry = take_entry(&mut w.cns, idx);
        proof {
            lemma_remove_key_iff(pre_cns, w.cns@, idx as int);
            assert(entry.1.strength <= REQUIRED_MAGNITUDE);
        }
        let ghost pre_forms = w.forms@;
        let ghost mut pruned: bool = false;
        let ghost mut fig: int = 0;
        match find_key_at(&w.forms, c.id) {
            Some(fi) => {
                let _ = take_entry(&mut w.forms, fi);
                proof {
                    pruned = true;
                    fig = fi as int;
                    assert forall|a: int, t: int| 0 <= a < w.forms@.len()
                            && 0 <= t < (#[trigger] w.forms@[a]).1.terms@.len()
                        implies ratio_wf(#[trigger] w.forms@[a].1.terms@[t].coefficient) by {
                        if a == fig {
                            assert(w.forms@[a] == pre_forms[pre_forms.len() - 1]);
                        } else {
                            assert(w.forms@[a] == pre_forms[a]);
                        }
                    }
                }
            },
            None => {},
        }
        let ghost mid_forms = w.forms@;
        match w.remove_tag(entry.1.marker, entry.1.other, entry.1.strength) {
            Err(e2) => { return Err(e2); },
            Ok(()) => {},
        }
        if !w.check_required_satisfied() {
            return Err(SolverError::InternalSolverError);
        }
        if !w.check_feasible() {
            return Err(SolverError::InternalSolverError);
        }
        if !w.check_objective_optimal() {
            return Err(SolverError::InternalSolverError);
        }
        proof {
            assert(w.forms@ == mid_forms);
            assert forall|u: Constraint| old(self).records(u) && u.id != c.id
                implies #[trigger] w.records(u) by {
                let i0 = choose|i: int| #[trigger] old(self).records_at(u, i);
                if !pruned {
                    assert(w.forms@ == pre_forms);
                    assert(w.records_at(u, i0));
                } else {
                    assert(pre_forms[fig].0 == c.id);
                    assert(i0 != fig);
                    if i0 == pre_forms.len() - 1 {
                        assert(fig < pre_forms.len() - 1);
                        assert(w.forms@[fig] == pre_forms[i0]);
                        assert(w.records_at(u, fig));
                    } else {
                        assert(w.forms@[i0] == pre_forms[i0]);
                        assert(w.records_at(u, i0));
                    }
                }
            }
        }
        *self = w;
        Ok(())
    }

    /// Opens a variable for external suggestion by adding an internal stay
    /// constraint `v == current value` at the given strength.
    ///
    /// Fails with `BadRequiredStrength` exactly when the strength is the
    /// required level, and with `DuplicateEditVariable` exactly when the
    /// variable already has an edit entry.  A failure leaves the solver
    /// exactly as it was.
    pub fn add_edit_variable(&mut self, v: Variable, strength: Strength)
        -> (r: Result<(), SolverError>)
        requires
            old(self).wf(),
        ensures
            final(self).wf(),
            r is Err ==> *final(self) == *old(self),
            (r matches Err(e2) && e2 == SolverError::BadRequiredStrength)
                <==> strength.is_required(),
            (r matches Err(e2) && e2 == SolverError::DuplicateEditVariable)
                <==> (!strength.is_required() && old(self).has_edit(v)),
            r matches Err(e2) ==> e2 == SolverError::BadRequiredStrength
                || e2 == SolverError::DuplicateEditVariable
                || e2 == SolverError::InternalSolverError,
            r is Ok ==> forall|u: Variable| #[trigger] final(self).has_edit(u)
                <==> (old(self).has_edit(u) || u == v),
            r is Ok ==> final(self).edit_target(v) == old(self).current_value(v),
            r is Ok ==> final(self).feasible(),
            r is Ok ==> final(self).objective_optimal(),
            r is Ok ==> final(self).required_satisfied(),
            forall|u: Constraint| #[trigger] final(self).records(u) <==> old(self).records(u),
            forall|id: u64| #[trigger] final(self).has_constraint(id)
                <==> old(self).has_constraint(id),
    {
        if strength.value >= REQUIRED_MAGNITUDE {
            return Err(SolverError::BadRequiredStrength);
        }
        match find_key_at(&self.edits, v.id) {
            Some(_) => { return Err(SolverError::DuplicateEditVariable); },
            None => {},
        }
        let mut w = self.duplicate();
        let cur: Ratio = match find_key_at(&w.vars, v.id) {
            Some(i) => {
                proof {
                    let a = key_index(w.vars@, v.id);
                    assert(w.vars@[i as int].0 == v.id);
                    assert(has_key(w.vars@, v.id));
                    if a != i as int {
                        assert((w.vars@[a]).0 == v.id);
                        assert(false);
                    }
                }
                let info = w.vars[i].1;
                current_of(&w.rows, info.symbol)
            },
            None => Ratio::zero(),
        };
        proof {
            assert(cur == old(self).current_value(v));
        }
        let negcur = match cur.neg() {
            None => { return Err(SolverError::InternalSolverError); },
            Some(x) => x,
        };
        let base = Expression::from_variable(v);
        let expr = Expression { terms: base.terms, constant: negcur };
        proof {
            assert(expression_wf(expr));
        }
        let (row, tag) = match w.create_row(&expr, RelOp::Equal, strength.value) {
            Err(e2) => { return Err(e2); },
            Ok(p) => p,
        };
        match w.integrate_row(row, tag) {
            Err(_e2) => { return Err(SolverError::InternalSolverError); },
            Ok(()) => {},
        }
        if !w.check_feasible() {
            return Err(SolverError::InternalSolverError);
        }
        if !w.check_objective_optimal() {
            return Err(SolverError::InternalSolverError);
        }
        let ghost pre_edits = w.edits@;
        let info = EditInfo { marker: tag.marker, other: tag.other, constant: cur,
            strength: strength.value };
        w.edits.push((v.id, info));
        proof {
            assert(keys_distinct(w.edits@));
            lemma_push_key_iff(pre_edits, w.edits@, (v.id, info));
            assert(w.edits@[w.edits@.len() - 1].0 == v.id);
            let a = key_index(w.edits@, v.id);
            assert(has_key(w.edits@, v.id));
            if a != w.edits@.len() - 1 {
                assert((w.edits@[a]).0 == v.id);
                assert((pre_edits[a]).0 == v.id);
                assert(false);
            }
            assert(w.edit_target(v) == cur);
        }
        if !w.check_required_satisfied() {
            return Err(SolverError::InternalSolverError);
        }
        proof {
            lemma_records_equiv(*old(self), w);
        }
        *self = w;
        Ok(())
    }

    /// Closes a variable for external suggestion, removing its internal
    /// stay constraint.
    ///
    /// Fails with `UnknownEditVariable` exactly when the variable has no
    /// edit entry.  A failure leaves the solver exactly as it was.
    pub fn remove_edit_variable(&mut self, v: Variable) -> (r: Result<(), SolverError>)
        requires
            old(self).wf(),
        ensures
            final(self).wf(),
            r is Err ==> *final(self) == *old(self),
            (r matches Err(e2) && e2 == SolverError::UnknownEditVariable)
                <==> !old(self).has_edit(v),
            r matches Err(e2) ==> e2 == SolverError::UnknownEditVariable
                || e2 == SolverError::InternalSolverError,
            r is Ok ==> forall|u: Variable| #[trigger] final(self).has_edit(u)
                <==> (old(self).has_edit(u) && u != v),
            r is Ok ==> final(self).feasible(),
            r is Ok ==> final(self).objective_optimal(),
            r is Ok ==> final(self).required_satisfied(),
            forall|u: Constraint| #[trigger] final(self).records(u) <==> old(self).records(u),
            forall|id: u64| #[trigger] final(self).has_constraint(id)
                <==> old(self).has_constraint(id),
    {
        let idx = match find_key_at(&self.edits, v.id) {
            None => { return Err(SolverError::UnknownEditVariable); },
            Some(i) => i,
        };
        let mut w = self.duplicate();
        let ghost pre_edits = w.edits@;
        let entry = take_entry(&mut w.edits, idx);
        proof {
            lemma_remove_key_iff(pre_edits, w.edits@, idx as int);
            assert(entry.1.strength <= REQUIRED_MAGNITUDE);
        }
        match w.remove_tag(entry.1.marker, entry.1.other, entry.1.strength) {
            Err(e2) => { return Err(e2); },
            Ok(()) => {},
        }
        if !w.check_required_satisfied() {
            return Err(SolverError::InternalSolverError);
        }
        if !w.check_feasible() {
            return Err(SolverError::InternalSolverError);
        }
        if !w.check_objective_optimal() {
            return Err(SolverError::InternalSolverError);
        }
        proof {
            lemma_records_equiv(*old(self), w);
        }
        *self = w;
        Ok(())
    }

    /// Suggests a target value for an edit variable and re-optimizes
    /// incrementally: the perturbation is applied to the affected rows
    /// directly, and a dual pass restores feasibility by pivoting only
    /// among the rows whose basic variable became negative.
    ///
    /// Fails with `UnknownEditVariable` exactly when the variable has no
    /// edit entry.  A failure leaves the solver exactly as it was.
    pub fn suggest_value(&mut self, v: Variable, value: Ratio) -> (r: Result<(), SolverError>)
        requires
            old(self).wf(),
            ratio_wf(value),
        ensures
            final(self).wf(),
            r is Err ==> *final(self) == *old(self),
            (r matches Err(e2) && e2 == SolverError::UnknownEditVariable)
                <==> !old(self).has_edit(v),
            r matches Err(e2) ==> e2 == SolverError::UnknownEditVariable
                || e2 == SolverError::InternalSolverError,
            forall|u: Variable| #[trigger] final(self).has_edit(u) <==> old(self).has_edit(u),
            forall|id: u64| #[trigger] final(self).has_constraint(id)
                <==> old(self).has_constraint(id),
            r is Ok ==> final(self).edit_target(v) == value,
            r is Ok ==> final(self).feasible(),
            r is Ok ==> final(self).objective_optimal(),
            r is Ok ==> final(self).required_satisfied(),
            forall|u: Constraint| #[trigger] final(self).records(u) <==> old(self).records(u),
    {
        let idx = match find_key_at(&self.edits, v.id) {
            None => { return Err(SolverError::UnknownEditVariable); },
            Some(i) => i,
        };
        let mut w = self.duplicate();
        let entry: (u64, EditInfo) = w.edits[idx];
        let info = entry.1;
        let delta = match value.sub(info.constant) {
            None => { return Err(SolverError::InternalSolverError); },
            Some(d) => d,
        };
        w.edits.set(idx, (entry.0, EditInfo { marker: info.marker, other: info.other,
            constant: value, strength: info.strength }));
        proof {
            assert(forall|a: int| 0 <= a < w.edits@.len()
                ==> (#[trigger] w.edits@[a]).0 == old(self).edits@[a].0);
            assert(keys_distinct(w.edits@));
        }
        let ghost edsnap = w.edits@;
        let ghost fsnap = w.forms@;
        proof {
            assert(edsnap[idx as int].0 == v.id);
        }
        let mut infeasible: Vec<Symbol> = Vec::new();
        let marker_row = find_basic(&w.rows, info.marker);
        match marker_row {
            Some(i) => {
                let negd = match delta.neg() {
                    None => { return Err(SolverError::InternalSolverError); },
                    Some(x) => x,
                };
                match row_constant_add(&mut w.rows, i, negd) {
                    Err(()) => { return Err(SolverError::InternalSolverError); },
                    Ok(neg) => {
                        if neg {
                            infeasible.push(info.marker);
                        }
                    },
                }
            },
            None => {
                let mut handled = false;
                match info.other {
                    Some(o) => {
                        match find_basic(&w.rows, o) {
                            Some(i) => {
                                handled = true;
                                match row_constant_add(&mut w.rows, i, delta) {
                                    Err(()) => {
                                        return Err(SolverError::InternalSolverError);
                                    },
                                    Ok(neg) => {
                                        if neg {
                                            infeasible.push(o);
                                        }
                                    },
                                }
                            },
                            None => {},
                        }
                    },
                    None => {},
                }
                if !handled {
                    let mut i: usize = 0;
                    while i < w.rows.len()
                        invariant
                            i <= w.rows@.len(),
                            old(self).wf(),
                            w.wf(),
                            idx < w.edits@.len(),
                            w.edits@ == edsnap,
                            w.forms@ == fsnap,
                            w.cns@ == old(self).cns@,
                            has_key(old(self).edits@, v.id),
                            ratio_wf(delta),
                        decreases w.rows@.len() - i,
                    {
                        let coeff = row_coeff(&w.rows[i].1, info.marker);
                        if coeff.num != 0 {
                            let d2 = match coeff.mul(delta) {
                                None => { return Err(SolverError::InternalSolverError); },
                                Some(x) => x,
                            };
                            let sym = w.rows[i].0;
                            match row_constant_add(&mut w.rows, i, d2) {
                                Err(()) => { return Err(SolverError::InternalSolverError); },
                                Ok(neg) => {
                                    if neg && !matches!(sym.kind, SymKind::External) {
                                        infeasible.push(sym);
                                    }
                                },
                            }
                        }
                        i = i + 1;
                    }
                }
            },
        }
        if !dual_optimize(&mut w.rows, &mut w.objective, &mut infeasible) {
            return Err(SolverError::InternalSolverError);
        }
        if !w.check_required_satisfied() {
            return Err(SolverError::InternalSolverError);
        }
        if !w.check_feasible() {
            return Err(SolverError::InternalSolverError);
        }
        if !w.check_objective_optimal() {
            return Err(SolverError::InternalSolverError);
        }
        proof {
            lemma_records_equiv(*old(self), w);
            assert(w.edits@ == edsnap);
            assert(w.edits@[idx as int].0 == v.id);
            assert(has_key(w.edits@, v.id));
            let a = key_index(w.edits@, v.id);
            if a != idx as int {
                assert((w.edits@[a]).0 == v.id);
                assert(false);
            }
            assert(w.edit_target(v) == value);
            assert forall|u: Variable| #[trigger] has_key(w.edits@, u.id)
                == has_key(old(self).edits@, u.id) by {
                if has_key(w.edits@, u.id) {
                    let b = choose|b: int| 0 <= b < w.edits@.len()
                        && (#[trigger] w.edits@[b]).0 == u.id;
                    assert((old(self).edits@[b]).0 == u.id);
                }
                if has_key(old(self).edits@, u.id) {
                    let b = choose|b: int| 0 <= b < old(self).edits@.len()
                        && (#[trigger] old(self).edits@[b]).0 == u.id;
                    assert((w.edits@[b]).0 == u.id);
                }
            }
        }
        *self = w;
        Ok(())
    }

    /// Reports exactly the tracked variables whose tableau value moved
    /// since the last extraction, each at most once, as `(variable, new
    /// value)` pairs, and updates the snapshot to match: a second call with
    /// no intervening mutation returns nothing.  This is the only way
    /// solved values are exposed.
    #[verifier::rlimit(100)]
    #[verifier::spinoff_prover]
    pub fn fetch_changes(&mut self) -> (out: Vec<(Variable, Ratio)>)
        requires
            old(self).wf(),
        ensures
            final(self).wf(),
            forall|id: u64| #[trigger] final(self).has_constraint(id)
                <==> old(self).has_constraint(id),
            forall|u: Variable| #[trigger] final(self).has_edit(u) <==> old(self).has_edit(u),
            final(self).tracked_count() == old(self).tracked_count(),
            forall|i: int| 0 <= i < old(self).tracked_count()
                ==> #[trigger] final(self).tracked_id(i) == old(self).tracked_id(i),
            forall|i: int| 0 <= i < old(self).tracked_count()
                ==> #[trigger] final(self).tracked_last(i) == old(self).tracked_current(i),
            final(self).clean(),
            final(self).feasible() == old(self).feasible(),
            final(self).objective_optimal() == old(self).objective_optimal(),
            final(self).required_satisfied() == old(self).required_satisfied(),
            forall|u: Constraint| #[trigger] final(self).records(u) <==> old(self).records(u),
            forall|j: int| 0 <= j < out@.len() ==> old(self).reported(#[trigger] out@[j]),
            forall|i: int| 0 <= i < old(self).tracked_count()
                    && #[trigger] old(self).change_due(i)
                ==> reports_id(out@, old(self).tracked_id(i)),
            forall|j1: int, j2: int| 0 <= j1 < j2 < out@.len()
                ==> (#[trigger] out@[j1]).0.id != (#[trigger] out@[j2]).0.id,
            old(self).clean() ==> out@.len() == 0,
            forall|j: int| 0 <= j < out@.len() ==> ratio_wf((#[trigger] out@[j]).1),
    {
        let mut out: Vec<(Variable, Ratio)> = Vec::new();
        // `picks[j]` is the tracked index that `out[j]` reports; `rev[k]`
        // is the report index of tracked index `k`, `-1` when none is due.
        let ghost mut picks: Seq<int> = Seq::empty();
        let ghost mut rev: Seq<int> = Seq::empty();
        let mut i: usize = 0;
        while i < self.vars.len()
            invariant
                i <= self.vars@.len(),
                self.wf(),
                old(self).wf(),
                self.rows == old(self).rows,
                self.objective == old(self).objective,
                self.cns == old(self).cns,
                self.forms == old(self).forms,
                self.edits == old(self).edits,
                self.next_symbol == old(self).next_symbol,
                self.vars@.len() == old(self).vars@.len(),
                forall|k: int| i <= k < self.vars@.len()
                    ==> #[trigger] self.vars@[k] == old(self).vars@[k],
                forall|k: int| 0 <= k < i
                    ==> (#[trigger] self.vars@[k]).0 == old(self).vars@[k].0
                        && self.vars@[k].1.symbol == old(self).vars@[k].1.symbol
                        && self.vars@[k].1.last == old(self).tracked_current(k),
                picks.len() == out@.len(),
                forall|j: int| 0 <= j < out@.len() ==> 0 <= #[trigger] picks[j] < i,
                forall|j: int| 0 <= j < out@.len()
                    ==> (#[trigger] out@[j]).0.id == old(self).tracked_id(picks[j])
                        && out@[j].1 == old(self).tracked_current(picks[j])
                        && old(self).change_due(picks[j]),
                forall|j1: int, j2: int| 0 <= j1 < j2 < out@.len()
                    ==> #[trigger] picks[j1] < #[trigger] picks[j2],
                rev.len() == i,
                forall|k: int| 0 <= k < i && #[trigger] old(self).change_due(k)
                    ==> 0 <= rev[k] < out@.len()
                        && out@[rev[k]].0.id == old(self).tracked_id(k),
                old(self).clean() ==> out@.len() == 0,
                forall|j: int| 0 <= j < out@.len() ==> ratio_wf((#[trigger] out@[j]).1),
            decreases self.vars@.len() - i,
        {
            let entry: (u64, VarInfo) = self.vars[i];
            let cur: Ratio = current_of(&self.rows, entry.1.symbol);
            proof {
                assert(cur == old(self).tracked_current(i as int));
            }
            let changed_now = !cur.eq_value(entry.1.last);
            proof {
                reveal(Solver::change_due);
                assert(entry.1.last == old(self).tracked_last(i as int));
                assert(changed_now == old(self).change_due(i as int));
            }
            if changed_now {
                proof {
                    rev = rev.push(out@.len() as int);
                    picks = picks.push(i as int);
                }
                out.push((Variable { id: entry.0 }, cur));
                proof {
                    assert((out@[out@.len() - 1]).0.id == old(self).tracked_id(i as int));
                    assert(out@[out@.len() - 1].1 == old(self).tracked_current(i as int));
                    if old(self).clean() {
                        assert(eq_val(old(self).tracked_current(i as int),
                            old(self).tracked_last(i as int)));
                        assert(false);
                    }
                }
            } else {
                proof {
                    rev = rev.push(-1);
                }
            }
            self.vars.set(i, (entry.0, VarInfo { symbol: entry.1.symbol, last: cur }));
            proof {
                assert(keys_distinct(self.vars@));
            }
            i = i + 1;
        }
        proof {
            assert forall|k1: int, k2: int| 0 <= k1 < k2 < old(self).tracked_count()
                implies #[trigger] old(self).tracked_id(k1)
                    != #[trigger] old(self).tracked_id(k2) by {
                assert((old(self).vars@[k1]).0 != (old(self).vars@[k2]).0);
            }
            lemma_fetch_report(*old(self), out@, picks, rev);
            assert forall|k: int| 0 <= k < self.tracked_count()
                implies eq_val(#[trigger] self.tracked_current(k), self.tracked_last(k)) by {
                reveal(eq_val);
                assert(self.tracked_current(k) == old(self).tracked_current(k));
                assert(self.tracked_last(k) == old(self).tracked_current(k));
            }
            assert forall|u: Variable| #[trigger] self.current_value(u)
                == old(self).current_value(u) by {
                if has_key(self.vars@, u.id) {
                    let a1 = key_index(self.vars@, u.id);
                    assert((old(self).vars@[a1]).0 == u.id);
                    assert(has_key(old(self).vars@, u.id));
                    let a2 = key_index(old(self).vars@, u.id);
                    if a2 != a1 {
                        assert((old(self).vars@[a2]).0 == u.id);
                        assert((self.vars@[a2]).0 == u.id);
                        assert(false);
                    }
                    assert(self.vars@[a1].1.symbol == old(self).vars@[a1].1.symbol);
                } else {
                    if has_key(old(self).vars@, u.id) {
                        let a2 = key_index(old(self).vars@, u.id);
                        assert((self.vars@[a2]).0 == u.id);
                        assert(false);
                    }
                }
            }
            assert forall|i: int| 0 <= i < self.forms@.len()
                implies relation_holds(
                    lin_value(*self, (#[trigger] self.forms@[i]).1.terms@,
                        self.forms@[i].1.constant), self.forms@[i].1.operator)
                    == relation_holds(
                        lin_value(*old(self), old(self).forms@[i].1.terms@,
                            old(self).forms@[i].1.constant),
                        old(self).forms@[i].1.operator) by {
                lemma_eval_congruent(*self, *old(self), self.forms@[i].1.terms@);
            }
            assert(self.required_satisfied() == old(self).required_satisfied()) by {
                if old(self).required_satisfied() {
                    assert forall|i: int| 0 <= i < self.forms@.len()
                            && (#[trigger] self.forms@[i]).1.required
                        implies relation_holds(
                            lin_value(*self, self.forms@[i].1.terms@,
                                self.forms@[i].1.constant),
                            self.forms@[i].1.operator) by {
                        assert(relation_holds(
                            lin_value(*old(self), old(self).forms@[i].1.terms@,
                                old(self).forms@[i].1.constant),
                            old(self).forms@[i].1.operator));
                    }
                }
                if self.required_satisfied() {
                    assert forall|i: int| 0 <= i < old(self).forms@.len()
                            && (#[trigger] old(self).forms@[i]).1.required
                        implies relation_holds(
                            lin_value(*old(self), old(self).forms@[i].1.terms@,
                                old(self).forms@[i].1.constant),
                            old(self).forms@[i].1.operator) by {
                        assert(relation_holds(
                            lin_value(*self, self.forms@[i].1.terms@,
                                self.forms@[i].1.constant),
                            self.forms@[i].1.operator));
                    }
                }
            }
            assert forall|u: Constraint| #[trigger] self.records(u) <==> old(self).records(u) by {
                if self.records(u) {
                    let i = choose|i: int| #[trigger] self.records_at(u, i);
                    assert(old(self).records_at(u, i));
                }
                if old(self).records(u) {
                    let i = choose|i: int| #[trigger] old(self).records_at(u, i);
                    assert(self.records_at(u, i));
                }
            }
        }
        out
    }

    /// The value last reported for a variable through `fetch_changes`,
    /// zero when the variable was never tracked.  Reads the snapshot only;
    /// it never re-optimizes.
    pub fn value_of(&self, v: Variable) -> (r: Ratio)
        requires
            self.wf(),
        ensures
            r == self.snapshot_value(v),
            ratio_wf(r),
    {
        match find_key_at(&self.vars, v.id) {
            None => Ratio::zero(),
            Some(i) => {
                proof {
                    let a = key_index(self.vars@, v.id);
                    assert(self.vars@[i as int].0 == v.id);
                    assert(has_key(self.vars@, v.id));
                    if a != i as int {
                        assert((self.vars@[a]).0 == v.id);
                        assert(false);
                    }
                }
                self.vars[i].1.last
            },
        }
    }
}

} // verus!
