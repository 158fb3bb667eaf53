//! Jigsaw puzzle counting and seeding: how many interior edges and nodes
//! a grid has, the checks a design's grid and counts must pass, how an
//! edge is named, and the deterministic generator that picks tab
//! directions.

use crate::text::{decimal, push_decimal, push_str, text};
use vstd::prelude::*;

verus! {

/// Which way the wood grain runs across the puzzle.
#[derive(Debug, Clone, Copy, PartialEq, Eq, Structural)]
pub enum Grain {
    X,
    Y,
}

impl Default for Grain {
    fn default() -> (g: Grain)
        ensures
            g == Grain::X,
    {
        Grain::X
    }
}

/// `a - b`, or 0 when `b` is larger.
pub open spec fn sat_sub(a: u32, b: u32) -> int {
    if a >= b {
        a - b
    } else {
        0
    }
}

/// Interior edges of a `cols` by `rows` grid: the horizontal ones between
/// rows, then the vertical ones between columns.
pub open spec fn edges_of(cols: u32, rows: u32) -> int {
    sat_sub(rows, 1) * cols + sat_sub(cols, 1) * rows
}

/// Interior nodes of a `cols` by `rows` grid.
pub open spec fn nodes_of(cols: u32, rows: u32) -> int {
    sat_sub(cols, 1) * sat_sub(rows, 1)
}

/// Number of interior edges (tabs) of a grid.
pub fn edge_count(cols: u32, rows: u32) -> (n: usize)
    requires
        sat_sub(rows, 1) * cols <= u32::MAX,
        sat_sub(cols, 1) * rows <= u32::MAX,
        edges_of(cols, rows) <= u32::MAX,
    ensures
        n == edges_of(cols, rows),
{
    (rows.saturating_sub(1) * cols + cols.saturating_sub(1) * rows) as usize
}

/// Number of interior nodes (movable corners) of a grid.
pub fn node_count(cols: u32, rows: u32) -> (n: usize)
    requires
        nodes_of(cols, rows) <= u32::MAX,
    ensures
        n == nodes_of(cols, rows),
{
    (cols.saturating_sub(1) * rows.saturating_sub(1)) as usize
}

/// `x * k` modulo 2^64.
pub open spec fn wrap_mul(x: u64, k: u64) -> u64 {
    ((x as nat * k as nat) % 0x1_0000_0000_0000_0000nat) as u64
}

/// One xorshift step of the generator's state.
pub open spec fn xorshift(x: u64) -> u64 {
    let a = x ^ (x >> 12u64);
    let b = a ^ (a << 25u64);
    b ^ (b >> 27u64)
}

/// The state a seed starts the generator in.
pub open spec fn start_state(seed: u64) -> u64 {
    wrap_mul(seed, 0x9E37_79B9_7F4A_7C15u64) | 1u64
}

/// The state after `k` steps from `s`.
pub open spec fn state_after(s: u64, k: nat) -> u64
    decreases k,
{
    if k == 0 {
        s
    } else {
        xorshift(state_after(s, (k - 1) as nat))
    }
}

/// The `k`th output (from 0) of the generator seeded with `seed`.
pub open spec fn output(seed: u64, k: nat) -> u64 {
    wrap_mul(state_after(start_state(seed), k + 1), 0x2545_F491_4F6C_DD1Du64)
}

/// A small deterministic generator (xorshift64*), so a seed always gives
/// the same puzzle.
pub struct Rng(pub u64);

impl Rng {
    /// The generator for `seed`.
    pub fn new(seed: u64) -> (r: Rng)
        ensures
            r.0 == start_state(seed),
    {
        Rng(seed.wrapping_mul(0x9E37_79B9_7F4A_7C15) | 1)
    }

    /// Advances the state one xorshift step and returns it scrambled.
    pub fn next(&mut self) -> (v: u64)
        ensures
            final(self).0 == xorshift(old(self).0),
            v == wrap_mul(final(self).0, 0x2545_F491_4F6C_DD1Du64),
    {
        let mut x = self.0;
        x ^= x >> 12;
        x ^= x << 25;
        x ^= x >> 27;
        self.0 = x;
        x.wrapping_mul(0x2545_F491_4F6C_DD1D)
    }
}

/// The tab directions a seed gives: for each interior edge, whether its
/// tab bulges towards the higher-index piece (the low bit of the
/// generator's next output).
pub open spec fn directions(seed: u64, n: nat) -> Seq<bool> {
    Seq::new(n, |k: int| output(seed, k as nat) & 1u64 == 1u64)
}

/// For every interior edge of the grid, whether its tab points out, drawn
/// from the generator seeded with `seed`.
pub fn seed_tab_directions(cols: u32, rows: u32, seed: u64) -> (out: Vec<bool>)
    requires
        sat_sub(rows, 1) * cols <= u32::MAX,
        sat_sub(cols, 1) * rows <= u32::MAX,
        edges_of(cols, rows) <= u32::MAX,
    ensures
        out@ == directions(seed, edges_of(cols, rows) as nat),
{
    let n = edge_count(cols, rows);
    let mut rng = Rng::new(seed);
    let mut out: Vec<bool> = Vec::new();
    let mut i: usize = 0;
    while i < n
        invariant
            i <= n,
            rng.0 == state_after(start_state(seed), i as nat),
            out@ == directions(seed, i as nat),
        decreases n - i,
    {
        let v = rng.next();
        out.push(v & 1 == 1);
        i = i + 1;
        assert(out@ =~= directions(seed, i as nat));
    }
    out
}

/// The grid sizes a puzzle can have: 1 to 64 columns and rows.
pub open spec fn grid_fits(cols: u32, rows: u32) -> bool {
    1 <= cols <= 64 && 1 <= rows <= 64
}

proof fn lemma_small_grid(cols: u32, rows: u32)
    requires
        grid_fits(cols, rows),
    ensures
        0 <= sat_sub(rows, 1) * cols <= 63 * 64,
        0 <= sat_sub(cols, 1) * rows <= 63 * 64,
        edges_of(cols, rows) <= 2 * 63 * 64,
        0 <= nodes_of(cols, rows) <= 63 * 63,
{
    let r = sat_sub(rows, 1);
    let c = sat_sub(cols, 1);
    assert(0 <= r * cols <= 63 * 64) by (nonlinear_arith)
        requires
            0 <= r <= 63,
            1 <= cols <= 64,
    ;
    assert(0 <= c * rows <= 63 * 64) by (nonlinear_arith)
        requires
            0 <= c <= 63,
            1 <= rows <= 64,
    ;
    assert(0 <= c * r <= 63 * 63) by (nonlinear_arith)
        requires
            0 <= c <= 63,
            0 <= r <= 63,
    ;
}

/// Refuses a grid that cannot be laid out at all.
pub fn check_grid(cols: u32, rows: u32) -> (r: Result<(), String>)
    ensures
        match r {
            Ok(_) => grid_fits(cols, rows),
            Err(e) => !grid_fits(cols, rows) && e@ == "a puzzle needs 1 to 64 columns and rows"@,
        },
{
    if cols < 1 || rows < 1 || cols > 64 || rows > 64 {
        Err(text("a puzzle needs 1 to 64 columns and rows"))
    } else {
        Ok(())
    }
}

/// What is wrong with the numbers of tabs and corner offsets given for a
/// grid, if anything: there must be one tab per interior edge, then one
/// offset per interior node.
pub open spec fn count_problem(cols: u32, rows: u32, tabs: nat, corners: nat) -> Option<Seq<char>> {
    if tabs != edges_of(cols, rows) {
        Some(decimal(tabs) + " tabs for "@ + decimal(edges_of(cols, rows) as nat) + " interior edges"@)
    } else if corners != nodes_of(cols, rows) {
        Some(
            decimal(corners) + " corner offsets for "@ + decimal(nodes_of(cols, rows) as nat)
                + " interior nodes"@,
        )
    } else {
        None
    }
}

/// Checks that a design gives one tab per interior edge and one corner
/// offset per interior node.
pub fn check_counts(cols: u32, rows: u32, tabs: usize, corners: usize) -> (r: Result<(), String>)
    requires
        grid_fits(cols, rows),
    ensures
        match count_problem(cols, rows, tabs as nat, corners as nat) {
            None => r is Ok,
            Some(m) => r matches Err(e) && e@ == m,
        },
{
    proof {
        lemma_small_grid(cols, rows);
    }
    let edges = edge_count(cols, rows);
    let nodes = node_count(cols, rows);
    if tabs != edges {
        let mut e = String::new();
        push_decimal(&mut e, tabs as u64);
        push_str(&mut e, " tabs for ");
        push_decimal(&mut e, edges as u64);
        push_str(&mut e, " interior edges");
        return Err(e);
    }
    if corners != nodes {
        let mut e = String::new();
        push_decimal(&mut e, corners as u64);
        push_str(&mut e, " corner offsets for ");
        push_decimal(&mut e, nodes as u64);
        push_str(&mut e, " interior nodes");
        return Err(e);
    }
    Ok(())
}

/// How the messages about a tab name its edge. Interior edges are
/// numbered the edges above pieces first, row by row, then the edges
/// right of pieces, column by column; pieces count from 1.
pub open spec fn edge_label(index: nat, cols: nat, rows: nat) -> Seq<char> {
    let h = ((rows - 1) * cols) as nat;
    if index < h {
        "tab on the edge above piece "@ + decimal(index % cols + 1) + ","@ + decimal(index / cols + 1)
    } else {
        let k = (index - h) as nat;
        "tab on the edge right of piece "@ + decimal(k / rows + 1) + ","@ + decimal(k % rows + 1)
    }
}

/// The name of interior edge `index` in the messages about its tab.
pub fn edge_name(index: usize, cols: u32, rows: u32) -> (name: String)
    requires
        grid_fits(cols, rows),
        index < edges_of(cols, rows),
    ensures
        name@ == edge_label(index as nat, cols as nat, rows as nat),
{
    proof {
        lemma_small_grid(cols, rows);
    }
    let c = cols as usize;
    let r = rows as usize;
    assert((r - 1) * c == sat_sub(rows, 1) * cols);
    let h = (r - 1) * c;
    let mut name = String::new();
    if index < h {
        push_str(&mut name, "tab on the edge above piece ");
        push_decimal(&mut name, (index % c + 1) as u64);
        push_str(&mut name, ",");
        push_decimal(&mut name, (index / c + 1) as u64);
    } else {
        let k = index - h;
        assert(k / r <= k) by (nonlinear_arith)
            requires
                r >= 1,
        ;
        push_str(&mut name, "tab on the edge right of piece ");
        push_decimal(&mut name, (k / r + 1) as u64);
        push_str(&mut name, ",");
        push_decimal(&mut name, (k % r + 1) as u64);
    }
    name
}

/// A grid without interior lines has no interior edges or nodes.
pub proof fn law_single_row_has_only_vertical_edges(cols: u32)
    ensures
        edges_of(cols, 1) == sat_sub(cols, 1),
        nodes_of(cols, 1) == 0,
{
}

} // verus!
