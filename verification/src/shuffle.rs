//! The hierarchical permutation engine: per-level block collection, the
//! dihedral block transforms, the non-aliasing relocation pass, and the
//! top-level shuffle.

use vstd::arithmetic::power2::pow2;
use vstd::prelude::*;

use crate::config::Config;
use crate::grid::Grid;

verus! {

/// Dihedral transform applied to a block's content before relocation.
///
/// `Swap` transposes the two axes; `FlipX` mirrors columns, `FlipY` mirrors
/// rows.  The `Swap*` combinations realise the quarter-turn rotations.
#[derive(Debug, Clone, Copy, PartialEq, Eq, Structural)]
pub enum Mode {
    Noop,
    FlipX,
    FlipY,
    FlipBoth,
    Swap,
    SwapFlipX,
    SwapFlipY,
    SwapFlipBoth,
}

/// Row offset inside the source block that lands at `(dr, dc)` of the
/// destination block under `mode`, for blocks of side `m`.
pub open spec fn src_row_off(mode: Mode, m: int, dr: int, dc: int) -> int {
    match mode {
        Mode::Noop => dr,
        Mode::FlipX => dr,
        Mode::FlipY => m - 1 - dr,
        Mode::FlipBoth => m - 1 - dr,
        Mode::Swap => dc,
        Mode::SwapFlipX => m - 1 - dc,
        Mode::SwapFlipY => dc,
        Mode::SwapFlipBoth => m - 1 - dc,
    }
}

/// Column counterpart of [`src_row_off`].
pub open spec fn src_col_off(mode: Mode, m: int, dr: int, dc: int) -> int {
    match mode {
        Mode::Noop => dc,
        Mode::FlipX => m - 1 - dc,
        Mode::FlipY => dc,
        Mode::FlipBoth => m - 1 - dc,
        Mode::Swap => dr,
        Mode::SwapFlipX => dr,
        Mode::SwapFlipY => m - 1 - dr,
        Mode::SwapFlipBoth => m - 1 - dr,
    }
}

/// The transform whose offset map inverts that of `mode`.
pub open spec fn inv_mode(mode: Mode) -> Mode {
    match mode {
        Mode::Noop => Mode::Noop,
        Mode::FlipX => Mode::FlipX,
        Mode::FlipY => Mode::FlipY,
        Mode::FlipBoth => Mode::FlipBoth,
        Mode::Swap => Mode::Swap,
        Mode::SwapFlipX => Mode::SwapFlipY,
        Mode::SwapFlipY => Mode::SwapFlipX,
        Mode::SwapFlipBoth => Mode::SwapFlipBoth,
    }
}

/// The offset map of a transform is a bijection of the `m x m` square, with
/// `inv_mode` giving its inverse.
pub proof fn lemma_offsets_bijective(mode: Mode, m: int, dr: int, dc: int)
    requires
        0 <= dr < m,
        0 <= dc < m,
    ensures
        0 <= src_row_off(mode, m, dr, dc) < m,
        0 <= src_col_off(mode, m, dr, dc) < m,
        src_row_off(
            inv_mode(mode),
            m,
            src_row_off(mode, m, dr, dc),
            src_col_off(mode, m, dr, dc),
        ) == dr,
        src_col_off(
            inv_mode(mode),
            m,
            src_row_off(mode, m, dr, dc),
            src_col_off(mode, m, dr, dc),
        ) == dc,
{
}

/// The transforms a configuration may draw: none without flags, the mirror
/// family under `flip`, the quarter-turn family under `rotate`, all eight
/// when both flags are set.
pub open spec fn mode_ok(config: Config, mode: Mode) -> bool {
    if config.flip && config.rotate {
        true
    } else if config.flip {
        mode == Mode::Noop || mode == Mode::FlipX || mode == Mode::FlipY || mode == Mode::FlipBoth
    } else if config.rotate {
        mode == Mode::Noop || mode == Mode::SwapFlipX || mode == Mode::SwapFlipY || mode
            == Mode::FlipBoth
    } else {
        mode == Mode::Noop
    }
}

/// Draw one transform from the configuration's enabled subset.
fn draw_mode(config: &Config, random: &mut rand_xoshiro::Xoshiro256StarStar) -> (mode: Mode)
    ensures
        mode_ok(*config, mode),
{
    if config.flip && config.rotate {
        match crate::rng::draw_below(random, 8) {
            0 => Mode::Noop,
            1 => Mode::FlipX,
            2 => Mode::FlipY,
            3 => Mode::FlipBoth,
            4 => Mode::Swap,
            5 => Mode::SwapFlipX,
            6 => Mode::SwapFlipY,
            _ => Mode::SwapFlipBoth,
        }
    } else if config.flip {
        match crate::rng::draw_below(random, 4) {
            0 => Mode::Noop,
            1 => Mode::FlipX,
            2 => Mode::FlipY,
            _ => Mode::FlipBoth,
        }
    } else if config.rotate {
        match crate::rng::draw_below(random, 4) {
            0 => Mode::Noop,
            1 => Mode::SwapFlipX,
            2 => Mode::SwapFlipY,
            _ => Mode::FlipBoth,
        }
    } else {
        Mode::Noop
    }
}

/// Collect, in row-major order, every cell of the reduced level grid that
/// holds exactly the value `2^s`: the origins of the level-`s` blocks.
pub fn collect_blocks(levels: &Grid<u64>, s: usize) -> (blocks: Vec<(usize, usize)>)
    requires
        levels.wf(),
        s < 64,
    ensures
        forall|k: int|
            0 <= k < blocks@.len() ==> {
                &&& (#[trigger] blocks@[k]).0 < levels.rows
                &&& blocks@[k].1 < levels.cols
                &&& levels.cell(blocks@[k].0 as int, blocks@[k].1 as int) as nat == pow2(s as nat)
            },
        forall|k1: int, k2: int|
            0 <= k1 < k2 < blocks@.len() ==> ((#[trigger] blocks@[k1]).0 < (
            #[trigger] blocks@[k2]).0 || (blocks@[k1].0 == blocks@[k2].0 && blocks@[k1].1
                < blocks@[k2].1)),
        forall|r: int, c: int|
            0 <= r < levels.rows && 0 <= c < levels.cols && levels.cell(r, c) as nat == pow2(
                s as nat,
            ) ==> exists|k: int|
                0 <= k < blocks@.len() && (#[trigger] blocks@[k]) == (r as usize, c as usize),
{
    let target: u64 = 1u64 << (s as u64);
    proof {
        vstd::bits::lemma_u64_pow2_no_overflow(s as nat);
        vstd::bits::lemma_u64_shl_is_mul(1u64, s as u64);
        assert(target as nat == pow2(s as nat));
    }
    let rows = levels.rows;
    let cols = levels.cols;
    let mut blocks: Vec<(usize, usize)> = Vec::new();
    let mut r: usize = 0;
    while r < rows
        invariant
            levels.wf(),
            rows == levels.rows,
            cols == levels.cols,
            target as nat == pow2(s as nat),
            r <= rows,
            forall|k: int|
                0 <= k < blocks@.len() ==> {
                    &&& (#[trigger] blocks@[k]).0 < r
                    &&& blocks@[k].1 < cols
                    &&& levels.cell(blocks@[k].0 as int, blocks@[k].1 as int) == target
                },
            forall|k1: int, k2: int|
                0 <= k1 < k2 < blocks@.len() ==> ((#[trigger] blocks@[k1]).0 < (
                #[trigger] blocks@[k2]).0 || (blocks@[k1].0 == blocks@[k2].0 && blocks@[k1].1
                    < blocks@[k2].1)),
            forall|r2: int, c2: int|
                0 <= r2 < r && 0 <= c2 < cols && levels.cell(r2, c2) == target ==> exists|k: int|
                    0 <= k < blocks@.len() && (#[trigger] blocks@[k]) == (
                    r2 as usize,
                    c2 as usize,
                    ),
        decreases rows - r,
    {
        let mut c: usize = 0;
        while c < cols
            invariant
                levels.wf(),
                rows == levels.rows,
                cols == levels.cols,
                target as nat == pow2(s as nat),
                r < rows,
                c <= cols,
                forall|k: int|
                    0 <= k < blocks@.len() ==> {
                        &&& (#[trigger] blocks@[k]).0 <= r
                        &&& blocks@[k].1 < cols
                        &&& (blocks@[k].0 == r ==> blocks@[k].1 < c)
                        &&& levels.cell(blocks@[k].0 as int, blocks@[k].1 as int) == target
                    },
                forall|k1: int, k2: int|
                    0 <= k1 < k2 < blocks@.len() ==> ((#[trigger] blocks@[k1]).0 < (
                    #[trigger] blocks@[k2]).0 || (blocks@[k1].0 == blocks@[k2].0 && blocks@[k1].1
                        < blocks@[k2].1)),
                forall|r2: int, c2: int|
                    0 <= r2 < rows && 0 <= c2 < cols && levels.cell(r2, c2) == target && (r2 < r || (
                    r2 == r && c2 < c)) ==> exists|k: int|
                        0 <= k < blocks@.len() && (#[trigger] blocks@[k]) == (
                        r2 as usize,
                        c2 as usize,
                        ),
            decreases cols - c,
        {
            let v = levels.get(r, c);
            if v == target {
                let ghost pre = blocks@;
                blocks.push((r, c));
                proof {
                    assert(blocks@ == pre.push((r, c)));
                    assert(blocks@[pre.len() as int] == (r, c));
                    assert forall|r2: int, c2: int|
                        0 <= r2 < rows && 0 <= c2 < cols && levels.cell(r2, c2) == target && (r2 < r
                            || (r2 == r && c2 < c + 1)) implies exists|k: int|
                        0 <= k < blocks@.len() && (#[trigger] blocks@[k]) == (
                        r2 as usize,
                        c2 as usize,
                    ) by {
                        if r2 == r && c2 == c {
                            assert(blocks@[pre.len() as int] == (r2 as usize, c2 as usize));
                        } else {
                            let k = choose|k: int|
                                0 <= k < pre.len() && (#[trigger] pre[k]) == (
                                r2 as usize,
                                c2 as usize,
                                );
                            assert(blocks@[k] == (r2 as usize, c2 as usize));
                        }
                    }
                }
            }
            c = c + 1;
        }
        r = r + 1;
    }
    blocks
}

/// Copy one `m x m` block from `arr` into `out`, applying `mode`.
///
/// Cell `(dr, dc)` of the destination receives cell
/// `(src_row_off(mode, m, dr, dc), src_col_off(mode, m, dr, dc))` of the
/// source block; cells outside the destination block are untouched.
pub fn copy_block<T: Copy>(
    arr: &Grid<T>,
    out: &mut Grid<T>,
    src_r: usize,
    src_c: usize,
    dst_r: usize,
    dst_c: usize,
    m: usize,
    mode: Mode,
)
    requires
        arr.wf(),
        old(out).wf(),
        old(out).rows == arr.rows,
        old(out).cols == arr.cols,
        m >= 1,
        src_r + m <= arr.rows,
        src_c + m <= arr.cols,
        dst_r + m <= arr.rows,
        dst_c + m <= arr.cols,
    ensures
        final(out).wf(),
        final(out).rows == arr.rows,
        final(out).cols == arr.cols,
        forall|dr: int, dc: int|
            0 <= dr < m && 0 <= dc < m ==> final(out).cell(dst_r + dr, dst_c + dc) == arr.cell(
                src_r + src_row_off(mode, m as int, dr, dc),
                src_c + src_col_off(mode, m as int, dr, dc),
            ),
        forall|r: int, c: int|
            final(out).in_bounds(r, c) && !(dst_r <= r < dst_r + m && dst_c <= c < dst_c + m)
                ==> final(out).cell(r, c) == old(out).cell(r, c),
{
    let mut dr: usize = 0;
    while dr < m
        invariant
            arr.wf(),
            out.wf(),
            out.rows == arr.rows,
            out.cols == arr.cols,
            m >= 1,
            src_r + m <= arr.rows,
            src_c + m <= arr.cols,
            dst_r + m <= arr.rows,
            dst_c + m <= arr.cols,
            dr <= m,
            forall|a: int, b: int|
                0 <= a < dr && 0 <= b < m ==> out.cell(dst_r + a, dst_c + b) == arr.cell(
                    src_r + src_row_off(mode, m as int, a, b),
                    src_c + src_col_off(mode, m as int, a, b),
                ),
            forall|r: int, c: int|
                out.in_bounds(r, c) && !(dst_r <= r < dst_r + dr && dst_c <= c < dst_c + m)
                    ==> out.cell(r, c) == old(out).cell(r, c),
        decreases m - dr,
    {
        let mut dc: usize = 0;
        while dc < m
            invariant
                arr.wf(),
                out.wf(),
                out.rows == arr.rows,
                out.cols == arr.cols,
                m >= 1,
                src_r + m <= arr.rows,
                src_c + m <= arr.cols,
                dst_r + m <= arr.rows,
                dst_c + m <= arr.cols,
                dr < m,
                dc <= m,
                forall|a: int, b: int|
                    0 <= a < dr && 0 <= b < m ==> out.cell(dst_r + a, dst_c + b) == arr.cell(
                        src_r + src_row_off(mode, m as int, a, b),
                        src_c + src_col_off(mode, m as int, a, b),
                    ),
                forall|b: int|
                    0 <= b < dc ==> out.cell(dst_r + dr, dst_c + b) == arr.cell(
                        src_r + src_row_off(mode, m as int, dr as int, b),
                        src_c + src_col_off(mode, m as int, dr as int, b),
                    ),
                forall|r: int, c: int|
                    out.in_bounds(r, c) && !(dst_r <= r < dst_r + dr + 1 && dst_c <= c < dst_c + m)
                        ==> out.cell(r, c) == old(out).cell(r, c),
            decreases m - dc,
        {
            let (ta, tb) = match mode {
                Mode::Noop => (dr, dc),
                Mode::FlipX => (dr, m - 1 - dc),
                Mode::FlipY => (m - 1 - dr, dc),
                Mode::FlipBoth => (m - 1 - dr, m - 1 - dc),
                Mode::Swap => (dc, dr),
                Mode::SwapFlipX => (m - 1 - dc, dr),
                Mode::SwapFlipY => (dc, m - 1 - dr),
                Mode::SwapFlipBoth => (m - 1 - dc, m - 1 - dr),
            };
            proof {
                assert(ta as int == src_row_off(mode, m as int, dr as int, dc as int));
                assert(tb as int == src_col_off(mode, m as int, dr as int, dc as int));
            }
            let v = arr.get(src_r + ta, src_c + tb);
            out.set(dst_r + dr, dst_c + dc, v);
            dc = dc + 1;
        }
        dr = dr + 1;
    }
}

/// The origin list of one level: `m`-aligned, in bounds, pairwise distinct.
pub open spec fn blocks_wf(bs: Seq<(usize, usize)>, rows: int, cols: int, m: int) -> bool {
    &&& forall|k: int|
        0 <= k < bs.len() ==> {
            &&& (#[trigger] bs[k]).0 as int % m == 0
            &&& bs[k].1 as int % m == 0
            &&& bs[k].0 + m <= rows
            &&& bs[k].1 + m <= cols
        }
    &&& forall|k1: int, k2: int|
        0 <= k1 < k2 < bs.len() ==> (#[trigger] bs[k1]) != (#[trigger] bs[k2])
}

/// Cell `(r, c)` lies in the `m`-square at origin `b`.
pub open spec fn covers_block(b: (usize, usize), m: int, r: int, c: int) -> bool {
    b.0 <= r < b.0 + m && b.1 <= c < b.1 + m
}

/// Cell `(r, c)` lies in some block of the list.
pub open spec fn in_region(bs: Seq<(usize, usize)>, m: int, r: int, c: int) -> bool {
    exists|k: int| 0 <= k < bs.len() && covers_block(#[trigger] bs[k], m, r, c)
}

/// Index of the block covering `(r, c)` (unique when `blocks_wf` holds).
pub open spec fn block_of(bs: Seq<(usize, usize)>, m: int, r: int, c: int) -> int {
    choose|k: int| 0 <= k < bs.len() && covers_block(#[trigger] bs[k], m, r, c)
}

/// The list position that the permutation sends to `k`.
pub open spec fn perm_pre(pm: Seq<usize>, k: int) -> int {
    choose|j: int| 0 <= j < pm.len() && (#[trigger] pm[j]) as int == k
}

/// Two aligned `m`-windows containing one point share their base.
pub proof fn lemma_window_unique(x: int, base1: int, base2: int, m: int)
    requires
        m > 0,
        base1 >= 0,
        base2 >= 0,
        base1 % m == 0,
        base2 % m == 0,
        base1 <= x < base1 + m,
        base2 <= x < base2 + m,
    ensures
        base1 == base2,
{
    if base1 < base2 {
        crate::mask::lemma_multiple_gap(base1, base2, m);
    } else if base2 < base1 {
        crate::mask::lemma_multiple_gap(base2, base1, m);
    }
}

/// A cell is covered by at most one block of a well-formed list.
pub proof fn lemma_covering_unique(
    bs: Seq<(usize, usize)>,
    rows: int,
    cols: int,
    m: int,
    k1: int,
    k2: int,
    r: int,
    c: int,
)
    requires
        blocks_wf(bs, rows, cols, m),
        m > 0,
        0 <= k1 < bs.len(),
        0 <= k2 < bs.len(),
        covers_block(bs[k1], m, r, c),
        covers_block(bs[k2], m, r, c),
    ensures
        k1 == k2,
{
    lemma_window_unique(r, bs[k1].0 as int, bs[k2].0 as int, m);
    lemma_window_unique(c, bs[k1].1 as int, bs[k2].1 as int, m);
    if k1 < k2 {
        assert(bs[k1] != bs[k2]);
    } else if k2 < k1 {
        assert(bs[k2] != bs[k1]);
    }
}

/// Row and column recovered from a flat row-major index.
proof fn lemma_flat_unflat(rows: int, cols: int, r: int, c: int)
    requires
        0 <= r < rows,
        0 <= c < cols,
    ensures
        (r * cols + c) / cols == r,
        (r * cols + c) % cols == c,
        0 <= r * cols + c < rows * cols,
{
    crate::grid::lemma_flat_index(rows, cols, r, c);
    vstd::arithmetic::mul::lemma_mul_is_commutative(r, cols);
    vstd::arithmetic::div_mod::lemma_fundamental_div_mod_converse(r * cols + c, cols, r, c);
}

/// A flat index names an in-bounds cell.
proof fn lemma_unflat(rows: int, cols: int, p: int)
    requires
        cols > 0,
        rows >= 0,
        0 <= p < rows * cols,
    ensures
        0 <= p / cols < rows,
        0 <= p % cols < cols,
        p == (p / cols) * cols + (p % cols),
{
    vstd::arithmetic::div_mod::lemma_fundamental_div_mod(p, cols);
    vstd::arithmetic::div_mod::lemma_mod_division_less_than_divisor(p, cols);
    vstd::arithmetic::div_mod::lemma_div_pos_is_pos(p, cols);
    vstd::arithmetic::mul::lemma_mul_is_commutative(p / cols, cols);
    assert(p / cols < rows) by (nonlinear_arith)
        requires
            cols > 0,
            p < rows * cols,
            p == cols * (p / cols) + (p % cols),
            0 <= p % cols < cols,
            0 <= p / cols,
    ;
}

/// Relocate every block of one level: block `i` of the list is copied,
/// transformed by `modes[i]`, onto the origin of block `perm[i]`.
///
/// Cells outside the level's blocks keep their value, and — because before
/// the call the blocks still carried the input's content — the multiset of
/// cell values of `out` is preserved exactly.
pub fn relocate_level<T: Copy>(
    arr: &Grid<T>,
    out: &mut Grid<T>,
    blocks: &Vec<(usize, usize)>,
    m: usize,
    perm: &Vec<usize>,
    modes: &Vec<Mode>,
)
    requires
        arr.wf(),
        old(out).wf(),
        old(out).rows == arr.rows,
        old(out).cols == arr.cols,
        m >= 1,
        blocks_wf(blocks@, arr.rows as int, arr.cols as int, m as int),
        perm@.to_multiset() == crate::perm::seq_range(blocks@.len()).to_multiset(),
        modes@.len() == blocks@.len(),
        forall|r: int, c: int|
            in_region(blocks@, m as int, r, c) && arr.in_bounds(r, c) ==> old(out).cell(r, c)
                == arr.cell(r, c),
    ensures
        final(out).wf(),
        final(out).rows == arr.rows,
        final(out).cols == arr.cols,
        forall|i: int, dr: int, dc: int|
            0 <= i < blocks@.len() && 0 <= dr < m && 0 <= dc < m ==> final(out).cell(
                blocks@[perm@[i] as int].0 + dr,
                blocks@[perm@[i] as int].1 + dc,
            ) == arr.cell(
                blocks@[i].0 + src_row_off(modes@[i], m as int, dr, dc),
                blocks@[i].1 + src_col_off(modes@[i], m as int, dr, dc),
            ),
        forall|r: int, c: int|
            arr.in_bounds(r, c) && !in_region(blocks@, m as int, r, c) ==> final(out).cell(r, c)
                == old(out).cell(r, c),
        final(out).data@.to_multiset() == old(out).data@.to_multiset(),
{
    let ghost bs = blocks@;
    let ghost pm = perm@;
    let ghost mds = modes@;
    let ghost mi = m as int;
    let ghost rows_i = arr.rows as int;
    let ghost cols_i = arr.cols as int;
    let ghost pre = *out;
    let n = blocks.len();
    proof {
        crate::perm::lemma_perm_of_range(pm, n as nat);
    }
    let mut i: usize = 0;
    while i < n
        invariant
            arr.wf(),
            out.wf(),
            out.rows == arr.rows,
            out.cols == arr.cols,
            m >= 1,
            mi == m as int,
            rows_i == arr.rows as int,
            cols_i == arr.cols as int,
            n == bs.len(),
            bs == blocks@,
            pm == perm@,
            mds == modes@,
            pm.len() == n,
            mds.len() == n,
            blocks_wf(bs, rows_i, cols_i, mi),
            forall|k: int| 0 <= k < n ==> (#[trigger] pm[k]) < n,
            forall|k1: int, k2: int|
                0 <= k1 < n && 0 <= k2 < n && k1 != k2 ==> #[trigger] pm[k1] != #[trigger] pm[k2],
            pre == *old(out),
            i <= n,
            forall|j: int, dr: int, dc: int|
                0 <= j < i && 0 <= dr < mi && 0 <= dc < mi ==> out.cell(
                    bs[pm[j] as int].0 + dr,
                    bs[pm[j] as int].1 + dc,
                ) == arr.cell(
                    bs[j].0 + src_row_off(mds[j], mi, dr, dc),
                    bs[j].1 + src_col_off(mds[j], mi, dr, dc),
                ),
            forall|r: int, c: int|
                arr.in_bounds(r, c) && !(exists|j: int|
                    0 <= j < i && covers_block(#[trigger] bs[pm[j] as int], mi, r, c))
                    ==> out.cell(r, c) == pre.cell(r, c),
        decreases n - i,
    {
        let (src_r, src_c) = blocks[i];
        let di = perm[i];
        let (dst_r, dst_c) = blocks[di];
        let mode = modes[i];
        let ghost mid = *out;
        copy_block(arr, out, src_r, src_c, dst_r, dst_c, m, mode);
        proof {
            let ii = i as int;
            assert forall|j: int, dr: int, dc: int|
                0 <= j < ii + 1 && 0 <= dr < mi && 0 <= dc < mi implies out.cell(
                bs[pm[j] as int].0 + dr,
                bs[pm[j] as int].1 + dc,
            ) == arr.cell(
                bs[j].0 + src_row_off(mds[j], mi, dr, dc),
                bs[j].1 + src_col_off(mds[j], mi, dr, dc),
            ) by {
                let k = pm[j] as int;
                let r = bs[k].0 + dr;
                let c = bs[k].1 + dc;
                if j < ii {
                    // Earlier destination blocks are disjoint from the block
                    // just written.
                    assert(covers_block(bs[k], mi, r, c));
                    if dst_r <= r < dst_r + mi && dst_c <= c < dst_c + mi {
                        assert(covers_block(bs[pm[ii] as int], mi, r, c));
                        lemma_covering_unique(bs, rows_i, cols_i, mi, k, pm[ii] as int, r, c);
                    }
                    assert(out.cell(r, c) == mid.cell(r, c));
                } else {
                    assert(bs[pm[ii] as int] == (dst_r, dst_c));
                    assert(bs[ii] == (src_r, src_c));
                }
            }
            assert forall|r: int, c: int|
                arr.in_bounds(r, c) && !(exists|j: int|
                    0 <= j < ii + 1 && covers_block(#[trigger] bs[pm[j] as int], mi, r, c)) implies out.cell(
                r,
                c,
            ) == pre.cell(r, c) by {
                assert(!covers_block(bs[pm[ii] as int], mi, r, c));
                assert(out.cell(r, c) == mid.cell(r, c));
            }
        }
        i = i + 1;
    }
    proof {
        lemma_relocation_conserves(arr, pre, *out, bs, pm, mds, mi);
    }
}

/// After a full level pass the destination grid holds a bijective
/// rearrangement of the pre-pass grid, so the value multiset is unchanged.
#[verifier::rlimit(100)]
proof fn lemma_relocation_conserves<T>(
    arr: &Grid<T>,
    pre: Grid<T>,
    cur: Grid<T>,
    bs: Seq<(usize, usize)>,
    pm: Seq<usize>,
    mds: Seq<Mode>,
    mi: int,
)
    requires
        arr.wf(),
        pre.wf(),
        cur.wf(),
        pre.rows == arr.rows,
        pre.cols == arr.cols,
        cur.rows == arr.rows,
        cur.cols == arr.cols,
        mi >= 1,
        bs.len() <= usize::MAX,
        blocks_wf(bs, arr.rows as int, arr.cols as int, mi),
        pm.len() == bs.len(),
        mds.len() == bs.len(),
        forall|k: int| 0 <= k < pm.len() ==> (#[trigger] pm[k]) < pm.len(),
        forall|k1: int, k2: int|
            0 <= k1 < pm.len() && 0 <= k2 < pm.len() && k1 != k2 ==> #[trigger] pm[k1]
                != #[trigger] pm[k2],
        forall|v: usize| v < pm.len() ==> #[trigger] pm.contains(v),
        forall|r: int, c: int|
            in_region(bs, mi, r, c) && arr.in_bounds(r, c) ==> pre.cell(r, c) == arr.cell(r, c),
        forall|j: int, dr: int, dc: int|
            0 <= j < bs.len() && 0 <= dr < mi && 0 <= dc < mi ==> cur.cell(
                bs[pm[j] as int].0 + dr,
                bs[pm[j] as int].1 + dc,
            ) == arr.cell(
                bs[j].0 + src_row_off(mds[j], mi, dr, dc),
                bs[j].1 + src_col_off(mds[j], mi, dr, dc),
            ),
        forall|r: int, c: int|
            arr.in_bounds(r, c) && !(exists|j: int|
                0 <= j < pm.len() && covers_block(#[trigger] bs[pm[j] as int], mi, r, c))
                ==> cur.cell(r, c) == pre.cell(r, c),
    ensures
        cur.data@.to_multiset() == pre.data@.to_multiset(),
{
    let rows_i = arr.rows as int;
    let cols_i = arr.cols as int;
    let n = bs.len() as int;
    let a = pre.data@;
    let b = cur.data@;
    let f = |p: int|
        {
            let r = p / cols_i;
            let c = p % cols_i;
            if in_region(bs, mi, r, c) {
                let k = block_of(bs, mi, r, c);
                let j = perm_pre(pm, k);
                let dr = r - bs[k].0;
                let dc = c - bs[k].1;
                (bs[j].0 + src_row_off(mds[j], mi, dr, dc)) * cols_i + (bs[j].1 + src_col_off(
                    mds[j],
                    mi,
                    dr,
                    dc,
                ))
            } else {
                p
            }
        };
    let h = |p: int|
        {
            let r = p / cols_i;
            let c = p % cols_i;
            if in_region(bs, mi, r, c) {
                let j = block_of(bs, mi, r, c);
                let k = pm[j] as int;
                let tr = r - bs[j].0;
                let tc = c - bs[j].1;
                (bs[k].0 + src_row_off(inv_mode(mds[j]), mi, tr, tc)) * cols_i + (bs[k].1
                    + src_col_off(inv_mode(mds[j]), mi, tr, tc))
            } else {
                p
            }
        };
    assert(a.len() == rows_i * cols_i);
    assert(b.len() == rows_i * cols_i);
    if cols_i == 0 || rows_i == 0 {
        assert(a.len() == 0) by (nonlinear_arith)
            requires
                a.len() == rows_i * cols_i,
                cols_i == 0 || rows_i == 0,
        ;
        assert(a =~= b);
        return ;
    }
    // In-region cells have no block out of bounds, so every block index is
    // well defined; establish the four bijection obligations pointwise.
    assert forall|p: int| 0 <= p < b.len() implies {
        &&& 0 <= #[trigger] f(p) < a.len()
        &&& h(f(p)) == p
        &&& b[p] == a[f(p)]
    } by {
        lemma_unflat(rows_i, cols_i, p);
        let r = p / cols_i;
        let c = p % cols_i;
        if in_region(bs, mi, r, c) {
            let k = block_of(bs, mi, r, c);
            assert(0 <= k < n && covers_block(bs[k], mi, r, c));
            assert(pm.contains(k as usize));
            let j0 = choose|j0: int| 0 <= j0 < pm.len() && pm[j0] == k as usize;
            assert(exists|j: int| 0 <= j < pm.len() && (#[trigger] pm[j]) as int == k) by {
                assert(0 <= j0 < pm.len() && pm[j0] as int == k);
            }
            let j = perm_pre(pm, k);
            assert(0 <= j < n && pm[j] as int == k);
            let dr = r - bs[k].0;
            let dc = c - bs[k].1;
            lemma_offsets_bijective(mds[j], mi, dr, dc);
            let sr = bs[j].0 + src_row_off(mds[j], mi, dr, dc);
            let sc = bs[j].1 + src_col_off(mds[j], mi, dr, dc);
            assert(0 <= sr < rows_i && 0 <= sc < cols_i);
            lemma_flat_unflat(rows_i, cols_i, sr, sc);
            assert(f(p) == sr * cols_i + sc);
            assert(0 <= f(p) < a.len());
            // Content: the destination-block clause at (j, dr, dc).
            assert(cur.cell(bs[k].0 + dr, bs[k].1 + dc) == arr.cell(sr, sc));
            assert(b[p] == cur.cell(r, c)) by {
                lemma_flat_unflat(rows_i, cols_i, r, c);
            }
            assert(covers_block(bs[j], mi, sr, sc));
            assert(in_region(bs, mi, sr, sc));
            assert(a[f(p)] == pre.cell(sr, sc));
            assert(pre.cell(sr, sc) == arr.cell(sr, sc));
            // Inverse: h lands back on p.
            let k2 = block_of(bs, mi, sr, sc);
            lemma_covering_unique(bs, rows_i, cols_i, mi, k2, j, sr, sc);
            assert(k2 == j);
            assert(h(f(p)) == (bs[k].0 + src_row_off(inv_mode(mds[j]), mi, sr - bs[j].0, sc
                - bs[j].1)) * cols_i + (bs[k].1 + src_col_off(
                inv_mode(mds[j]),
                mi,
                sr - bs[j].0,
                sc - bs[j].1,
            )));
            assert(src_row_off(inv_mode(mds[j]), mi, sr - bs[j].0, sc - bs[j].1) == dr);
            assert(src_col_off(inv_mode(mds[j]), mi, sr - bs[j].0, sc - bs[j].1) == dc);
            assert(h(f(p)) == (bs[k].0 + dr) * cols_i + (bs[k].1 + dc));
        } else {
            assert(f(p) == p && h(p) == p);
            assert(b[p] == cur.cell(r, c) && a[p] == pre.cell(r, c)) by {
                lemma_unflat(rows_i, cols_i, p);
                vstd::arithmetic::div_mod::lemma_fundamental_div_mod(p, cols_i);
                vstd::arithmetic::mul::lemma_mul_is_commutative(r, cols_i);
            }
            assert forall|j: int|
                0 <= j < pm.len() implies !covers_block(#[trigger] bs[pm[j] as int], mi, r, c) by {
                if covers_block(bs[pm[j] as int], mi, r, c) {
                    assert(in_region(bs, mi, r, c));
                }
            }
            assert(cur.cell(r, c) == pre.cell(r, c));
        }
    }
    assert forall|p: int| 0 <= p < a.len() implies {
        &&& 0 <= #[trigger] h(p) < b.len()
        &&& f(h(p)) == p
    } by {
        lemma_unflat(rows_i, cols_i, p);
        let r = p / cols_i;
        let c = p % cols_i;
        if in_region(bs, mi, r, c) {
            let j = block_of(bs, mi, r, c);
            assert(0 <= j < n && covers_block(bs[j], mi, r, c));
            let k = pm[j] as int;
            let tr = r - bs[j].0;
            let tc = c - bs[j].1;
            lemma_offsets_bijective(inv_mode(mds[j]), mi, tr, tc);
            let dr = src_row_off(inv_mode(mds[j]), mi, tr, tc);
            let dc = src_col_off(inv_mode(mds[j]), mi, tr, tc);
            assert(src_row_off(mds[j], mi, dr, dc) == tr && src_col_off(mds[j], mi, dr, dc) == tc)
                by {
                lemma_offsets_bijective(mds[j], mi, dr, dc);
                lemma_offset_roundtrip(mds[j], mi, tr, tc);
            }
            let wr = bs[k].0 + dr;
            let wc = bs[k].1 + dc;
            assert(0 <= wr < rows_i && 0 <= wc < cols_i);
            lemma_flat_unflat(rows_i, cols_i, wr, wc);
            assert(h(p) == wr * cols_i + wc);
            assert(covers_block(bs[k], mi, wr, wc));
            assert(in_region(bs, mi, wr, wc));
            let k2 = block_of(bs, mi, wr, wc);
            lemma_covering_unique(bs, rows_i, cols_i, mi, k2, k, wr, wc);
            assert(pm.contains(k as usize));
            assert(exists|j3: int| 0 <= j3 < pm.len() && (#[trigger] pm[j3]) as int == k) by {
                let j0 = choose|j0: int| 0 <= j0 < pm.len() && pm[j0] == k as usize;
                assert(0 <= j0 < pm.len() && pm[j0] as int == k);
            }
            let j2 = perm_pre(pm, k);
            assert(0 <= j2 < pm.len() && pm[j2] as int == k);
            assert(j2 == j);
            assert(f(h(p)) == (bs[j].0 + src_row_off(mds[j], mi, dr, dc)) * cols_i + (bs[j].1
                + src_col_off(mds[j], mi, dr, dc)));
            assert(f(h(p)) == (bs[j].0 + tr) * cols_i + (bs[j].1 + tc));
        } else {
            assert(h(p) == p && f(p) == p);
        }
    }
    crate::perm::lemma_bijection_multiset(a, b, f, h);
}

/// Why a shuffle request is rejected before any work begins.
#[derive(Debug, Clone, Copy, PartialEq, Eq, Structural)]
pub enum ShuffleError {
    /// The mask's extent differs from the payload's leading two axes.
    ShapeMismatch,
    /// The configured block level names a side of `2^64` or more.
    LevelTooLarge,
}

/// The content of the destination block at `(br, bc)` is the source block
/// at `(sr, sc)` transformed by `mode`, for blocks of side `m`.
pub open spec fn block_relocated_by<T>(
    arr: Grid<T>,
    out: Grid<T>,
    m: int,
    br: int,
    bc: int,
    sr: int,
    sc: int,
    mode: Mode,
) -> bool {
    forall|dr: int, dc: int|
        0 <= dr < m && 0 <= dc < m ==> #[trigger] out.cell(br + dr, bc + dc) == arr.cell(
            sr + src_row_off(mode, m, dr, dc),
            sc + src_col_off(mode, m, dr, dc),
        )
}

/// Some source block of the same level, under some enabled transform, wrote
/// the destination block at `(br, bc)`.
pub open spec fn block_relocated<T>(
    arr: Grid<T>,
    out: Grid<T>,
    el: Seq<bool>,
    rows: int,
    cols: int,
    cap: nat,
    config: Config,
    s: nat,
    br: int,
    bc: int,
) -> bool {
    exists|sr: int, sc: int, mode: Mode|
        #![trigger block_relocated_by(arr, out, pow2(s) as int, br, bc, sr, sc, mode)]
        {
            &&& crate::mask::origin_at(el, rows, cols, cap, s, sr, sc)
            &&& mode_ok(config, mode)
            &&& block_relocated_by(arr, out, pow2(s) as int, br, bc, sr, sc, mode)
        }
}

/// Every block of the mask's maximal partition was relocated whole: its
/// destination holds a same-level source block under an enabled transform.
pub open spec fn blocks_shuffled<T>(arr: Grid<T>, mask: Grid<bool>, config: Config, out: Grid<T>) -> bool {
    forall|s: nat, br: int, bc: int|
        #[trigger] crate::mask::origin_at(
            crate::mask::elig_of_mask(mask),
            arr.rows as int,
            arr.cols as int,
            config.chunk_po2 as nat,
            s,
            br,
            bc,
        ) ==> block_relocated(
            arr,
            out,
            crate::mask::elig_of_mask(mask),
            arr.rows as int,
            arr.cols as int,
            config.chunk_po2 as nat,
            config,
            s,
            br,
            bc,
        )
}

/// Shuffle `arr` under `mask` and `config`, drawing all randomness from
/// `random`.
///
/// The mask's extent must equal the payload's (else `ShapeMismatch`), and
/// the configured level must be below 64 (else `LevelTooLarge`); nothing is
/// computed in those cases.  Otherwise the result has the payload's shape
/// and exactly its multiset of cell values; every cell the mask excludes
/// (`true`) keeps its place, and every block of the mask's maximal
/// power-of-two partition is relocated whole, per [`blocks_shuffled`].
#[verifier::rlimit(100)]
pub fn jigshuffle<T: Copy>(
    arr: &Grid<T>,
    mask: &Grid<bool>,
    config: &Config,
    random: &mut rand_xoshiro::Xoshiro256StarStar,
) -> (result: Result<Grid<T>, ShuffleError>)
    requires
        arr.wf(),
        mask.wf(),
    ensures
        result is Err <==> (config.chunk_po2 >= 64 || mask.rows != arr.rows || mask.cols
            != arr.cols),
        config.chunk_po2 >= 64 ==> result == Err::<Grid<T>, ShuffleError>(
            ShuffleError::LevelTooLarge,
        ),
        config.chunk_po2 < 64 && (mask.rows != arr.rows || mask.cols != arr.cols) ==> result
            == Err::<Grid<T>, ShuffleError>(ShuffleError::ShapeMismatch),
        result matches Ok(out) ==> {
            &&& out.wf()
            &&& out.rows == arr.rows
            &&& out.cols == arr.cols
            &&& out.data@.to_multiset() == arr.data@.to_multiset()
            &&& forall|r: int, c: int|
                arr.in_bounds(r, c) && !crate::mask::elig_at(
                    crate::mask::elig_of_mask(*mask),
                    arr.cols as int,
                    r,
                    c,
                ) ==> out.cell(r, c) == arr.cell(r, c)
            &&& blocks_shuffled(*arr, *mask, *config, out)
        },
{
    if config.chunk_po2 >= 64 {
        return Err(ShuffleError::LevelTooLarge);
    }
    if mask.rows != arr.rows || mask.cols != arr.cols {
        return Err(ShuffleError::ShapeMismatch);
    }
    let ghost el = crate::mask::elig_of_mask(*mask);
    let ghost cap = config.chunk_po2 as nat;
    let ghost rows_i = arr.rows as int;
    let ghost cols_i = arr.cols as int;
    let levels = crate::mask::mask_to_levels(mask, config.chunk_po2);
    let mut out = arr.duplicate();
    let mut lv: usize = config.chunk_po2 + 1;
    while lv > 0
        invariant
            arr.wf(),
            mask.wf(),
            out.wf(),
            out.rows == arr.rows,
            out.cols == arr.cols,
            el == crate::mask::elig_of_mask(*mask),
            cap == config.chunk_po2 as nat,
            config.chunk_po2 < 64,
            rows_i == arr.rows as int,
            cols_i == arr.cols as int,
            mask.rows == arr.rows,
            mask.cols == arr.cols,
            levels.wf(),
            levels.rows == arr.rows,
            levels.cols == arr.cols,
            forall|r: int, c: int|
                levels.in_bounds(r, c) ==> levels.cell(r, c) as nat == crate::mask::reduced_val(
                    el,
                    rows_i,
                    cols_i,
                    cap,
                    r,
                    c,
                ),
            lv <= config.chunk_po2 + 1,
            out.data@.to_multiset() == arr.data@.to_multiset(),
            forall|r: int, c: int|
                arr.in_bounds(r, c) && !crate::mask::elig_at(el, cols_i, r, c) ==> out.cell(r, c)
                    == arr.cell(r, c),
            forall|r: int, c: int|
                arr.in_bounds(r, c) && crate::mask::elig_at(el, cols_i, r, c)
                    && crate::mask::best_level(el, rows_i, cols_i, cap, r, c) < lv ==> out.cell(
                    r,
                    c,
                ) == arr.cell(r, c),
            forall|s: nat, br: int, bc: int|
                #[trigger] crate::mask::origin_at(el, rows_i, cols_i, cap, s, br, bc) && s >= lv
                    ==> block_relocated(*arr, out, el, rows_i, cols_i, cap, *config, s, br, bc),
        decreases lv,
    {
        let s = lv - 1;
        let ghost sp = s as nat;
        let m64: u64 = 1u64 << (s as u64);
        proof {
            vstd::bits::lemma_u64_pow2_no_overflow(sp);
            vstd::bits::lemma_u64_shl_is_mul(1u64, s as u64);
            vstd::arithmetic::power2::lemma_pow2_pos(sp);
            assert(m64 as nat == pow2(sp));
        }
        let ghost pre_level = out;
        if m64 <= arr.rows as u64 && m64 <= arr.cols as u64 {
            let m = m64 as usize;
            let blocks = collect_blocks(&levels, s);
            let n = blocks.len();
            let mut modes: Vec<Mode> = Vec::new();
            let mut i: usize = 0;
            while i < n
                invariant
                    i <= n,
                    modes@.len() == i,
                    forall|j: int| 0 <= j < i ==> mode_ok(*config, #[trigger] modes@[j]),
                decreases n - i,
            {
                let md = draw_mode(config, random);
                modes.push(md);
                i = i + 1;
            }
            let mut indices = crate::perm::index_vec(n);
            crate::rng::shuffle_in_place(random, &mut indices);
            let ghost bs = blocks@;
            proof {
                assert(m as int == pow2(sp));
                // Every listed block is a level-s origin.
                assert forall|k: int| 0 <= k < bs.len() implies crate::mask::origin_at(
                    el,
                    rows_i,
                    cols_i,
                    cap,
                    sp,
                    (#[trigger] bs[k]).0 as int,
                    bs[k].1 as int,
                ) by {
                    crate::mask::lemma_block_origin(
                        el,
                        rows_i,
                        cols_i,
                        cap,
                        sp,
                        bs[k].0 as int,
                        bs[k].1 as int,
                    );
                }
                // The list is well formed for relocation.
                assert(blocks_wf(bs, rows_i, cols_i, m as int)) by {
                    assert forall|k: int| 0 <= k < bs.len() implies {
                        &&& (#[trigger] bs[k]).0 as int % (m as int) == 0
                        &&& bs[k].1 as int % (m as int) == 0
                        &&& bs[k].0 + m <= rows_i
                        &&& bs[k].1 + m <= cols_i
                    } by {
                        crate::mask::lemma_block_origin(
                            el,
                            rows_i,
                            cols_i,
                            cap,
                            sp,
                            bs[k].0 as int,
                            bs[k].1 as int,
                        );
                    }
                }
                // Blocks of this level still hold the input's content.
                assert forall|r: int, c: int|
                    in_region(bs, m as int, r, c) && arr.in_bounds(r, c) implies out.cell(r, c)
                    == arr.cell(r, c) by {
                    let k = choose|k: int|
                        0 <= k < bs.len() && covers_block(#[trigger] bs[k], m as int, r, c);
                    crate::mask::lemma_covered_best(
                        el,
                        rows_i,
                        cols_i,
                        cap,
                        sp,
                        bs[k].0 as int,
                        bs[k].1 as int,
                        r,
                        c,
                    );
                }
                assert(indices@.to_multiset() == crate::perm::seq_range(bs.len()).to_multiset());
            }
            let ghost before_call = out;
            relocate_level(arr, &mut out, &blocks, m, &indices, &modes);
            proof {
                assert(before_call == pre_level);
                assert forall|r: int, c: int|
                    arr.in_bounds(r, c) && !in_region(bs, m as int, r, c) implies out.cell(r, c)
                    == pre_level.cell(r, c) by {
                    assert(out.cell(r, c) == before_call.cell(r, c));
                }
                let pm = indices@;
                crate::perm::lemma_perm_of_range(pm, n as nat);
                // A cell of this level's region has best level exactly s;
                // cells of any other level are untouched.
                assert forall|r: int, c: int|
                    arr.in_bounds(r, c) && crate::mask::elig_at(el, cols_i, r, c)
                        && crate::mask::best_level(el, rows_i, cols_i, cap, r, c) != sp implies !in_region(
                    bs,
                    m as int,
                    r,
                    c,
                ) by {
                    if in_region(bs, m as int, r, c) {
                        let k = choose|k: int|
                            0 <= k < bs.len() && covers_block(#[trigger] bs[k], m as int, r, c);
                        crate::mask::lemma_covered_best(
                            el,
                            rows_i,
                            cols_i,
                            cap,
                            sp,
                            bs[k].0 as int,
                            bs[k].1 as int,
                            r,
                            c,
                        );
                    }
                }
                assert forall|r: int, c: int|
                    arr.in_bounds(r, c) && !crate::mask::elig_at(el, cols_i, r, c) implies out.cell(
                    r,
                    c,
                ) == arr.cell(r, c) by {
                    if in_region(bs, m as int, r, c) {
                        let k = choose|k: int|
                            0 <= k < bs.len() && covers_block(#[trigger] bs[k], m as int, r, c);
                        crate::mask::lemma_covered_best(
                            el,
                            rows_i,
                            cols_i,
                            cap,
                            sp,
                            bs[k].0 as int,
                            bs[k].1 as int,
                            r,
                            c,
                        );
                    } else {
                        assert(out.cell(r, c) == pre_level.cell(r, c));
                    }
                }
                assert forall|r: int, c: int|
                    arr.in_bounds(r, c) && crate::mask::elig_at(el, cols_i, r, c)
                        && crate::mask::best_level(el, rows_i, cols_i, cap, r, c) < lv - 1 implies out.cell(
                    r,
                    c,
                ) == arr.cell(r, c) by {
                    assert(!in_region(bs, m as int, r, c));
                    assert(out.cell(r, c) == pre_level.cell(r, c));
                }
                // Relocation facts for every level done so far.
                assert forall|t: nat, br: int, bc: int|
                    #[trigger] crate::mask::origin_at(el, rows_i, cols_i, cap, t, br, bc) && t >= lv
                        - 1 implies block_relocated(
                    *arr,
                    out,
                    el,
                    rows_i,
                    cols_i,
                    cap,
                    *config,
                    t,
                    br,
                    bc,
                ) by {
                    if t >= lv {
                        // Preserved from earlier levels: those blocks' cells
                        // are disjoint from this level's region.
                        let (sr, sc, mode) = choose|sr: int, sc: int, mode: Mode|
                            #![trigger block_relocated_by(
                                *arr,
                                pre_level,
                                pow2(t) as int,
                                br,
                                bc,
                                sr,
                                sc,
                                mode,
                            )]
                            {
                                &&& crate::mask::origin_at(el, rows_i, cols_i, cap, t, sr, sc)
                                &&& mode_ok(*config, mode)
                                &&& block_relocated_by(
                                    *arr,
                                    pre_level,
                                    pow2(t) as int,
                                    br,
                                    bc,
                                    sr,
                                    sc,
                                    mode,
                                )
                            };
                        assert forall|dr: int, dc: int|
                            0 <= dr < pow2(t) && 0 <= dc < pow2(t) implies #[trigger] out.cell(
                            br + dr,
                            bc + dc,
                        ) == arr.cell(
                            sr + src_row_off(mode, pow2(t) as int, dr, dc),
                            sc + src_col_off(mode, pow2(t) as int, dr, dc),
                        ) by {
                            crate::mask::lemma_covered_best(
                                el,
                                rows_i,
                                cols_i,
                                cap,
                                t,
                                br,
                                bc,
                                br + dr,
                                bc + dc,
                            );
                            if in_region(bs, m as int, br + dr, bc + dc) {
                                let k3 = choose|k3: int|
                                    0 <= k3 < bs.len() && covers_block(
                                        #[trigger] bs[k3],
                                        m as int,
                                        br + dr,
                                        bc + dc,
                                    );
                                assert(crate::mask::covers(
                                    sp,
                                    bs[k3].0 as int,
                                    bs[k3].1 as int,
                                    br + dr,
                                    bc + dc,
                                ));
                                crate::mask::lemma_covered_best(
                                    el,
                                    rows_i,
                                    cols_i,
                                    cap,
                                    sp,
                                    bs[k3].0 as int,
                                    bs[k3].1 as int,
                                    br + dr,
                                    bc + dc,
                                );
                            }
                            assert(!in_region(bs, m as int, br + dr, bc + dc));
                            assert(out.cell(br + dr, bc + dc) == pre_level.cell(br + dr, bc + dc));
                        }
                        assert(block_relocated_by(*arr, out, pow2(t) as int, br, bc, sr, sc, mode));
                    } else {
                        // This level: the block list is complete, so (br, bc)
                        // is some blocks[k], and the permutation filled it
                        // from blocks[i].
                        assert(t == sp);
                        crate::mask::lemma_block_origin(el, rows_i, cols_i, cap, sp, br, bc);
                        crate::grid::lemma_flat_index(rows_i, cols_i, br, bc);
                        assert(levels.cell(br, bc) as nat == pow2(sp));
                        let k = choose|k: int|
                            0 <= k < bs.len() && (#[trigger] bs[k]) == (br as usize, bc as usize);
                        assert(pm.contains(k as usize));
                        let i2 = choose|i2: int| 0 <= i2 < pm.len() && pm[i2] == k as usize;
                        let sr = bs[i2].0 as int;
                        let sc = bs[i2].1 as int;
                        let mode = modes@[i2];
                        assert(crate::mask::origin_at(el, rows_i, cols_i, cap, sp, sr, sc));
                        assert(mode_ok(*config, mode));
                        assert forall|dr: int, dc: int|
                            0 <= dr < pow2(t) && 0 <= dc < pow2(t) implies #[trigger] out.cell(
                            br + dr,
                            bc + dc,
                        ) == arr.cell(
                            sr + src_row_off(mode, pow2(t) as int, dr, dc),
                            sc + src_col_off(mode, pow2(t) as int, dr, dc),
                        ) by {
                            assert(out.cell(bs[pm[i2] as int].0 + dr, bs[pm[i2] as int].1 + dc)
                                == arr.cell(
                                bs[i2].0 + src_row_off(modes@[i2], m as int, dr, dc),
                                bs[i2].1 + src_col_off(modes@[i2], m as int, dr, dc),
                            ));
                        }
                        assert(block_relocated_by(*arr, out, pow2(t) as int, br, bc, sr, sc, mode));
                    }
                }
            }
        } else {
            proof {
                // No square of side 2^s fits the grid: this level has no
                // blocks and no cells, so nothing changes.
                assert forall|t: nat, br: int, bc: int|
                    #[trigger] crate::mask::origin_at(el, rows_i, cols_i, cap, t, br, bc) && t >= lv
                        - 1 implies block_relocated(
                    *arr,
                    out,
                    el,
                    rows_i,
                    cols_i,
                    cap,
                    *config,
                    t,
                    br,
                    bc,
                ) by {
                    if t == sp {
                        crate::mask::lemma_block_origin(el, rows_i, cols_i, cap, sp, br, bc);
                    }
                }
            }
        }
        lv = lv - 1;
    }
    Ok(out)
}

/// A fully excluded mask leaves the output identical to the input.
///
/// The hypotheses are exactly what [`jigshuffle`] ensures of its `Ok`
/// result; when every mask cell is `true` they force every cell of the
/// output to keep the input's value.
pub proof fn lemma_all_excluded_identity<T>(arr: Grid<T>, mask: Grid<bool>, out: Grid<T>)
    requires
        arr.wf(),
        mask.wf(),
        out.wf(),
        mask.rows == arr.rows,
        mask.cols == arr.cols,
        out.rows == arr.rows,
        out.cols == arr.cols,
        forall|r: int, c: int| mask.in_bounds(r, c) ==> mask.cell(r, c) == true,
        forall|r: int, c: int|
            arr.in_bounds(r, c) && !crate::mask::elig_at(
                crate::mask::elig_of_mask(mask),
                arr.cols as int,
                r,
                c,
            ) ==> out.cell(r, c) == arr.cell(r, c),
    ensures
        out.data@ == arr.data@,
{
    let rows_i = arr.rows as int;
    let cols_i = arr.cols as int;
    let el = crate::mask::elig_of_mask(mask);
    assert forall|p: int| 0 <= p < arr.data@.len() implies out.data@[p] == arr.data@[p] by {
        if cols_i > 0 {
            lemma_unflat(rows_i, cols_i, p);
            let r = p / cols_i;
            let c = p % cols_i;
            assert(el[r * cols_i + c] == !mask.data@[r * cols_i + c]);
            assert(mask.cell(r, c) == true);
            assert(!crate::mask::elig_at(el, cols_i, r, c));
            assert(out.cell(r, c) == arr.cell(r, c));
            vstd::arithmetic::mul::lemma_mul_is_commutative(r, cols_i);
            vstd::arithmetic::div_mod::lemma_fundamental_div_mod(p, cols_i);
        } else {
            assert(arr.data@.len() == 0) by (nonlinear_arith)
                requires
                    arr.data@.len() == rows_i * cols_i,
                    cols_i == 0,
            ;
        }
    }
    assert(out.data@ =~= arr.data@);
}

/// The destination block holds a plain translate of the source block.
pub open spec fn translated_block<T>(
    arr: Grid<T>,
    out: Grid<T>,
    m: int,
    br: int,
    bc: int,
    sr: int,
    sc: int,
) -> bool {
    forall|dr: int, dc: int|
        0 <= dr < m && 0 <= dc < m ==> #[trigger] out.cell(br + dr, bc + dc) == arr.cell(
            sr + dr,
            sc + dc,
        )
}

/// With flips and rotations both disabled, relocation moves every block
/// whole: its content is translated, never mirrored or transposed.
pub proof fn lemma_identity_config_translation<T>(
    arr: Grid<T>,
    mask: Grid<bool>,
    config: Config,
    out: Grid<T>,
    s: nat,
    br: int,
    bc: int,
)
    requires
        blocks_shuffled(arr, mask, config, out),
        !config.flip,
        !config.rotate,
        crate::mask::origin_at(
            crate::mask::elig_of_mask(mask),
            arr.rows as int,
            arr.cols as int,
            config.chunk_po2 as nat,
            s,
            br,
            bc,
        ),
    ensures
        exists|sr: int, sc: int|
            #![trigger translated_block(arr, out, pow2(s) as int, br, bc, sr, sc)]
            {
                &&& crate::mask::origin_at(
                    crate::mask::elig_of_mask(mask),
                    arr.rows as int,
                    arr.cols as int,
                    config.chunk_po2 as nat,
                    s,
                    sr,
                    sc,
                )
                &&& translated_block(arr, out, pow2(s) as int, br, bc, sr, sc)
            },
{
    let el = crate::mask::elig_of_mask(mask);
    let rows_i = arr.rows as int;
    let cols_i = arr.cols as int;
    let cap = config.chunk_po2 as nat;
    assert(block_relocated(arr, out, el, rows_i, cols_i, cap, config, s, br, bc));
    let (sr, sc, mode) = choose|sr: int, sc: int, mode: Mode|
        #![trigger block_relocated_by(arr, out, pow2(s) as int, br, bc, sr, sc, mode)]
        {
            &&& crate::mask::origin_at(el, rows_i, cols_i, cap, s, sr, sc)
            &&& mode_ok(config, mode)
            &&& block_relocated_by(arr, out, pow2(s) as int, br, bc, sr, sc, mode)
        };
    assert(mode == Mode::Noop);
    assert(translated_block(arr, out, pow2(s) as int, br, bc, sr, sc)) by {
        assert forall|dr: int, dc: int|
            0 <= dr < pow2(s) && 0 <= dc < pow2(s) implies #[trigger] out.cell(br + dr, bc + dc)
            == arr.cell(sr + dr, sc + dc) by {
            assert(out.cell(br + dr, bc + dc) == arr.cell(
                sr + src_row_off(mode, pow2(s) as int, dr, dc),
                sc + src_col_off(mode, pow2(s) as int, dr, dc),
            ));
        }
    }
}

/// The relocation contract pins every cell, so for one pre-state, block
/// list, permutation and transform draw there is exactly one possible
/// result: relocation is reproducible given its random draws.
pub proof fn lemma_relocation_deterministic<T>(
    arr: Grid<T>,
    pre: Grid<T>,
    out1: Grid<T>,
    out2: Grid<T>,
    bs: Seq<(usize, usize)>,
    pm: Seq<usize>,
    mds: Seq<Mode>,
    mi: int,
)
    requires
        arr.wf(),
        out1.wf(),
        out2.wf(),
        out1.rows == arr.rows,
        out1.cols == arr.cols,
        out2.rows == arr.rows,
        out2.cols == arr.cols,
        mi >= 1,
        bs.len() <= usize::MAX,
        blocks_wf(bs, arr.rows as int, arr.cols as int, mi),
        pm.to_multiset() == crate::perm::seq_range(bs.len()).to_multiset(),
        mds.len() == bs.len(),
        forall|i: int, dr: int, dc: int|
            0 <= i < bs.len() && 0 <= dr < mi && 0 <= dc < mi ==> out1.cell(
                bs[pm[i] as int].0 + dr,
                bs[pm[i] as int].1 + dc,
            ) == arr.cell(
                bs[i].0 + src_row_off(mds[i], mi, dr, dc),
                bs[i].1 + src_col_off(mds[i], mi, dr, dc),
            ),
        forall|i: int, dr: int, dc: int|
            0 <= i < bs.len() && 0 <= dr < mi && 0 <= dc < mi ==> out2.cell(
                bs[pm[i] as int].0 + dr,
                bs[pm[i] as int].1 + dc,
            ) == arr.cell(
                bs[i].0 + src_row_off(mds[i], mi, dr, dc),
                bs[i].1 + src_col_off(mds[i], mi, dr, dc),
            ),
        forall|r: int, c: int|
            arr.in_bounds(r, c) && !in_region(bs, mi, r, c) ==> out1.cell(r, c) == pre.cell(r, c),
        forall|r: int, c: int|
            arr.in_bounds(r, c) && !in_region(bs, mi, r, c) ==> out2.cell(r, c) == pre.cell(r, c),
    ensures
        out1.data@ == out2.data@,
{
    let rows_i = arr.rows as int;
    let cols_i = arr.cols as int;
    crate::perm::lemma_perm_of_range(pm, bs.len());
    assert forall|p: int| 0 <= p < out1.data@.len() implies out1.data@[p] == out2.data@[p] by {
        if cols_i > 0 {
            lemma_unflat(rows_i, cols_i, p);
            let r = p / cols_i;
            let c = p % cols_i;
            if in_region(bs, mi, r, c) {
                let k = choose|k: int|
                    0 <= k < bs.len() && covers_block(#[trigger] bs[k], mi, r, c);
                assert(pm.contains(k as usize));
                let i = choose|i: int| 0 <= i < pm.len() && pm[i] == k as usize;
                let dr = r - bs[k].0;
                let dc = c - bs[k].1;
                assert(out1.cell(bs[pm[i] as int].0 + dr, bs[pm[i] as int].1 + dc) == arr.cell(
                    bs[i].0 + src_row_off(mds[i], mi, dr, dc),
                    bs[i].1 + src_col_off(mds[i], mi, dr, dc),
                ));
                assert(out2.cell(bs[pm[i] as int].0 + dr, bs[pm[i] as int].1 + dc) == arr.cell(
                    bs[i].0 + src_row_off(mds[i], mi, dr, dc),
                    bs[i].1 + src_col_off(mds[i], mi, dr, dc),
                ));
                assert(out1.cell(r, c) == out2.cell(r, c));
            } else {
                assert(out1.cell(r, c) == pre.cell(r, c));
                assert(out2.cell(r, c) == pre.cell(r, c));
            }
            vstd::arithmetic::mul::lemma_mul_is_commutative(r, cols_i);
            vstd::arithmetic::div_mod::lemma_fundamental_div_mod(p, cols_i);
        } else {
            assert(out1.data@.len() == 0) by (nonlinear_arith)
                requires
                    out1.data@.len() == rows_i * cols_i,
                    cols_i == 0,
            ;
        }
    }
    assert(out1.data@ =~= out2.data@);
}

/// Applying a transform's offset map after its inverse returns every offset
/// to itself.
pub proof fn lemma_offset_roundtrip(mode: Mode, m: int, tr: int, tc: int)
    requires
        0 <= tr < m,
        0 <= tc < m,
    ensures
        src_row_off(
            mode,
            m,
            src_row_off(inv_mode(mode), m, tr, tc),
            src_col_off(inv_mode(mode), m, tr, tc),
        ) == tr,
        src_col_off(
            mode,
            m,
            src_row_off(inv_mode(mode), m, tr, tc),
            src_col_off(inv_mode(mode), m, tr, tc),
        ) == tc,
{
}

} // verus!
