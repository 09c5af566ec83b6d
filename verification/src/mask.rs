//! The mask quadtree reducer: turns a per-cell eligibility grid into the
//! maximal partition of aligned power-of-two blocks, with the partition's
//! completeness, uniqueness and maximality proved.

use vstd::arithmetic::div_mod::{
    lemma_fundamental_div_mod, lemma_mod_breakdown, lemma_mod_division_less_than_divisor,
    lemma_mod_multiples_basic,
};
use vstd::arithmetic::mul::{lemma_mul_inequality, lemma_mul_is_distributive_sub_other_way};
use vstd::arithmetic::power2::{
    lemma_pow2_adds, lemma_pow2_pos, lemma_pow2_strictly_increases, lemma_pow2_unfold, pow2,
};
use vstd::prelude::*;

use crate::grid::Grid;

verus! {

// ---------------------------------------------------------------------------
// Eligibility vocabulary
//
// An eligibility sequence `el` describes, row-major, which cells of a
// `rows x cols` grid may take part in the shuffle.  A square of side `2^s`
// is "full" when it sits on the `2^s`-aligned lattice, lies inside the grid,
// and consists of eligible cells only.  The quadtree reduction assigns to a
// cell the side of the largest full aligned square containing it, and keeps
// that value only at the square's top-left origin.
// ---------------------------------------------------------------------------
/// Is the cell `(r, c)` eligible?
pub open spec fn elig_at(el: Seq<bool>, cols: int, r: int, c: int) -> bool {
    el[r * cols + c]
}

/// Every cell of the square of side `2^s` with top-left corner `(r, c)` is
/// eligible.
pub open spec fn sq_elig(el: Seq<bool>, cols: int, s: nat, r: int, c: int) -> bool {
    forall|i: int, j: int|
        r <= i < r + pow2(s) && c <= j < c + pow2(s) ==> #[trigger] elig_at(el, cols, i, j)
}

/// The square of side `2^s` at `(r, c)` is aligned, in bounds, and fully
/// eligible.
pub open spec fn sq_full(el: Seq<bool>, rows: int, cols: int, s: nat, r: int, c: int) -> bool {
    &&& 0 <= r
    &&& 0 <= c
    &&& r % (pow2(s) as int) == 0
    &&& c % (pow2(s) as int) == 0
    &&& r + pow2(s) <= rows
    &&& c + pow2(s) <= cols
    &&& sq_elig(el, cols, s, r, c)
}

/// Top-left corner of the `2^s`-aligned square containing coordinate `x`.
pub open spec fn align_down(x: int, s: nat) -> int {
    x - (x % (pow2(s) as int))
}

/// The `2^s`-aligned square containing `(r, c)` is full.
pub open spec fn cont_full(el: Seq<bool>, rows: int, cols: int, s: nat, r: int, c: int) -> bool {
    sq_full(el, rows, cols, s, align_down(r, s), align_down(c, s))
}

/// The largest level `t <= cap` whose aligned square containing `(r, c)` is
/// full (0 if none is).
pub open spec fn best_level(el: Seq<bool>, rows: int, cols: int, cap: nat, r: int, c: int) -> nat
    decreases cap,
{
    if cont_full(el, rows, cols, cap, r, c) {
        cap
    } else if cap == 0 {
        0
    } else {
        best_level(el, rows, cols, (cap - 1) as nat, r, c)
    }
}

/// The value the quadtree reduction leaves at cell `(r, c)` when merging is
/// attempted up to level `cap`: the side of its maximal full square if the
/// cell is that square's origin, otherwise 0.
pub open spec fn reduced_val(el: Seq<bool>, rows: int, cols: int, cap: nat, r: int, c: int) -> nat {
    let b = best_level(el, rows, cols, cap, r, c);
    if elig_at(el, cols, r, c) && r % (pow2(b) as int) == 0 && c % (pow2(b) as int) == 0 {
        pow2(b)
    } else {
        0
    }
}

// ---------------------------------------------------------------------------
// Alignment lemmas
// ---------------------------------------------------------------------------
/// `align_down(x, s)` is the largest multiple of `2^s` at most `x`.
pub proof fn lemma_align_basic(x: int, s: nat)
    requires
        x >= 0,
    ensures
        align_down(x, s) % (pow2(s) as int) == 0,
        x - pow2(s) < align_down(x, s) <= x,
        align_down(x, s) >= 0,
{
    let p = pow2(s) as int;
    lemma_pow2_pos(s);
    lemma_mod_division_less_than_divisor(x, p);
    lemma_fundamental_div_mod(x, p);
    assert(align_down(x, s) == p * (x / p));
    lemma_mod_multiples_basic(x / p, p);
}

/// No multiple of `2^s` between `align_down(x, s)` and `x`.
pub proof fn lemma_align_largest(x: int, s: nat, y: int)
    requires
        x >= 0,
        y >= 0,
        y % (pow2(s) as int) == 0,
        y <= x,
    ensures
        y <= align_down(x, s),
{
    let p = pow2(s) as int;
    lemma_pow2_pos(s);
    lemma_fundamental_div_mod(x, p);
    lemma_fundamental_div_mod(y, p);
    assert(align_down(x, s) == p * (x / p));
    assert(y == p * (y / p));
    vstd::arithmetic::div_mod::lemma_div_is_ordered(y, x, p);
    lemma_mul_inequality(y / p, x / p, p);
    assert((y / p) * p <= (x / p) * p);
    vstd::arithmetic::mul::lemma_mul_is_commutative(y / p, p);
    vstd::arithmetic::mul::lemma_mul_is_commutative(x / p, p);
}

/// A coordinate already on the lattice is its own alignment.
pub proof fn lemma_align_fixed(x: int, s: nat)
    requires
        x % (pow2(s) as int) == 0,
    ensures
        align_down(x, s) == x,
{
}

/// Alignment is determined by the surrounding aligned square.
pub proof fn lemma_align_in_square(x: int, s: nat, base: int)
    requires
        x >= 0,
        base >= 0,
        base % (pow2(s) as int) == 0,
        base <= x < base + pow2(s),
    ensures
        align_down(x, s) == base,
{
    let p = pow2(s) as int;
    lemma_pow2_pos(s);
    lemma_align_basic(x, s);
    lemma_align_largest(x, s, base);
    // align_down(x, s) is a multiple of p in [base, base + p), as is base;
    // two multiples of p less than p apart are equal.
    let a = align_down(x, s);
    lemma_fundamental_div_mod(a, p);
    lemma_fundamental_div_mod(base, p);
    assert(a == p * (a / p));
    assert(base == p * (base / p));
    assert(a - base == p * (a / p - base / p)) by {
        lemma_mul_is_distributive_sub_other_way(p, a / p, base / p);
        vstd::arithmetic::mul::lemma_mul_is_commutative(p, a / p - base / p);
        vstd::arithmetic::mul::lemma_mul_is_commutative(p, a / p);
        vstd::arithmetic::mul::lemma_mul_is_commutative(p, base / p);
    }
    if a != base {
        assert(a / p - base / p >= 1) by {
            if a / p - base / p <= 0 {
                lemma_mul_inequality(a / p - base / p, 0, p);
                assert(p * (a / p - base / p) <= 0) by (nonlinear_arith)
                    requires
                        a / p - base / p <= 0,
                        p > 0,
                ;
            }
        }
        assert(p * (a / p - base / p) >= p) by (nonlinear_arith)
            requires
                a / p - base / p >= 1,
                p > 0,
        ;
    }
}

/// Aligning an aligned coordinate to a coarser level loses nothing.
pub proof fn lemma_align_collapse(x: int, s: nat, t: nat)
    requires
        x >= 0,
        s <= t,
    ensures
        align_down(align_down(x, s), t) == align_down(x, t),
{
    let a0 = align_down(x, s);
    let a1 = align_down(x, t);
    lemma_align_basic(x, s);
    lemma_align_basic(x, t);
    lemma_align_basic(a0, t);
    // a1 is a multiple of 2^t <= a0, so a1 <= align_down(a0, t).
    assert(a1 % (pow2(s) as int) == 0 && a1 <= a0) by {
        lemma_pow2_mod_coarse(a1, s, t);
        lemma_align_largest(x, s, a1);
    }
    lemma_align_largest(a0, t, a1);
    // align_down(a0, t) is a multiple of 2^t <= x, so it is <= a1.
    lemma_align_largest(x, t, align_down(a0, t));
}

/// A multiple of a coarse power of two is a multiple of any finer one.
pub proof fn lemma_pow2_mod_coarse(x: int, s: nat, t: nat)
    requires
        x >= 0,
        s <= t,
        x % (pow2(t) as int) == 0,
    ensures
        x % (pow2(s) as int) == 0,
{
    let p = pow2(s) as int;
    let d = pow2((t - s) as nat) as int;
    lemma_pow2_pos(s);
    lemma_pow2_pos((t - s) as nat);
    lemma_pow2_adds(s, (t - s) as nat);
    assert(p * d > 0) by (nonlinear_arith)
        requires
            p > 0,
            d > 0,
    ;
    lemma_fundamental_div_mod(x, p * d);
    assert(x == (p * d) * (x / (p * d)));
    assert(x == p * (d * (x / (p * d)))) by (nonlinear_arith)
        requires
            x == (p * d) * (x / (p * d)),
    ;
    lemma_mod_multiples_basic(d * (x / (p * d)), p);
}

/// Two distinct multiples of `p` are at least `p` apart.
pub proof fn lemma_multiple_gap(a: int, b: int, p: int)
    requires
        p > 0,
        a >= 0,
        b >= 0,
        a % p == 0,
        b % p == 0,
        a < b,
    ensures
        a + p <= b,
{
    lemma_fundamental_div_mod(a, p);
    lemma_fundamental_div_mod(b, p);
    assert(a == p * (a / p));
    assert(b == p * (b / p));
    assert(b - a == p * (b / p - a / p)) by {
        lemma_mul_is_distributive_sub_other_way(p, b / p, a / p);
        vstd::arithmetic::mul::lemma_mul_is_commutative(p, b / p - a / p);
        vstd::arithmetic::mul::lemma_mul_is_commutative(p, b / p);
        vstd::arithmetic::mul::lemma_mul_is_commutative(p, a / p);
    }
    assert(b / p - a / p >= 1) by {
        if b / p - a / p <= 0 {
            assert(p * (b / p - a / p) <= 0) by (nonlinear_arith)
                requires
                    b / p - a / p <= 0,
                    p > 0,
            ;
        }
    }
    assert(p * (b / p - a / p) >= p) by (nonlinear_arith)
        requires
            b / p - a / p >= 1,
            p > 0,
    ;
}

/// The only multiples of `2^s` inside an aligned window of side `2^(s+1)`
/// are its base and midpoint.
pub proof fn lemma_multiples_in_double(x: int, s: nat, base: int)
    requires
        x >= 0,
        base >= 0,
        base % (pow2((s + 1) as nat) as int) == 0,
        x % (pow2(s) as int) == 0,
        base <= x < base + pow2((s + 1) as nat),
    ensures
        x == base || x == base + pow2(s),
{
    let p = pow2(s) as int;
    lemma_pow2_pos(s);
    lemma_pow2_unfold((s + 1) as nat);
    lemma_pow2_mod_coarse(base, s, (s + 1) as nat);
    assert((base + p) % p == 0) by {
        vstd::arithmetic::div_mod::lemma_mod_add_multiples_vanish(base, p);
    }
    if x != base {
        lemma_multiple_gap(base, x, p);
        if x != base + p {
            lemma_multiple_gap(base + p, x, p);
        }
    }
}

// ---------------------------------------------------------------------------
// Full-square structure lemmas
// ---------------------------------------------------------------------------
/// A cell inside a full coarse square sits in a full square at the next
/// finer level too.
pub proof fn lemma_cont_full_step(el: Seq<bool>, rows: int, cols: int, s: nat, r: int, c: int)
    requires
        r >= 0,
        c >= 0,
        cont_full(el, rows, cols, (s + 1) as nat, r, c),
    ensures
        cont_full(el, rows, cols, s, r, c),
{
    let p = pow2(s) as int;
    let q = pow2((s + 1) as nat) as int;
    lemma_pow2_pos(s);
    lemma_pow2_unfold((s + 1) as nat);
    let r1 = align_down(r, (s + 1) as nat);
    let c1 = align_down(c, (s + 1) as nat);
    let r0 = align_down(r, s);
    let c0 = align_down(c, s);
    lemma_align_nest(r, s);
    lemma_align_nest(c, s);
    lemma_align_basic(r, s);
    lemma_align_basic(c, s);
    lemma_align_basic(r, (s + 1) as nat);
    lemma_align_basic(c, (s + 1) as nat);
    assert forall|i: int, j: int| r0 <= i < r0 + p && c0 <= j < c0 + p implies #[trigger] elig_at(
        el,
        cols,
        i,
        j,
    ) by {
        assert(r1 <= i < r1 + q && c1 <= j < c1 + q);
    }
}

/// Full containers are downward closed in the level.
pub proof fn lemma_cont_full_down(el: Seq<bool>, rows: int, cols: int, t: nat, u: nat, r: int, c: int)
    requires
        r >= 0,
        c >= 0,
        t <= u,
        cont_full(el, rows, cols, u, r, c),
    ensures
        cont_full(el, rows, cols, t, r, c),
    decreases u - t,
{
    if t < u {
        lemma_cont_full_step(el, rows, cols, (u - 1) as nat, r, c);
        lemma_cont_full_down(el, rows, cols, t, (u - 1) as nat, r, c);
    }
}

/// `best_level` never exceeds its cap.
pub proof fn lemma_best_level_le(el: Seq<bool>, rows: int, cols: int, cap: nat, r: int, c: int)
    ensures
        best_level(el, rows, cols, cap, r, c) <= cap,
    decreases cap,
{
    if !cont_full(el, rows, cols, cap, r, c) && cap > 0 {
        lemma_best_level_le(el, rows, cols, (cap - 1) as nat, r, c);
    }
}

/// For a cell whose unit square is full, `best_level` names the largest full
/// container up to the cap, and no level above it is full.
pub proof fn lemma_best_level_props(el: Seq<bool>, rows: int, cols: int, cap: nat, r: int, c: int)
    requires
        r >= 0,
        c >= 0,
        cont_full(el, rows, cols, 0, r, c),
    ensures
        best_level(el, rows, cols, cap, r, c) <= cap,
        cont_full(el, rows, cols, best_level(el, rows, cols, cap, r, c), r, c),
        forall|t: nat|
            best_level(el, rows, cols, cap, r, c) < t <= cap ==> !cont_full(el, rows, cols, t, r, c),
    decreases cap,
{
    let b = best_level(el, rows, cols, cap, r, c);
    if cont_full(el, rows, cols, cap, r, c) {
    } else if cap == 0 {
    } else {
        lemma_best_level_props(el, rows, cols, (cap - 1) as nat, r, c);
        assert forall|t: nat| b < t <= cap implies !cont_full(el, rows, cols, t, r, c) by {
            if t < cap {
                assert(!cont_full(el, rows, cols, t, r, c));
            }
        }
    }
}

/// A full container at some admissible level pushes `best_level` at least
/// that high.
pub proof fn lemma_best_level_ge(el: Seq<bool>, rows: int, cols: int, cap: nat, t: nat, r: int, c: int)
    requires
        t <= cap,
        cont_full(el, rows, cols, t, r, c),
    ensures
        best_level(el, rows, cols, cap, r, c) >= t,
    decreases cap,
{
    if !cont_full(el, rows, cols, cap, r, c) && cap > 0 {
        lemma_best_level_ge(el, rows, cols, (cap - 1) as nat, t, r, c);
    }
}

/// The unit container of an eligible in-bounds cell is full.
pub proof fn lemma_cont_full_unit(el: Seq<bool>, rows: int, cols: int, r: int, c: int)
    requires
        0 <= r < rows,
        0 <= c < cols,
        elig_at(el, cols, r, c),
    ensures
        cont_full(el, rows, cols, 0, r, c),
{
    assert(pow2(0) == 1) by {
        vstd::arithmetic::power2::lemma2_to64();
    }
    assert(r % 1int == 0 && c % 1int == 0);
    assert(align_down(r, 0) == r && align_down(c, 0) == c);
    assert forall|i: int, j: int| r <= i < r + 1 && c <= j < c + 1 implies #[trigger] elig_at(
        el,
        cols,
        i,
        j,
    ) by {
        assert(i == r && j == c);
    }
}

/// For a `2^s`-aligned in-bounds cell, the reduction capped at `s` leaves
/// exactly `2^s` there if and only if its `2^s` square is full.
pub proof fn lemma_val_at_cap(el: Seq<bool>, rows: int, cols: int, s: nat, r: int, c: int)
    requires
        0 <= r < rows,
        0 <= c < cols,
        r % (pow2(s) as int) == 0,
        c % (pow2(s) as int) == 0,
    ensures
        reduced_val(el, rows, cols, s, r, c) == pow2(s) <==> sq_full(el, rows, cols, s, r, c),
{
    lemma_pow2_pos(s);
    if sq_full(el, rows, cols, s, r, c) {
        lemma_align_fixed(r, s);
        lemma_align_fixed(c, s);
        assert(cont_full(el, rows, cols, s, r, c));
        assert(best_level(el, rows, cols, s, r, c) == s);
        assert(elig_at(el, cols, r, c));
        assert(reduced_val(el, rows, cols, s, r, c) == pow2(s));
    }
    if reduced_val(el, rows, cols, s, r, c) == pow2(s) {
        let b = best_level(el, rows, cols, s, r, c);
        lemma_best_level_le(el, rows, cols, s, r, c);
        assert(elig_at(el, cols, r, c));
        assert(pow2(b) == pow2(s));
        assert(b == s) by {
            if b < s {
                lemma_pow2_strictly_increases(b, s);
            }
        }
        assert(cont_full(el, rows, cols, s, r, c)) by {
            if !cont_full(el, rows, cols, s, r, c) {
                if s == 0 {
                    lemma_cont_full_unit(el, rows, cols, r, c);
                } else {
                    lemma_best_level_le(el, rows, cols, (s - 1) as nat, r, c);
                }
            }
        }
        lemma_align_fixed(r, s);
        lemma_align_fixed(c, s);
    }
}

/// A coarse aligned square is full exactly when its four sub-squares are.
pub proof fn lemma_merge(el: Seq<bool>, rows: int, cols: int, s: nat, r: int, c: int)
    requires
        r >= 0,
        c >= 0,
        r % (pow2((s + 1) as nat) as int) == 0,
        c % (pow2((s + 1) as nat) as int) == 0,
        r + pow2((s + 1) as nat) <= rows,
        c + pow2((s + 1) as nat) <= cols,
    ensures
        sq_full(el, rows, cols, (s + 1) as nat, r, c) <==> {
            &&& sq_full(el, rows, cols, s, r, c)
            &&& sq_full(el, rows, cols, s, r, c + pow2(s))
            &&& sq_full(el, rows, cols, s, r + pow2(s), c)
            &&& sq_full(el, rows, cols, s, r + pow2(s), c + pow2(s))
        },
{
    let p = pow2(s) as int;
    let q = pow2((s + 1) as nat) as int;
    lemma_pow2_pos(s);
    lemma_pow2_unfold((s + 1) as nat);
    lemma_pow2_mod_coarse(r, s, (s + 1) as nat);
    lemma_pow2_mod_coarse(c, s, (s + 1) as nat);
    assert((r + p) % p == 0 && (c + p) % p == 0) by {
        vstd::arithmetic::div_mod::lemma_mod_add_multiples_vanish(r, p);
        vstd::arithmetic::div_mod::lemma_mod_add_multiples_vanish(c, p);
    }
    if sq_full(el, rows, cols, (s + 1) as nat, r, c) {
        assert forall|i: int, j: int| r <= i < r + p && c <= j < c + p implies #[trigger] elig_at(
            el,
            cols,
            i,
            j,
        ) by {}
        assert forall|i: int, j: int|
            r <= i < r + p && c + p <= j < c + p + p implies #[trigger] elig_at(el, cols, i, j) by {}
        assert forall|i: int, j: int|
            r + p <= i < r + p + p && c <= j < c + p implies #[trigger] elig_at(el, cols, i, j) by {}
        assert forall|i: int, j: int|
            r + p <= i < r + p + p && c + p <= j < c + p + p implies #[trigger] elig_at(
            el,
            cols,
            i,
            j,
        ) by {}
    }
    if {
        &&& sq_full(el, rows, cols, s, r, c)
        &&& sq_full(el, rows, cols, s, r, c + pow2(s))
        &&& sq_full(el, rows, cols, s, r + pow2(s), c)
        &&& sq_full(el, rows, cols, s, r + pow2(s), c + pow2(s))
    } {
        assert forall|i: int, j: int| r <= i < r + q && c <= j < c + q implies #[trigger] elig_at(
            el,
            cols,
            i,
            j,
        ) by {
            if i < r + p && j < c + p {
            } else if i < r + p {
                assert(c + p <= j < c + p + p);
            } else if j < c + p {
                assert(r + p <= i < r + p + p);
            } else {
                assert(r + p <= i < r + p + p && c + p <= j < c + p + p);
            }
        }
    }
}

/// Raising the cap by one level changes nothing for a cell whose coarse
/// container is not full.
pub proof fn lemma_val_step_same(el: Seq<bool>, rows: int, cols: int, s: nat, r: int, c: int)
    requires
        !sq_full(
            el,
            rows,
            cols,
            (s + 1) as nat,
            align_down(r, (s + 1) as nat),
            align_down(c, (s + 1) as nat),
        ),
    ensures
        reduced_val(el, rows, cols, (s + 1) as nat, r, c) == reduced_val(el, rows, cols, s, r, c),
{
    assert(!cont_full(el, rows, cols, (s + 1) as nat, r, c));
    assert(best_level(el, rows, cols, (s + 1) as nat, r, c) == best_level(el, rows, cols, s, r, c));
}

/// Inside a full coarse square the reduction leaves `2^(s+1)` at the origin
/// and 0 everywhere else.
pub proof fn lemma_val_merge_cell(
    el: Seq<bool>,
    rows: int,
    cols: int,
    s: nat,
    base_r: int,
    base_c: int,
    r: int,
    c: int,
)
    requires
        sq_full(el, rows, cols, (s + 1) as nat, base_r, base_c),
        base_r <= r < base_r + pow2((s + 1) as nat),
        base_c <= c < base_c + pow2((s + 1) as nat),
    ensures
        reduced_val(el, rows, cols, (s + 1) as nat, r, c) == if r == base_r && c == base_c {
            pow2((s + 1) as nat)
        } else {
            0nat
        },
{
    let q = pow2((s + 1) as nat) as int;
    lemma_pow2_pos((s + 1) as nat);
    lemma_align_in_square(r, (s + 1) as nat, base_r);
    lemma_align_in_square(c, (s + 1) as nat, base_c);
    assert(cont_full(el, rows, cols, (s + 1) as nat, r, c));
    assert(best_level(el, rows, cols, (s + 1) as nat, r, c) == s + 1);
    assert(elig_at(el, cols, r, c));
    if r == base_r && c == base_c {
        assert(r % q == 0 && c % q == 0);
    } else {
        assert(!(r % q == 0 && c % q == 0)) by {
            if r % q == 0 && c % q == 0 {
                lemma_align_fixed(r, (s + 1) as nat);
                lemma_align_fixed(c, (s + 1) as nat);
            }
        }
    }
}

/// Inside a full coarse square the reduction capped one level finer leaves
/// `2^s` at the four sub-origins and 0 everywhere else.
pub proof fn lemma_val_in_full_chunk(
    el: Seq<bool>,
    rows: int,
    cols: int,
    s: nat,
    base_r: int,
    base_c: int,
    r: int,
    c: int,
)
    requires
        sq_full(el, rows, cols, (s + 1) as nat, base_r, base_c),
        base_r <= r < base_r + pow2((s + 1) as nat),
        base_c <= c < base_c + pow2((s + 1) as nat),
    ensures
        reduced_val(el, rows, cols, s, r, c) == if r % (pow2(s) as int) == 0 && c % (pow2(s) as int)
            == 0 {
            pow2(s)
        } else {
            0nat
        },
{
    let p = pow2(s) as int;
    let q = pow2((s + 1) as nat) as int;
    lemma_pow2_pos(s);
    lemma_pow2_unfold((s + 1) as nat);
    lemma_align_in_square(r, (s + 1) as nat, base_r);
    lemma_align_in_square(c, (s + 1) as nat, base_c);
    lemma_cont_full_step(el, rows, cols, s, r, c);
    assert(best_level(el, rows, cols, s, r, c) == s) by {
        lemma_best_level_le(el, rows, cols, s, r, c);
        lemma_best_level_ge(el, rows, cols, s, s, r, c);
    }
    assert(elig_at(el, cols, r, c));
}

// ---------------------------------------------------------------------------
// The quadtree reducer
// ---------------------------------------------------------------------------
/// Eligibility read off a level grid: a cell is eligible when it holds 1.
pub open spec fn elig_of(g: Grid<u64>) -> Seq<bool> {
    g.data@.map_values(|v: u64| v == 1u64)
}

/// Eligibility read off a boolean mask: `true` marks a cell as excluded.
pub open spec fn elig_of_mask(m: Grid<bool>) -> Seq<bool> {
    m.data@.map_values(|b: bool| !b)
}

/// Mid-reduction state: has the level-`s` merge pass already visited the
/// chunk containing `(r, c)` when the pass stands at chunk `(rr, cc)`?
pub open spec fn chunk_done(rows: int, cols: int, s: nat, rr: int, cc: int, r: int, c: int) -> bool {
    let q = pow2((s + 1) as nat) as int;
    let br = align_down(r, (s + 1) as nat);
    let bc = align_down(c, (s + 1) as nat);
    br + q <= rows && bc + q <= cols && (br < rr || (br == rr && bc < cc))
}

/// Cell value in the middle of the level-`s` merge pass.
pub open spec fn mid_val(
    el: Seq<bool>,
    rows: int,
    cols: int,
    s: nat,
    rr: int,
    cc: int,
    r: int,
    c: int,
) -> nat {
    if chunk_done(rows, cols, s, rr, cc, r, c) {
        reduced_val(el, rows, cols, (s + 1) as nat, r, c)
    } else {
        reduced_val(el, rows, cols, s, r, c)
    }
}

/// Bottom-up quadtree reduction of a 0/1 eligibility grid.
///
/// On entry every cell holds 1 (eligible) or 0 (excluded).  For each level
/// `s` below `chunk_po2`, disjoint aligned `2^(s+1)` chunks whose four
/// `2^s` sub-squares are all confirmed full are merged: the chunk origin is
/// promoted to `2^(s+1)` and the other three sub-origins are cleared.  On
/// exit each cell holds the side of its maximal full aligned square if it
/// is that square's origin, and 0 otherwise.
pub fn mask_expand(levels: &mut Grid<u64>, chunk_po2: usize)
    requires
        old(levels).wf(),
        chunk_po2 < 64,
        forall|r: int, c: int|
            old(levels).in_bounds(r, c) ==> old(levels).cell(r, c) == 0u64 || old(levels).cell(
                r,
                c,
            ) == 1u64,
    ensures
        final(levels).wf(),
        final(levels).rows == old(levels).rows,
        final(levels).cols == old(levels).cols,
        forall|r: int, c: int|
            final(levels).in_bounds(r, c) ==> final(levels).cell(r, c) as nat == reduced_val(
                elig_of(*old(levels)),
                old(levels).rows as int,
                old(levels).cols as int,
                chunk_po2 as nat,
                r,
                c,
            ),
{
    let rows = levels.rows;
    let cols = levels.cols;
    let ghost el = elig_of(*levels);
    let ghost rows_i = rows as int;
    let ghost cols_i = cols as int;
    proof {
        vstd::arithmetic::power2::lemma2_to64();
        assert forall|r: int, c: int| 0 <= r < rows_i && 0 <= c < cols_i implies levels.cell(r, c)
            as nat == reduced_val(el, rows_i, cols_i, 0, r, c) by {
            crate::grid::lemma_flat_index(rows_i, cols_i, r, c);
            assert(elig_at(el, cols_i, r, c) == (levels.cell(r, c) == 1u64));
            assert(best_level(el, rows_i, cols_i, 0, r, c) == 0);
            assert(r % 1int == 0 && c % 1int == 0);
        }
    }
    let mut s: usize = 0;
    while s < chunk_po2
        invariant
            levels.wf(),
            levels.rows == rows,
            levels.cols == cols,
            rows_i == rows as int,
            cols_i == cols as int,
            el == elig_of(*old(levels)),
            s <= chunk_po2,
            chunk_po2 < 64,
            forall|r: int, c: int|
                0 <= r < rows_i && 0 <= c < cols_i ==> levels.cell(r, c) as nat == reduced_val(
                    el,
                    rows_i,
                    cols_i,
                    s as nat,
                    r,
                    c,
                ),
        decreases chunk_po2 - s,
    {
        let q64: u64 = 1u64 << ((s + 1) as u64);
        proof {
            vstd::bits::lemma_u64_pow2_no_overflow((s + 1) as nat);
            vstd::bits::lemma_u64_shl_is_mul(1u64, (s + 1) as u64);
            assert(q64 as nat == pow2((s + 1) as nat));
        }
        if q64 <= rows as u64 && q64 <= cols as u64 {
            let q = q64 as usize;
            let m = q / 2;
            let mval: u64 = 1u64 << (s as u64);
            let m2val: u64 = q64;
            proof {
                vstd::bits::lemma_u64_pow2_no_overflow(s as nat);
                vstd::bits::lemma_u64_shl_is_mul(1u64, s as u64);
                lemma_pow2_unfold((s + 1) as nat);
                lemma_pow2_pos(s as nat);
                assert(q as int == pow2((s + 1) as nat));
                assert(m as int == pow2(s as nat));
                assert(mval as nat == pow2(s as nat));
                assert(m2val as nat == pow2((s + 1) as nat));
            }
            let mut rr: usize = 0;
            while rr <= rows - q
                invariant
                    levels.wf(),
                    levels.rows == rows,
                    levels.cols == cols,
                    rows_i == rows as int,
                    cols_i == cols as int,
                    el == elig_of(*old(levels)),
                    s < chunk_po2,
                    chunk_po2 < 64,
                    q as int == pow2((s + 1) as nat),
                    m as int == pow2(s as nat),
                    mval as nat == pow2(s as nat),
                    m2val as nat == pow2((s + 1) as nat),
                    q == 2 * m,
                    1 <= m,
                    q <= rows,
                    q <= cols,
                    rr as int % (q as int) == 0,
                    rr <= rows,
                    forall|r: int, c: int|
                        0 <= r < rows_i && 0 <= c < cols_i ==> levels.cell(r, c) as nat == mid_val(
                            el,
                            rows_i,
                            cols_i,
                            s as nat,
                            rr as int,
                            0,
                            r,
                            c,
                        ),
                decreases rows - rr,
            {
                let mut cc: usize = 0;
                proof {
                    assert forall|r: int, c: int| 0 <= r < rows_i && 0 <= c < cols_i implies mid_val(
                        el,
                        rows_i,
                        cols_i,
                        s as nat,
                        rr as int,
                        0,
                        r,
                        c,
                    ) == mid_val(el, rows_i, cols_i, s as nat, rr as int, cc as int, r, c) by {}
                }
                while cc <= cols - q
                    invariant
                        levels.wf(),
                        levels.rows == rows,
                        levels.cols == cols,
                        rows_i == rows as int,
                        cols_i == cols as int,
                        el == elig_of(*old(levels)),
                        s < chunk_po2,
                        chunk_po2 < 64,
                        q as int == pow2((s + 1) as nat),
                        m as int == pow2(s as nat),
                        mval as nat == pow2(s as nat),
                        m2val as nat == pow2((s + 1) as nat),
                        q == 2 * m,
                        1 <= m,
                        q <= rows,
                        q <= cols,
                        rr as int % (q as int) == 0,
                        rr + q <= rows,
                        cc as int % (q as int) == 0,
                        cc <= cols,
                        forall|r: int, c: int|
                            0 <= r < rows_i && 0 <= c < cols_i ==> levels.cell(r, c) as nat
                                == mid_val(
                                el,
                                rows_i,
                                cols_i,
                                s as nat,
                                rr as int,
                                cc as int,
                                r,
                                c,
                            ),
                    decreases cols - cc,
                {
                    let ghost pre = *levels;
                    let ghost bigr = rr as int;
                    let ghost bigc = cc as int;
                    let ghost sp = s as nat;
                    let ghost p_i = pow2(sp) as int;
                    let ghost q_i = pow2((sp + 1) as nat) as int;
                    proof {
                        // The chunk at (rr, cc) is not yet done, so its four
                        // corners still hold their level-s values.
                        lemma_pow2_pos(sp);
                        lemma_pow2_mod_coarse(bigr, sp, (sp + 1) as nat);
                        lemma_pow2_mod_coarse(bigc, sp, (sp + 1) as nat);
                        assert((bigr + p_i) % p_i == 0 && (bigc + p_i) % p_i == 0) by {
                            vstd::arithmetic::div_mod::lemma_mod_add_multiples_vanish(bigr, p_i);
                            vstd::arithmetic::div_mod::lemma_mod_add_multiples_vanish(bigc, p_i);
                        }
                        lemma_align_fixed(bigr, (sp + 1) as nat);
                        lemma_align_fixed(bigc, (sp + 1) as nat);
                        lemma_pow2_unfold((sp + 1) as nat);
                        lemma_align_in_square(bigr + p_i, (sp + 1) as nat, bigr);
                        lemma_align_in_square(bigc + p_i, (sp + 1) as nat, bigc);
                        assert(!chunk_done(rows_i, cols_i, sp, bigr, bigc, bigr, bigc));
                        assert(!chunk_done(rows_i, cols_i, sp, bigr, bigc, bigr, bigc + p_i));
                        assert(!chunk_done(rows_i, cols_i, sp, bigr, bigc, bigr + p_i, bigc));
                        assert(!chunk_done(rows_i, cols_i, sp, bigr, bigc, bigr + p_i, bigc + p_i));
                        lemma_val_at_cap(el, rows_i, cols_i, sp, bigr, bigc);
                        lemma_val_at_cap(el, rows_i, cols_i, sp, bigr, bigc + p_i);
                        lemma_val_at_cap(el, rows_i, cols_i, sp, bigr + p_i, bigc);
                        lemma_val_at_cap(el, rows_i, cols_i, sp, bigr + p_i, bigc + p_i);
                        lemma_merge(el, rows_i, cols_i, sp, bigr, bigc);
                    }
                    let v00 = levels.get(rr, cc);
                    let v01 = levels.get(rr, cc + m);
                    let v10 = levels.get(rr + m, cc);
                    let v11 = levels.get(rr + m, cc + m);
                    if v00 == mval && v01 == mval && v10 == mval && v11 == mval {
                        levels.set(rr, cc, m2val);
                        levels.set(rr, cc + m, 0);
                        levels.set(rr + m, cc, 0);
                        levels.set(rr + m, cc + m, 0);
                        proof {
                            assert(sq_full(el, rows_i, cols_i, (sp + 1) as nat, bigr, bigc));
                        }
                    } else {
                        proof {
                            assert(!sq_full(el, rows_i, cols_i, (sp + 1) as nat, bigr, bigc));
                        }
                    }
                    proof {
                        let merged = sq_full(el, rows_i, cols_i, (sp + 1) as nat, bigr, bigc);
                        assert forall|r: int, c: int|
                            0 <= r < rows_i && 0 <= c < cols_i implies levels.cell(r, c) as nat
                            == mid_val(
                            el,
                            rows_i,
                            cols_i,
                            sp,
                            bigr,
                            bigc + q_i,
                            r,
                            c,
                        ) by {
                            let br = align_down(r, (sp + 1) as nat);
                            let bc = align_down(c, (sp + 1) as nat);
                            lemma_align_basic(r, (sp + 1) as nat);
                            lemma_align_basic(c, (sp + 1) as nat);
                            if bigr <= r < bigr + q_i && bigc <= c < bigc + q_i {
                                lemma_align_in_square(r, (sp + 1) as nat, bigr);
                                lemma_align_in_square(c, (sp + 1) as nat, bigc);
                                assert(!chunk_done(rows_i, cols_i, sp, bigr, bigc, r, c));
                                assert(chunk_done(rows_i, cols_i, sp, bigr, bigc + q_i, r, c));
                                if merged {
                                    lemma_val_merge_cell(el, rows_i, cols_i, sp, bigr, bigc, r, c);
                                    lemma_val_in_full_chunk(el, rows_i, cols_i, sp, bigr, bigc, r, c);
                                    if r % p_i == 0 && c % p_i == 0 {
                                        lemma_multiples_in_double(r, sp, bigr);
                                        lemma_multiples_in_double(c, sp, bigc);
                                    }
                                } else {
                                    lemma_val_step_same(el, rows_i, cols_i, sp, r, c);
                                }
                            } else {
                                // Outside the chunk nothing was written and the
                                // done-set is unchanged.
                                assert(br != bigr || bc != bigc) by {
                                    if br == bigr && bc == bigc {
                                        assert(bigr <= r < bigr + q_i && bigc <= c < bigc + q_i);
                                    }
                                }
                                assert(levels.cell(r, c) == pre.cell(r, c));
                                assert(chunk_done(rows_i, cols_i, sp, bigr, bigc + q_i, r, c)
                                    == chunk_done(rows_i, cols_i, sp, bigr, bigc, r, c)) by {
                                    if br == bigr && bc != bigc && bc + q_i <= cols_i {
                                        if bc > bigc {
                                            lemma_multiple_gap(bigc, bc, q_i);
                                        }
                                    }
                                }
                            }
                        }
                    }
                    proof {
                        vstd::arithmetic::div_mod::lemma_mod_add_multiples_vanish(
                            cc as int,
                            q as int,
                        );
                    }
                    cc = cc + q;
                }
                proof {
                    // Row of chunks finished: every in-bounds chunk in row rr
                    // is now done.
                    assert forall|r: int, c: int|
                        0 <= r < rows_i && 0 <= c < cols_i implies mid_val(
                        el,
                        rows_i,
                        cols_i,
                        s as nat,
                        rr as int,
                        cc as int,
                        r,
                        c,
                    ) == mid_val(el, rows_i, cols_i, s as nat, rr as int + q as int, 0, r, c) by {
                        let br = align_down(r, (s as nat + 1) as nat);
                        let bc = align_down(c, (s as nat + 1) as nat);
                        lemma_align_basic(r, (s as nat + 1) as nat);
                        lemma_align_basic(c, (s as nat + 1) as nat);
                        if br + q <= rows_i && bc + q <= cols_i {
                            if br == rr as int {
                                assert(bc < cc as int);
                            } else if br > rr as int {
                                lemma_multiple_gap(rr as int, br, q as int);
                            }
                        }
                    }
                }
                proof {
                    vstd::arithmetic::div_mod::lemma_mod_add_multiples_vanish(rr as int, q as int);
                }
                rr = rr + q;
            }
            proof {
                // All in-bounds chunks are done; out-of-bounds containers
                // change nothing when the cap rises.
                assert forall|r: int, c: int| 0 <= r < rows_i && 0 <= c < cols_i implies mid_val(
                    el,
                    rows_i,
                    cols_i,
                    s as nat,
                    rr as int,
                    0,
                    r,
                    c,
                ) == reduced_val(el, rows_i, cols_i, (s + 1) as nat, r, c) by {
                    let br = align_down(r, (s as nat + 1) as nat);
                    let bc = align_down(c, (s as nat + 1) as nat);
                    lemma_align_basic(r, (s as nat + 1) as nat);
                    lemma_align_basic(c, (s as nat + 1) as nat);
                    if !chunk_done(rows_i, cols_i, s as nat, rr as int, 0, r, c) {
                        if br + q <= rows_i && bc + q <= cols_i {
                            lemma_multiple_gap(rr as int, br, q as int);
                            assert(false);
                        }
                        lemma_val_step_same(el, rows_i, cols_i, s as nat, r, c);
                    }
                }
            }
        } else {
            proof {
                // No chunk of side 2^(s+1) fits in the grid at all.
                assert forall|r: int, c: int| 0 <= r < rows_i && 0 <= c < cols_i implies levels.cell(
                    r,
                    c,
                ) as nat == reduced_val(el, rows_i, cols_i, (s + 1) as nat, r, c) by {
                    lemma_align_basic(r, (s as nat + 1) as nat);
                    lemma_align_basic(c, (s as nat + 1) as nat);
                    lemma_val_step_same(el, rows_i, cols_i, s as nat, r, c);
                }
            }
        }
        s = s + 1;
    }
}

/// Build the level grid for a boolean mask (`true` = excluded) and run the
/// quadtree reduction on it.
pub fn mask_to_levels(mask: &Grid<bool>, chunk_po2: usize) -> (levels: Grid<u64>)
    requires
        mask.wf(),
        chunk_po2 < 64,
    ensures
        levels.wf(),
        levels.rows == mask.rows,
        levels.cols == mask.cols,
        forall|r: int, c: int|
            levels.in_bounds(r, c) ==> levels.cell(r, c) as nat == reduced_val(
                elig_of_mask(*mask),
                mask.rows as int,
                mask.cols as int,
                chunk_po2 as nat,
                r,
                c,
            ),
{
    let mut data: Vec<u64> = Vec::new();
    let n = mask.data.len();
    let mut i: usize = 0;
    while i < n
        invariant
            n == mask.data@.len(),
            i <= n,
            data@.len() == i,
            forall|j: int|
                0 <= j < i ==> data@[j] == (if mask.data@[j] {
                    0u64
                } else {
                    1u64
                }),
        decreases n - i,
    {
        if mask.data[i] {
            data.push(0u64);
        } else {
            data.push(1u64);
        }
        i = i + 1;
    }
    let mut levels = Grid { rows: mask.rows, cols: mask.cols, data };
    proof {
        assert(elig_of(levels) =~= elig_of_mask(*mask));
        assert forall|r: int, c: int| levels.in_bounds(r, c) implies levels.cell(r, c) == 0u64
            || levels.cell(r, c) == 1u64 by {
            crate::grid::lemma_flat_index(levels.rows as int, levels.cols as int, r, c);
        }
    }
    mask_expand(&mut levels, chunk_po2);
    levels
}

// ---------------------------------------------------------------------------
// The block partition
// ---------------------------------------------------------------------------
/// `(r, c)` is the origin of a block of side `2^s` in the reduction capped
/// at `cap`.
pub open spec fn origin_at(
    el: Seq<bool>,
    rows: int,
    cols: int,
    cap: nat,
    s: nat,
    r: int,
    c: int,
) -> bool {
    &&& s <= cap
    &&& 0 <= r < rows
    &&& 0 <= c < cols
    &&& reduced_val(el, rows, cols, cap, r, c) == pow2(s)
}

/// Cell `(r, c)` lies in the square of side `2^s` at `(br, bc)`.
pub open spec fn covers(s: nat, br: int, bc: int, r: int, c: int) -> bool {
    br <= r < br + pow2(s) && bc <= c < bc + pow2(s)
}

/// What a block origin means: its square is full, its level is the cell's
/// best level, and (below the cap) no containing square could still merge.
pub proof fn lemma_block_origin(el: Seq<bool>, rows: int, cols: int, cap: nat, s: nat, r: int, c: int)
    requires
        0 <= r < rows,
        0 <= c < cols,
        reduced_val(el, rows, cols, cap, r, c) == pow2(s),
    ensures
        s <= cap,
        sq_full(el, rows, cols, s, r, c),
        best_level(el, rows, cols, cap, r, c) == s,
        elig_at(el, cols, r, c),
        s < cap ==> !cont_full(el, rows, cols, (s + 1) as nat, r, c),
{
    lemma_pow2_pos(s);
    let b = best_level(el, rows, cols, cap, r, c);
    assert(elig_at(el, cols, r, c) && r % (pow2(b) as int) == 0 && c % (pow2(b) as int) == 0);
    assert(b == s) by {
        if b < s {
            lemma_pow2_strictly_increases(b, s);
        }
        if s < b {
            lemma_pow2_strictly_increases(s, b);
        }
    }
    lemma_cont_full_unit(el, rows, cols, r, c);
    lemma_best_level_props(el, rows, cols, cap, r, c);
    lemma_align_fixed(r, s);
    lemma_align_fixed(c, s);
}

/// Every eligible cell is covered by a block; no block touches an
/// ineligible cell.
pub proof fn lemma_partition_complete(el: Seq<bool>, rows: int, cols: int, cap: nat, r: int, c: int)
    requires
        0 <= r < rows,
        0 <= c < cols,
    ensures
        elig_at(el, cols, r, c) ==> exists|s: nat, br: int, bc: int|
            origin_at(el, rows, cols, cap, s, br, bc) && #[trigger] covers(s, br, bc, r, c),
        !elig_at(el, cols, r, c) ==> forall|s: nat, br: int, bc: int|
            origin_at(el, rows, cols, cap, s, br, bc) ==> !#[trigger] covers(s, br, bc, r, c),
{
    if elig_at(el, cols, r, c) {
        lemma_cont_full_unit(el, rows, cols, r, c);
        lemma_best_level_props(el, rows, cols, cap, r, c);
        let b = best_level(el, rows, cols, cap, r, c);
        let br = align_down(r, b);
        let bc = align_down(c, b);
        lemma_align_basic(r, b);
        lemma_align_basic(c, b);
        assert(sq_full(el, rows, cols, b, br, bc));
        assert(covers(b, br, bc, r, c));
        assert(elig_at(el, cols, br, bc));
        lemma_align_fixed(br, b);
        lemma_align_fixed(bc, b);
        assert(cont_full(el, rows, cols, b, br, bc));
        lemma_best_level_ge(el, rows, cols, cap, b, br, bc);
        let b2 = best_level(el, rows, cols, cap, br, bc);
        assert(b2 == b) by {
            if b2 > b {
                lemma_cont_full_unit(el, rows, cols, br, bc);
                lemma_best_level_props(el, rows, cols, cap, br, bc);
                assert(cont_full(el, rows, cols, b2, br, bc));
                lemma_align_collapse(r, b, b2);
                lemma_align_collapse(c, b, b2);
                assert(cont_full(el, rows, cols, b2, r, c));
            }
        }
        assert(reduced_val(el, rows, cols, cap, br, bc) == pow2(b));
        assert(origin_at(el, rows, cols, cap, b, br, bc));
    } else {
        assert forall|s: nat, br: int, bc: int|
            origin_at(el, rows, cols, cap, s, br, bc) implies !#[trigger] covers(
            s,
            br,
            bc,
            r,
            c,
        ) by {
            if covers(s, br, bc, r, c) {
                lemma_block_origin(el, rows, cols, cap, s, br, bc);
                assert(elig_at(el, cols, r, c));
            }
        }
    }
}

/// No cell is covered by two different blocks.
pub proof fn lemma_partition_unique(
    el: Seq<bool>,
    rows: int,
    cols: int,
    cap: nat,
    s1: nat,
    r1: int,
    c1: int,
    s2: nat,
    r2: int,
    c2: int,
    r: int,
    c: int,
)
    requires
        origin_at(el, rows, cols, cap, s1, r1, c1),
        origin_at(el, rows, cols, cap, s2, r2, c2),
        covers(s1, r1, c1, r, c),
        covers(s2, r2, c2, r, c),
    ensures
        s1 == s2,
        r1 == r2,
        c1 == c2,
{
    lemma_block_origin(el, rows, cols, cap, s1, r1, c1);
    lemma_block_origin(el, rows, cols, cap, s2, r2, c2);
    lemma_align_in_square(r, s1, r1);
    lemma_align_in_square(c, s1, c1);
    lemma_align_in_square(r, s2, r2);
    lemma_align_in_square(c, s2, c2);
    lemma_partition_nested(el, rows, cols, cap, s1, r1, c1, s2, r2, c2, r, c);
    lemma_partition_nested(el, rows, cols, cap, s2, r2, c2, s1, r1, c1, r, c);
}

/// Helper: when a block shares a cell with a strictly larger full square,
/// the double of the block's own square is full too (which contradicts its
/// maximality whenever both are genuine blocks).
proof fn lemma_partition_nested(
    el: Seq<bool>,
    rows: int,
    cols: int,
    cap: nat,
    s1: nat,
    r1: int,
    c1: int,
    s2: nat,
    r2: int,
    c2: int,
    r: int,
    c: int,
)
    requires
        origin_at(el, rows, cols, cap, s1, r1, c1),
        sq_full(el, rows, cols, s2, r2, c2),
        covers(s1, r1, c1, r, c),
        covers(s2, r2, c2, r, c),
    ensures
        s1 < s2 ==> cont_full(el, rows, cols, (s1 + 1) as nat, r1, c1),
{
    if s1 < s2 {
        lemma_block_origin(el, rows, cols, cap, s1, r1, c1);
        lemma_align_in_square(r, s1, r1);
        lemma_align_in_square(c, s1, c1);
        lemma_align_in_square(r, s2, r2);
        lemma_align_in_square(c, s2, c2);
        // The s2 container of (r, c) is full, hence so is its (s1+1)
        // container, which is also the (s1+1) container of (r1, c1).
        assert(cont_full(el, rows, cols, s2, r, c));
        lemma_cont_full_down(el, rows, cols, (s1 + 1) as nat, s2, r, c);
        lemma_align_collapse(r, s1, (s1 + 1) as nat);
        lemma_align_collapse(c, s1, (s1 + 1) as nat);
        assert(cont_full(el, rows, cols, (s1 + 1) as nat, r1, c1));
    }
}

/// A cell covered by a block is eligible, has that block's level as its
/// best level, and aligns back to the block's origin.
pub proof fn lemma_covered_best(
    el: Seq<bool>,
    rows: int,
    cols: int,
    cap: nat,
    s: nat,
    br: int,
    bc: int,
    r: int,
    c: int,
)
    requires
        origin_at(el, rows, cols, cap, s, br, bc),
        covers(s, br, bc, r, c),
    ensures
        0 <= r < rows,
        0 <= c < cols,
        elig_at(el, cols, r, c),
        best_level(el, rows, cols, cap, r, c) == s,
        align_down(r, s) == br,
        align_down(c, s) == bc,
{
    lemma_block_origin(el, rows, cols, cap, s, br, bc);
    lemma_pow2_pos(s);
    assert(elig_at(el, cols, r, c));
    lemma_align_in_square(r, s, br);
    lemma_align_in_square(c, s, bc);
    assert(cont_full(el, rows, cols, s, r, c));
    lemma_best_level_ge(el, rows, cols, cap, s, r, c);
    lemma_cont_full_unit(el, rows, cols, r, c);
    lemma_best_level_props(el, rows, cols, cap, r, c);
    let b = best_level(el, rows, cols, cap, r, c);
    if b > s {
        assert(cont_full(el, rows, cols, b, r, c));
        lemma_cont_full_down(el, rows, cols, (s + 1) as nat, b, r, c);
        lemma_align_collapse(r, s, (s + 1) as nat);
        lemma_align_collapse(c, s, (s + 1) as nat);
        assert(cont_full(el, rows, cols, (s + 1) as nat, br, bc));
    }
}

/// Maximality: below the cap, the double-sized aligned square containing a
/// block is never fully eligible, so no legal merge is left undone.
pub proof fn lemma_maximality(el: Seq<bool>, rows: int, cols: int, cap: nat, s: nat, r: int, c: int)
    requires
        origin_at(el, rows, cols, cap, s, r, c),
        s < cap,
    ensures
        !sq_full(
            el,
            rows,
            cols,
            (s + 1) as nat,
            align_down(r, (s + 1) as nat),
            align_down(c, (s + 1) as nat),
        ),
{
    lemma_block_origin(el, rows, cols, cap, s, r, c);
}

/// Nesting of aligned squares across one level.
pub proof fn lemma_align_nest(x: int, s: nat)
    requires
        x >= 0,
    ensures
        align_down(x, (s + 1) as nat) <= align_down(x, s),
        align_down(x, s) + pow2(s) <= align_down(x, (s + 1) as nat) + pow2((s + 1) as nat),
{
    let p = pow2(s) as int;
    let q = pow2((s + 1) as nat) as int;
    lemma_pow2_pos(s);
    lemma_pow2_unfold((s + 1) as nat);
    let a0 = align_down(x, s);
    let a1 = align_down(x, (s + 1) as nat);
    lemma_align_collapse(x, s, (s + 1) as nat);
    lemma_align_basic(x, s);
    lemma_align_basic(a0, (s + 1) as nat);
    // a1 == a0 - a0 % q, and a0 % q is p times a bit.
    lemma_mod_breakdown(a0, p, 2);
    assert(a0 % q == p * (a0 / p % 2) + a0 % p);
    assert(0 <= a0 / p % 2 < 2) by {
        lemma_mod_division_less_than_divisor(a0 / p, 2);
        vstd::arithmetic::div_mod::lemma_div_pos_is_pos(a0, p);
    }
    assert(p * (a0 / p % 2) <= p) by (nonlinear_arith)
        requires
            0 <= a0 / p % 2 < 2,
            p > 0,
    ;
}

} // verus!
