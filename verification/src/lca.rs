//! Lowest common ancestors by binary lifting: for every node, the
//! ancestor 2^j levels up, for each j, and the node's depth.

use vstd::prelude::*;
use vstd::arithmetic::power2::{pow2, lemma_pow2_unfold, lemma_pow2_pos, lemma_pow2_strictly_increases};
use vstd::arithmetic::div_mod::lemma_mod_breakdown;
use vstd::bits::{lemma_usize_shr_is_div, lemma_usize_shl_is_mul};
use crate::tree::Tree;

verus! {

#[derive(Debug)]
pub struct LcaBinaryLifting {
    up: Vec<Vec<Option<usize>>>,
    depth: Vec<usize>,
}

/// The content of an `LcaBinaryLifting`: `up[v][j]` is the ancestor of
/// node `v` that is `2^j` levels up, and `depth[v]` its depth.
pub struct LcaView {
    pub up: Seq<Seq<Option<usize>>>,
    pub depth: Seq<usize>,
}

impl View for LcaBinaryLifting {
    type V = LcaView;

    closed spec fn view(&self) -> LcaView {
        LcaView {
            up: self.up@.map_values(|r: Vec<Option<usize>>| r@),
            depth: self.depth@,
        }
    }
}

/// The parent of each node: the first column of the table.
pub open spec fn column0(up: Seq<Seq<Option<usize>>>) -> Seq<Option<usize>> {
    Seq::new(up.len(), |v: int| up[v][0])
}

/// The node `k` parent steps above `v`, following `par`.
pub open spec fn anc(par: Seq<Option<usize>>, v: usize, k: nat) -> Option<usize>
    decreases k,
{
    if k == 0 {
        Some(v)
    } else {
        match par[v as int] {
            None => None,
            Some(p) => anc(par, p, (k - 1) as nat),
        }
    }
}

/// `x` is `v` or one of its ancestors under `par`.
pub open spec fn is_anc(par: Seq<Option<usize>>, x: usize, v: usize) -> bool {
    exists|k: nat| anc(par, v, k) == Some(x)
}

/// The ancestor `2^j` levels up, computed by doubling from the first column.
pub open spec fn jump(par: Seq<Option<usize>>, v: usize, j: nat) -> Option<usize>
    decreases j,
{
    if j == 0 {
        par[v as int]
    } else {
        match jump(par, v, (j - 1) as nat) {
            None => None,
            Some(m) => jump(par, m, (j - 1) as nat),
        }
    }
}

/// The shape of a table: `n` rows of `L` entries (`L >= 1`, `2^L > n`),
/// entries and depths below `n`, and each column is the previous one
/// applied twice.
#[verifier::opaque]
pub open spec fn table_wf(t: LcaView) -> bool {
    let n = t.up.len();
    &&& t.depth.len() == n
    &&& n > 0 ==> {
        let l = t.up[0].len();
        &&& 1 <= l < usize::BITS
        &&& n < pow2(l as nat)
        &&& forall|v: int| 0 <= v < n ==> (#[trigger] t.up[v]).len() == l
        &&& forall|v: int, j: int|
            0 <= v < n && 0 <= j < l && (#[trigger] t.up[v][j]) is Some ==> t.up[v][j]->0 < n
        &&& forall|v: int| 0 <= v < n ==> #[trigger] t.depth[v] < n
        &&& forall|v: int, j: int|
            0 <= v < n && 1 <= j < l ==> #[trigger] t.up[v][j] == match t.up[v][j - 1] {
                None => None,
                Some(m) => t.up[m as int][j - 1],
            }
    }
}

/// Depths agree with parents: a node with a parent is one level below it,
/// a node without one is at depth 0.
pub open spec fn consistent(t: LcaView) -> bool {
    forall|v: int|
        0 <= v < t.up.len() ==> match #[trigger] t.up[v][0] {
            Some(p) => t.depth[v] == t.depth[p as int] + 1,
            None => t.depth[v] == 0,
        }
}

/// Bit `j` of `x`.
pub open spec fn bit(x: usize, j: nat) -> bool {
    ((x >> (j as usize)) & 1usize) == 1usize
}

/// Lifting `a` by the bits `j-1 .. 0` of `diff`, highest first, one table
/// jump per set bit; `None` if a jump leaves the tree.
pub open spec fn lift(up: Seq<Seq<Option<usize>>>, a: usize, diff: usize, j: nat) -> Option<usize>
    decreases j,
{
    if j == 0 {
        Some(a)
    } else if bit(diff, (j - 1) as nat) {
        match up[a as int][j - 1] {
            None => None,
            Some(x) => lift(up, x, diff, (j - 1) as nat),
        }
    } else {
        lift(up, a, diff, (j - 1) as nat)
    }
}

/// Moving `a` and `b` up together by the jumps `j-1 .. 0`, taking a jump
/// whenever it exists for `a` and lands `a` and `b` on different nodes;
/// `None` if such a jump does not exist for `b`.
pub open spec fn climb(up: Seq<Seq<Option<usize>>>, a: usize, b: usize, j: nat) -> Option<
    (usize, usize),
>
    decreases j,
{
    if j == 0 {
        Some((a, b))
    } else {
        let na = up[a as int][j - 1];
        let nb = up[b as int][j - 1];
        if na is Some && na != nb {
            match nb {
                None => None,
                Some(y) => climb(up, na->0, y, (j - 1) as nat),
            }
        } else {
            climb(up, a, b, (j - 1) as nat)
        }
    }
}

/// The end of `lca_of` once the deeper node has been lifted to `x`.
pub open spec fn lca_finish(t: LcaView, x: usize, b: usize) -> Option<usize> {
    if x == b {
        Some(x)
    } else {
        match climb(t.up, x, b, t.up[0].len() as nat) {
            None => None,
            Some(pq) => t.up[pq.0 as int][0],
        }
    }
}

/// What `lca_index` answers for positions `a0` and `b0`: lift the deeper
/// one to the other's depth, then climb both until just below the meeting
/// point.
pub open spec fn lca_of(t: LcaView, a0: usize, b0: usize) -> Option<usize> {
    let n = t.up.len();
    if n == 0 || a0 >= n || b0 >= n {
        None
    } else {
        let a = if t.depth[a0 as int] < t.depth[b0 as int] { b0 } else { a0 };
        let b = if t.depth[a0 as int] < t.depth[b0 as int] { a0 } else { b0 };
        let diff = (t.depth[a as int] - t.depth[b as int]) as usize;
        let l = t.up[0].len();
        match lift(t.up, a, diff, l) {
            None => None,
            Some(x) => lca_finish(t, x, b),
        }
    }
}

/// `x` is the deepest node that is an ancestor (or self) of both `a` and `b`.
pub open spec fn is_lca(t: LcaView, x: usize, a: usize, b: usize) -> bool {
    let par = column0(t.up);
    &&& is_anc(par, x, a)
    &&& is_anc(par, x, b)
    &&& forall|y: usize| is_anc(par, y, a) && is_anc(par, y, b) ==> t.depth[y as int] <= t.depth[x as int]
}

/// `a` and `b` have no common ancestor.
pub open spec fn no_common_anc(t: LcaView, a: usize, b: usize) -> bool {
    let par = column0(t.up);
    forall|y: usize| !(is_anc(par, y, a) && is_anc(par, y, b))
}

pub proof fn lemma_isize_max_lt()
    ensures
        isize::MAX < pow2((usize::BITS - 1) as nat),
{
    assert(usize::BITS == 32 || usize::BITS == 64);
    vstd::arithmetic::power2::lemma2_to64();
    vstd::arithmetic::power2::lemma2_to64_rest();
    if usize::BITS == 32 {
        assert(isize::MAX == 0x7fff_ffff);
        assert(pow2(31) == 0x8000_0000);
    } else {
        assert(isize::MAX == 0x7fff_ffff_ffff_ffff);
        assert(pow2(63) == 0x8000_0000_0000_0000);
    }
}

pub proof fn lemma_pow2_zero()
    ensures
        pow2(0) == 1,
{
    vstd::arithmetic::power2::lemma_pow2(0);
    vstd::arithmetic::power::lemma_pow0(2);
}

/// The facts of `table_wf` about one row.
pub proof fn lemma_row(t: LcaView, v: int)
    requires
        table_wf(t),
        0 <= v < t.up.len(),
    ensures
        t.depth.len() == t.up.len(),
        1 <= t.up[0].len() < usize::BITS,
        t.up.len() < pow2(t.up[0].len() as nat),
        t.up[v].len() == t.up[0].len(),
        t.depth[v] < t.up.len(),
        forall|j: int| 0 <= j < t.up[0].len() && (#[trigger] t.up[v][j]) is Some ==> t.up[v][j]->0 < t.up.len(),
        forall|j: int| 1 <= j < t.up[0].len() ==> #[trigger] t.up[v][j] == match t.up[v][j - 1] {
            None => None,
            Some(m) => t.up[m as int][j - 1],
        },
{
    reveal(table_wf);
}

pub proof fn lemma_anc_one(par: Seq<Option<usize>>, v: usize)
    ensures
        anc(par, v, 1) == par[v as int],
{
    reveal_with_fuel(anc, 2);
}

pub proof fn lemma_anc_add(par: Seq<Option<usize>>, v: usize, a: nat, b: nat)
    ensures
        anc(par, v, a + b) == match anc(par, v, a) {
            None => None,
            Some(u) => anc(par, u, b),
        },
    decreases a,
{
    if a > 0 {
        match par[v as int] {
            None => {},
            Some(p) => {
                lemma_anc_add(par, p, (a - 1) as nat, b);
                assert((a + b - 1) as nat == ((a - 1) as nat + b) as nat);
            },
        }
    }
}

pub proof fn lemma_jump_is_anc(par: Seq<Option<usize>>, v: usize, j: nat)
    requires
        forall|u: int| 0 <= u < par.len() && (#[trigger] par[u]) is Some ==> par[u]->0 < par.len(),
        v < par.len(),
    ensures
        jump(par, v, j) == anc(par, v, pow2(j)),
        jump(par, v, j) matches Some(x) ==> x < par.len(),
    decreases j,
{
    if j == 0 {
        lemma_pow2_zero();
        assert(anc(par, v, 1) == match par[v as int] {
            None => None,
            Some(p) => anc(par, p, 0),
        });
    } else {
        lemma_pow2_unfold(j);
        let h = pow2((j - 1) as nat);
        lemma_jump_is_anc(par, v, (j - 1) as nat);
        lemma_anc_add(par, v, h, h);
        assert(h + h == pow2(j));
        match jump(par, v, (j - 1) as nat) {
            None => {},
            Some(m) => {
                lemma_jump_is_anc(par, m, (j - 1) as nat);
            },
        }
    }
}

/// In a well-formed table, column `j` holds the ancestors `2^j` levels up.
pub proof fn lemma_table_anc(t: LcaView, v: usize, j: int)
    requires
        table_wf(t),
        v < t.up.len(),
        0 <= j < t.up[0].len(),
    ensures
        t.up[v as int][j] == anc(column0(t.up), v, pow2(j as nat)),
    decreases j,
{
    let par = column0(t.up);
    lemma_row(t, v as int);
    if j == 0 {
        lemma_pow2_zero();
        assert(anc(par, v, 1) == match par[v as int] {
            None => None,
            Some(p) => anc(par, p, 0),
        });
    } else {
        lemma_table_anc(t, v, j - 1);
        lemma_pow2_unfold(j as nat);
        let h = pow2((j - 1) as nat);
        lemma_anc_add(par, v, h, h);
        assert(h + h == pow2(j as nat));
        assert(t.up[v as int][j] == match t.up[v as int][j - 1] {
            None => None,
            Some(m) => t.up[m as int][j - 1],
        });
        match t.up[v as int][j - 1] {
            None => {},
            Some(m) => {
                assert(t.up[v as int][j - 1] is Some);
                lemma_table_anc(t, m, j - 1);
            },
        }
    }
}

/// With consistent depths, walking `k` steps up from `v` reaches a node of
/// depth `depth[v] - k` when `k <= depth[v]`, and leaves the tree otherwise.
pub proof fn lemma_anc_depth(t: LcaView, v: usize, k: nat)
    requires
        table_wf(t),
        consistent(t),
        v < t.up.len(),
    ensures
        k <= t.depth[v as int] ==> (anc(column0(t.up), v, k) matches Some(u) && u < t.up.len()
            && t.depth[u as int] == t.depth[v as int] - k),
        k > t.depth[v as int] ==> anc(column0(t.up), v, k) is None,
    decreases k,
{
    let par = column0(t.up);
    lemma_row(t, v as int);
    if k > 0 {
        assert(par[v as int] == t.up[v as int][0]);
        match t.up[v as int][0] {
            None => {},
            Some(p) => {
                assert(t.up[v as int][0] is Some);
                lemma_anc_depth(t, p, (k - 1) as nat);
            },
        }
    }
}

/// The bits of `diff` below `j` taken as jumps give the ancestor
/// `diff mod 2^j` levels up.
pub proof fn lemma_lift(t: LcaView, v: usize, diff: usize, j: nat)
    requires
        table_wf(t),
        v < t.up.len(),
        j <= t.up[0].len(),
    ensures
        lift(t.up, v, diff, j) == anc(column0(t.up), v, (diff as nat % pow2(j)) as nat),
    decreases j,
{
    let par = column0(t.up);
    let l = t.up[0].len();
    lemma_row(t, v as int);
    lemma_pow2_pos(j);
    if j == 0 {
        lemma_pow2_zero();
    } else {
        let k = (j - 1) as nat;
        let h = pow2(k);
        lemma_pow2_pos(k);
        lemma_pow2_unfold(j);
        assert((k as usize) < usize::BITS);
        lemma_usize_shr_is_div(diff, k as usize);
        let q = diff >> (k as usize);
        assert((q & 1usize) == q % 2) by (bit_vector);
        lemma_mod_breakdown(diff as int, h as int, 2);
        assert(h * 2 == pow2(j));
        let low = (diff as nat % h) as nat;
        let b = (q % 2) as nat;
        assert(diff as nat % pow2(j) == h * b + low);
        if bit(diff, k) {
            assert(b == 1);
            lemma_table_anc(t, v, k as int);
            lemma_anc_add(par, v, h, low);
            match t.up[v as int][k as int] {
                None => {},
                Some(x) => {
                    assert(t.up[v as int][k as int] is Some);
                    lemma_lift(t, x, diff, k);
                },
            }
            assert(h * b + low == h + low) by (nonlinear_arith)
                requires
                    b == 1,
            ;
        } else {
            assert(b == 0);
            lemma_lift(t, v, diff, k);
            assert(h * b + low == low) by (nonlinear_arith)
                requires b == 0;
        }
    }
}

/// The climbing loop, under its invariant: `a` and `b` are distinct nodes of
/// equal depth, reached from `x0` and `b0` by the same number `s` of steps,
/// and they meet within `2^j` steps.  It ends just below the meeting point.
pub proof fn lemma_climb(
    t: LcaView,
    x0: usize,
    b0: usize,
    a: usize,
    b: usize,
    s: nat,
    j: nat,
)
    requires
        table_wf(t),
        consistent(t),
        x0 < t.up.len(),
        b0 < t.up.len(),
        a < t.up.len(),
        b < t.up.len(),
        j <= t.up[0].len(),
        t.depth[x0 as int] == t.depth[b0 as int],
        anc(column0(t.up), x0, s) == Some(a),
        anc(column0(t.up), b0, s) == Some(b),
        a != b,
        anc(column0(t.up), a, pow2(j)) == anc(column0(t.up), b, pow2(j)),
    ensures
        climb(t.up, a, b, j) matches Some(pq) && ({
            let s2 = choose|s2: nat|
                anc(column0(t.up), x0, s2) == Some(pq.0) && anc(column0(t.up), b0, s2) == Some(pq.1)
                    && pq.0 != pq.1 && anc(column0(t.up), pq.0, 1) == anc(column0(t.up), pq.1, 1);
            &&& anc(column0(t.up), x0, s2) == Some(pq.0)
            &&& anc(column0(t.up), b0, s2) == Some(pq.1)
            &&& pq.0 != pq.1
            &&& anc(column0(t.up), pq.0, 1) == anc(column0(t.up), pq.1, 1)
            &&& pq.0 < t.up.len()
            &&& pq.1 < t.up.len()
        }),
    decreases j,
{
    let par = column0(t.up);
    lemma_row(t, a as int);
    lemma_row(t, b as int);
    lemma_anc_depth(t, x0, s);
    lemma_anc_depth(t, b0, s);
    if j == 0 {
        lemma_pow2_zero();
        assert(anc(par, x0, s) == Some(a) && anc(par, b0, s) == Some(b) && a != b && anc(par, a, 1)
            == anc(par, b, 1));
    } else {
        let k = (j - 1) as nat;
        let h = pow2(k);
        lemma_pow2_unfold(j);
        lemma_pow2_pos(k);
        lemma_table_anc(t, a, k as int);
        lemma_table_anc(t, b, k as int);
        let na = t.up[a as int][k as int];
        let nb = t.up[b as int][k as int];
        assert(t.depth[a as int] == t.depth[b as int]);
        lemma_anc_depth(t, a, h);
        lemma_anc_depth(t, b, h);
        if na is Some && na != nb {
            let x = na->0;
            let y = nb->0;
            lemma_anc_add(par, x0, s, h);
            lemma_anc_add(par, b0, s, h);
            lemma_anc_add(par, a, h, h);
            lemma_anc_add(par, b, h, h);
            assert(h + h == pow2(j));
            lemma_climb(t, x0, b0, x, y, s + h, k);
        } else {
            lemma_climb(t, x0, b0, a, b, s, k);
        }
    }
}

/// For a well-formed table with consistent depths, `lca_of` gives the
/// deepest common ancestor of the two positions, or `None` when they have
/// none.
#[verifier::spinoff_prover]
#[verifier::rlimit(40)]
pub proof fn lemma_lca_of_is_lca(t: LcaView, a0: usize, b0: usize)
    requires
        table_wf(t),
        consistent(t),
        a0 < t.up.len(),
        b0 < t.up.len(),
    ensures
        match lca_of(t, a0, b0) {
            Some(x) => is_lca(t, x, a0, b0),
            None => no_common_anc(t, a0, b0),
        },
{
    let par = column0(t.up);
    let n = t.up.len();
    let l = t.up[0].len();
    let a = if t.depth[a0 as int] < t.depth[b0 as int] { b0 } else { a0 };
    let b = if t.depth[a0 as int] < t.depth[b0 as int] { a0 } else { b0 };
    let diff = (t.depth[a as int] - t.depth[b as int]) as usize;
    lemma_row(t, a as int);
    lemma_row(t, b as int);
    assert(t.depth[a as int] < n);
    lemma_pow2_pos(l as nat);
    lemma_lift(t, a, diff, l as nat);
    assert(diff as nat % pow2(l as nat) == diff) by {
        vstd::arithmetic::div_mod::lemma_small_mod(diff as nat, pow2(l as nat));
    }
    lemma_anc_depth(t, a, diff as nat);
    let x = anc(par, a, diff as nat)->0;
    assert(lift(t.up, a, diff, l as nat) == Some(x));
    // Common ancestors of (a, b) are those of (x, b).
    assert forall|y: usize| is_anc(par, y, a) && is_anc(par, y, b) implies is_anc(par, y, x)
        && t.depth[y as int] <= t.depth[b as int] && is_anc(par, y, b) by {
        let k1 = choose|k: nat| anc(par, a, k) == Some(y);
        let k2 = choose|k: nat| anc(par, b, k) == Some(y);
        lemma_anc_depth(t, a, k1);
        lemma_anc_depth(t, b, k2);
        assert(k1 == diff + k2);
        lemma_anc_add(par, a, diff as nat, k2);
        assert(anc(par, x, k2) == Some(y));
    }
    assert forall|y: usize| is_anc(par, y, x) implies is_anc(par, y, a) by {
        let k = choose|k: nat| anc(par, x, k) == Some(y);
        lemma_anc_add(par, a, diff as nat, k);
        assert(anc(par, a, (diff + k) as nat) == Some(y));
    }
    assert(is_anc(par, x, a)) by {
        assert(anc(par, a, diff as nat) == Some(x));
    }
    if x == b {
        assert(anc(par, b, 0) == Some(b));
        assert(is_lca(t, x, a0, b0));
    } else {
        let d = t.depth[b as int];
        assert(d < pow2(l as nat));
        lemma_anc_depth(t, x, pow2(l as nat));
        lemma_anc_depth(t, b, pow2(l as nat));
        assert(anc(par, x, 0) == Some(x));
        assert(anc(par, b, 0) == Some(b));
        lemma_climb(t, x, b, x, b, 0, l as nat);
        let pq = climb(t.up, x, b, l as nat)->0;
        let s2 = choose|s2: nat|
            anc(par, x, s2) == Some(pq.0) && anc(par, b, s2) == Some(pq.1) && pq.0 != pq.1 && anc(
                par,
                pq.0,
                1,
            ) == anc(par, pq.1, 1);
        let p = t.up[pq.0 as int][0];
        lemma_anc_one(par, pq.0);
        lemma_anc_one(par, pq.1);
        assert(lca_of(t, a0, b0) == p);
        lemma_anc_add(par, x, s2, 1);
        lemma_anc_add(par, b, s2, 1);
        // every common ancestor of x and b is at least s2 + 1 steps up
        assert forall|y: usize| is_anc(par, y, x) && is_anc(par, y, b) implies ({
            let k = (t.depth[x as int] - t.depth[y as int]) as nat;
            &&& k >= s2 + 1
            &&& anc(par, x, k) == Some(y)
            &&& anc(par, b, k) == Some(y)
        }) by {
            let k1 = choose|k: nat| anc(par, x, k) == Some(y);
            let k2 = choose|k: nat| anc(par, b, k) == Some(y);
            lemma_anc_depth(t, x, k1);
            lemma_anc_depth(t, b, k2);
            assert(k1 == k2);
            if k1 <= s2 {
                lemma_anc_add(par, x, k1, (s2 - k1) as nat);
                lemma_anc_add(par, b, k1, (s2 - k1) as nat);
                assert(false);
            }
        }
        match p {
            Some(pp) => {
                assert(is_anc(par, pp, x) && is_anc(par, pp, b));
                lemma_anc_depth(t, x, (s2 + 1) as nat);
                assert forall|y: usize| is_anc(par, y, a0) && is_anc(par, y, b0) implies t.depth[y as int]
                    <= t.depth[pp as int] by {
                    let k = (t.depth[x as int] - t.depth[y as int]) as nat;
                    lemma_anc_depth(t, x, k);
                }
                assert(is_lca(t, pp, a0, b0));
            },
            None => {
                assert forall|y: usize| !(is_anc(par, y, a0) && is_anc(par, y, b0)) by {
                    if is_anc(par, y, a0) && is_anc(par, y, b0) {
                        let k = (t.depth[x as int] - t.depth[y as int]) as nat;
                        lemma_anc_add(par, x, (s2 + 1) as nat, (k - s2 - 1) as nat);
                        assert(false);
                    }
                }
            },
        }
    }
}


/// The position of the parent of the node at position `v`, if the parent
/// is in the tree.
pub open spec fn parent_pos(t: &Tree, v: int) -> Option<usize> {
    match t.nv(v).parent {
        None => None,
        Some(p) => if t.has_id(p) {
            Some(t.id_to_index@[p])
        } else {
            None
        },
    }
}

/// `l` is the index of tree `t`: a well-formed table over its nodes whose
/// first column holds the parent positions and whose depths are consistent
/// with them.
pub open spec fn indexes(l: LcaView, t: &Tree) -> bool {
    &&& l.up.len() == t.nodes@.len()
    &&& table_wf(l)
    &&& consistent(l)
    &&& forall|v: int| 0 <= v < l.up.len() ==> #[trigger] l.up[v][0] == parent_pos(t, v)
}

/// The state of the depth-first walk that `build` makes from the root:
/// the stack of positions to expand, which positions were reached, and the
/// parent and depth recorded for each.
pub struct DfsState {
    pub stack: Seq<usize>,
    pub visited: Seq<bool>,
    pub par: Seq<Option<usize>>,
    pub dep: Seq<usize>,
}

/// Reaching the child with id `c` from position `p`: a child not reached
/// before gets `p` as parent, one more than `p`'s depth, and is stacked.
pub open spec fn visit_child(t: &Tree, p: usize, c: usize, s: DfsState) -> DfsState {
    if t.has_id(c) && !s.visited[t.pos(c)] {
        let ci = t.id_to_index@[c];
        DfsState {
            stack: s.stack.push(ci),
            visited: s.visited.update(ci as int, true),
            par: s.par.update(ci as int, Some(p)),
            dep: s.dep.update(ci as int, (s.dep[p as int] + 1) as usize),
        }
    } else {
        s
    }
}

/// Reaching the children `cs` of position `p`, in order.
pub open spec fn visit_children(t: &Tree, p: usize, cs: Seq<usize>, s: DfsState) -> DfsState
    decreases cs.len(),
{
    if cs.len() == 0 {
        s
    } else {
        visit_child(t, p, cs.last(), visit_children(t, p, cs.drop_last(), s))
    }
}

/// The number of `false` entries.
pub open spec fn count_false(v: Seq<bool>) -> nat
    decreases v.len(),
{
    if v.len() == 0 {
        0
    } else {
        count_false(v.drop_last()) + if v.last() {
            0nat
        } else {
            1nat
        }
    }
}

pub open spec fn state_ok(t: &Tree, s: DfsState) -> bool {
    &&& t.wf()
    &&& s.visited.len() == t.nodes@.len()
    &&& s.par.len() == t.nodes@.len()
    &&& s.dep.len() == t.nodes@.len()
}

pub proof fn lemma_count_false_update(v: Seq<bool>, i: int)
    requires
        0 <= i < v.len(),
        !v[i],
    ensures
        count_false(v.update(i, true)) + 1 == count_false(v),
    decreases v.len(),
{
    let w = v.update(i, true);
    if i == v.len() - 1 {
        assert(w.drop_last() =~= v.drop_last());
    } else {
        lemma_count_false_update(v.drop_last(), i);
        assert(w.drop_last() =~= v.drop_last().update(i, true));
    }
}

pub proof fn lemma_visit_children(t: &Tree, p: usize, cs: Seq<usize>, s: DfsState)
    requires
        state_ok(t, s),
    ensures
        ({
            let r = visit_children(t, p, cs, s);
            &&& state_ok(t, r)
            &&& r.stack.len() >= s.stack.len()
            &&& r.stack.subrange(0, s.stack.len() as int) == s.stack
            &&& count_false(r.visited) + (r.stack.len() - s.stack.len()) == count_false(s.visited)
        }),
    decreases cs.len(),
{
    if cs.len() > 0 {
        lemma_visit_children(t, p, cs.drop_last(), s);
        let m = visit_children(t, p, cs.drop_last(), s);
        let c = cs.last();
        if t.has_id(c) && !m.visited[t.pos(c)] {
            lemma_count_false_update(m.visited, t.pos(c));
            let r = visit_child(t, p, c, m);
            assert(r.stack.subrange(0, s.stack.len() as int) =~= m.stack.subrange(0, s.stack.len() as int));
        }
    }
}

/// The depth-first walk run to the end.
pub open spec fn dfs_run(t: &Tree, s: DfsState) -> DfsState
    decreases count_false(s.visited), s.stack.len(),
    when state_ok(t, s)
{
    if s.stack.len() == 0 {
        s
    } else {
        let p = s.stack.last();
        let s1 = DfsState { stack: s.stack.drop_last(), ..s };
        proof {
            lemma_visit_children(t, p, t.nv(p as int).children, s1);
        }
        dfs_run(t, visit_children(t, p, t.nv(p as int).children, s1))
    }
}

/// The walk's start: only the root (if present) is reached and stacked.
pub open spec fn dfs_init(t: &Tree) -> DfsState {
    let n = t.nodes@.len();
    let r = t.pos(t.root);
    DfsState {
        stack: if t.has_id(t.root) {
            seq![r as usize]
        } else {
            Seq::empty()
        },
        visited: Seq::new(n, |i: int| t.has_id(t.root) && i == r),
        par: Seq::new(n, |i: int| None),
        dep: Seq::new(n, |i: int| 0usize),
    }
}

/// The smallest `L >= k` with `2^L > n`.
pub open spec fn levels_from(n: nat, k: nat) -> nat
    decreases n - k,
{
    if pow2(k) > n {
        k
    } else {
        proof {
            lemma_lt_pow2(k);
        }
        levels_from(n, k + 1)
    }
}

pub proof fn lemma_lt_pow2(k: nat)
    ensures
        k < pow2(k),
    decreases k,
{
    if k == 0 {
        lemma_pow2_zero();
    } else {
        lemma_lt_pow2((k - 1) as nat);
        lemma_pow2_unfold(k);
        lemma_pow2_pos((k - 1) as nat);
    }
}

/// Parents after the walk: the recorded one for reached nodes, the parent
/// link for the others.
pub open spec fn final_par(t: &Tree, fin: DfsState) -> Seq<Option<usize>> {
    Seq::new(
        t.nodes@.len(),
        |v: int|
            if fin.visited[v] {
                fin.par[v]
            } else {
                parent_pos(t, v)
            },
    )
}

/// The table that `build` makes for tree `t`.
pub open spec fn spec_build(t: &Tree) -> LcaView {
    let n = t.nodes@.len();
    if n == 0 {
        LcaView { up: Seq::empty(), depth: Seq::empty() }
    } else {
        let l = levels_from(n, 1);
        let fin = dfs_run(t, dfs_init(t));
        let col = final_par(t, fin);
        LcaView {
            up: Seq::new(n, |v: int| Seq::new(l, |j: int| jump(col, v as usize, j as nat))),
            depth: fin.dep,
        }
    }
}

/// The parents and depths that the walk records on a DOM tree, and which
/// positions it has reached and not yet expanded.
pub open spec fn dom_walk_inv(t: &Tree, s: DfsState, skip: int, done: int) -> bool {
    let n = t.nodes@.len();
    &&& s.visited[0]
    &&& s.par[0] is None
    &&& s.dep[0] == 0
    &&& forall|v: int|
        0 < v < n && #[trigger] s.visited[v] ==> s.par[v] == parent_pos(t, v) && s.par[v] is Some
            && s.dep[v] == s.dep[s.par[v]->0 as int] + 1 && s.visited[s.par[v]->0 as int]
    &&& forall|v: int, k: int|
        0 <= v < n && s.visited[v] && !s.stack.contains(v as usize) && 0 <= k < t.nv(v).children.len()
            && (v != skip || k < done) ==> s.visited[t.pos(#[trigger] t.nv(v).children[k])]
}

/// Bounds that the walk keeps: stacked positions were reached, parents are
/// positions, and a reached node's depth is below the number reached.
pub open spec fn walk_bounds(t: &Tree, s: DfsState) -> bool {
    let n = t.nodes@.len();
    &&& forall|i: int| 0 <= i < s.stack.len() ==> #[trigger] s.stack[i] < n && s.visited[s.stack[i] as int]
    &&& forall|v: int| 0 <= v < n && (#[trigger] s.par[v]) is Some ==> s.par[v]->0 < n
    &&& forall|v: int|
        0 <= v < n ==> if #[trigger] s.visited[v] {
            s.dep[v] < n - count_false(s.visited)
        } else {
            s.dep[v] == 0
        }
}

pub proof fn lemma_count_false_le(v: Seq<bool>)
    ensures
        count_false(v) <= v.len(),
        (exists|i: int| 0 <= i < v.len() && v[i]) ==> count_false(v) < v.len(),
    decreases v.len(),
{
    if v.len() > 0 {
        lemma_count_false_le(v.drop_last());
        if exists|i: int| 0 <= i < v.len() && v[i] {
            let i = choose|i: int| 0 <= i < v.len() && v[i];
            if i < v.len() - 1 {
                assert(v.drop_last()[i]);
            }
        }
    }
}


pub proof fn lemma_dom_pop(t: &Tree, g: DfsState, s1: DfsState, p: usize)
    requires
        t.is_dom(),
        state_ok(t, g),
        g.stack.len() > 0,
        p == g.stack.last(),
        s1 == (DfsState { stack: g.stack.drop_last(), ..g }),
        dom_walk_inv(t, g, -1, 0),
    ensures
        dom_walk_inv(t, s1, p as int, 0),
{
    let n = t.nodes@.len();
    assert forall|v: int, k: int|
        0 <= v < n && s1.visited[v] && !s1.stack.contains(v as usize) && 0 <= k < t.nv(v).children.len()
            && (v != p || k < 0) implies s1.visited[t.pos(#[trigger] t.nv(v).children[k])] by {
        if g.stack.contains(v as usize) {
            let i = g.stack.index_of(v as usize);
            if i < g.stack.len() - 1 {
                assert(s1.stack[i] == v as usize);
            }
        }
    }
}

/// Facts of a DOM tree about the `k`-th child of position `p`.
pub proof fn lemma_dom_child(t: &Tree, p: int, k: int)
    requires
        t.is_dom(),
        0 <= p < t.nodes@.len(),
        0 <= k < t.nv(p).children.len(),
    ensures
        t.has_id(t.nv(p).children[k]),
        t.node_of(t.nv(p).children[k]).parent == Some(t.nv(p).id),
        t.pos(t.nv(p).children[k]) != 0,
{
    let c = t.nv(p).children[k];
    assert(t.has_id(c));
    assert(t.node_of(c).parent == Some(t.nv(p).id));
    if t.pos(c) == 0 {
        assert(t.nv(0).parent is None);
    }
}

pub proof fn lemma_dom_visit_par(t: &Tree, s: DfsState, p: usize, c: usize)
    requires
        state_ok(t, s),
        p < t.nodes@.len(),
        s.visited[p as int],
        s.dep[p as int] < usize::MAX,
        t.has_id(c),
        t.pos(c) != 0,
        t.node_of(c).parent == Some(t.nv(p as int).id),
        forall|v: int|
            0 < v < t.nodes@.len() && #[trigger] s.visited[v] ==> s.par[v] == parent_pos(t, v) && s.par[v] is Some
                && s.dep[v] == s.dep[s.par[v]->0 as int] + 1 && s.visited[s.par[v]->0 as int],
    ensures
        ({
            let r = visit_child(t, p, c, s);
            forall|v: int|
                0 < v < t.nodes@.len() && #[trigger] r.visited[v] ==> r.par[v] == parent_pos(t, v) && r.par[v] is Some
                    && r.dep[v] == r.dep[r.par[v]->0 as int] + 1 && r.visited[r.par[v]->0 as int]
        }),
{
    let n = t.nodes@.len();
    let ci = t.pos(c);
    let r = visit_child(t, p, c, s);
    assert(0 <= ci < n);
    assert(t.nv(ci).id == c);
    if !s.visited[ci] {
        assert(t.has_id(t.nv(p as int).id) && t.pos(t.nv(p as int).id) == p);
        assert(parent_pos(t, ci) == Some(p));
        assert(p as int != ci);
        assert forall|v: int| 0 < v < n && #[trigger] r.visited[v] implies r.par[v] == parent_pos(t, v)
            && r.par[v] is Some && r.dep[v] == r.dep[r.par[v]->0 as int] + 1 && r.visited[r.par[v]->0 as int] by {
            if v != ci {
                assert(r.visited[v] == s.visited[v]);
                assert(s.visited[v]);
                let pv = s.par[v]->0 as int;
                assert(s.visited[pv]);
                assert(pv != ci);
                assert(r.par[v] == s.par[v]);
                assert(r.dep[v] == s.dep[v]);
                assert(r.dep[pv] == s.dep[pv]);
            } else {
                assert(r.par[v] == Some(p));
                assert(r.dep[v] == s.dep[p as int] + 1);
                assert(r.dep[p as int] == s.dep[p as int]);
            }
        }
    }
}

pub proof fn lemma_dom_visit_closed(t: &Tree, s: DfsState, p: usize, k: int)
    requires
        state_ok(t, s),
        p < t.nodes@.len(),
        0 <= k < t.nv(p as int).children.len(),
        forall|v: int, j: int|
            0 <= v < t.nodes@.len() && 0 <= j < t.nv(v).children.len() ==> t.has_id(#[trigger] t.nv(v).children[j]),
        forall|v: int, j: int|
            0 <= v < t.nodes@.len() && s.visited[v] && !s.stack.contains(v as usize) && 0 <= j < t.nv(v).children.len()
                && (v != p || j < k) ==> s.visited[t.pos(#[trigger] t.nv(v).children[j])],
    ensures
        ({
            let r = visit_child(t, p, t.nv(p as int).children[k], s);
            forall|v: int, j: int|
                0 <= v < t.nodes@.len() && r.visited[v] && !r.stack.contains(v as usize) && 0 <= j < t.nv(v).children.len()
                    && (v != p || j < k + 1) ==> r.visited[t.pos(#[trigger] t.nv(v).children[j])]
        }),
{
    let n = t.nodes@.len();
    let c = t.nv(p as int).children[k];
    let ci = t.pos(c);
    let r = visit_child(t, p, c, s);
    assert(0 <= ci < n);
    assert forall|v: int, j: int|
        0 <= v < n && r.visited[v] && !r.stack.contains(v as usize) && 0 <= j < t.nv(v).children.len()
            && (v != p || j < k + 1) implies r.visited[t.pos(#[trigger] t.nv(v).children[j])] by {
        if v == p && j == k {
            if !s.visited[ci] {
                assert(r.visited[ci]);
            }
        } else if s.visited[ci] {
            assert(r == s);
        } else {
            assert(v != ci) by {
                assert(r.stack[r.stack.len() - 1] == ci as usize);
            }
            assert(!s.stack.contains(v as usize)) by {
                if s.stack.contains(v as usize) {
                    let i = s.stack.index_of(v as usize);
                    assert(r.stack[i] == v as usize);
                }
            }
            assert(s.visited[v]);
            let cj = t.nv(v).children[j];
            assert(s.visited[t.pos(cj)]);
            assert(0 <= t.pos(cj) < n);
        }
    }
}

pub proof fn lemma_dom_visit(t: &Tree, s: DfsState, p: usize, k: int)
    requires
        t.is_dom(),
        state_ok(t, s),
        p < t.nodes@.len(),
        s.visited[p as int],
        s.dep[p as int] < usize::MAX,
        0 <= k < t.nv(p as int).children.len(),
        dom_walk_inv(t, s, p as int, k),
    ensures
        dom_walk_inv(t, visit_child(t, p, t.nv(p as int).children[k], s), p as int, k + 1),
{
    let c = t.nv(p as int).children[k];
    lemma_dom_child(t, p as int, k);
    assert forall|v: int, j: int| 0 <= v < t.nodes@.len() && 0 <= j < t.nv(v).children.len() implies t.has_id(
        #[trigger] t.nv(v).children[j],
    ) by {
        lemma_dom_child(t, v, j);
    }
    lemma_dom_visit_par(t, s, p, c);
    lemma_dom_visit_closed(t, s, p, k);
    let r = visit_child(t, p, c, s);
    assert(r.visited[0] && r.par[0] is None && r.dep[0] == 0);
}

pub proof fn lemma_dom_done(t: &Tree, s: DfsState, p: usize)
    requires
        t.is_dom(),
        state_ok(t, s),
        p < t.nodes@.len(),
        dom_walk_inv(t, s, p as int, t.nv(p as int).children.len() as int),
    ensures
        dom_walk_inv(t, s, -1, 0),
{
}

/// On a DOM tree, once the walk's stack is empty every node was reached.
pub proof fn lemma_all_reached(t: &Tree, s: DfsState, v: int)
    requires
        t.is_dom(),
        state_ok(t, s),
        s.stack.len() == 0,
        dom_walk_inv(t, s, -1, 0),
        0 <= v < t.nodes@.len(),
    ensures
        s.visited[v],
    decreases v,
{
    if v > 0 {
        let pid = t.nv(v).parent->0;
        let pp = t.pos(pid);
        lemma_all_reached(t, s, pp);
        let k = t.node_of(pid).children.index_of(t.nv(v).id);
        assert(t.nv(pp).children[k] == t.nv(v).id);
        assert(s.visited[t.pos(t.nv(pp).children[k])]);
    }
}

/// The table built for a tree has one row per node.
pub proof fn lemma_build_size(t: &Tree, l: LcaView)
    requires
        l == spec_build(t),
    ensures
        l.up.len() == t.nodes@.len(),
{
}

/// The parent positions of tree `t`.
pub open spec fn tree_par(t: &Tree) -> Seq<Option<usize>> {
    Seq::new(t.nodes@.len(), |v: int| parent_pos(t, v))
}

/// What `lca_id` answers: the id of the node at the position `lca_of`
/// gives for the positions of `a` and `b`, when both ids are in the tree.
pub open spec fn lca_id_of(l: LcaView, t: &Tree, a: usize, b: usize) -> Option<usize> {
    if t.has_id(a) && t.has_id(b) {
        match lca_of(l, t.id_to_index@[a], t.id_to_index@[b]) {
            None => None,
            Some(i) => Some(t.nv(i as int).id),
        }
    } else {
        None
    }
}

/// What `is_ancestor_id` answers.
pub open spec fn is_ancestor_of(l: LcaView, t: &Tree, x: usize, y: usize) -> bool {
    lca_id_of(l, t, x, y) == Some(x)
}

/// On a tree's index, `lca_of` gives the deepest common ancestor under the
/// tree's own parent links, or `None` when there is none.
pub proof fn lemma_lca_of_tree(l: LcaView, t: &Tree, a: usize, b: usize)
    requires
        t.wf(),
        indexes(l, t),
        a < t.nodes@.len(),
        b < t.nodes@.len(),
    ensures
        column0(l.up) == tree_par(t),
        match lca_of(l, a, b) {
            Some(x) => is_lca(l, x, a, b),
            None => no_common_anc(l, a, b),
        },
{
    assert(column0(l.up) =~= tree_par(t));
    lemma_lca_of_is_lca(l, a, b);
}

/// On a tree's index, `is_ancestor_of(x, y)` holds exactly when the node
/// with id `x` is the node with id `y` or one of its ancestors.
pub proof fn lemma_is_ancestor_tree(l: LcaView, t: &Tree, x: usize, y: usize)
    requires
        t.wf(),
        indexes(l, t),
    ensures
        is_ancestor_of(l, t, x, y) <==> (t.has_id(x) && t.has_id(y) && is_anc(
            tree_par(t),
            t.id_to_index@[x],
            t.id_to_index@[y],
        )),
{
    if t.has_id(x) && t.has_id(y) {
        let a = t.id_to_index@[x];
        let b = t.id_to_index@[y];
        lemma_lca_of_tree(l, t, a, b);
        let par = column0(l.up);
        match lca_of(l, a, b) {
            Some(w) => {
                if is_anc(par, a, b) {
                    assert(anc(par, a, 0) == Some(a));
                    assert(is_anc(par, a, a));
                    assert(l.depth[a as int] <= l.depth[w as int]);
                    let k = choose|k: nat| anc(par, a, k) == Some(w);
                    lemma_anc_depth(l, a, k);
                    assert(k == 0);
                    assert(t.nv(a as int).id == x);
                }
                if is_ancestor_of(l, t, x, y) {
                    let k = choose|k: nat| anc(par, a, k) == Some(w);
                    lemma_anc_depth(l, a, k);
                    assert(w < t.nodes@.len());
                    assert(t.nv(w as int).id == x);
                    assert(t.pos(t.nv(w as int).id) == w);
                    assert(w == a);
                }
            },
            None => {
                if is_anc(par, a, b) {
                    assert(anc(par, a, 0) == Some(a));
                    assert(is_anc(par, a, a));
                }
            },
        }
    }
}

/// Two ancestors of `a` at the same depth are the same node.
proof fn lemma_anc_same_depth(t: LcaView, a: usize, x: usize, y: usize)
    requires
        table_wf(t),
        consistent(t),
        a < t.up.len(),
        is_anc(column0(t.up), x, a),
        is_anc(column0(t.up), y, a),
        t.depth[x as int] == t.depth[y as int],
    ensures
        x == y,
{
    let par = column0(t.up);
    let k1 = choose|k: nat| anc(par, a, k) == Some(x);
    let k2 = choose|k: nat| anc(par, a, k) == Some(y);
    lemma_anc_depth(t, a, k1);
    lemma_anc_depth(t, a, k2);
}

/// For a well-formed table with consistent depths, the lowest common
/// ancestor of two nodes does not depend on their order, and that of a node
/// with itself is the node.
pub proof fn lemma_lca_symmetric(t: LcaView, a: usize, b: usize)
    requires
        table_wf(t),
        consistent(t),
        a < t.up.len(),
        b < t.up.len(),
    ensures
        lca_of(t, a, b) == lca_of(t, b, a),
        lca_of(t, a, a) == Some(a),
{
    let par = column0(t.up);
    lemma_lca_of_is_lca(t, a, b);
    lemma_lca_of_is_lca(t, b, a);
    lemma_lca_of_is_lca(t, a, a);
    match (lca_of(t, a, b), lca_of(t, b, a)) {
        (Some(x), Some(y)) => {
            lemma_anc_same_depth(t, a, x, y);
        },
        (Some(x), None) => {
            assert(is_anc(par, x, b) && is_anc(par, x, a));
        },
        (None, Some(y)) => {
            assert(is_anc(par, y, a) && is_anc(par, y, b));
        },
        (None, None) => {},
    }
    assert(anc(par, a, 0) == Some(a));
    assert(is_anc(par, a, a));
    let x = lca_of(t, a, a)->0;
    assert(t.depth[a as int] <= t.depth[x as int]);
    let k = choose|k: nat| anc(par, a, k) == Some(x);
    lemma_anc_depth(t, a, k);
}

/// The lowest common ancestor `c` of `a` and `b` is also that of `a` and
/// `c`, and of `c` and `b`.
pub proof fn lemma_lca_absorbs(t: LcaView, a: usize, b: usize)
    requires
        table_wf(t),
        consistent(t),
        a < t.up.len(),
        b < t.up.len(),
    ensures
        lca_of(t, a, b) matches Some(c) ==> lca_of(t, a, c) == Some(c) && lca_of(t, c, b) == Some(c),
{
    let par = column0(t.up);
    lemma_lca_of_is_lca(t, a, b);
    if let Some(c) = lca_of(t, a, b) {
        let k = choose|k: nat| anc(par, a, k) == Some(c);
        lemma_anc_depth(t, a, k);
        assert(c < t.up.len());
        assert(anc(par, c, 0) == Some(c));
        assert(is_anc(par, c, c));
        lemma_lca_of_is_lca(t, a, c);
        lemma_lca_of_is_lca(t, c, b);
        match lca_of(t, a, c) {
            Some(x) => {
                let kx = choose|k: nat| anc(par, c, k) == Some(x);
                lemma_anc_depth(t, c, kx);
                lemma_anc_add(par, a, k, kx);
                assert(anc(par, a, k + kx) == Some(x));
                assert(is_anc(par, x, a) && is_anc(par, x, b));
                lemma_anc_same_depth(t, a, x, c);
            },
            None => {
                assert(is_anc(par, c, a) && is_anc(par, c, c));
            },
        }
        match lca_of(t, c, b) {
            Some(y) => {
                let ky = choose|k: nat| anc(par, c, k) == Some(y);
                lemma_anc_depth(t, c, ky);
                lemma_anc_add(par, a, k, ky);
                assert(anc(par, a, k + ky) == Some(y));
                lemma_anc_same_depth(t, a, y, c);
            },
            None => {
                assert(is_anc(par, c, c) && is_anc(par, c, b));
            },
        }
    }
}

/// On a tree's index, `lca_id` is symmetric in its two ids, and a node of
/// the tree is its own lowest common ancestor, so `is_ancestor_id` holds of
/// a node and itself.
pub proof fn lemma_lca_id_symmetric(l: LcaView, t: &Tree, a: usize, b: usize)
    requires
        t.wf(),
        indexes(l, t),
    ensures
        lca_id_of(l, t, a, b) == lca_id_of(l, t, b, a),
        t.has_id(a) ==> lca_id_of(l, t, a, a) == Some(a) && is_ancestor_of(l, t, a, a),
{
    if t.has_id(a) {
        let ia = t.id_to_index@[a];
        assert(t.nv(ia as int).id == a);
        lemma_lca_symmetric(l, ia, ia);
        if t.has_id(b) {
            lemma_lca_symmetric(l, ia, t.id_to_index@[b]);
        }
    }
}

impl LcaBinaryLifting {
    #[verifier::type_invariant]
    spec fn inv(self) -> bool {
        table_wf(self@)
    }


    /// Builds the table for `tree`: a depth-first walk from the root records
    /// parents and depths, nodes it does not reach take their parent link,
    /// and the columns are filled by doubling.  On a DOM tree the result is
    /// the tree's index.
    pub fn build(tree: &Tree) -> (r: Self)
        requires
            tree.wf(),
            tree.nodes@.len() <= isize::MAX,
        ensures
            r@ == spec_build(tree),
            tree.is_dom() ==> indexes(r@, tree),
    {
        let n = tree.nodes.len();
        if n == 0 {
            proof {
                reveal(table_wf);
            }
            let r = Self { up: Vec::new(), depth: Vec::new() };
            proof {
                assert(r@.up =~= spec_build(tree).up);
                assert(r@.depth =~= spec_build(tree).depth);
            }
            return r;
        }
        proof {
            lemma_isize_max_lt();
            lemma_pow2_zero();
        }
        let mut max_log: usize = 1;
        loop
            invariant
                1 <= max_log < usize::BITS,
                pow2((max_log - 1) as nat) <= n,
                n <= isize::MAX,
                isize::MAX < pow2((usize::BITS - 1) as nat),
                levels_from(n as nat, max_log as nat) == levels_from(n as nat, 1),
            ensures
                1 <= max_log < usize::BITS,
                n < pow2(max_log as nat),
                levels_from(n as nat, 1) == max_log,
            decreases usize::BITS - max_log,
        {
            proof {
                vstd::bits::lemma_usize_pow2_no_overflow(max_log as nat);
                lemma_usize_shl_is_mul(1, max_log);
            }
            if (1usize << max_log) <= n {
                proof {
                    if max_log + 1 >= usize::BITS {
                        lemma_pow2_strictly_increases((usize::BITS - 1) as nat, max_log as nat);
                        assert(false);
                    }
                }
                max_log += 1;
            } else {
                break;
            }
        }
        // rows of max_log empty entries
        let mut up: Vec<Vec<Option<usize>>> = Vec::new();
        let mut i: usize = 0;
        while i < n
            invariant
                0 <= i <= n,
                up@.len() == i,
                forall|v: int| 0 <= v < i ==> (#[trigger] up@[v])@ == Seq::new(max_log as nat, |j: int| None::<usize>),
            decreases n - i,
        {
            let mut row: Vec<Option<usize>> = Vec::new();
            let mut j: usize = 0;
            while j < max_log
                invariant
                    0 <= j <= max_log,
                    row@ == Seq::new(j as nat, |k: int| None::<usize>),
                decreases max_log - j,
            {
                row.push(None);
                j += 1;
                assert(row@ =~= Seq::new(j as nat, |k: int| None::<usize>));
            }
            up.push(row);
            i += 1;
        }
        let mut depth: Vec<usize> = Vec::new();
        let mut visited: Vec<bool> = Vec::new();
        let mut i: usize = 0;
        while i < n
            invariant
                0 <= i <= n,
                depth@ == Seq::new(i as nat, |k: int| 0usize),
                visited@ == Seq::new(i as nat, |k: int| false),
            decreases n - i,
        {
            depth.push(0);
            visited.push(false);
            i += 1;
            assert(depth@ =~= Seq::new(i as nat, |k: int| 0usize));
            assert(visited@ =~= Seq::new(i as nat, |k: int| false));
        }
        let ghost init = dfs_init(tree);
        let ghost mut g = init;
        let ghost col_of = |up: Seq<Vec<Option<usize>>>| Seq::new(n as nat, |v: int| up[v]@[0]);
        let mut stack: Vec<usize> = Vec::new();
        proof {
            assert(visited@ =~= Seq::new(n as nat, |k: int| false));
        }
        match tree.find_index_from_id(tree.root) {
            None => {
                proof {
                    assert(g.visited =~= visited@);
                    assert(g.par =~= col_of(up@));
                    assert(g.dep =~= depth@);
                    assert(g.stack =~= stack@);
                }
            },
            Some(root_idx) => {
                stack.push(root_idx);
                visited.set(root_idx, true);
                proof {
                    assert(g.visited =~= visited@);
                    assert(g.par =~= col_of(up@));
                    assert(g.dep =~= depth@);
                    assert(g.stack =~= stack@);
                    lemma_count_false_le(g.visited);
                    assert(g.visited[root_idx as int]);
                }
            },
        }
        proof {
            if tree.is_dom() {
                assert(g.visited[0]);
            }
        }
        while stack.len() > 0
            invariant
                tree.wf(),
                n == tree.nodes@.len(),
                1 <= max_log < usize::BITS,
                state_ok(tree, g),
                init == dfs_init(tree),
                dfs_run(tree, g) == dfs_run(tree, init),
                g.stack == stack@,
                g.visited == visited@,
                g.dep == depth@,
                up@.len() == n,
                forall|v: int| 0 <= v < n ==> (#[trigger] up@[v])@.len() == max_log,
                forall|v: int| 0 <= v < n ==> #[trigger] up@[v]@[0] == g.par[v],
                walk_bounds(tree, g),
                tree.is_dom() ==> dom_walk_inv(tree, g, -1, 0),
            decreases count_false(g.visited), g.stack.len(),
        {
            let parent_idx = stack.pop().unwrap();
            let ghost s1 = DfsState { stack: g.stack.drop_last(), ..g };
            proof {
                assert(stack@ == s1.stack);
                lemma_visit_children(tree, parent_idx, tree.nv(parent_idx as int).children, s1);
                assert(g.stack[g.stack.len() - 1] == parent_idx);
            }
            proof {
                if tree.is_dom() {
                    lemma_dom_pop(tree, g, s1, parent_idx);
                }
            }
            let parent_depth = depth[parent_idx];
            let children = tree.nodes[parent_idx].children();
            let ghost cs = children@;
            let ghost gi = s1;
            let mut k: usize = 0;
            while k < children.len()
                invariant
                    tree.wf(),
                    n == tree.nodes@.len(),
                    1 <= max_log < usize::BITS,
                    parent_idx < n,
                    cs == children@,
                    cs == tree.nv(parent_idx as int).children,
                    0 <= k <= cs.len(),
                    state_ok(tree, s1),
                    state_ok(tree, gi),
                    gi == visit_children(tree, parent_idx, cs.take(k as int), s1),
                    gi.visited[parent_idx as int],
                    gi.dep[parent_idx as int] == parent_depth,
                    gi.stack == stack@,
                    gi.visited == visited@,
                    gi.dep == depth@,
                    up@.len() == n,
                    forall|v: int| 0 <= v < n ==> (#[trigger] up@[v])@.len() == max_log,
                    forall|v: int| 0 <= v < n ==> #[trigger] up@[v]@[0] == gi.par[v],
                    walk_bounds(tree, gi),
                    tree.is_dom() ==> dom_walk_inv(tree, gi, parent_idx as int, k as int),
                decreases cs.len() - k,
            {
                let child_id = children[k];
                let ghost before = gi;
                proof {
                    if tree.is_dom() {
                        lemma_dom_visit(tree, gi, parent_idx, k as int);
                    }
                    assert(cs.take(k + 1).drop_last() =~= cs.take(k as int));
                    assert(cs.take(k + 1).last() == child_id);
                }
                match tree.find_index_from_id(child_id) {
                    None => {},
                    Some(child_idx) => {
                        if !visited[child_idx] {
                            proof {
                                lemma_count_false_update(gi.visited, child_idx as int);
                                lemma_count_false_le(gi.visited.update(child_idx as int, true));
                                assert(gi.visited[parent_idx as int]);
                            }
                            let ghost up_before = up@;
                            visited.set(child_idx, true);
                            up[child_idx].set(0, Some(parent_idx));
                            depth.set(child_idx, parent_depth + 1);
                            stack.push(child_idx);
                            proof {
                                gi = visit_child(tree, parent_idx, child_id, before);
                                assert(gi.visited =~= visited@);
                                assert(gi.dep =~= depth@);
                                assert(gi.stack =~= stack@);
                                assert forall|v: int| 0 <= v < n implies #[trigger] up@[v]@[0] == gi.par[v] by {
                                    if v != child_idx {
                                        assert(up@[v] == up_before[v]);
                                    }
                                }
                            }
                        }
                    },
                }
                k += 1;
                proof {
                    assert(gi == visit_children(tree, parent_idx, cs.take(k as int), s1));
                }
            }
            proof {
                assert(cs.take(cs.len() as int) =~= cs);
                if tree.is_dom() {
                    lemma_dom_done(tree, gi, parent_idx);
                }
                g = gi;
            }
        }
        proof {
            assert(dfs_run(tree, g) == g);
        }
        // nodes the walk did not reach take their parent link
        let mut v: usize = 0;
        while v < n
            invariant
                tree.wf(),
                n == tree.nodes@.len(),
                1 <= max_log,
                state_ok(tree, g),
                0 <= v <= n,
                up@.len() == n,
                g.visited == visited@,
                forall|u: int| 0 <= u < n ==> (#[trigger] up@[u])@.len() == max_log,
                forall|u: int| 0 <= u < v ==> #[trigger] up@[u]@[0] == final_par(tree, g)[u],
                forall|u: int| v <= u < n ==> #[trigger] up@[u]@[0] == g.par[u],
            decreases n - v,
        {
            if !visited[v] {
                let p = match tree.nodes[v].parent() {
                    None => None,
                    Some(parent_id) => tree.find_index_from_id(parent_id),
                };
                let ghost up_before = up@;
                up[v].set(0, p);
                proof {
                    assert forall|u: int| 0 <= u < n && u != v implies #[trigger] up@[u] == up_before[u] by {}
                }
            }
            v += 1;
        }
        let ghost col = final_par(tree, g);
        proof {
            assert forall|u: int| 0 <= u < col.len() && (#[trigger] col[u]) is Some implies col[u]->0 < col.len() by {
                if !g.visited[u] {
                    let pid = tree.nv(u).parent->0;
                    assert(tree.has_id(pid));
                }
            }
        }
        // doubling
        let mut jmp: usize = 1;
        while jmp < max_log
            invariant
                tree.wf(),
                n == tree.nodes@.len(),
                1 <= jmp <= max_log,
                up@.len() == n,
                col.len() == n,
                forall|u: int| 0 <= u < col.len() && (#[trigger] col[u]) is Some ==> col[u]->0 < col.len(),
                forall|u: int| 0 <= u < n ==> (#[trigger] up@[u])@.len() == max_log,
                forall|u: int, j: int| 0 <= u < n && 0 <= j < jmp ==> #[trigger] up@[u]@[j] == jump(col, u as usize, j as nat),
            decreases max_log - jmp,
        {
            let mut v: usize = 0;
            while v < n
                invariant
                    tree.wf(),
                    n == tree.nodes@.len(),
                    1 <= jmp < max_log,
                    0 <= v <= n,
                    up@.len() == n,
                    col.len() == n,
                    forall|u: int| 0 <= u < col.len() && (#[trigger] col[u]) is Some ==> col[u]->0 < col.len(),
                    forall|u: int| 0 <= u < n ==> (#[trigger] up@[u])@.len() == max_log,
                    forall|u: int, j: int| 0 <= u < n && 0 <= j < jmp ==> #[trigger] up@[u]@[j] == jump(col, u as usize, j as nat),
                    forall|u: int| 0 <= u < v ==> #[trigger] up@[u]@[jmp as int] == jump(col, u as usize, jmp as nat),
                decreases n - v,
            {
                proof {
                    lemma_jump_is_anc(col, v, (jmp - 1) as nat);
                }
                let e = match up[v][jmp - 1] {
                    None => None,
                    Some(m) => up[m][jmp - 1],
                };
                let ghost up_before = up@;
                up[v].set(jmp, e);
                proof {
                    assert forall|u: int, j: int| 0 <= u < n && 0 <= j < jmp implies #[trigger] up@[u]@[j] == jump(col, u as usize, j as nat) by {
                        if u != v {
                            assert(up@[u] == up_before[u]);
                        } else {
                            assert(up@[u]@[j] == up_before[u]@[j]);
                        }
                    }
                    assert forall|u: int| 0 <= u < v + 1 implies #[trigger] up@[u]@[jmp as int] == jump(col, u as usize, jmp as nat) by {
                        if u != v {
                            assert(up@[u] == up_before[u]);
                        }
                    }
                    assert forall|u: int| 0 <= u < n implies (#[trigger] up@[u])@.len() == max_log by {
                        if u != v {
                            assert(up@[u] == up_before[u]);
                        }
                    }
                }
                v += 1;
            }
            jmp += 1;
        }
        let ghost t = LcaView { up: up@.map_values(|r: Vec<Option<usize>>| r@), depth: depth@ };
        proof {
            let sb = spec_build(tree);
            assert(dfs_run(tree, dfs_init(tree)) == g);
            assert(levels_from(n as nat, 1) == max_log);
            assert forall|v: int| 0 <= v < n implies #[trigger] t.up[v] == sb.up[v] by {
                assert(t.up[v] =~= sb.up[v]);
            }
            assert(t.up =~= sb.up);
            assert(t.depth == sb.depth);
            reveal(table_wf);
            assert forall|v: int, j: int| 0 <= v < n && 0 <= j < max_log && (#[trigger] t.up[v][j]) is Some implies t.up[v][j]->0 < n by {
                lemma_jump_is_anc(col, v as usize, j as nat);
            }
            assert forall|v: int| 0 <= v < n implies #[trigger] t.depth[v] < n by {
                lemma_count_false_le(g.visited);
                if g.visited[v] {
                } else {
                }
            }
            assert forall|v: int, j: int| 0 <= v < n && 1 <= j < max_log implies #[trigger] t.up[v][j] == match t.up[v][j - 1] {
                None => None,
                Some(m) => t.up[m as int][j - 1],
            } by {
                lemma_jump_is_anc(col, v as usize, (j - 1) as nat);
            }
            assert(table_wf(t));
            if tree.is_dom() {
                assert forall|v: int| 0 <= v < n implies #[trigger] g.visited[v] by {
                    lemma_all_reached(tree, g, v);
                }
                assert forall|v: int| 0 <= v < n implies #[trigger] t.up[v][0] == parent_pos(tree, v) by {
                    assert(g.visited[v]);
                }
                assert forall|v: int| 0 <= v < t.up.len() implies match #[trigger] t.up[v][0] {
                    Some(p) => t.depth[v] == t.depth[p as int] + 1,
                    None => t.depth[v] == 0,
                } by {
                    assert(g.visited[v]);
                }
                assert(indexes(t, tree));
            }
        }
        let r = Self { up, depth };
        assert(r@ == t);
        r
    }

    /// The lowest common ancestor of the nodes at positions `a_idx` and
    /// `b_idx`, as `lca_of` computes it; `None` for positions out of range.
    pub fn lca_index(&self, a_idx: usize, b_idx: usize) -> (r: Option<usize>)
        ensures
            r == lca_of(self@, a_idx, b_idx),
            r matches Some(x) ==> x < self@.up.len(),
    {
        proof {
            use_type_invariant(self);
        }
        let ghost t = self@;
        if self.up.len() == 0 {
            return None;
        }
        if a_idx >= self.up.len() || b_idx >= self.up.len() {
            return None;
        }
        proof {
            lemma_row(t, 0);
        }
        let mut a = a_idx;
        let mut b = b_idx;
        if self.depth[a] < self.depth[b] {
            let tmp = a;
            a = b;
            b = tmp;
        }
        let diff = self.depth[a] - self.depth[b];
        let l = self.up[0].len();
        let mut jump = l;
        while jump > 0
            invariant
                table_wf(t),
                t == self@,
                l == t.up[0].len(),
                0 <= jump <= l,
                a < t.up.len(),
                b < t.up.len(),
                lca_of(t, a_idx, b_idx) == match lift(t.up, a, diff, jump as nat) {
                    None => None,
                    Some(x) => lca_finish(t, x, b),
                },
            decreases jump,
        {
            jump -= 1;
            proof {
                lemma_row(t, a as int);
            }
            if ((diff >> jump) & 1) == 1 {
                match self.up[a][jump] {
                    Some(x) => {
                        assert(t.up[a as int][jump as int] is Some);
                        a = x;
                    },
                    None => {
                        return None;
                    },
                }
            }
        }
        if a == b {
            return Some(a);
        }
        let mut jump = l;
        while jump > 0
            invariant
                table_wf(t),
                t == self@,
                l == t.up[0].len(),
                0 <= jump <= l,
                a < t.up.len(),
                b < t.up.len(),
                lca_of(t, a_idx, b_idx) == match climb(t.up, a, b, jump as nat) {
                    None => None,
                    Some(pq) => t.up[pq.0 as int][0],
                },
            decreases jump,
        {
            jump -= 1;
            proof {
                lemma_row(t, a as int);
                lemma_row(t, b as int);
            }
            let next_a = self.up[a][jump];
            let next_b = self.up[b][jump];
            if next_a.is_some() && next_a != next_b {
                assert(t.up[a as int][jump as int] is Some);
                a = match next_a {
                    Some(x) => x,
                    None => return None,
                };
                b = match next_b {
                    Some(y) => y,
                    None => return None,
                };
            }
        }
        proof {
            lemma_row(t, a as int);
        }
        self.up[a][0]
    }

    /// The id of the lowest common ancestor of the nodes with ids `a_id`
    /// and `b_id`, if both are in `tree` and have one.
    pub fn lca_id(&self, tree: &Tree, a_id: usize, b_id: usize) -> (r: Option<usize>)
        requires
            self@.up.len() <= tree.nodes@.len(),
        ensures
            r == lca_id_of(self@, tree, a_id, b_id),
    {
        let a_idx = match tree.find_index_from_id(a_id) {
            Some(i) => i,
            None => return None,
        };
        let b_idx = match tree.find_index_from_id(b_id) {
            Some(i) => i,
            None => return None,
        };
        let lca_idx = match self.lca_index(a_idx, b_idx) {
            Some(i) => i,
            None => return None,
        };
        Some(tree.nodes[lca_idx].id())
    }

    /// Whether the node with id `ancestor_id` is the lowest common ancestor
    /// of itself and the node with id `node_id`, that is, an ancestor of it
    /// or the node itself.
    pub fn is_ancestor_id(&self, tree: &Tree, ancestor_id: usize, node_id: usize) -> (r: bool)
        requires
            self@.up.len() <= tree.nodes@.len(),
        ensures
            r == is_ancestor_of(self@, tree, ancestor_id, node_id),
    {
        match self.lca_id(tree, ancestor_id, node_id) {
            Some(id) => id == ancestor_id,
            None => false,
        }
    }

}

impl Clone for LcaBinaryLifting {
    /// A copy of the table.
    fn clone(&self) -> (r: Self)
        ensures
            r@ == self@,
    {
        proof {
            use_type_invariant(self);
        }
        let mut up: Vec<Vec<Option<usize>>> = Vec::new();
        let mut v: usize = 0;
        while v < self.up.len()
            invariant
                0 <= v <= self.up@.len(),
                up@.len() == v,
                forall|k: int| 0 <= k < v ==> (#[trigger] up@[k])@ == self.up@[k]@,
            decreases self.up@.len() - v,
        {
            let row = &self.up[v];
            let mut copy: Vec<Option<usize>> = Vec::new();
            let mut j: usize = 0;
            while j < row.len()
                invariant
                    0 <= j <= row@.len(),
                    copy@ == row@.take(j as int),
                decreases row@.len() - j,
            {
                copy.push(row[j]);
                j += 1;
                proof {
                    assert(copy@ =~= row@.take(j as int));
                }
            }
            assert(row@.take(row@.len() as int) =~= row@);
            up.push(copy);
            v += 1;
        }
        let mut depth: Vec<usize> = Vec::new();
        let mut i: usize = 0;
        while i < self.depth.len()
            invariant
                0 <= i <= self.depth@.len(),
                depth@ == self.depth@.take(i as int),
            decreases self.depth@.len() - i,
        {
            depth.push(self.depth[i]);
            i += 1;
            proof {
                assert(depth@ =~= self.depth@.take(i as int));
            }
        }
        assert(self.depth@.take(self.depth@.len() as int) =~= self.depth@);
        assert(up@.map_values(|r: Vec<Option<usize>>| r@) =~= self.up@.map_values(|r: Vec<Option<usize>>| r@));
        assert(table_wf(LcaView { up: up@.map_values(|r: Vec<Option<usize>>| r@), depth: depth@ }));
        let r = LcaBinaryLifting { up, depth };
        assert(r@.up =~= self@.up);
        assert(r@ == self@);
        r
    }
}

} // verus!
