//! Merkle mathematics for the commitment tree: the root of a fixed-depth
//! tree over a sequence of leaf commitments, the authentication path of a
//! leaf, and the proof that climbing a leaf's path reproduces the root.
//!
//! The tree has fixed depth `TREE_DEPTH`; the zero element at the leaf layer
//! is `EMPTY_LEAF`, and the zero element at an inner layer is the combination
//! of the zero elements one layer down.

use vstd::prelude::*;

verus! {

/// Fixed depth of the commitment tree.
pub const TREE_DEPTH: usize = 32;

/// Maximum number of leaves the tree can hold: 2^TREE_DEPTH.
pub const MAX_LEAVES: u64 = 0x1_0000_0000;

/// The zero element at the leaf layer.
pub const EMPTY_LEAF: u64 = 0;

pub open spec fn pow2(n: nat) -> nat
    decreases n,
{
    if n == 0 {
        1
    } else {
        2 * pow2((n - 1) as nat)
    }
}

pub proof fn lemma_pow2_depth()
    ensures
        pow2((TREE_DEPTH - 1) as nat) == 0x8000_0000,
        pow2(TREE_DEPTH as nat) == MAX_LEAVES,
{
    reveal_with_fuel(pow2, 33);
}

pub proof fn lemma_pow2_monotone(a: nat, b: nat)
    requires
        a <= b,
    ensures
        pow2(a) <= pow2(b),
    decreases b,
{
    if a < b {
        lemma_pow2_monotone(a, (b - 1) as nat);
    }
}

/// 2^n for n up to TREE_DEPTH, as an executable value.
pub fn pow2_exec(n: usize) -> (r: u64)
    requires
        n <= TREE_DEPTH,
    ensures
        r == pow2(n as nat),
    decreases n,
{
    if n == 0 {
        1
    } else {
        proof {
            lemma_pow2_monotone((n - 1) as nat, (TREE_DEPTH - 1) as nat);
            lemma_pow2_depth();
        }
        2 * pow2_exec(n - 1)
    }
}

/// The node-combining hash of the tree: a fixed mixing function on two
/// child values, used at every inner layer.
pub open spec fn combine(l: u64, r: u64) -> u64 {
    (vstd::wrapping::u64_specs::wrapping_mul(l, 0x9E3779B97F4A7C15) ^ vstd::wrapping::u64_specs::wrapping_mul(r, 0xC2B2AE3D27D4EB4F)) ^ 0x165667B19E3779F9
}

pub fn combine_exec(l: u64, r: u64) -> (h: u64)
    ensures
        h == combine(l, r),
{
    (l.wrapping_mul(0x9E3779B97F4A7C15) ^ r.wrapping_mul(0xC2B2AE3D27D4EB4F)) ^ 0x165667B19E3779F9
}

/// Root of a depth-`d` subtree over `leaves`, which fills the subtree from
/// the left; missing leaves are the zero element.
pub open spec fn root_spec(d: nat, leaves: Seq<u64>) -> u64
    decreases d,
{
    if d == 0 {
        if leaves.len() == 0 {
            EMPTY_LEAF
        } else {
            leaves[0]
        }
    } else {
        let half = pow2((d - 1) as nat) as int;
        let m = if leaves.len() <= half {
            leaves.len() as int
        } else {
            half
        };
        combine(root_spec((d - 1) as nat, leaves.take(m)), root_spec((d - 1) as nat, leaves.skip(m)))
    }
}

/// Authentication path of the leaf at position `p`: the sibling subtree
/// root at each layer, ordered leaf layer first.
pub open spec fn auth_path_spec(d: nat, leaves: Seq<u64>, p: nat) -> Seq<u64>
    decreases d,
{
    if d == 0 {
        Seq::empty()
    } else {
        let dd = (d - 1) as nat;
        let half = pow2(dd) as int;
        let m = if leaves.len() <= half {
            leaves.len() as int
        } else {
            half
        };
        if p < half {
            auth_path_spec(dd, leaves.take(m), p).push(root_spec(dd, leaves.skip(m)))
        } else {
            auth_path_spec(dd, leaves.skip(m), (p - half) as nat).push(root_spec(dd, leaves.take(m)))
        }
    }
}

/// The root obtained by hashing `leaf`, sitting at position `p`, up the
/// given authentication path.
pub open spec fn climb(path: Seq<u64>, p: nat, leaf: u64) -> u64
    decreases path.len(),
{
    if path.len() == 0 {
        leaf
    } else {
        let d = (path.len() - 1) as int;
        let half = pow2(d as nat) as int;
        if p < half {
            combine(climb(path.take(d), p, leaf), path[d])
        } else {
            combine(path[d], climb(path.take(d), (p - half) as nat, leaf))
        }
    }
}

pub proof fn lemma_auth_path_len(d: nat, leaves: Seq<u64>, p: nat)
    ensures
        auth_path_spec(d, leaves, p).len() == d,
    decreases d,
{
    if d > 0 {
        let dd = (d - 1) as nat;
        let half = pow2(dd) as int;
        let m = if leaves.len() <= half {
            leaves.len() as int
        } else {
            half
        };
        if p < half {
            lemma_auth_path_len(dd, leaves.take(m), p);
        } else {
            lemma_auth_path_len(dd, leaves.skip(m), (p - half) as nat);
        }
    }
}

/// Climbing the authentication path of any present leaf reproduces the
/// root of the whole tree.
pub proof fn lemma_path_climbs_to_root(d: nat, leaves: Seq<u64>, p: nat)
    requires
        p < leaves.len(),
        leaves.len() <= pow2(d),
    ensures
        climb(auth_path_spec(d, leaves, p), p, leaves[p as int]) == root_spec(d, leaves),
    decreases d,
{
    if d == 0 {
        assert(p == 0);
    } else {
        let dd = (d - 1) as nat;
        let half = pow2(dd) as int;
        let m = if leaves.len() <= half {
            leaves.len() as int
        } else {
            half
        };
        let take_m = leaves.take(m);
        let skip_m = leaves.skip(m);
        if p < half {
            let sub = auth_path_spec(dd, take_m, p);
            let sib = root_spec(dd, skip_m);
            lemma_auth_path_len(dd, take_m, p);
            let path = auth_path_spec(d, leaves, p);
            assert(path == sub.push(sib));
            assert(path.take(dd as int) =~= sub);
            assert(path[dd as int] == sib);
            assert(take_m[p as int] == leaves[p as int]);
            lemma_path_climbs_to_root(dd, take_m, p);
        } else {
            assert(half < leaves.len());
            assert(m == half);
            let sub = auth_path_spec(dd, skip_m, (p - half) as nat);
            let sib = root_spec(dd, take_m);
            lemma_auth_path_len(dd, skip_m, (p - half) as nat);
            let path = auth_path_spec(d, leaves, p);
            assert(path == sub.push(sib));
            assert(path.take(dd as int) =~= sub);
            assert(path[dd as int] == sib);
            assert(skip_m.len() == leaves.len() - half);
            assert(pow2(d) == 2 * pow2(dd));
            assert(skip_m[p - half] == leaves[p as int]);
            lemma_path_climbs_to_root(dd, skip_m, (p - half) as nat);
        }
    }
}

/// Root of the all-empty subtree at depth `d`.
pub fn empty_root(d: usize) -> (r: u64)
    requires
        d <= TREE_DEPTH,
    ensures
        r == root_spec(d as nat, Seq::<u64>::empty()),
    decreases d,
{
    if d == 0 {
        EMPTY_LEAF
    } else {
        let e = empty_root(d - 1);
        proof {
            let s = Seq::<u64>::empty();
            assert(s.take(0) =~= s);
            assert(s.skip(0) =~= s);
        }
        combine_exec(e, e)
    }
}

/// Root of the depth-`d` subtree over `leaves[lo..hi]`.
fn subtree_root(leaves: &Vec<u64>, lo: usize, hi: usize, d: usize) -> (r: u64)
    requires
        lo <= hi <= leaves.len(),
        hi - lo <= pow2(d as nat),
        d <= TREE_DEPTH,
    ensures
        r == root_spec(d as nat, leaves@.subrange(lo as int, hi as int)),
    decreases d,
{
    let s = Ghost(leaves@.subrange(lo as int, hi as int));
    if lo == hi {
        proof {
            assert(s@ =~= Seq::<u64>::empty());
        }
        empty_root(d)
    } else if d == 0 {
        proof {
            assert(s@[0] == leaves@[lo as int]);
        }
        leaves[lo]
    } else {
        let half = pow2_exec(d - 1);
        let avail = hi - lo;
        let m: usize = if (avail as u64) <= half {
            avail
        } else {
            proof {
                lemma_pow2_monotone((d - 1) as nat, (TREE_DEPTH - 1) as nat);
                lemma_pow2_depth();
            }
            half as usize
        };
        proof {
            assert(pow2(d as nat) == 2 * pow2((d - 1) as nat));
            assert(s@.take(m as int) =~= leaves@.subrange(lo as int, (lo + m) as int));
            assert(s@.skip(m as int) =~= leaves@.subrange((lo + m) as int, hi as int));
        }
        let left = subtree_root(leaves, lo, lo + m, d - 1);
        let right = subtree_root(leaves, lo + m, hi, d - 1);
        combine_exec(left, right)
    }
}

/// Root of the whole depth-`TREE_DEPTH` tree over `leaves`.
pub fn tree_root(leaves: &Vec<u64>) -> (r: u64)
    requires
        leaves.len() <= MAX_LEAVES,
    ensures
        r == root_spec(TREE_DEPTH as nat, leaves@),
{
    proof {
        lemma_pow2_depth();
        assert(leaves@.subrange(0, leaves@.len() as int) =~= leaves@);
    }
    subtree_root(leaves, 0, leaves.len(), TREE_DEPTH)
}

/// Authentication path of position `p` (relative to `lo`) within the
/// depth-`d` subtree over `leaves[lo..hi]`.
fn subtree_path(leaves: &Vec<u64>, lo: usize, hi: usize, d: usize, p: u64) -> (r: Vec<u64>)
    requires
        lo <= hi <= leaves.len(),
        hi - lo <= pow2(d as nat),
        d <= TREE_DEPTH,
        p < hi - lo,
    ensures
        r@ == auth_path_spec(d as nat, leaves@.subrange(lo as int, hi as int), p as nat),
    decreases d,
{
    let s = Ghost(leaves@.subrange(lo as int, hi as int));
    if d == 0 {
        Vec::new()
    } else {
        let half = pow2_exec(d - 1);
        let avail = hi - lo;
        let m: usize = if (avail as u64) <= half {
            avail
        } else {
            proof {
                lemma_pow2_monotone((d - 1) as nat, (TREE_DEPTH - 1) as nat);
                lemma_pow2_depth();
            }
            half as usize
        };
        proof {
            assert(pow2(d as nat) == 2 * pow2((d - 1) as nat));
            assert(s@.take(m as int) =~= leaves@.subrange(lo as int, (lo + m) as int));
            assert(s@.skip(m as int) =~= leaves@.subrange((lo + m) as int, hi as int));
        }
        if p < half {
            let mut v = subtree_path(leaves, lo, lo + m, d - 1, p);
            let sib = subtree_root(leaves, lo + m, hi, d - 1);
            v.push(sib);
            v
        } else {
            let mut v = subtree_path(leaves, lo + m, hi, d - 1, p - half);
            let sib = subtree_root(leaves, lo, lo + m, d - 1);
            v.push(sib);
            v
        }
    }
}

/// Authentication path of position `p` in the whole tree over `leaves`.
pub fn tree_path(leaves: &Vec<u64>, p: u64) -> (r: Vec<u64>)
    requires
        leaves.len() <= MAX_LEAVES,
        p < leaves.len(),
    ensures
        r@ == auth_path_spec(TREE_DEPTH as nat, leaves@, p as nat),
{
    proof {
        lemma_pow2_depth();
        assert(leaves@.subrange(0, leaves@.len() as int) =~= leaves@);
    }
    subtree_path(leaves, 0, leaves.len(), TREE_DEPTH, p)
}

fn climb_prefix(path: &Vec<u64>, n: usize, p: u64, leaf: u64) -> (r: u64)
    requires
        n <= path.len(),
        path.len() <= TREE_DEPTH,
    ensures
        r == climb(path@.take(n as int), p as nat, leaf),
    decreases n,
{
    if n == 0 {
        proof {
            assert(path@.take(0) =~= Seq::<u64>::empty());
        }
        leaf
    } else {
        let half = pow2_exec(n - 1);
        proof {
            assert(path@.take(n as int).take((n - 1) as int) =~= path@.take((n - 1) as int));
            assert(path@.take(n as int)[(n - 1) as int] == path@[(n - 1) as int]);
        }
        if p < half {
            let below = climb_prefix(path, n - 1, p, leaf);
            combine_exec(below, path[n - 1])
        } else {
            let below = climb_prefix(path, n - 1, p - half, leaf);
            combine_exec(path[n - 1], below)
        }
    }
}

/// The root value obtained by verifying `leaf` at position `p` against the
/// authentication path `path`.
pub fn climb_path(path: &Vec<u64>, p: u64, leaf: u64) -> (r: u64)
    requires
        path.len() <= TREE_DEPTH,
    ensures
        r == climb(path@, p as nat, leaf),
{
    proof {
        assert(path@.take(path@.len() as int) =~= path@);
    }
    climb_prefix(path, path.len(), p, leaf)
}

} // verus!
