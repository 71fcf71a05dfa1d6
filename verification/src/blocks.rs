//! Chain-side data: block heights, transaction coordinates, shielded
//! transactions, and the canonical flattening of a block's transactions
//! into `(IndexedTx, ShieldedTx)` pairs in block order.

use vstd::prelude::*;

verus! {

/// Canonical global coordinate of a shielded sub-transaction:
/// (block height, transaction index in the block, shielded sub-transaction
/// index inside the transaction).
#[derive(Clone, Copy, Debug, PartialEq, Eq, Structural)]
pub struct IndexedTx {
    pub block_height: u64,
    pub block_index: u32,
    pub masp_tx_index: u64,
}

/// Strict lexicographic order on transaction coordinates.
pub open spec fn tx_lt(a: IndexedTx, b: IndexedTx) -> bool {
    ||| a.block_height < b.block_height
    ||| (a.block_height == b.block_height && a.block_index < b.block_index)
    ||| (a.block_height == b.block_height && a.block_index == b.block_index && a.masp_tx_index
        < b.masp_tx_index)
}

/// One shielded transaction: its raw byte encoding and the ordered leaf
/// commitments of its output descriptions.
pub struct ShieldedTx {
    pub bytes: Vec<u8>,
    pub outputs: Vec<u64>,
}

impl ShieldedTx {
    /// A value-identical copy.
    pub fn duplicate(&self) -> (r: Self)
        ensures
            r.bytes@ == self.bytes@,
            r.outputs@ == self.outputs@,
    {
        ShieldedTx { bytes: copy_u8s(&self.bytes), outputs: copy_u64s_vec(&self.outputs) }
    }
}

/// One transaction of a block, reduced to its shielded components in
/// intra-transaction order.
pub struct Transaction {
    pub masp_txs: Vec<ShieldedTx>,
}

/// The shielded content of one block: its height and the ordered list of
/// (transaction index, transaction) pairs that carry shielded components.
pub struct BlockData {
    pub height: u64,
    pub transactions: Vec<(u32, Transaction)>,
}

/// Block transaction indexes appear in strictly ascending block order.
pub open spec fn block_wf(b: &BlockData) -> bool {
    forall|i: int, j: int|
        0 <= i < j < b.transactions@.len() ==> (#[trigger] b.transactions@[i]).0 < (
        #[trigger] b.transactions@[j]).0
}

/// The coordinates and views of the block's shielded transactions in
/// canonical order: block order, then intra-transaction order.
pub open spec fn flat_of(height: u64, ts: Seq<(u32, Transaction)>) -> Seq<(IndexedTx, (Seq<u8>, Seq<u64>))>
    decreases ts.len(),
{
    if ts.len() == 0 {
        Seq::empty()
    } else {
        flat_of(height, ts.drop_last()) + flat_of_tx(
            height,
            ts.last().0,
            ts.last().1.masp_txs@,
        )
    }
}

/// The flattening of one transaction's shielded components.
pub open spec fn flat_of_tx(height: u64, idx: u32, ms: Seq<ShieldedTx>) -> Seq<(IndexedTx, (Seq<u8>, Seq<u64>))> {
    Seq::new(
        ms.len(),
        |j: int|
            (
                IndexedTx { block_height: height, block_index: idx, masp_tx_index: j as u64 },
                (ms[j].bytes@, ms[j].outputs@),
            ),
    )
}

fn copy_u8s(src: &Vec<u8>) -> (r: Vec<u8>)
    ensures
        r@ == src@,
{
    let mut r: Vec<u8> = Vec::new();
    let mut i: usize = 0;
    while i < src.len()
        invariant
            i <= src.len(),
            r@ == src@.take(i as int),
        decreases src.len() - i,
    {
        r.push(src[i]);
        proof {
            assert(src@.take(i as int + 1) =~= src@.take(i as int).push(src@[i as int]));
        }
        i += 1;
    }
    proof {
        assert(src@.take(src@.len() as int) =~= src@);
    }
    r
}

fn copy_u64s_vec(src: &Vec<u64>) -> (r: Vec<u64>)
    ensures
        r@ == src@,
{
    let mut r: Vec<u64> = Vec::new();
    let mut i: usize = 0;
    while i < src.len()
        invariant
            i <= src.len(),
            r@ == src@.take(i as int),
        decreases src.len() - i,
    {
        r.push(src[i]);
        proof {
            assert(src@.take(i as int + 1) =~= src@.take(i as int).push(src@[i as int]));
        }
        i += 1;
    }
    proof {
        assert(src@.take(src@.len() as int) =~= src@);
    }
    r
}

/// The view of a flat pair list, for stating contracts over executable
/// `(IndexedTx, ShieldedTx)` vectors.
pub open spec fn flat_views(fs: Seq<(IndexedTx, ShieldedTx)>) -> Seq<(IndexedTx, (Seq<u8>, Seq<u64>))> {
    Seq::new(fs.len(), |i: int| (fs[i].0, (fs[i].1.bytes@, fs[i].1.outputs@)))
}

/// Flattens a block into its shielded transactions in canonical order.
pub fn flatten_block(block: &BlockData) -> (r: Vec<(IndexedTx, ShieldedTx)>)
    ensures
        flat_views(r@) == flat_of(block.height, block.transactions@),
        block_wf(block) ==> forall|i: int, j: int|
            0 <= i < j < r@.len() ==> tx_lt((#[trigger] r@[i]).0, (#[trigger] r@[j]).0),
{
    let mut r: Vec<(IndexedTx, ShieldedTx)> = Vec::new();
    let ts = &block.transactions;
    let mut i: usize = 0;
    proof {
        assert(flat_views(r@) =~= flat_of(block.height, ts@.take(0)));
    }
    while i < ts.len()
        invariant
            i <= ts.len(),
            ts@ == block.transactions@,
            flat_views(r@) == flat_of(block.height, ts@.take(i as int)),
            forall|k: int|
                0 <= k < r@.len() ==> (#[trigger] r@[k]).0.block_height == block.height,
            forall|k: int|
                0 <= k < r@.len() ==> exists|t: int|
                    0 <= t < i && (#[trigger] r@[k]).0.block_index == ts@[t].0,
            block_wf(block) ==> forall|k1: int, k2: int|
                0 <= k1 < k2 < r@.len() ==> tx_lt((#[trigger] r@[k1]).0, (#[trigger] r@[k2]).0),
        decreases ts.len() - i,
    {
        let idx = ts[i].0;
        let ms = &ts[i].1.masp_txs;
        let mut j: usize = 0;
        let ghost r_before = r@;
        while j < ms.len()
            invariant
                j <= ms.len(),
                idx == ts@[i as int].0,
                ms@ == ts@[i as int].1.masp_txs@,
                i < ts@.len(),
                ts@ == block.transactions@,
                r@.len() == r_before.len() + j,
                forall|k: int| 0 <= k < r_before.len() ==> (#[trigger] r@[k]) == r_before[k],
                forall|k: int|
                    0 <= k < r_before.len() ==> exists|t: int|
                        0 <= t < i && (#[trigger] r_before[k]).0.block_index == ts@[t].0,
                forall|k: int|
                    0 <= k < r@.len() ==> (#[trigger] r@[k]).0.block_height == block.height,
                forall|k: int|
                    0 <= k < j ==> {
                        let e = #[trigger] r@[r_before.len() + k];
                        e.0 == (IndexedTx {
                            block_height: block.height,
                            block_index: idx,
                            masp_tx_index: k as u64,
                        }) && e.1.bytes@ == ms@[k].bytes@ && e.1.outputs@ == ms@[k].outputs@
                    },
                block_wf(block) ==> forall|k1: int, k2: int|
                    0 <= k1 < k2 < r@.len() ==> tx_lt((#[trigger] r@[k1]).0, (#[trigger] r@[k2]).0),
            decreases ms.len() - j,
        {
            let itx = IndexedTx {
                block_height: block.height,
                block_index: idx,
                masp_tx_index: j as u64,
            };
            let stx = ms[j].duplicate();
            let ghost r_old = r@;
            r.push((itx, stx));
            proof {
                if block_wf(block) {
                    let last = r@.len() - 1;
                    assert forall|k1: int, k2: int| 0 <= k1 < k2 < r@.len() implies tx_lt(
                        (#[trigger] r@[k1]).0,
                        (#[trigger] r@[k2]).0,
                    ) by {
                        if k2 == last {
                            assert(r@[k2].0 == itx);
                            assert(r@[k1] == r_old[k1]);
                            if k1 < r_before.len() {
                                assert(r@[k1] == r_before[k1]);
                                let t = choose|t: int|
                                    0 <= t < i && r_before[k1].0.block_index == ts@[t].0;
                                assert(ts@[t].0 < ts@[i as int].0);
                            } else {
                                let kk = k1 - r_before.len();
                                assert(r_old[r_before.len() + kk].0.masp_tx_index == kk as u64);
                            }
                        } else {
                            assert(r@[k1] == r_old[k1]);
                            assert(r@[k2] == r_old[k2]);
                        }
                    }
                }
            }
            j += 1;
        }
        proof {
            assert(ts@.take(i as int + 1).drop_last() =~= ts@.take(i as int));
            assert(ts@.take(i as int + 1).last() == ts@[i as int]);
            let lhs = flat_views(r@);
            let rhs = flat_of(block.height, ts@.take(i as int)) + flat_of_tx(
                block.height,
                idx,
                ms@,
            );
            assert forall|k: int| 0 <= k < lhs.len() implies lhs[k] == rhs[k] by {
                if k < r_before.len() {
                    assert(r@[k] == r_before[k]);
                    assert(flat_views(r_before)[k] == (r_before[k].0, (
                        r_before[k].1.bytes@,
                        r_before[k].1.outputs@,
                    )));
                } else {
                    let kk = k - r_before.len();
                    assert(r@[r_before.len() + kk].0 == (IndexedTx {
                        block_height: block.height,
                        block_index: idx,
                        masp_tx_index: kk as u64,
                    }));
                }
            }
            assert(lhs =~= rhs);
            assert forall|k: int| 0 <= k < r@.len() implies exists|t: int|
                0 <= t < i + 1 && (#[trigger] r@[k]).0.block_index == ts@[t].0 by {
                if k < r_before.len() {
                    let t = choose|t: int| 0 <= t < i && r_before[k].0.block_index == ts@[t].0;
                    assert(0 <= t < i + 1 && r@[k].0.block_index == ts@[t].0);
                } else {
                    let kk = k - r_before.len();
                    assert(r@[r_before.len() + kk].0.block_index == ts@[i as int].0);
                    assert(0 <= i < i + 1 && r@[k].0.block_index == ts@[i as int].0);
                }
            }
        }
        i += 1;
    }
    proof {
        assert(ts@.take(ts@.len() as int) =~= ts@);
    }
    r
}

} // verus!
