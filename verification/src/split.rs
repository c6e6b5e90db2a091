use std::collections::HashSet;

use vstd::prelude::*;

use crate::draws::{chacha8_draws, DrawStream};
use vstd::std_specs::iter::IteratorSpec;

verus! {

/// The window indices of block `b`: counting back from `origin`, the block
/// covers `origin - block_size * b - 1` down to `origin - block_size * (b + 1)`.
pub open spec fn block_indices(b: usize, block_size: int, origin: int) -> Seq<usize> {
    Seq::new(block_size as nat, |j: int| (origin - block_size * b - j - 1) as usize)
}

/// The window indices of `blocks`, block after block, each block in descending order.
pub open spec fn unrolled(blocks: Seq<usize>, block_size: int, origin: int) -> Seq<usize> {
    blocks.map_values(|b: usize| block_indices(b, block_size, origin)).flatten()
}

/// The block that window index `idx` belongs to when blocks count back from `origin`.
pub open spec fn block_of(idx: int, block_size: int, origin: int) -> int {
    (origin - 1 - idx) / block_size
}

/// Block `b` is one of `blocks`.
pub open spec fn has_block(blocks: Seq<usize>, b: int) -> bool {
    exists|k: int| 0 <= k < blocks.len() && #[trigger] blocks[k] as int == b
}

/// Every block of `blocks` lies between index 0 and `origin`.
pub open spec fn blocks_fit(blocks: Seq<usize>, block_size: int, origin: int) -> bool {
    forall|k: int| 0 <= k < blocks.len() ==> block_size * (#[trigger] blocks[k] + 1) <= origin
}

/// An index lies in a block exactly when the block is the one `block_of` names.
pub proof fn lemma_block_indices_contains(b: usize, block_size: int, origin: int, idx: usize)
    requires
        block_size > 0,
        block_size * (b + 1) <= origin <= usize::MAX,
    ensures
        block_indices(b, block_size, origin).contains(idx) <==> (idx < origin && block_of(
            idx as int,
            block_size,
            origin,
        ) == b),
{
    let s = block_indices(b, block_size, origin);
    assert(block_size * (b + 1) == block_size * b + block_size) by (nonlinear_arith);
    assert(block_size * b >= 0) by (nonlinear_arith)
        requires
            block_size > 0,
    ;
    if s.contains(idx) {
        let j = choose|j: int| 0 <= j < s.len() && s[j] == idx;
        assert(origin - block_size * b - j - 1 >= 0);
        assert(idx == origin - block_size * b - j - 1);
        let x = origin - 1 - idx;
        assert(x == b * block_size + j) by (nonlinear_arith)
            requires
                x == origin - 1 - (origin - block_size * b - j - 1),
        ;
        vstd::arithmetic::div_mod::lemma_fundamental_div_mod_converse(x, block_size, b as int, j);
    }
    if idx < origin && block_of(idx as int, block_size, origin) == b {
        let x = origin - 1 - idx;
        vstd::arithmetic::div_mod::lemma_fundamental_div_mod(x, block_size);
        let j = x % block_size;
        assert(x == block_size * b + j);
        assert(s[j] == idx);
    }
}

/// Window index `idx` is unrolled from `blocks` exactly when it lies below
/// `origin` and its block is one of `blocks`.
pub proof fn lemma_unrolled_contains(blocks: Seq<usize>, block_size: int, origin: int, idx: usize)
    requires
        block_size > 0,
        origin <= usize::MAX,
        blocks_fit(blocks, block_size, origin),
    ensures
        unrolled(blocks, block_size, origin).contains(idx) <==> (idx < origin && has_block(
            blocks,
            block_of(idx as int, block_size, origin),
        )),
    decreases blocks.len(),
{
    if blocks.len() == 0 {
        assert(unrolled(blocks, block_size, origin) =~= Seq::<usize>::empty());
    } else {
        let init = blocks.drop_last();
        let b = blocks.last();
        let f = |c: usize| block_indices(c, block_size, origin);
        assert(blocks.map_values(f) =~= init.map_values(f).push(f(b)));
        init.map_values(f).lemma_flatten_push(f(b));
        assert(blocks_fit(init, block_size, origin)) by {
            assert forall|k: int| 0 <= k < init.len() implies block_size * (#[trigger] init[k] + 1)
                <= origin by {
                assert(init[k] == blocks[k]);
            }
        }
        lemma_unrolled_contains(init, block_size, origin, idx);
        assert(block_size * (blocks[blocks.len() - 1] + 1) <= origin);
        lemma_block_indices_contains(b, block_size, origin, idx);
        let u = unrolled(blocks, block_size, origin);
        assert(u =~= unrolled(init, block_size, origin) + f(b));
        let q = block_of(idx as int, block_size, origin);
        if idx < origin {
            assert(origin - 1 - idx >= 0);
            vstd::arithmetic::div_mod::lemma_div_pos_is_pos(origin - 1 - idx, block_size);
        }
        if u.contains(idx) {
            let i = choose|i: int| 0 <= i < u.len() && u[i] == idx;
            let n0 = unrolled(init, block_size, origin).len();
            if i < n0 {
                assert(unrolled(init, block_size, origin)[i] == idx);
                let k = choose|k: int| 0 <= k < init.len() && #[trigger] init[k] as int == q;
                assert(blocks[k] == init[k]);
            } else {
                assert(f(b)[i - n0] == idx);
                assert(blocks[blocks.len() - 1] as int == q);
            }
        }
        if idx < origin && has_block(blocks, q) {
            let k = choose|k: int| 0 <= k < blocks.len() && #[trigger] blocks[k] as int == q;
            if k < init.len() {
                assert(init[k] == blocks[k]);
                assert(unrolled(init, block_size, origin).contains(idx));
                let i = choose|i: int|
                    0 <= i < unrolled(init, block_size, origin).len() && unrolled(
                        init,
                        block_size,
                        origin,
                    )[i] == idx;
                assert(u[i] == idx);
            } else {
                let fb = f(b);
                assert(fb.contains(idx));
                let j = choose|j: int| 0 <= j < fb.len() && #[trigger] fb[j] == idx;
                let n0 = unrolled(init, block_size, origin).len();
                assert(u[n0 + j] == fb[j]);
            }
        }
    }
}

/// The window indices of `blocks`, block after block: block `b` yields
/// `origin - block_size * b - 1` down to `origin - block_size * (b + 1)`.
pub fn unroll(blocks: &Vec<usize>, block_size: usize, origin: usize) -> (out: Vec<usize>)
    requires
        blocks_fit(blocks@, block_size as int, origin as int),
    ensures
        out@ == unrolled(blocks@, block_size as int, origin as int),
{
    let ghost bs = block_size as int;
    let ghost org = origin as int;
    let ghost f = |c: usize| block_indices(c, bs, org);
    let mut out: Vec<usize> = Vec::new();
    let mut k: usize = 0;
    assert(blocks@.take(0).map_values(f) =~= Seq::<Seq<usize>>::empty());
    while k < blocks.len()
        invariant
            k <= blocks@.len(),
            blocks_fit(blocks@, bs, org),
            bs == block_size,
            org == origin,
            f == (|c: usize| block_indices(c, bs, org)),
            out@ == unrolled(blocks@.take(k as int), bs, org),
        decreases blocks@.len() - k,
    {
        let b = blocks[k];
        assert(block_size * (blocks@[k as int] + 1) <= origin);
        assert(block_size * (b + 1) == block_size * b + block_size) by (nonlinear_arith);
        let offset = block_size * b;
        let mut j: usize = 0;
        while j < block_size
            invariant
                j <= block_size,
                offset + block_size <= origin,
                offset == bs * b,
                bs == block_size,
                org == origin,
                out@ == unrolled(blocks@.take(k as int), bs, org) + block_indices(b, bs, org).take(
                    j as int,
                ),
            decreases block_size - j,
        {
            out.push(origin - offset - j - 1);
            proof {
                assert(block_indices(b, bs, org).take(j + 1) =~= block_indices(b, bs, org).take(
                    j as int,
                ).push((org - bs * b - j - 1) as usize));
            }
            j = j + 1;
        }
        proof {
            assert(block_indices(b, bs, org).take(bs) =~= block_indices(b, bs, org));
            assert(blocks@.take(k + 1) =~= blocks@.take(k as int).push(b));
            assert(blocks@.take(k + 1).map_values(f) =~= blocks@.take(k as int).map_values(f).push(
                f(b),
            ));
            blocks@.take(k as int).map_values(f).lemma_flatten_push(f(b));
        }
        k = k + 1;
    }
    assert(blocks@.take(blocks@.len() as int) =~= blocks@);
    out
}

/// Unrolling `n` blocks yields `n * block_size` indices.
pub proof fn lemma_unrolled_len(blocks: Seq<usize>, block_size: int, origin: int)
    requires
        block_size >= 0,
    ensures
        unrolled(blocks, block_size, origin).len() == blocks.len() * block_size,
    decreases blocks.len(),
{
    if blocks.len() == 0 {
        assert(unrolled(blocks, block_size, origin) =~= Seq::<usize>::empty());
    } else {
        let init = blocks.drop_last();
        let b = blocks.last();
        let f = |c: usize| block_indices(c, block_size, origin);
        assert(blocks.map_values(f) =~= init.map_values(f).push(f(b)));
        init.map_values(f).lemma_flatten_push(f(b));
        lemma_unrolled_len(init, block_size, origin);
        assert(blocks.len() * block_size == init.len() * block_size + block_size) by (
        nonlinear_arith)
            requires
                blocks.len() == init.len() + 1,
        ;
    }
}

/// Windows per block: four windows' worth of start positions plus one batch.
pub open spec fn chunk_size(window_size: int, batch_size: int) -> int {
    4 * window_size + batch_size
}

/// Number of whole blocks of `block_size` windows in `visible` windows.
pub open spec fn whole_blocks(visible: int, block_size: int) -> int {
    visible / block_size
}

/// The elements of `s` increase strictly.
pub open spec fn ascending(s: Seq<usize>) -> bool {
    forall|i: int, j: int| 0 <= i < j < s.len() ==> s[i] < s[j]
}

/// Every element of `blocks` is a block index below `total`.
pub open spec fn blocks_below(blocks: Seq<usize>, total: int) -> bool {
    forall|k: int| 0 <= k < blocks.len() ==> #[trigger] blocks[k] < total
}

/// `train` and `test` split the blocks `0 .. total`: each block is in exactly one of them.
pub open spec fn is_partition(train: Seq<usize>, test: Seq<usize>, total: int) -> bool {
    &&& blocks_below(train, total)
    &&& blocks_below(test, total)
    &&& forall|b: int| 0 <= b < total ==> (has_block(train, b) <==> !has_block(test, b))
}

/// Blocks below `total` fit below `origin` when `total` blocks do.
pub proof fn lemma_blocks_below_fit(blocks: Seq<usize>, block_size: int, total: int, origin: int)
    requires
        block_size > 0,
        block_size * total <= origin,
        blocks_below(blocks, total),
    ensures
        blocks_fit(blocks, block_size, origin),
{
    assert forall|k: int| 0 <= k < blocks.len() implies block_size * (#[trigger] blocks[k] + 1)
        <= origin by {
        let b = blocks[k] as int;
        assert(block_size * (b + 1) <= block_size * total) by (nonlinear_arith)
            requires
                b + 1 <= total,
                block_size > 0,
        ;
    }
}

/// Draws `number_test_blocks` block indices below `total_blocks` from a
/// `ChaCha8Rng` seeded with `seed` and keeps the set of drawn indices.
fn draw_test_blocks(seed: u64, number_test_blocks: usize, total_blocks: usize) -> (test:
    HashSet<usize>)
    requires
        number_test_blocks > 0 ==> total_blocks > 0,
    ensures
        test@ == chacha8_draws(seed, total_blocks, number_test_blocks as nat).to_set(),
        forall|b: usize| #[trigger] test@.contains(b) ==> b < total_blocks,
{
    broadcast use vstd::std_specs::hash::group_hash_axioms;

    let mut stream = DrawStream::new(seed, total_blocks);
    let mut test: HashSet<usize> = HashSet::new();
    let mut i: usize = 0;
    while i < number_test_blocks
        invariant
            i <= number_test_blocks,
            number_test_blocks > 0 ==> total_blocks > 0,
            stream.seed() == seed,
            stream.bound() == total_blocks,
            stream.drawn() == i,
            test@ == chacha8_draws(seed, total_blocks, i as nat).to_set(),
            forall|b: usize| #[trigger] test@.contains(b) ==> b < total_blocks,
        decreases number_test_blocks - i,
    {
        let b = stream.draw();
        test.insert(b);
        proof {
            let prev = chacha8_draws(seed, total_blocks, i as nat);
            let next = chacha8_draws(seed, total_blocks, (i + 1) as nat);
            assert(next =~= prev.push(b));
            assert(next.to_set() =~= prev.to_set().insert(b)) by {
                assert forall|x: usize| next.to_set().contains(x) <==> prev.to_set().insert(b).contains(x) by {
                    if next.contains(x) {
                        let k = choose|k: int| 0 <= k < next.len() && next[k] == x;
                        if k < prev.len() {
                            assert(prev[k] == x);
                        }
                    }
                    if prev.contains(x) {
                        let k = choose|k: int| 0 <= k < prev.len() && prev[k] == x;
                        assert(next[k] == x);
                    }
                    if x == b {
                        assert(next[prev.len() as int] == b);
                    }
                }
            }
        }
        i = i + 1;
    }
    test
}

/// The chunking of the windows of a dataset into blocks of consecutive
/// windows, and the blocks set aside for testing and for training.
pub struct BlockSplit {
    /// Number of windows of the dataset; block indices count back from it.
    pub origin: usize,
    /// Windows per block.
    pub block_size: usize,
    /// Number of blocks in the visible part of the dataset.
    pub total_blocks: usize,
    /// Training blocks, ascending.
    pub train_blocks: Vec<usize>,
    /// Test blocks, each once.
    pub test_blocks: Vec<usize>,
}

impl BlockSplit {
    /// The blocks fit in the dataset, and train and test split them.
    pub open spec fn wf(&self) -> bool {
        &&& self.block_size > 0
        &&& self.block_size * self.total_blocks <= self.origin
        &&& is_partition(self.train_blocks@, self.test_blocks@, self.total_blocks as int)
        &&& ascending(self.train_blocks@)
        &&& self.test_blocks@.no_duplicates()
    }

    /// The split whose test blocks are the set `test`: the test list holds
    /// each of them once, in the set's order of iteration, and every other
    /// block below `total_blocks` is a training block, in ascending order.
    pub fn from_test_set(
        origin: usize,
        block_size: usize,
        total_blocks: usize,
        test: &HashSet<usize>,
    ) -> (split: BlockSplit)
        requires
            block_size > 0,
            block_size * total_blocks <= origin,
            forall|b: usize| #[trigger] test@.contains(b) ==> b < total_blocks,
        ensures
            split.wf(),
            split.origin == origin,
            split.block_size == block_size,
            split.total_blocks == total_blocks,
            split.test_blocks@.to_set() == test@,
    {
        broadcast use vstd::std_specs::hash::group_hash_axioms;

        let mut train: Vec<usize> = Vec::new();
        let mut b: usize = 0;
        while b < total_blocks
            invariant
                b <= total_blocks,
                ascending(train@),
                blocks_below(train@, b as int),
                forall|k: int| 0 <= k < train@.len() ==> !test@.contains(#[trigger] train@[k]),
                forall|c: int| 0 <= c < b ==> (has_block(train@, c) <==> !test@.contains(c as usize)),
            decreases total_blocks - b,
        {
            if !test.contains(&b) {
                let ghost old_train = train@;
                train.push(b);
                proof {
                    assert forall|c: int| 0 <= c < b + 1 implies (has_block(train@, c) <==> !test@.contains(c as usize)) by {
                        if has_block(old_train, c) {
                            let k = choose|k: int| 0 <= k < old_train.len() && #[trigger] old_train[k] as int == c;
                            assert(train@[k] == old_train[k]);
                        }
                        if c == b {
                            assert(train@[train@.len() - 1] as int == c);
                        } else if has_block(train@, c) {
                            let k = choose|k: int| 0 <= k < train@.len() && #[trigger] train@[k] as int == c;
                            assert(k < old_train.len());
                            assert(old_train[k] == train@[k]);
                        }
                    }
                }
            } else {
                proof {
                    if has_block(train@, b as int) {
                        let k = choose|k: int| 0 <= k < train@.len() && #[trigger] train@[k] as int == b as int;
                        assert(train@[k] < b);
                    }
                }
            }
            b = b + 1;
        }
        let ghost keys = vstd::std_specs::hash::spec_hash_keys_iter(test).remaining().unref();
        let mut test_blocks: Vec<usize> = Vec::new();
        for t in it: test.iter()
            invariant
                keys == vstd::std_specs::hash::spec_hash_keys_iter(test).remaining().unref(),
                it.seq().unref() == keys,
                test_blocks@ == keys.take(it.index()),
        {
            test_blocks.push(*t);
            proof {
                assert(keys.take(it.index() + 1) =~= keys.take(it.index()).push(*t));
            }
        }
        proof {
            assert(test_blocks@ =~= keys);
            let rem = vstd::std_specs::hash::spec_hash_keys_iter(test).remaining();
            assert(keys.to_set() == test@);
            assert(rem.no_duplicates());
            assert(keys.no_duplicates()) by {
                assert forall|i: int, j: int| 0 <= i < keys.len() && 0 <= j < keys.len() && i != j
                    implies keys[i] != keys[j] by {
                    assert(keys[i] == *rem[i]);
                    assert(keys[j] == *rem[j]);
                }
            }
            assert forall|k: int| 0 <= k < test_blocks@.len() implies #[trigger] test_blocks@[k] < total_blocks by {
                assert(keys.to_set().contains(keys[k]));
            }
            assert forall|c: int| 0 <= c < total_blocks implies (has_block(train@, c) <==> !has_block(test_blocks@, c)) by {
                if has_block(test_blocks@, c) {
                    let k = choose|k: int| 0 <= k < test_blocks@.len() && #[trigger] test_blocks@[k] as int == c;
                    assert(keys.to_set().contains(keys[k]));
                }
                if test@.contains(c as usize) {
                    assert(keys.to_set().contains(c as usize));
                    let k = choose|k: int| 0 <= k < keys.len() && keys[k] == c as usize;
                    assert(test_blocks@[k] as int == c);
                }
            }
        }
        BlockSplit { origin, block_size, total_blocks, train_blocks: train, test_blocks }
    }

    /// The split of a dataset of `origin` windows, of which the last
    /// `visible_portion` are visible: blocks hold `4 * window_size + batch_size`
    /// windows, and the test blocks are the block indices that the first
    /// `number_test_blocks` draws below the number of whole visible blocks,
    /// from a `ChaCha8Rng` seeded with `seed`, give.
    pub fn plan(
        origin: usize,
        visible_portion: usize,
        window_size: usize,
        batch_size: usize,
        number_test_blocks: usize,
        seed: u64,
    ) -> (split: BlockSplit)
        requires
            0 < chunk_size(window_size as int, batch_size as int) <= usize::MAX,
            whole_blocks(visible_portion as int, chunk_size(window_size as int, batch_size as int))
                * chunk_size(window_size as int, batch_size as int) <= origin,
            number_test_blocks > 0 ==> whole_blocks(
                visible_portion as int,
                chunk_size(window_size as int, batch_size as int),
            ) > 0,
        ensures
            split.wf(),
            split.origin == origin,
            split.block_size == chunk_size(window_size as int, batch_size as int),
            split.total_blocks == whole_blocks(visible_portion as int, split.block_size as int),
            split.test_blocks@.to_set() == chacha8_draws(
                seed,
                split.total_blocks,
                number_test_blocks as nat,
            ).to_set(),
    {
        let block_size = 4 * window_size + batch_size;
        let total_visible_blocks = visible_portion / block_size;
        assert(block_size * total_visible_blocks == total_visible_blocks * block_size) by (
        nonlinear_arith);
        let test = draw_test_blocks(seed, number_test_blocks, total_visible_blocks);
        BlockSplit::from_test_set(origin, block_size, total_visible_blocks, &test)
    }

    /// Window indices of the training blocks, in the order of the blocks.
    pub fn train_indices(&self) -> (out: Vec<usize>)
        requires
            self.wf(),
        ensures
            out@ == unrolled(self.train_blocks@, self.block_size as int, self.origin as int),
            out@.len() == self.train_blocks@.len() * self.block_size,
    {
        proof {
            lemma_blocks_below_fit(
                self.train_blocks@,
                self.block_size as int,
                self.total_blocks as int,
                self.origin as int,
            );
            lemma_unrolled_len(self.train_blocks@, self.block_size as int, self.origin as int);
        }
        unroll(&self.train_blocks, self.block_size, self.origin)
    }

    /// Window indices of the test blocks, in the order of the blocks.
    pub fn test_indices(&self) -> (out: Vec<usize>)
        requires
            self.wf(),
        ensures
            out@ == unrolled(self.test_blocks@, self.block_size as int, self.origin as int),
            out@.len() == self.test_blocks@.len() * self.block_size,
    {
        proof {
            lemma_blocks_below_fit(
                self.test_blocks@,
                self.block_size as int,
                self.total_blocks as int,
                self.origin as int,
            );
            lemma_unrolled_len(self.test_blocks@, self.block_size as int, self.origin as int);
        }
        unroll(&self.test_blocks, self.block_size, self.origin)
    }
}

/// Every window of the visible part of the dataset (the last
/// `block_size * total_blocks` window indices) lies in exactly one of the
/// training and test index lists, and no other window lies in either.
pub proof fn lemma_split_covers_visible_windows(split: &BlockSplit, idx: usize)
    requires
        split.wf(),
    ensures
        !(unrolled(split.train_blocks@, split.block_size as int, split.origin as int).contains(idx)
            && unrolled(split.test_blocks@, split.block_size as int, split.origin as int).contains(
            idx,
        )),
        unrolled(split.train_blocks@, split.block_size as int, split.origin as int).contains(idx)
            || unrolled(split.test_blocks@, split.block_size as int, split.origin as int).contains(
            idx,
        ) <==> split.origin - split.block_size * split.total_blocks <= idx < split.origin,
{
    let bs = split.block_size as int;
    let origin = split.origin as int;
    let total = split.total_blocks as int;
    lemma_blocks_below_fit(split.train_blocks@, bs, total, origin);
    lemma_blocks_below_fit(split.test_blocks@, bs, total, origin);
    lemma_unrolled_contains(split.train_blocks@, bs, origin, idx);
    lemma_unrolled_contains(split.test_blocks@, bs, origin, idx);
    let q = block_of(idx as int, bs, origin);
    if idx < origin {
        let x = origin - 1 - idx;
        vstd::arithmetic::div_mod::lemma_fundamental_div_mod(x, bs);
        vstd::arithmetic::div_mod::lemma_div_pos_is_pos(x, bs);
        let r = x % bs;
        assert(x == bs * q + r);
        assert(0 <= r < bs);
        if q < total {
            assert(bs * q + bs <= bs * total) by (nonlinear_arith)
                requires
                    q + 1 <= total,
                    bs > 0,
            ;
        } else {
            assert(bs * q >= bs * total) by (nonlinear_arith)
                requires
                    q >= total,
                    bs > 0,
            ;
        }
        if has_block(split.train_blocks@, q) {
            let k = choose|k: int|
                0 <= k < split.train_blocks@.len() && #[trigger] split.train_blocks@[k] as int == q;
            assert(split.train_blocks@[k] < total);
        }
        if has_block(split.test_blocks@, q) {
            let k = choose|k: int|
                0 <= k < split.test_blocks@.len() && #[trigger] split.test_blocks@[k] as int == q;
            assert(split.test_blocks@[k] < total);
        }
    }
}

/// Removing the element at `k` from a sequence without duplicates keeps
/// every other block and drops that one.
proof fn lemma_remove_block(s: Seq<usize>, k: int)
    requires
        s.no_duplicates(),
        0 <= k < s.len(),
    ensures
        s.remove(k).no_duplicates(),
        s.remove(k).len() == s.len() - 1,
        !has_block(s.remove(k), s[k] as int),
        forall|c: int| c != s[k] ==> (has_block(s.remove(k), c) <==> has_block(s, c)),
        forall|i: int|
            0 <= i < s.remove(k).len() ==> has_block(s, #[trigger] s.remove(k)[i] as int)
                && s.remove(k)[i] != s[k],
{
    let r = s.remove(k);
    assert forall|i: int| 0 <= i < r.len() implies has_block(s, #[trigger] r[i] as int) && r[i]
        != s[k] by {
        if i < k {
            assert(s[i] == r[i]);
        } else {
            assert(s[i + 1] == r[i]);
        }
    }
    assert forall|i: int, j: int| 0 <= i < r.len() && 0 <= j < r.len() && i != j implies r[i]
        != r[j] by {
        let ii = if i < k { i } else { i + 1 };
        let jj = if j < k { j } else { j + 1 };
        assert(r[i] == s[ii]);
        assert(r[j] == s[jj]);
    }
    if has_block(r, s[k] as int) {
        let i = choose|i: int| 0 <= i < r.len() && #[trigger] r[i] as int == s[k] as int;
        let ii = if i < k { i } else { i + 1 };
        assert(r[i] == s[ii]);
    }
    assert forall|c: int| c != s[k] implies (has_block(r, c) <==> has_block(s, c)) by {
        if has_block(s, c) {
            let j = choose|j: int| 0 <= j < s.len() && #[trigger] s[j] as int == c;
            if j < k {
                assert(r[j] == s[j]);
            } else {
                assert(j != k);
                assert(r[j - 1] == s[j]);
            }
        }
        if has_block(r, c) {
            let i = choose|i: int| 0 <= i < r.len() && #[trigger] r[i] as int == c;
            let ii = if i < k { i } else { i + 1 };
            assert(r[i] == s[ii]);
        }
    }
}

/// When `train` and `test` split the blocks `0 .. total` without repeating
/// a block, together they hold exactly `total` blocks.
pub proof fn lemma_partition_len(train: Seq<usize>, test: Seq<usize>, total: int)
    requires
        total >= 0,
        is_partition(train, test, total),
        train.no_duplicates(),
        test.no_duplicates(),
    ensures
        train.len() + test.len() == total,
    decreases total,
{
    if total == 0 {
        if train.len() > 0 {
            assert(train[0] < total);
        }
        if test.len() > 0 {
            assert(test[0] < total);
        }
    } else {
        let b = total - 1;
        if has_block(train, b) {
            let k = choose|k: int| 0 <= k < train.len() && #[trigger] train[k] as int == b;
            lemma_remove_block(train, k);
            let t2 = train.remove(k);
            assert forall|i: int| 0 <= i < t2.len() implies #[trigger] t2[i] < b by {
                assert(has_block(train, t2[i] as int));
                let j = choose|j: int| 0 <= j < train.len() && #[trigger] train[j] as int == t2[i] as int;
                assert(train[j] < total);
            }
            assert forall|i: int| 0 <= i < test.len() implies #[trigger] test[i] < b by {
                assert(test[i] < total);
                if test[i] == b {
                    assert(has_block(test, b));
                }
            }
            lemma_partition_len(t2, test, b);
        } else {
            assert(has_block(test, b));
            let k = choose|k: int| 0 <= k < test.len() && #[trigger] test[k] as int == b;
            lemma_remove_block(test, k);
            let t2 = test.remove(k);
            assert forall|i: int| 0 <= i < t2.len() implies #[trigger] t2[i] < b by {
                assert(has_block(test, t2[i] as int));
                let j = choose|j: int| 0 <= j < test.len() && #[trigger] test[j] as int == t2[i] as int;
                assert(test[j] < total);
            }
            assert forall|i: int| 0 <= i < train.len() implies #[trigger] train[i] < b by {
                assert(train[i] < total);
                if train[i] == b {
                    assert(has_block(train, b));
                }
            }
            lemma_partition_len(train, t2, b);
        }
    }
}

/// Training and test blocks together hold every visible block once, so
/// their window lists together hold `block_size * total_blocks` indices.
pub proof fn lemma_split_sizes(split: &BlockSplit)
    requires
        split.wf(),
    ensures
        split.train_blocks@.len() + split.test_blocks@.len() == split.total_blocks,
        unrolled(split.train_blocks@, split.block_size as int, split.origin as int).len()
            + unrolled(split.test_blocks@, split.block_size as int, split.origin as int).len()
            == split.block_size * split.total_blocks,
{
    let bs = split.block_size as int;
    let train = split.train_blocks@;
    let test = split.test_blocks@;
    assert(train.no_duplicates()) by {
        assert forall|i: int, j: int| 0 <= i < train.len() && 0 <= j < train.len() && i != j
            implies train[i] != train[j] by {
            if i < j {
                assert(train[i] < train[j]);
            } else {
                assert(train[j] < train[i]);
            }
        }
    }
    lemma_partition_len(train, test, split.total_blocks as int);
    lemma_unrolled_len(train, bs, split.origin as int);
    lemma_unrolled_len(test, bs, split.origin as int);
    assert(train.len() * bs + test.len() * bs == bs * split.total_blocks) by (nonlinear_arith)
        requires
            train.len() + test.len() == split.total_blocks,
    ;
}

/// A split is fixed by its sizes and its set of test blocks: two splits with
/// the same origin, block size, block count and test blocks (in any order)
/// put the same windows in training and the same windows in test. With the
/// contract of `BlockSplit::plan`, equal arguments (the same seed among them)
/// give the same training and test windows.
pub proof fn lemma_split_fixed_by_test_set(a: &BlockSplit, b: &BlockSplit, idx: usize)
    requires
        a.wf(),
        b.wf(),
        a.origin == b.origin,
        a.block_size == b.block_size,
        a.total_blocks == b.total_blocks,
        a.test_blocks@.to_set() == b.test_blocks@.to_set(),
    ensures
        unrolled(a.train_blocks@, a.block_size as int, a.origin as int).contains(idx) <==> unrolled(
            b.train_blocks@,
            b.block_size as int,
            b.origin as int,
        ).contains(idx),
        unrolled(a.test_blocks@, a.block_size as int, a.origin as int).contains(idx) <==> unrolled(
            b.test_blocks@,
            b.block_size as int,
            b.origin as int,
        ).contains(idx),
{
    let bs = a.block_size as int;
    let origin = a.origin as int;
    let total = a.total_blocks as int;
    lemma_blocks_below_fit(a.train_blocks@, bs, total, origin);
    lemma_blocks_below_fit(a.test_blocks@, bs, total, origin);
    lemma_blocks_below_fit(b.train_blocks@, bs, total, origin);
    lemma_blocks_below_fit(b.test_blocks@, bs, total, origin);
    lemma_unrolled_contains(a.train_blocks@, bs, origin, idx);
    lemma_unrolled_contains(a.test_blocks@, bs, origin, idx);
    lemma_unrolled_contains(b.train_blocks@, bs, origin, idx);
    lemma_unrolled_contains(b.test_blocks@, bs, origin, idx);
    let q = block_of(idx as int, bs, origin);
    assert(has_block(a.test_blocks@, q) <==> has_block(b.test_blocks@, q)) by {
        if has_block(a.test_blocks@, q) {
            let k = choose|k: int| 0 <= k < a.test_blocks@.len() && #[trigger] a.test_blocks@[k] as int == q;
            assert(a.test_blocks@.to_set().contains(a.test_blocks@[k]));
            assert(b.test_blocks@.to_set().contains(a.test_blocks@[k]));
            let j = choose|j: int| 0 <= j < b.test_blocks@.len() && b.test_blocks@[j] == a.test_blocks@[k];
            assert(b.test_blocks@[j] as int == q);
        }
        if has_block(b.test_blocks@, q) {
            let k = choose|k: int| 0 <= k < b.test_blocks@.len() && #[trigger] b.test_blocks@[k] as int == q;
            assert(b.test_blocks@.to_set().contains(b.test_blocks@[k]));
            assert(a.test_blocks@.to_set().contains(b.test_blocks@[k]));
            let j = choose|j: int| 0 <= j < a.test_blocks@.len() && a.test_blocks@[j] == b.test_blocks@[k];
            assert(a.test_blocks@[j] as int == q);
        }
    }
    if has_block(a.train_blocks@, q) {
        let k = choose|k: int| 0 <= k < a.train_blocks@.len() && #[trigger] a.train_blocks@[k] as int == q;
        assert(a.train_blocks@[k] < total);
    }
    if has_block(b.train_blocks@, q) {
        let k = choose|k: int| 0 <= k < b.train_blocks@.len() && #[trigger] b.train_blocks@[k] as int == q;
        assert(b.train_blocks@[k] < total);
    }
}

} // verus!
