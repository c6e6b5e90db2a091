use vstd::prelude::*;

use crate::dataset::OHLCItem;

verus! {

/// Items stacked along a new leading axis: `blocks` holds the items'
/// blocks one after the other, `nexts` their following blocks.
pub struct OHLCBatch<T> {
    pub n_items: usize,
    pub blocks: Vec<T>,
    pub nexts: Vec<T>,
}

/// Stacks window pairs into batches.
#[derive(Clone, Copy, Debug, Default)]
pub struct OHLCBatcher;

/// The blocks of `items`, in order.
pub open spec fn item_blocks<T>(items: Seq<OHLCItem<T>>) -> Seq<Seq<T>> {
    items.map_values(|it: OHLCItem<T>| it.block@)
}

/// The following blocks of `items`, in order.
pub open spec fn item_nexts<T>(items: Seq<OHLCItem<T>>) -> Seq<Seq<T>> {
    items.map_values(|it: OHLCItem<T>| it.next@)
}

/// All items have blocks of one shape and following blocks of one shape.
pub open spec fn same_shape<T>(items: Seq<OHLCItem<T>>) -> bool {
    forall|i: int|
        0 <= i < items.len() ==> {
            &&& (#[trigger] items[i]).block@.len() == items[0].block@.len()
            &&& items[i].next@.len() == items[0].next@.len()
        }
}

/// Flattening sequences that all have length `n` puts element `j` of
/// sequence `i` at position `i * n + j`.
pub proof fn lemma_flatten_uniform<T>(ss: Seq<Seq<T>>, n: int)
    requires
        n >= 0,
        forall|i: int| 0 <= i < ss.len() ==> (#[trigger] ss[i]).len() == n,
    ensures
        ss.flatten().len() == ss.len() * n,
        forall|i: int, j: int|
            0 <= i < ss.len() && 0 <= j < n ==> ss.flatten()[i * n + j] == #[trigger] ss[i][j],
    decreases ss.len(),
{
    if ss.len() == 0 {
        assert(ss.flatten() =~= Seq::<T>::empty());
    } else {
        let init = ss.drop_last();
        let last = ss.last();
        assert(ss =~= init.push(last));
        init.lemma_flatten_push(last);
        assert forall|i: int| 0 <= i < init.len() implies (#[trigger] init[i]).len() == n by {
            assert(init[i] == ss[i]);
        }
        lemma_flatten_uniform(init, n);
        let m = init.len();
        assert(ss.len() * n == m * n + n) by (nonlinear_arith)
            requires
                ss.len() == m + 1,
        ;
        assert forall|i: int, j: int| 0 <= i < ss.len() && 0 <= j < n implies ss.flatten()[i * n
            + j] == #[trigger] ss[i][j] by {
            if i < m {
                assert(i * n + j < m * n) by (nonlinear_arith)
                    requires
                        i < m,
                        j < n,
                        0 <= j,
                ;
                assert(0 <= i * n) by (nonlinear_arith)
                    requires
                        0 <= i,
                        0 <= n,
                ;
                assert(init[i] == ss[i]);
            } else {
                assert(i * n == m * n);
            }
        }
    }
}

/// Appends the values of `src` to `out`.
fn append_all<T: Copy>(out: &mut Vec<T>, src: &Vec<T>)
    ensures
        final(out)@ == old(out)@ + src@,
{
    let ghost start = out@;
    let mut i: usize = 0;
    while i < src.len()
        invariant
            i <= src@.len(),
            out@ == start + src@.take(i as int),
        decreases src@.len() - i,
    {
        out.push(src[i]);
        proof {
            assert(src@.take(i + 1) =~= src@.take(i as int).push(src@[i as int]));
        }
        i = i + 1;
    }
    assert(src@.take(src@.len() as int) =~= src@);
}

impl OHLCBatcher {
    /// Stacks `items`: the batch holds `items.len()` items, its blocks are the
    /// items' blocks one after the other, and likewise its following blocks.
    /// Stacking needs at least one item and items of one shape.
    pub fn batch<T: Copy>(&self, items: Vec<OHLCItem<T>>) -> (b: OHLCBatch<T>)
        requires
            items@.len() > 0,
            same_shape(items@),
        ensures
            b.n_items == items@.len(),
            b.blocks@ == item_blocks(items@).flatten(),
            b.nexts@ == item_nexts(items@).flatten(),
            b.blocks@.len() == items@.len() * items@[0].block@.len(),
            b.nexts@.len() == items@.len() * items@[0].next@.len(),
            forall|i: int, j: int|
                0 <= i < items@.len() && 0 <= j < items@[0].block@.len() ==> b.blocks@[i
                    * items@[0].block@.len() + j] == #[trigger] items@[i].block@[j],
            forall|i: int, j: int|
                0 <= i < items@.len() && 0 <= j < items@[0].next@.len() ==> b.nexts@[i
                    * items@[0].next@.len() + j] == #[trigger] items@[i].next@[j],
    {
        let mut blocks: Vec<T> = Vec::new();
        let mut nexts: Vec<T> = Vec::new();
        let mut i: usize = 0;
        assert(item_blocks(items@.take(0)) =~= Seq::<Seq<T>>::empty());
        assert(item_nexts(items@.take(0)) =~= Seq::<Seq<T>>::empty());
        while i < items.len()
            invariant
                i <= items@.len(),
                blocks@ == item_blocks(items@.take(i as int)).flatten(),
                nexts@ == item_nexts(items@.take(i as int)).flatten(),
            decreases items@.len() - i,
        {
            append_all(&mut blocks, &items[i].block);
            append_all(&mut nexts, &items[i].next);
            proof {
                let it = items@[i as int];
                assert(items@.take(i + 1) =~= items@.take(i as int).push(it));
                assert(item_blocks(items@.take(i + 1)) =~= item_blocks(items@.take(i as int)).push(
                    it.block@,
                ));
                assert(item_nexts(items@.take(i + 1)) =~= item_nexts(items@.take(i as int)).push(
                    it.next@,
                ));
                item_blocks(items@.take(i as int)).lemma_flatten_push(it.block@);
                item_nexts(items@.take(i as int)).lemma_flatten_push(it.next@);
            }
            i = i + 1;
        }
        assert(items@.take(items@.len() as int) =~= items@);
        proof {
            lemma_flatten_uniform(item_blocks(items@), items@[0].block@.len() as int);
            lemma_flatten_uniform(item_nexts(items@), items@[0].next@.len() as int);
            let lb = items@[0].block@.len() as int;
            let ln = items@[0].next@.len() as int;
            assert forall|i: int, j: int| 0 <= i < items@.len() && 0 <= j < lb implies blocks@[i
                * lb + j] == #[trigger] items@[i].block@[j] by {
                assert(item_blocks(items@)[i] == items@[i].block@);
            }
            assert forall|i: int, j: int| 0 <= i < items@.len() && 0 <= j < ln implies nexts@[i
                * ln + j] == #[trigger] items@[i].next@[j] by {
                assert(item_nexts(items@)[i] == items@[i].next@);
            }
        }
        OHLCBatch { n_items: items.len(), blocks, nexts }
    }
}

} // verus!
