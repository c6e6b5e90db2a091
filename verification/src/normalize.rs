use vstd::prelude::*;

use crate::dataset::{n_rows, whole_rows, OHLCItem, N_FEATURES};

verus! {

/// Column of the timestamp in a row.
pub const TIME_COLUMN: usize = 0;

/// Column of the first price (low) in a row; the prices low, open, close
/// and high fill this column and the next three.
pub const FIRST_PRICE_COLUMN: usize = 1;

/// Number of price columns in a row.
pub const N_PRICES: usize = 4;

/// Column of the traded volume in a row.
pub const VOLUME_COLUMN: usize = 5;

/// Scales a window pair around unity with references taken from its first
/// window: times relative to the first window's span, prices relative to its
/// largest price, volumes relative to its largest volume.
#[derive(Clone, Copy, Debug, Default)]
pub struct NormalizeOHLCItem;

/// The values a window pair is scaled by, all taken from its first window.
pub struct Reference<T> {
    /// Timestamp of the first row.
    pub first_time: T,
    /// Last timestamp minus first timestamp.
    pub time_range: T,
    /// Largest price (of lows, opens, closes and highs) of the window.
    pub max_price: T,
    /// Largest volume of the window.
    pub max_volume: T,
}

/// The volume column of a flat row-major table.
pub open spec fn volumes<T>(x: Seq<T>) -> Seq<T> {
    Seq::new(n_rows(x) as nat, |r: int| x[N_FEATURES * r + VOLUME_COLUMN])
}

/// The price columns of a flat row-major table, row after row: value `k`
/// is price column `k % 4` of row `k / 4`.
pub open spec fn prices<T>(x: Seq<T>) -> Seq<T> {
    Seq::new(
        (N_PRICES * n_rows(x)) as nat,
        |k: int| x[N_FEATURES * (k / N_PRICES as int) + FIRST_PRICE_COLUMN + k % (N_PRICES as int)],
    )
}

/// `acc` holds the running results of folding `max` over `s` from the
/// left: `acc[0] == s[0]` and `acc[i]` is `max(acc[i - 1], s[i])`.
pub open spec fn max_chain<T, M: Fn(T, T) -> T>(max: M, s: Seq<T>, acc: Seq<T>) -> bool {
    &&& acc.len() == s.len()
    &&& s.len() > 0 ==> acc[0] == s[0]
    &&& forall|i: int| 1 <= i < s.len() ==> call_ensures(max, (acc[i - 1], s[i]), #[trigger] acc[i])
}

/// `m` is what folding `max` over the non-empty `s` from the left gives.
pub open spec fn folds_max<T, M: Fn(T, T) -> T>(max: M, s: Seq<T>, m: T) -> bool {
    exists|acc: Seq<T>| #[trigger] max_chain(max, s, acc) && s.len() > 0 && acc.last() == m
}

/// `r` is the reference of a window `block` with at least one row.
pub open spec fn is_reference<T, S: Fn(T, T) -> T, M: Fn(T, T) -> T>(
    minus: S,
    max: M,
    block: Seq<T>,
    r: Reference<T>,
) -> bool {
    let last = block.len() - N_FEATURES;
    &&& r.first_time == block[TIME_COLUMN as int]
    &&& call_ensures(minus, (block[last + TIME_COLUMN], block[TIME_COLUMN as int]), r.time_range)
    &&& folds_max(max, prices(block), r.max_price)
    &&& folds_max(max, volumes(block), r.max_volume)
}

/// `y` is value `x` of column `col` scaled by `r`.
pub open spec fn scaled<T, S: Fn(T, T) -> T, D: Fn(T, T) -> T>(
    minus: S,
    div: D,
    r: Reference<T>,
    col: int,
    x: T,
    y: T,
) -> bool {
    if col == TIME_COLUMN {
        exists|d: T| call_ensures(minus, (x, r.first_time), d) && call_ensures(div, (d, r.time_range), y)
    } else if col == VOLUME_COLUMN {
        call_ensures(div, (x, r.max_volume), y)
    } else {
        call_ensures(div, (x, r.max_price), y)
    }
}

/// `y` is the table `x` with every value scaled by `r` according to its column.
pub open spec fn scaled_rows<T, S: Fn(T, T) -> T, D: Fn(T, T) -> T>(
    minus: S,
    div: D,
    r: Reference<T>,
    x: Seq<T>,
    y: Seq<T>,
) -> bool {
    &&& y.len() == x.len()
    &&& forall|i: int|
        0 <= i < x.len() ==> scaled(minus, div, r, i % (N_FEATURES as int), x[i], #[trigger] y[i])
}

/// The arithmetic needs no precondition: it is total.
pub open spec fn total_op<T, F: Fn(T, T) -> T>(f: F) -> bool {
    forall|a: T, b: T| call_requires(f, (a, b))
}

impl NormalizeOHLCItem {
    /// The reference values of a window: its first timestamp, the span
    /// `minus(last timestamp, first timestamp)`, and the folds of `max` over
    /// its prices and over its volumes.
    pub fn reference<T: Copy, S: Fn(T, T) -> T, M: Fn(T, T) -> T>(
        &self,
        block: &Vec<T>,
        minus: &S,
        max: &M,
    ) -> (r: Reference<T>)
        requires
            whole_rows(block@),
            n_rows(block@) >= 1,
            total_op(*minus),
            total_op(*max),
        ensures
            is_reference(*minus, *max, block@, r),
    {
        let len = block.len();
        proof {
            crate::dataset::lemma_whole_rows_len(block@);
        }
        let last = len - N_FEATURES;
        let first_time = block[TIME_COLUMN];
        let time_range = minus(block[last + TIME_COLUMN], first_time);
        let n = len / N_FEATURES;
        let max_price = self.fold_max_prices(block, max);
        let ghost vols = volumes(block@);
        let mut max_volume = block[VOLUME_COLUMN];
        let ghost mut acc: Seq<T> = seq![max_volume];
        let mut row: usize = 1;
        while row < n
            invariant
                1 <= row <= n,
                len == block@.len(),
                n == n_rows(block@),
                block@.len() == N_FEATURES * n,
                vols == volumes(block@),
                total_op(*max),
                max_chain(*max, vols.take(row as int), acc),
                acc.last() == max_volume,
            decreases n - row,
        {
            assert(N_FEATURES * row + VOLUME_COLUMN < N_FEATURES * n) by (nonlinear_arith)
                requires
                    row < n,
            ;
            let v = block[N_FEATURES * row + VOLUME_COLUMN];
            let ghost prev = acc;
            max_volume = max(max_volume, v);
            proof {
                acc = prev.push(max_volume);
                let t = vols.take(row + 1);
                assert(vols.len() == n);
                assert(t.len() == row + 1);
                assert forall|i: int| 1 <= i < t.len() implies call_ensures(*max, (acc[i - 1], t[i]), #[trigger] acc[i]) by {
                    if i < row {
                        assert(acc[i] == prev[i]);
                        assert(acc[i - 1] == prev[i - 1]);
                        assert(t[i] == vols.take(row as int)[i]);
                    } else {
                        assert(acc[i - 1] == prev.last());
                        assert(t[i] == v);
                    }
                }
                assert(acc[0] == prev[0]);
                assert(t[0] == vols.take(row as int)[0]);
            }
            row = row + 1;
        }
        proof {
            assert(vols.take(n as int) =~= vols);
            assert(max_chain(*max, vols, acc));
        }
        Reference { first_time, time_range, max_price, max_volume }
    }

    /// The fold of `max` over the prices of `block`, row after row.
    fn fold_max_prices<T: Copy, M: Fn(T, T) -> T>(&self, block: &Vec<T>, max: &M) -> (m: T)
        requires
            whole_rows(block@),
            n_rows(block@) >= 1,
            total_op(*max),
        ensures
            folds_max(*max, prices(block@), m),
    {
        let len = block.len();
        proof {
            crate::dataset::lemma_whole_rows_len(block@);
        }
        let n = len / N_FEATURES;
        let count = N_PRICES * n;
        let ghost ps = prices(block@);
        assert(ps[0] == block@[FIRST_PRICE_COLUMN as int]);
        let mut m = block[FIRST_PRICE_COLUMN];
        let ghost mut acc: Seq<T> = seq![m];
        let mut k: usize = 1;
        assert(ps.take(1) =~= seq![ps[0]]);
        while k < count
            invariant
                1 <= k <= count,
                count == N_PRICES * n,
                len == block@.len(),
                n == n_rows(block@),
                block@.len() == N_FEATURES * n,
                ps == prices(block@),
                total_op(*max),
                max_chain(*max, ps.take(k as int), acc),
                acc.last() == m,
            decreases count - k,
        {
            let row = k / N_PRICES;
            let col = FIRST_PRICE_COLUMN + k % N_PRICES;
            assert(row < n && k % N_PRICES < N_PRICES) by {
                vstd::arithmetic::div_mod::lemma_fundamental_div_mod(k as int, N_PRICES as int);
            }
            assert(N_FEATURES * row + col < N_FEATURES * n) by (nonlinear_arith)
                requires
                    row < n,
                    col < N_FEATURES,
            ;
            let v = block[N_FEATURES * row + col];
            let ghost prev = acc;
            m = max(m, v);
            proof {
                acc = prev.push(m);
                let t = ps.take(k + 1);
                assert(ps.len() == count);
                assert(t.len() == k + 1);
                assert(t[k as int] == v);
                assert forall|i: int| 1 <= i < t.len() implies call_ensures(*max, (acc[i - 1], t[i]), #[trigger] acc[i]) by {
                    if i < k {
                        assert(acc[i] == prev[i]);
                        assert(acc[i - 1] == prev[i - 1]);
                        assert(t[i] == ps.take(k as int)[i]);
                    } else {
                        assert(acc[i - 1] == prev.last());
                    }
                }
                assert(acc[0] == prev[0]);
                assert(t[0] == ps.take(k as int)[0]);
            }
            k = k + 1;
        }
        proof {
            assert(ps.take(count as int) =~= ps);
        }
        m
    }

    /// Scales every value of `x` by `r` according to its column: timestamps
    /// become `div(minus(t, first_time), time_range)`, volumes
    /// `div(v, max_volume)`, prices `div(p, max_price)`.
    pub fn scale_rows<T: Copy, S: Fn(T, T) -> T, D: Fn(T, T) -> T>(
        &self,
        x: &Vec<T>,
        r: &Reference<T>,
        minus: &S,
        div: &D,
    ) -> (y: Vec<T>)
        requires
            total_op(*minus),
            total_op(*div),
        ensures
            scaled_rows(*minus, *div, *r, x@, y@),
    {
        let mut y: Vec<T> = Vec::new();
        let mut i: usize = 0;
        while i < x.len()
            invariant
                i <= x@.len(),
                y@.len() == i,
                total_op(*minus),
                total_op(*div),
                forall|k: int|
                    0 <= k < i ==> scaled(*minus, *div, *r, k % (N_FEATURES as int), x@[k], #[trigger] y@[k]),
            decreases x@.len() - i,
        {
            let col = i % N_FEATURES;
            let v = if col == TIME_COLUMN {
                let d = minus(x[i], r.first_time);
                div(d, r.time_range)
            } else if col == VOLUME_COLUMN {
                div(x[i], r.max_volume)
            } else {
                div(x[i], r.max_price)
            };
            y.push(v);
            i = i + 1;
        }
        y
    }

    /// The window pair scaled around unity: both windows are scaled by the
    /// reference of the first window.
    pub fn map<T: Copy, S: Fn(T, T) -> T, D: Fn(T, T) -> T, M: Fn(T, T) -> T>(
        &self,
        item: &OHLCItem<T>,
        minus: &S,
        div: &D,
        max: &M,
    ) -> (out: OHLCItem<T>)
        requires
            whole_rows(item.block@),
            n_rows(item.block@) >= 1,
            total_op(*minus),
            total_op(*div),
            total_op(*max),
        ensures
            exists|r: Reference<T>|
                {
                    &&& is_reference(*minus, *max, item.block@, r)
                    &&& scaled_rows(*minus, *div, r, item.block@, out.block@)
                    &&& scaled_rows(*minus, *div, r, item.next@, out.next@)
                },
    {
        let r = self.reference(&item.block, minus, max);
        let block = self.scale_rows(&item.block, &r, minus, div);
        let next = self.scale_rows(&item.next, &r, minus, div);
        OHLCItem { block, next }
    }
}

} // verus!
