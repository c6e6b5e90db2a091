use vstd::prelude::*;

verus! {

/// Number of values per time step in the flat, row-major layout:
/// timestamp, low, open, close, high, volume.
pub const N_FEATURES: usize = 6;

/// Number of whole rows of a flat row-major table with `N_FEATURES` columns.
pub open spec fn n_rows<T>(data: Seq<T>) -> int {
    (data.len() as int) / (N_FEATURES as int)
}

/// The table has no partial row.
pub open spec fn whole_rows<T>(data: Seq<T>) -> bool {
    (data.len() as int) % (N_FEATURES as int) == 0
}

/// The rows `start .. end` of a flat row-major table with `N_FEATURES` columns.
pub open spec fn rows<T>(data: Seq<T>, start: int, end: int) -> Seq<T> {
    data.subrange(N_FEATURES * start, N_FEATURES * end)
}

/// A window of `block_size` consecutive time steps and the window that
/// immediately follows it, both in the flat row-major layout.
pub struct OHLCItem<T> {
    pub block: Vec<T>,
    pub next: Vec<T>,
}

/// Why a dataset could not be built.
#[derive(Debug, PartialEq, Eq, Clone, Copy)]
pub enum DatasetError {
    /// The series holds fewer than two blocks of time steps.
    TooSmall { block_size: usize, n_time_steps: usize },
}

/// The whole time series, read as overlapping pairs of consecutive blocks.
pub struct OHLCDataset<T> {
    block_size: usize,
    loaded: Vec<T>,
}

impl<T: Copy> OHLCDataset<T> {
    /// Width of one block, in time steps.
    pub closed spec fn spec_block_size(&self) -> nat {
        self.block_size as nat
    }

    /// The loaded series, flat and row-major.
    pub closed spec fn data(&self) -> Seq<T> {
        self.loaded@
    }

    /// Number of time steps in the series.
    pub open spec fn n_time_steps(&self) -> int {
        n_rows(self.data())
    }

    /// Number of block pairs the series holds.
    pub open spec fn spec_len(&self) -> int {
        self.n_time_steps() - 2 * self.spec_block_size() + 1
    }

    /// The series has whole rows and at least two blocks of them.
    pub open spec fn wf(&self) -> bool {
        &&& whole_rows(self.data())
        &&& 2 * self.spec_block_size() <= self.n_time_steps()
    }

    /// Builds the dataset from a flat row-major series of time steps.
    /// Fails exactly when the series holds fewer than `2 * block_size` time steps.
    pub fn new(block_size: usize, raw: Vec<T>) -> (res: Result<OHLCDataset<T>, DatasetError>)
        requires
            whole_rows(raw@) || n_rows(raw@) < 2 * block_size,
        ensures
            match res {
                Ok(ds) => {
                    &&& n_rows(raw@) >= 2 * block_size
                    &&& ds.wf()
                    &&& ds.spec_block_size() == block_size
                    &&& ds.data() == raw@
                },
                Err(e) => {
                    &&& n_rows(raw@) < 2 * block_size
                    &&& e == DatasetError::TooSmall {
                        block_size,
                        n_time_steps: (n_rows(raw@)) as usize,
                    }
                },
            },
    {
        let n_time_steps = raw.len() / N_FEATURES;
        if n_time_steps / 2 < block_size {
            return Err(DatasetError::TooSmall { block_size, n_time_steps });
        }
        Ok(OHLCDataset { block_size, loaded: raw })
    }

    /// Number of block pairs: one for every start index that leaves room for two blocks.
    pub fn len(&self) -> (n: usize)
        requires
            self.wf(),
        ensures
            n == self.spec_len(),
    {
        self.loaded.len() / N_FEATURES - 2 * self.block_size + 1
    }

    /// The block starting at time step `index` and the block that follows it,
    /// or `None` when `index` is past the last pair.
    pub fn get(&self, index: usize) -> (res: Option<OHLCItem<T>>)
        requires
            self.wf(),
        ensures
            res is Some <==> index < self.spec_len(),
            res matches Some(item) ==> {
                &&& item.block@.len() == N_FEATURES * self.spec_block_size()
                &&& item.next@.len() == N_FEATURES * self.spec_block_size()
                &&& item.block@ == rows(self.data(), index as int, index + self.spec_block_size())
                &&& item.next@ == rows(
                    self.data(),
                    index + self.spec_block_size(),
                    index + 2 * self.spec_block_size(),
                )
            },
    {
        if index >= self.len() {
            return None;
        }
        let total = self.loaded.len();
        proof {
            lemma_whole_rows_len(self.data());
            let n = n_rows(self.data());
            let e = index + 2 * self.spec_block_size();
            assert(e <= n);
            let m = index + self.spec_block_size();
            assert(index * N_FEATURES <= m * N_FEATURES <= e * N_FEATURES <= n * N_FEATURES)
                by (nonlinear_arith)
                requires
                    index <= m <= e <= n,
            ;
        }
        let start = index * N_FEATURES;
        let middle = (index + self.block_size) * N_FEATURES;
        let end = (index + 2 * self.block_size) * N_FEATURES;
        let block = copy_range(&self.loaded, start, middle);
        let next = copy_range(&self.loaded, middle, end);
        Some(OHLCItem { block, next })
    }
}

/// The two windows of a pair are adjacent and do not overlap: together they
/// are the `2 * block_size` rows that start at the pair's index.
pub proof fn lemma_pair_is_contiguous<T>(data: Seq<T>, index: int, block_size: int)
    requires
        0 <= index,
        0 <= block_size,
        index + 2 * block_size <= n_rows(data),
    ensures
        rows(data, index, index + block_size) + rows(data, index + block_size, index + 2
            * block_size) =~= rows(data, index, index + 2 * block_size),
{
    vstd::arithmetic::div_mod::lemma_fundamental_div_mod(data.len() as int, N_FEATURES as int);
    vstd::arithmetic::div_mod::lemma_mod_pos_bound(data.len() as int, N_FEATURES as int);
}

/// The window that follows the pair at `index` is the first window of the
/// pair at `index + block_size`.
pub proof fn lemma_next_is_later_block<T>(data: Seq<T>, index: int, block_size: int)
    ensures
        rows(data, index + block_size, index + 2 * block_size) == rows(
            data,
            index + block_size,
            (index + block_size) + block_size,
        ),
{
}

/// The indices of the `count` latest windows of a dataset of `len` windows,
/// latest first, `stride` windows apart: `len - 1 - i * stride`.
pub fn latest_indices(len: usize, count: usize, stride: usize) -> (out: Vec<usize>)
    requires
        count > 0 ==> (count - 1) * stride < len,
    ensures
        out@.len() == count,
        forall|i: int| 0 <= i < count ==> #[trigger] out@[i] == len - 1 - i * stride,
{
    let mut out: Vec<usize> = Vec::new();
    let mut i: usize = 0;
    while i < count
        invariant
            i <= count,
            count > 0 ==> (count - 1) * stride < len,
            out@.len() == i,
            forall|k: int| 0 <= k < i ==> #[trigger] out@[k] == len - 1 - k * stride,
        decreases count - i,
    {
        assert(i * stride <= (count - 1) * stride) by (nonlinear_arith)
            requires
                i <= count - 1,
        ;
        out.push(len - 1 - i * stride);
        i = i + 1;
    }
    out
}

/// A table with whole rows holds exactly `N_FEATURES` values per row.
pub proof fn lemma_whole_rows_len<T>(data: Seq<T>)
    requires
        whole_rows(data),
    ensures
        data.len() == N_FEATURES * n_rows(data),
{
    vstd::arithmetic::div_mod::lemma_fundamental_div_mod(data.len() as int, N_FEATURES as int);
}

/// A copy of `v[start .. end]`.
fn copy_range<T: Copy>(v: &Vec<T>, start: usize, end: usize) -> (out: Vec<T>)
    requires
        start <= end <= v@.len(),
    ensures
        out@ == v@.subrange(start as int, end as int),
{
    let mut out: Vec<T> = Vec::new();
    let mut i: usize = start;
    while i < end
        invariant
            start <= i <= end <= v@.len(),
            out@ == v@.subrange(start as int, i as int),
        decreases end - i,
    {
        out.push(v[i]);
        i = i + 1;
    }
    out
}

} // verus!
