//! The per-block frequency table: a histogram over the 256 byte values,
//! laid out as cumulative `(start, size)` pairs, together with its wire
//! format (256 little-endian 16-bit sizes) and the decode-side helpers.

use vstd::prelude::*;

use crate::Error;

verus! {

/// Number of occurrences of `v` in `s`.
pub open spec fn count_of(s: Seq<u8>, v: u8) -> nat
    decreases s.len(),
{
    if s.len() == 0 {
        0
    } else {
        count_of(s.drop_last(), v) + if s.last() == v {
            1nat
        } else {
            0nat
        }
    }
}

/// Number of occurrences in `s` of byte values below `v`: the cumulative
/// start of symbol `v` in the table built from `s`.
pub open spec fn cum_count(s: Seq<u8>, v: int) -> int
    decreases v,
{
    if v <= 0 {
        0
    } else {
        cum_count(s, v - 1) + count_of(s, (v - 1) as u8)
    }
}

/// Sum of the first `v` entries of a size array.
pub open spec fn prefix_total(freq: Seq<u16>, v: int) -> int
    decreases v,
{
    if v <= 0 {
        0
    } else {
        prefix_total(freq, v - 1) + freq[v - 1]
    }
}

/// The cumulative-table invariant: 256 pairs, the first start is zero, each
/// start is the previous start plus the previous size, and `total` closes the
/// chain; one block never holds more than 32768 bytes, and an empty table is
/// never built.
pub open spec fn wf_pairs(t: Seq<(u16, u16)>, total: int) -> bool {
    &&& t.len() == 256
    &&& t[0].0 == 0
    &&& forall|v: int| 1 <= v < 256 ==> (#[trigger] t[v]).0 == t[v - 1].0 + t[v - 1].1
    &&& total == t[255].0 + t[255].1
    &&& 1 <= total <= 32768
}

/// Symbol `sym`'s interval covers position `p`.
pub open spec fn covers(t: Seq<(u16, u16)>, sym: int, p: int) -> bool {
    &&& 0 <= sym < 256
    &&& t[sym].0 <= p < t[sym].0 + t[sym].1
}

/// The symbol whose interval covers position `p`; unique in a well-formed
/// table by [`lemma_covers_unique`].
pub open spec fn sym_at(t: Seq<(u16, u16)>, p: int) -> u8 {
    choose|s: u8| covers(t, s as int, p)
}

/// Intervals are laid out in symbol order: for `a < b`, symbol `a`'s interval
/// ends no later than symbol `b`'s begins.
pub proof fn lemma_start_chain(t: Seq<(u16, u16)>, total: int, a: int, b: int)
    requires
        wf_pairs(t, total),
        0 <= a < b < 256,
    ensures
        t[a].0 + t[a].1 <= t[b].0,
    decreases b,
{
    if b - 1 > a {
        lemma_start_chain(t, total, a, b - 1);
    }
}

/// Every interval ends within `total`.
pub proof fn lemma_interval_in_total(t: Seq<(u16, u16)>, total: int, v: int)
    requires
        wf_pairs(t, total),
        0 <= v < 256,
    ensures
        t[v].0 + t[v].1 <= total,
{
    if v < 255 {
        lemma_start_chain(t, total, v, 255);
    }
}

/// In a well-formed table, at most one symbol's interval covers a position.
pub proof fn lemma_covers_unique(t: Seq<(u16, u16)>, total: int, a: int, b: int, p: int)
    requires
        wf_pairs(t, total),
        covers(t, a, p),
        covers(t, b, p),
    ensures
        a == b,
{
    if a < b {
        lemma_start_chain(t, total, a, b);
    }
    if b < a {
        lemma_start_chain(t, total, b, a);
    }
}

/// The flat lookup table and the binary search agree on every position: in a
/// well-formed table each position has exactly one covering symbol, so a
/// lookup sequence in which every entry covers its position must name, at
/// `p`, whatever symbol the search found covering `p`.
pub proof fn lemma_lookup_search_equivalence(
    t: Seq<(u16, u16)>,
    total: int,
    lookup: Seq<u8>,
    p: int,
    found: u8,
)
    requires
        wf_pairs(t, total),
        lookup.len() == total,
        forall|q: int| 0 <= q < total ==> covers(t, (#[trigger] lookup[q]) as int, q),
        0 <= p < total,
        covers(t, found as int, p),
    ensures
        lookup[p] == found,
{
    lemma_covers_unique(t, total, lookup[p] as int, found as int, p);
}

/// A covering symbol is what `sym_at` names.
pub proof fn lemma_sym_at(t: Seq<(u16, u16)>, total: int, x: int, p: int)
    requires
        wf_pairs(t, total),
        covers(t, x, p),
    ensures
        sym_at(t, p) == x as u8,
{
    let s = choose|s: u8| covers(t, s as int, p);
    assert(covers(t, x as u8 as int, p));
    lemma_covers_unique(t, total, s as int, x, p);
}

/// Counting one more byte raises exactly that byte's count.
pub proof fn lemma_count_push(s: Seq<u8>, b: u8, v: u8)
    ensures
        count_of(s.push(b), v) == count_of(s, v) + if v == b {
            1int
        } else {
            0int
        },
{
    assert(s.push(b).drop_last() =~= s);
}

/// No count exceeds the length of the block.
pub proof fn lemma_count_le_len(s: Seq<u8>, v: u8)
    ensures
        count_of(s, v) <= s.len(),
    decreases s.len(),
{
    if s.len() > 0 {
        lemma_count_le_len(s.drop_last(), v);
    }
}

/// Appending a byte raises the cumulative count of `v` exactly when the byte
/// lies below `v`.
pub proof fn lemma_cum_push(s: Seq<u8>, b: u8, v: int)
    requires
        0 <= v <= 256,
    ensures
        cum_count(s.push(b), v) == cum_count(s, v) + if (b as int) < v {
            1int
        } else {
            0int
        },
    decreases v,
{
    if v > 0 {
        lemma_cum_push(s, b, v - 1);
        lemma_count_push(s, b, (v - 1) as u8);
    }
}

/// An empty block has no occurrences below any bound.
pub proof fn lemma_cum_empty(s: Seq<u8>, v: int)
    requires
        s.len() == 0,
    ensures
        cum_count(s, v) == 0,
    decreases v,
{
    if v > 0 {
        lemma_cum_empty(s, v - 1);
    }
}

/// The counts of all 256 byte values sum to the length of the block.
pub proof fn lemma_cum_all(s: Seq<u8>)
    ensures
        cum_count(s, 256) == s.len(),
    decreases s.len(),
{
    if s.len() == 0 {
        lemma_cum_empty(s, 256);
    } else {
        lemma_cum_all(s.drop_last());
        assert(s.drop_last().push(s.last()) =~= s);
        lemma_cum_push(s.drop_last(), s.last(), 256);
    }
}

/// Prefix sums grow with the prefix.
pub proof fn lemma_prefix_total_monotone(freq: Seq<u16>, v: int, w: int)
    requires
        0 <= v <= w,
    ensures
        prefix_total(freq, v) <= prefix_total(freq, w),
    decreases w,
{
    if v < w {
        lemma_prefix_total_monotone(freq, v, w - 1);
    }
}

/// A size array whose entries are the counts of a block has the block's
/// cumulative counts as prefix sums.
pub proof fn lemma_prefix_total_counts(freq: Seq<u16>, s: Seq<u8>, v: int)
    requires
        0 <= v <= 256,
        forall|u: int| 0 <= u < v ==> #[trigger] freq[u] == count_of(s, u as u8),
    ensures
        prefix_total(freq, v) == cum_count(s, v),
    decreases v,
{
    if v > 0 {
        lemma_prefix_total_counts(freq, s, v - 1);
    }
}

/// A block is one repeated byte exactly when that byte's count is the whole
/// length.
pub proof fn lemma_count_all_same(s: Seq<u8>, v: u8)
    requires
        count_of(s, v) == s.len(),
    ensures
        forall|i: int| 0 <= i < s.len() ==> s[i] == v,
    decreases s.len(),
{
    if s.len() > 0 {
        lemma_count_le_len(s.drop_last(), v);
        lemma_count_all_same(s.drop_last(), v);
        assert(s.last() == v);
        assert forall|i: int| 0 <= i < s.len() implies s[i] == v by {
            if i < s.len() - 1 {
                assert(s[i] == s.drop_last()[i]);
            } else {
                assert(s[i] == s.last());
            }
        }
    }
}

/// A byte that stands in the block is counted at least once.
pub proof fn lemma_count_positive(s: Seq<u8>, i: int)
    requires
        0 <= i < s.len(),
    ensures
        count_of(s, s[i]) >= 1,
    decreases s.len(),
{
    if i == s.len() - 1 {
        assert(s.last() == s[i]);
    } else {
        lemma_count_positive(s.drop_last(), i);
        assert(s.drop_last()[i] == s[i]);
    }
}

/// Cumulative counts grow with the bound.
pub proof fn lemma_cum_monotone(s: Seq<u8>, v: int, w: int)
    requires
        0 <= v <= w,
    ensures
        cum_count(s, v) <= cum_count(s, w),
    decreases w,
{
    if v < w {
        lemma_cum_monotone(s, v, w - 1);
    }
}

/// A repeated byte's count is the whole length.
pub proof fn lemma_all_same_count(s: Seq<u8>, v: u8)
    requires
        forall|i: int| 0 <= i < s.len() ==> s[i] == v,
    ensures
        count_of(s, v) == s.len(),
    decreases s.len(),
{
    if s.len() > 0 {
        lemma_all_same_count(s.drop_last(), v);
    }
}

/// The cumulative frequency table of one block: for each of the 256 byte
/// values, where its interval starts and how wide it is, plus the derived
/// total (the block's length).
pub struct Table {
    /// `(start, size)` per symbol, in symbol order.
    pub table: Vec<(u16, u16)>,
    /// Sum of all sizes.
    pub total: u64,
}

impl Table {
    /// The cumulative-table invariant, over this table's pairs.
    pub open spec fn wf(&self) -> bool {
        wf_pairs(self.table@, self.total as int)
    }

    /// Builds the table of a block: counts every byte value, then lays the
    /// counts out cumulatively. The sizes are the block's counts and the
    /// total is the block's length.
    pub fn new(xs: &[u8]) -> (r: Table)
        requires
            1 <= xs@.len() <= 32768,
        ensures
            r.wf(),
            forall|v: int|
                0 <= v < 256 ==> (#[trigger] r.table@[v]).1 == count_of(xs@, v as u8),
            forall|v: int| 0 <= v < 256 ==> (#[trigger] r.table@[v]).0 == cum_count(xs@, v),
            r.total == xs@.len(),
    {
        let mut freq: Vec<u16> = Vec::new();
        let mut v: usize = 0;
        while v < 256
            invariant
                freq@.len() == v,
                v <= 256,
                forall|u: int| 0 <= u < v ==> #[trigger] freq@[u] == 0,
            decreases 256 - v,
        {
            freq.push(0);
            v = v + 1;
        }
        let n = xs.len();
        let mut i: usize = 0;
        while i < n
            invariant
                n == xs@.len() <= 32768,
                i <= n,
                freq@.len() == 256,
                forall|u: int|
                    0 <= u < 256 ==> #[trigger] freq@[u] == count_of(xs@.take(i as int), u as u8),
            decreases n - i,
        {
            let x = xs[i];
            proof {
                lemma_count_le_len(xs@.take(i as int), x);
                assert(xs@.take(i + 1) =~= xs@.take(i as int).push(xs@[i as int]));
                assert forall|u: u8| true implies count_of(xs@.take(i + 1), u) == count_of(
                    xs@.take(i as int),
                    u,
                ) + if u == x {
                    1int
                } else {
                    0int
                } by {
                    lemma_count_push(xs@.take(i as int), x, u);
                }
            }
            let c = freq[x as usize];
            freq.set(x as usize, c + 1);
            i = i + 1;
        }
        proof {
            assert(xs@.take(n as int) =~= xs@);
            lemma_prefix_total_counts(freq@, xs@, 256);
            lemma_cum_all(xs@);
            assert forall|v: int| 0 <= v <= 256 implies #[trigger] prefix_total(freq@, v)
                == cum_count(xs@, v) by {
                lemma_prefix_total_counts(freq@, xs@, v);
            }
        }
        Self::from_freq(&freq)
    }

    /// Lays a size array out cumulatively: each start is the sum of the sizes
    /// before it, and the total is the sum of all of them.
    pub fn from_freq(freq: &Vec<u16>) -> (r: Table)
        requires
            freq@.len() == 256,
            1 <= prefix_total(freq@, 256) <= 32768,
        ensures
            r.wf(),
            forall|v: int| 0 <= v < 256 ==> (#[trigger] r.table@[v]).1 == freq@[v],
            forall|v: int| 0 <= v < 256 ==> (#[trigger] r.table@[v]).0 == prefix_total(freq@, v),
            r.total == prefix_total(freq@, 256),
    {
        let mut table: Vec<(u16, u16)> = Vec::new();
        let mut s: u16 = 0;
        let mut v: usize = 0;
        while v < 256
            invariant
                freq@.len() == 256,
                prefix_total(freq@, 256) <= 32768,
                v <= 256,
                table@.len() == v,
                s == prefix_total(freq@, v as int),
                forall|u: int| 0 <= u < v ==> (#[trigger] table@[u]).1 == freq@[u],
                forall|u: int| 0 <= u < v ==> (#[trigger] table@[u]).0 == prefix_total(freq@, u),
            decreases 256 - v,
        {
            proof {
                lemma_prefix_total_monotone(freq@, v + 1, 256);
            }
            let f = freq[v];
            table.push((s, f));
            s = s + f;
            v = v + 1;
        }
        Table { table, total: s as u64 }
    }

    /// Deserializes a table from the front of `bytes`: 256 little-endian
    /// 16-bit sizes, 512 bytes in all. Rejects a header shorter than that,
    /// and sizes that sum to zero or past the block limit.
    pub fn read(bytes: &[u8]) -> (r: Result<Table, Error>)
        ensures
            match r {
                Ok(t) => {
                    let freq = Seq::new(
                        256,
                        |v: int| (bytes@[2 * v] + 0x100 * bytes@[2 * v + 1]) as u16,
                    );
                    &&& bytes@.len() >= 512
                    &&& t.wf()
                    &&& forall|v: int|
                        0 <= v < 256 ==> (#[trigger] t.table@[v]).1 == bytes@[2 * v] + 0x100
                            * bytes@[2 * v + 1]
                    &&& forall|v: int|
                        0 <= v < 256 ==> (#[trigger] t.table@[v]).0 == prefix_total(freq, v)
                    &&& t.total == prefix_total(freq, 256)
                    &&& 1 <= t.total <= 32768
                },
                Err(Error::Truncated) => bytes@.len() < 512,
                Err(Error::BadTable) => {
                    &&& bytes@.len() >= 512
                    &&& {
                        let freq = Seq::new(
                            256,
                            |v: int| (bytes@[2 * v] + 0x100 * bytes@[2 * v + 1]) as u16,
                        );
                        prefix_total(freq, 256) < 1 || prefix_total(freq, 256) > 32768
                    }
                },
                _ => false,
            },
    {
        if bytes.len() < 512 {
            return Err(Error::Truncated);
        }
        let freq = crate::read_freq(bytes, 256);
        let ghost fspec = Seq::new(256, |v: int| (bytes@[2 * v] + 0x100 * bytes@[2 * v + 1]) as u16);
        proof {
            assert(freq@ =~= fspec);
        }
        let mut sum: u64 = 0;
        let mut v: usize = 0;
        while v < 256
            invariant
                freq@.len() == 256,
                v <= 256,
                sum == prefix_total(freq@, v as int),
                sum <= 0x10000 * v,
            decreases 256 - v,
        {
            sum = sum + freq[v] as u64;
            v = v + 1;
        }
        if sum < 1 || sum > 32768 {
            return Err(Error::BadTable);
        }
        Ok(Table::from_freq(&freq))
    }

    /// Serializes the 256 sizes as little-endian 16-bit integers, 512 bytes.
    pub fn write(&self) -> (r: Vec<u8>)
        requires
            self.table@.len() == 256,
        ensures
            r@.len() == 512,
            forall|v: int| 0 <= v < 256 ==> #[trigger] r@[2 * v] == (self.table@[v]).1 % 0x100,
            forall|v: int|
                0 <= v < 256 ==> #[trigger] r@[2 * v + 1] == (self.table@[v]).1 / 0x100,
    {
        let mut freq: Vec<u16> = Vec::new();
        let mut v: usize = 0;
        while v < 256
            invariant
                self.table@.len() == 256,
                v <= 256,
                freq@.len() == v,
                forall|u: int| 0 <= u < v ==> #[trigger] freq@[u] == (self.table@[u]).1,
            decreases 256 - v,
        {
            freq.push(self.table[v].1);
            v = v + 1;
        }
        let r = crate::write_freq(&freq);
        proof {
            assert forall|v: int| 0 <= v < 256 implies #[trigger] r@[2 * v] == (
            self.table@[v]).1 % 0x100 by {
                assert(r@[2 * v] == freq@[v] % 0x100);
            }
            assert forall|v: int| 0 <= v < 256 implies #[trigger] r@[2 * v + 1] == (
            self.table@[v]).1 / 0x100 by {
                assert(r@[2 * v + 1] == freq@[v] / 0x100);
            }
        }
        r
    }

    /// Where symbol `x`'s interval starts.
    pub fn start(&self, x: u8) -> (r: u64)
        requires
            self.table@.len() == 256,
        ensures
            r == (self.table@[x as int]).0,
    {
        self.table[x as usize].0 as u64
    }

    /// How wide symbol `x`'s interval is: its count in the block.
    pub fn size(&self, x: u8) -> (r: u64)
        requires
            self.table@.len() == 256,
        ensures
            r == (self.table@[x as int]).1,
    {
        self.table[x as usize].1 as u64
    }

    /// Sum of all sizes: the block's length.
    pub fn total(&self) -> (r: u64)
        ensures
            r == self.total,
    {
        self.total
    }

    /// Binary search for the symbol whose interval covers `value`: the
    /// reference path for position lookup, against which the flat lookup
    /// table is checked.
    #[verifier::rlimit(50)]
    pub fn search(&self, value: u16) -> (r: u8)
        requires
            self.wf(),
            value < self.total,
        ensures
            covers(self.table@, r as int, value as int),
    {
        let mut lo: usize = 0;
        let mut hi: usize = 256;
        while lo < hi
            invariant
                self.wf(),
                value < self.total,
                lo <= hi <= 256,
                lo >= 1 ==> (self.table@[lo - 1]).0 <= value,
                hi < 256 ==> value < (self.table@[hi as int]).0,
            decreases hi - lo,
        {
            let mid = lo + (hi - lo) / 2;
            if self.table[mid].0 <= value {
                lo = mid + 1;
            } else {
                hi = mid;
            }
        }
        proof {
            if lo == 0 {
                assert(value < (self.table@[0]).0);
            }
            if lo < 256 {
                assert(value < (self.table@[lo as int]).0);
            } else {
                lemma_interval_in_total(self.table@, self.total as int, 255);
            }
        }
        (lo - 1) as u8
    }

    /// Builds the flat decode lookup: a sequence of `total` symbol values in
    /// which each symbol fills its own interval, so a position is resolved in
    /// one index instead of a search.
    pub fn create_lookup(&self) -> (r: Vec<u8>)
        requires
            self.wf(),
        ensures
            r@.len() == self.total,
            forall|p: int| 0 <= p < self.total ==> covers(self.table@, #[trigger] r@[p] as int, p),
    {
        let mut lookup: Vec<u8> = Vec::new();
        let mut x: usize = 0;
        while x < 256
            invariant
                self.wf(),
                x <= 256,
                lookup@.len() == if x == 0 {
                    0int
                } else {
                    (self.table@[x - 1]).0 + (self.table@[x - 1]).1
                },
                forall|p: int|
                    0 <= p < lookup@.len() ==> covers(self.table@, #[trigger] lookup@[p] as int, p),
            decreases 256 - x,
        {
            proof {
                lemma_interval_in_total(self.table@, self.total as int, x as int);
            }
            let f = self.table[x].1;
            let mut k: usize = 0;
            while k < f as usize
                invariant
                    self.wf(),
                    x < 256,
                    f == (self.table@[x as int]).1,
                    (self.table@[x as int]).0 + f <= self.total,
                    k <= f,
                    lookup@.len() == (self.table@[x as int]).0 + k,
                    forall|p: int|
                        0 <= p < lookup@.len() ==> covers(
                            self.table@,
                            #[trigger] lookup@[p] as int,
                            p,
                        ),
                decreases f - k,
            {
                lookup.push(x as u8);
                k = k + 1;
            }
            x = x + 1;
        }
        lookup
    }

    /// The single symbol that fills the whole block, if there is one: its
    /// size is the whole total. Lets the driver bypass the coder for a block
    /// of one repeated byte value.
    pub fn trivial(&self) -> (r: Option<u8>)
        requires
            self.wf(),
        ensures
            match r {
                Some(x) => (self.table@[x as int]).1 == self.total,
                None => forall|v: int| 0 <= v < 256 ==> (#[trigger] self.table@[v]).1 != self.total,
            },
    {
        let mut x: usize = 0;
        while x < 256
            invariant
                self.wf(),
                x <= 256,
                forall|v: int| 0 <= v < x ==> (#[trigger] self.table@[v]).1 != self.total,
            decreases 256 - x,
        {
            if self.table[x].1 as u64 == self.total {
                return Some(x as u8);
            }
            x = x + 1;
        }
        None
    }
}

} // verus!
