//! The position index: for every two-byte key, the places in a window where
//! the key stands, in ascending order.

use vstd::prelude::*;
use vstd::slice::slice_subrange;

verus! {

/// Offsets are stored in 32 bits.
pub type MaxOffset = u32;

/// Number of two-byte keys.
pub const MAX_U16: usize = 65536;

/// The key at `i`: the byte there and the byte behind it, low byte first.
pub open spec fn key_at(data: Seq<u8>, i: int) -> int {
    data[i] as int + 256 * data[i + 1] as int
}

/// Number of places in `data` where a key starts: every byte but the last.
pub open spec fn samples(data: Seq<u8>) -> int {
    if data.len() == 0 {
        0
    } else {
        data.len() - 1
    }
}

/// The places below `n` where `key` stands in `data`, ascending.
pub open spec fn positions(data: Seq<u8>, key: int, n: int) -> Seq<int>
    decreases n,
{
    if n <= 0 {
        Seq::empty()
    } else if key_at(data, n - 1) == key {
        positions(data, key, n - 1).push(n - 1)
    } else {
        positions(data, key, n - 1)
    }
}

/// Where the run of `key` starts in the arena: behind the runs of all
/// smaller keys.
pub open spec fn run_start(data: Seq<u8>, key: int, n: int) -> int
    decreases key,
{
    if key <= 0 {
        0
    } else {
        run_start(data, key - 1, n) + positions(data, key - 1, n).len()
    }
}

/// `key` stands at the place `p` of a window that starts at `base`.
pub open spec fn occurs(window: Seq<u8>, base: int, key: int, p: int) -> bool {
    base <= p < base + samples(window) && key_at(window, p - base) == key
}

/// Each item is smaller than the next.
pub open spec fn ascending(items: Seq<u32>) -> bool {
    forall|a: int, b: int| 0 <= a < b < items.len() ==> items[a] < items[b]
}

/// One key's part of the index: three cursors into the arena of offsets.
#[derive(Clone, Copy)]
pub struct CompDictEntry {
    /// Arena index of the first item that the last query did not find below
    /// its lower bound.
    last_read_item: usize,
    /// Arena index of the first item that the last query found above its
    /// upper bound.
    last_read_item_max: usize,
    /// Arena index behind the key's last item.
    last_item: usize,
}

/// The position index of one window.
///
/// The arena holds the places of every key, key by key and ascending within
/// a key. An entry per key says where the key's run ends and how far the
/// queries have advanced in it: queries may only ask for higher places than
/// the queries before them.
pub struct CompDict {
    dict: Vec<CompDictEntry>,
    offsets: Vec<MaxOffset>,
    window: Ghost<Seq<u8>>,
    base: Ghost<int>,
}

impl CompDictEntry {
    /// Arena index of the first item that queries have not passed.
    pub closed spec fn first_unread(&self) -> int {
        self.last_read_item as int
    }

    /// Arena index behind the last item of the entry's key.
    pub closed spec fn end(&self) -> int {
        self.last_item as int
    }
}

impl CompDict {
    /// The window that the index was built from.
    pub closed spec fn window(&self) -> Seq<u8> {
        self.window@
    }

    /// The place in the source of the window's first byte.
    pub closed spec fn base(&self) -> int {
        self.base@
    }

    /// Number of bytes of the largest window that the index can take.
    pub closed spec fn capacity(&self) -> int {
        self.offsets@.len() as int
    }

    /// The arena of offsets.
    pub closed spec fn arena(&self) -> Seq<MaxOffset> {
        self.offsets@
    }

    /// The entries, one per key.
    pub closed spec fn entries(&self) -> Seq<CompDictEntry> {
        self.dict@
    }

    /// The cursors of `key` lie in the key's run, the lower in front of the
    /// upper, and the run ends where the entry says.
    spec fn entry_fits(&self, key: int) -> bool {
        let n = samples(self.window@);
        let entry = self.dict@[key];
        let start = run_start(self.window@, key, n);
        &&& start <= entry.last_read_item <= entry.last_read_item_max <= entry.last_item
        &&& entry.last_item == start + positions(self.window@, key, n).len()
    }

    /// There is an entry for every key.
    pub closed spec fn allocated(&self) -> bool {
        self.dict@.len() == MAX_U16
    }

    /// The arena holds, for every key, the places of the key in the window,
    /// ascending, and every cursor lies within the run of its key.
    pub closed spec fn well_formed(&self) -> bool {
        let n = samples(self.window@);
        &&& self.dict@.len() == MAX_U16
        &&& 0 <= self.base@
        &&& self.base@ + self.window@.len() <= u32::MAX
        &&& n <= self.offsets@.len()
        &&& forall|key: int| 0 <= key < 0x1_0000 ==> #[trigger] self.entry_fits(key)
        &&& forall|key: int, t: int|
            0 <= key < 0x1_0000 && 0 <= t < positions(self.window@, key, n).len()
                ==> self.offsets@[run_start(self.window@, key, n) + t] == self.base@
                + #[trigger] positions(self.window@, key, n)[t]
    }

    /// The largest place of `key` that queries have found below their lower
    /// bound, or -1 when there is none.
    pub closed spec fn passed_min(&self, key: int) -> int {
        let entry = self.dict@[key];
        if entry.last_read_item <= run_start(self.window@, key, samples(self.window@)) {
            -1
        } else {
            self.offsets@[entry.last_read_item - 1] as int
        }
    }

    /// The largest place of `key` that queries have found within their
    /// upper bound, or -1 when there is none.
    pub closed spec fn passed_max(&self, key: int) -> int {
        let entry = self.dict@[key];
        if entry.last_read_item_max <= run_start(self.window@, key, samples(self.window@)) {
            -1
        } else {
            self.offsets@[entry.last_read_item_max - 1] as int
        }
    }

    /// A query for `key` between `min_ofs` and `max_ofs` does not ask for
    /// places that earlier queries for the key have passed.
    pub open spec fn admits(&self, key: int, min_ofs: int, max_ofs: int) -> bool {
        self.passed_min(key) < min_ofs && self.passed_max(key) <= max_ofs
    }

    /// The index admits a query between `min_ofs` and `max_ofs` for every
    /// key.
    pub open spec fn ready(&self, min_ofs: int, max_ofs: int) -> bool {
        forall|key: int| 0 <= key < 0x1_0000 ==> #[trigger] self.admits(key, min_ofs, max_ofs)
    }

    /// No query has been made since the index was built.
    pub open spec fn fresh(&self) -> bool {
        forall|key: int|
            0 <= key < 0x1_0000 ==> (#[trigger] self.passed_min(key)) == -1 && self.passed_max(key)
                == -1
    }

    /// What lies between an entry's lower cursor and the end of its run:
    /// the places of the entry's key that queries have not passed, ascending.
    pub proof fn lemma_unread_items(&self, key: int)
        requires
            self.well_formed(),
            0 <= key < 0x1_0000,
        ensures
            ({
                let entry = self.entries()[key];
                let items = self.arena().subrange(entry.first_unread(), entry.end());
                &&& 0 <= entry.first_unread() <= entry.end() <= self.arena().len()
                &&& ascending(items)
                &&& forall|t: int|
                    0 <= t < items.len() ==> self.passed_min(key) < #[trigger] items[t] && occurs(
                        self.window(),
                        self.base(),
                        key,
                        items[t] as int,
                    )
                &&& forall|p: int|
                    self.passed_min(key) < p && #[trigger] occurs(
                        self.window(),
                        self.base(),
                        key,
                        p,
                    ) ==> items.contains(p as u32)
                &&& self.passed_min(key) == -1 || occurs(
                    self.window(),
                    self.base(),
                    key,
                    self.passed_min(key),
                )
            }),
    {
        let window = self.window@;
        let base = self.base@;
        let n = samples(window);
        let run = positions(window, key, n);
        let start = run_start(window, key, n);
        let entry = self.dict@[key];
        let first = entry.last_read_item as int;
        let items = self.offsets@.subrange(first, entry.last_item as int);
        assert(self.entry_fits(key));
        lemma_positions_sound(window, key, n);
        lemma_run_start_ordered(window, 0, key, n);
        lemma_run_start_ordered(window, key, MAX_U16 as int, n);
        lemma_run_start_total(window, n);
        assert forall|t: int| start <= t < entry.last_item implies self.offsets@[t] == base
            + run[t - start] by {
            assert(self.offsets@[start + (t - start)] == base + run[t - start]);
        }
        assert forall|a: int, b: int| 0 <= a < b < items.len() implies items[a] < items[b] by {
            assert(run[first + a - start] < run[first + b - start]);
        }
        assert forall|t: int| 0 <= t < items.len() implies self.passed_min(key)
            < #[trigger] items[t] && occurs(window, base, key, items[t] as int) by {
            assert(self.offsets@[first + t] == base + run[first + t - start]);
            if first > start {
                assert(run[first - 1 - start] < run[first + t - start]);
            }
        }
        assert forall|p: int|
            self.passed_min(key) < p && #[trigger] occurs(window, base, key, p) implies items.contains(
            p as u32,
        ) by {
            lemma_positions_complete(window, key, n, p - base);
            let c = choose|c: int| 0 <= c < run.len() && run[c] == p - base;
            assert(self.offsets@[start + c] == p);
            if start + c < first - 1 {
                assert(run[c] < run[first - 1 - start]);
            }
            assert(items[start + c - first] == p as u32);
        }
    }

    /// A well-formed index has an entry for every key.
    pub proof fn lemma_well_formed_allocated(&self)
        requires
            self.well_formed(),
        ensures
            self.allocated(),
            self.entries().len() == MAX_U16,
    {
    }

    /// An index that admits a query admits every query for higher places.
    pub proof fn lemma_ready_later(&self, min_ofs: int, max_ofs: int, later_min: int, later_max: int)
        requires
            self.ready(min_ofs, max_ofs),
            min_ofs <= later_min,
            max_ofs <= later_max,
        ensures
            self.ready(later_min, later_max),
    {
        assert forall|key: int| 0 <= key < 0x1_0000 implies #[trigger] self.admits(
            key,
            later_min,
            later_max,
        ) by {
            assert(self.admits(key, min_ofs, max_ofs));
        }
    }

    /// A fresh index admits every query.
    pub proof fn lemma_fresh_ready(&self, min_ofs: int, max_ofs: int)
        requires
            self.fresh(),
            0 <= min_ofs,
            0 <= max_ofs,
        ensures
            self.ready(min_ofs, max_ofs),
    {
        assert forall|key: int| 0 <= key < 0x1_0000 implies #[trigger] self.admits(
            key,
            min_ofs,
            max_ofs,
        ) by {
            assert(self.passed_min(key) == -1);
        }
    }
}

/// The positions of a key are below `n`, ascending, and places of the key.
pub proof fn lemma_positions_sound(data: Seq<u8>, key: int, n: int)
    ensures
        positions(data, key, n).len() <= if n > 0 { n } else { 0 },
        forall|t: int|
            0 <= t < positions(data, key, n).len() ==> 0 <= #[trigger] positions(data, key, n)[t]
                < n && key_at(data, positions(data, key, n)[t]) == key,
        forall|a: int, b: int|
            0 <= a < b < positions(data, key, n).len() ==> positions(data, key, n)[a]
                < positions(data, key, n)[b],
    decreases n,
{
    if n > 0 {
        lemma_positions_sound(data, key, n - 1);
    }
}

/// Every place of the key below `n` is among its positions.
pub proof fn lemma_positions_complete(data: Seq<u8>, key: int, n: int, p: int)
    requires
        0 <= p < n,
        key_at(data, p) == key,
    ensures
        positions(data, key, n).contains(p),
    decreases n,
{
    if p == n - 1 {
        assert(positions(data, key, n).last() == p);
    } else {
        lemma_positions_complete(data, key, n - 1, p);
        let shorter = positions(data, key, n - 1);
        let t = choose|t: int| 0 <= t < shorter.len() && shorter[t] == p;
        assert(positions(data, key, n)[t] == p);
    }
}

/// The positions below `n` are the first of the positions below any
/// larger bound.
pub proof fn lemma_positions_grow(data: Seq<u8>, key: int, n: int, m: int)
    requires
        n <= m,
    ensures
        positions(data, key, n).len() <= positions(data, key, m).len(),
        forall|t: int|
            0 <= t < positions(data, key, n).len() ==> positions(data, key, m)[t] == positions(
                data,
                key,
                n,
            )[t],
        0 <= n < m && key_at(data, n) == key ==> positions(data, key, n).len() < positions(
            data,
            key,
            m,
        ).len(),
    decreases m - n,
{
    if n < m {
        lemma_positions_grow(data, key, n, m - 1);
    }
}

/// The run of a key ends where the run of the next key starts, and runs of
/// larger keys lie behind it.
pub proof fn lemma_run_start_ordered(data: Seq<u8>, low: int, high: int, n: int)
    requires
        0 <= low <= high,
    ensures
        run_start(data, low, n) <= run_start(data, high, n),
        low < high ==> run_start(data, low, n) + positions(data, low, n).len() <= run_start(
            data,
            high,
            n,
        ),
    decreases high - low,
{
    if low < high {
        lemma_run_start_ordered(data, low, high - 1, n);
    }
}

/// One more sample moves the runs of all larger keys back by one.
proof fn lemma_run_start_step(data: Seq<u8>, key: int, n: int)
    requires
        0 <= key,
        0 <= n,
    ensures
        run_start(data, key, n + 1) == run_start(data, key, n) + if 0 <= key_at(data, n) < key {
            1int
        } else {
            0
        },
    decreases key,
{
    if key > 0 {
        lemma_run_start_step(data, key - 1, n);
    }
}

/// The runs of all keys together have one item for every sample.
pub proof fn lemma_run_start_total(data: Seq<u8>, n: int)
    requires
        0 <= n,
    ensures
        run_start(data, MAX_U16 as int, n) == n,
    decreases n,
{
    if n == 0 {
        lemma_run_start_zero(data, MAX_U16 as int);
    } else {
        lemma_run_start_total(data, n - 1);
        lemma_run_start_step(data, MAX_U16 as int, n - 1);
    }
}

/// Without samples every run starts at the front of the arena.
proof fn lemma_run_start_zero(data: Seq<u8>, key: int)
    requires
        0 <= key,
    ensures
        run_start(data, key, 0) == 0,
    decreases key,
{
    if key > 0 {
        lemma_run_start_zero(data, key - 1);
    }
}


/// What two cursors that have gone forward in the run of a key, one to the
/// first place not below `min_ofs` and one to the first place above
/// `max_ofs`, have between them and behind them.
proof fn lemma_query(
    window: Seq<u8>,
    base: int,
    key: int,
    arena: Seq<MaxOffset>,
    start: int,
    first: int,
    end: int,
    last: int,
    min_ofs: int,
    max_ofs: int,
)
    requires
        0 <= base,
        0 <= start <= first <= last,
        start <= end <= last,
        last == start + positions(window, key, samples(window)).len(),
        last <= arena.len(),
        min_ofs <= max_ofs + 1,
        forall|t: int|
            start <= t < last ==> arena[t] == base + positions(window, key, samples(window))[t
                - start],
        forall|t: int| start <= t < first ==> arena[t] < min_ofs,
        first < last ==> arena[first] >= min_ofs,
        forall|t: int| start <= t < end ==> arena[t] <= max_ofs,
        end < last ==> arena[end] > max_ofs,
    ensures
        first <= end,
        ascending(arena.subrange(first, end)),
        forall|t: int|
            0 <= t < end - first ==> min_ofs <= #[trigger] arena.subrange(first, end)[t] <= max_ofs
                && occurs(window, base, key, arena.subrange(first, end)[t] as int),
        forall|p: int|
            min_ofs <= p <= max_ofs && #[trigger] occurs(window, base, key, p) ==> arena.subrange(
                first,
                end,
            ).contains(p as u32),
        forall|p: int|
            p < min_ofs && #[trigger] occurs(window, base, key, p) ==> start < first && p
                <= arena[first - 1],
        forall|p: int|
            p <= max_ofs && #[trigger] occurs(window, base, key, p) ==> start < end && p
                <= arena[end - 1],
{
    let n = samples(window);
    let run = positions(window, key, n);
    let items = arena.subrange(first, end);
    lemma_positions_sound(window, key, n);
    if end < first {
        assert(arena[end] < min_ofs);
    }
    assert forall|a: int, b: int| 0 <= a < b < items.len() implies items[a] < items[b] by {
        assert(run[first + a - start] < run[first + b - start]);
    }
    assert forall|t: int| 0 <= t < end - first implies min_ofs <= #[trigger] items[t] <= max_ofs
        && occurs(window, base, key, items[t] as int) by {
        assert(arena[first + t] == base + run[first + t - start]);
        if t > 0 {
            assert(run[first - start] < run[first + t - start]);
        }
    }
    assert forall|p: int|
        min_ofs <= p <= max_ofs && #[trigger] occurs(window, base, key, p) implies items.contains(
        p as u32,
    ) by {
        let c = lemma_place_index(window, base, key, arena, start, last, p);
        if c < first {
            assert(arena[c] < min_ofs);
        }
        if c >= end {
            assert(arena[end] > max_ofs);
        }
        assert(items[c - first] == p as u32);
    }
    assert forall|p: int| p < min_ofs && #[trigger] occurs(window, base, key, p) implies start
        < first && p <= arena[first - 1] by {
        let c = lemma_place_index(window, base, key, arena, start, last, p);
        if c >= first {
            assert(arena[first] >= min_ofs);
        }
    }
    assert forall|p: int| p <= max_ofs && #[trigger] occurs(window, base, key, p) implies start
        < end && p <= arena[end - 1] by {
        let c = lemma_place_index(window, base, key, arena, start, last, p);
        if c >= end {
            assert(arena[end] > max_ofs);
        }
    }
}

/// Where in the arena a place of a key stands: in the key's run, behind
/// the smaller places and in front of the larger ones.
proof fn lemma_place_index(
    window: Seq<u8>,
    base: int,
    key: int,
    arena: Seq<MaxOffset>,
    start: int,
    last: int,
    p: int,
) -> (c: int)
    requires
        0 <= start,
        last == start + positions(window, key, samples(window)).len(),
        last <= arena.len(),
        forall|t: int|
            start <= t < last ==> arena[t] == base + positions(window, key, samples(window))[t
                - start],
        occurs(window, base, key, p),
    ensures
        start <= c < last,
        arena[c] == p,
        forall|d: int| start <= d < c ==> #[trigger] arena[d] < p,
        forall|d: int| c < d < last ==> #[trigger] arena[d] > p,
{
    let n = samples(window);
    let run = positions(window, key, n);
    lemma_positions_sound(window, key, n);
    lemma_positions_complete(window, key, n, p - base);
    let c = choose|c: int| 0 <= c < run.len() && run[c] == p - base;
    assert(arena[start + c] == p);
    assert forall|d: int| start <= d < start + c implies #[trigger] arena[d] < p by {
        assert(run[d - start] < run[c]);
    }
    assert forall|d: int| start + c < d < last implies #[trigger] arena[d] > p by {
        assert(run[c] < run[d - start]);
    }
    start + c
}

/// Reads the key at `i`.
pub fn read_key(data: &[u8], i: usize) -> (key: u16)
    requires
        i + 1 < data.len(),
    ensures
        key == key_at(data@, i as int),
{
    (data[i] as u16) + (data[i + 1] as u16) * 256
}

impl CompDict {
    /// Creates an index that can take windows of up to `data_len` bytes. It
    /// indexes the empty window until `init` is called.
    pub fn new(data_len: usize) -> (dict: CompDict)
        ensures
            dict.well_formed(),
            dict.allocated(),
            dict.capacity() == data_len,
            dict.window() == Seq::<u8>::empty(),
            dict.base() == 0,
            dict.fresh(),
            forall|key: int, min_ofs: int, max_ofs: int|
                0 <= key < 0x1_0000 && 0 <= min_ofs && 0 <= max_ofs ==> #[trigger] dict.admits(
                    key,
                    min_ofs,
                    max_ofs,
                ),
    {
        let dict = CompDict {
            dict: vec![CompDictEntry { last_read_item: 0, last_read_item_max: 0, last_item: 0 }; MAX_U16],
            offsets: vec![0u32; data_len],
            window: Ghost(Seq::empty()),
            base: Ghost(0),
        };
        proof {
            assert forall|key: int| 0 <= key < 0x1_0000 implies #[trigger] dict.entry_fits(key) by {
                lemma_run_start_zero(Seq::<u8>::empty(), key);
            }
            assert forall|key: int| 0 <= key < 0x1_0000 implies (#[trigger] dict.passed_min(key))
                == -1 && dict.passed_max(key) == -1 by {
                lemma_run_start_zero(Seq::<u8>::empty(), key);
            }
        }
        dict
    }

    /// Counts, for every key, the places in `data` where it stands.
    pub(crate) fn create_frequency_table(&self, data: &[u8]) -> (table: Vec<u32>)
        requires
            data.len() <= u32::MAX,
        ensures
            table.len() == MAX_U16,
            forall|key: int|
                0 <= key < 0x1_0000 ==> #[trigger] table[key] == positions(
                    data@,
                    key,
                    samples(data@),
                ).len(),
    {
        let mut result = vec![0u32; MAX_U16];
        let limit = data.len().saturating_sub(1);
        let mut data_ofs: usize = 0;
        while data_ofs < limit
            invariant
                limit == samples(data@),
                data_ofs <= limit,
                limit < u32::MAX,
                result.len() == MAX_U16,
                forall|key: int|
                    0 <= key < 0x1_0000 ==> #[trigger] result[key] == positions(
                        data@,
                        key,
                        data_ofs as int,
                    ).len(),
            decreases limit - data_ofs,
        {
            let index = read_key(data, data_ofs) as usize;
            proof {
                lemma_positions_sound(data@, index as int, data_ofs as int);
            }
            result[index] = result[index] + 1;
            data_ofs = data_ofs + 1;
        }
        result
    }

    /// Builds the index of `data`, a window whose first byte stands at
    /// `offset` in the source. Every query cursor starts over.
    pub fn init(&mut self, data: &[u8], offset: usize)
        requires
            old(self).allocated(),
            data.len() <= old(self).capacity(),
            offset + data.len() <= u32::MAX,
        ensures
            final(self).well_formed(),
            final(self).allocated(),
            final(self).window() == data@,
            final(self).base() == offset,
            final(self).capacity() == old(self).capacity(),
            final(self).fresh(),
            forall|key: int, min_ofs: int, max_ofs: int|
                0 <= key < 0x1_0000 && 0 <= min_ofs && 0 <= max_ofs ==> #[trigger] final(self)
                    .admits(key, min_ofs, max_ofs),
    {
        let ghost n = samples(data@);
        let freq_table = self.create_frequency_table(data);
        let mut dict_insert_entry_ptrs: Vec<usize> = vec![0usize; MAX_U16];
        let mut cur_ofs: usize = 0;
        let mut key: usize = 0;
        proof {
            lemma_run_start_total(data@, n);
        }
        while key < MAX_U16
            invariant
                key <= MAX_U16,
                n == samples(data@),
                n <= self.offsets@.len(),
                self.offsets@.len() == old(self).offsets@.len(),
                run_start(data@, MAX_U16 as int, n) == n,
                self.dict@.len() == MAX_U16,
                dict_insert_entry_ptrs.len() == MAX_U16,
                freq_table.len() == MAX_U16,
                forall|k: int|
                    0 <= k < 0x1_0000 ==> #[trigger] freq_table[k] == positions(data@, k, n).len(),
                cur_ofs == run_start(data@, key as int, n),
                forall|k: int|
                    0 <= k < key ==> #[trigger] dict_insert_entry_ptrs[k] == run_start(
                        data@,
                        k,
                        n,
                    ),
                forall|k: int|
                    0 <= k < key ==> (#[trigger] self.dict@[k]).last_read_item == run_start(
                        data@,
                        k,
                        n,
                    ) && self.dict@[k].last_read_item_max == run_start(data@, k, n)
                        && self.dict@[k].last_item == run_start(data@, k, n) + positions(
                        data@,
                        k,
                        n,
                    ).len(),
            decreases MAX_U16 - key,
        {
            let num_items = freq_table[key] as usize;
            proof {
                lemma_run_start_ordered(data@, key as int, MAX_U16 as int, n);
                assert(run_start(data@, key as int + 1, n) == run_start(data@, key as int, n)
                    + positions(data@, key as int, n).len());
                assert(freq_table[key as int] == positions(data@, key as int, n).len());
                assert(n <= data.len());
            }
            dict_insert_entry_ptrs[key] = cur_ofs;
            self.dict[key] = CompDictEntry {
                last_read_item: cur_ofs,
                last_read_item_max: cur_ofs,
                last_item: cur_ofs + num_items,
            };
            cur_ofs = cur_ofs + num_items;
            key = key + 1;
        }

        let limit = data.len().saturating_sub(1);
        let mut data_ofs: usize = 0;
        while data_ofs < limit
            invariant
                limit == n,
                n == samples(data@),
                data_ofs <= limit,
                offset + data.len() <= u32::MAX,
                n <= self.offsets@.len(),
                self.offsets@.len() == old(self).offsets@.len(),
                run_start(data@, MAX_U16 as int, n) == n,
                self.dict@.len() == MAX_U16,
                dict_insert_entry_ptrs.len() == MAX_U16,
                forall|k: int|
                    0 <= k < 0x1_0000 ==> #[trigger] dict_insert_entry_ptrs[k] == run_start(
                        data@,
                        k,
                        n,
                    ) + positions(data@, k, data_ofs as int).len(),
                forall|k: int|
                    0 <= k < 0x1_0000 ==> (#[trigger] self.dict@[k]).last_read_item == run_start(
                        data@,
                        k,
                        n,
                    ) && self.dict@[k].last_read_item_max == run_start(data@, k, n)
                        && self.dict@[k].last_item == run_start(data@, k, n) + positions(
                        data@,
                        k,
                        n,
                    ).len(),
                forall|k: int, t: int|
                    0 <= k < 0x1_0000 && 0 <= t < positions(data@, k, data_ofs as int).len()
                        ==> self.offsets@[run_start(data@, k, n) + t] == offset
                        + #[trigger] positions(data@, k, data_ofs as int)[t],
            decreases limit - data_ofs,
        {
            let key = read_key(data, data_ofs) as usize;
            let slot = dict_insert_entry_ptrs[key];
            let ghost before = self.offsets@;
            proof {
                lemma_positions_grow(data@, key as int, data_ofs as int, n);
                lemma_run_start_ordered(data@, key as int, MAX_U16 as int, n);
                lemma_run_start_ordered(data@, 0, key as int, n);
            }
            self.offsets[slot] = (data_ofs + offset) as MaxOffset;
            dict_insert_entry_ptrs[key] = slot + 1;
            proof {
                let now = data_ofs as int;
                let next = data_ofs as int + 1;
                assert forall|k: int, t: int|
                    0 <= k < 0x1_0000 && 0 <= t < positions(data@, k, next).len() implies self.offsets@[run_start(
                    data@,
                    k,
                    n,
                ) + t] == offset + #[trigger] positions(data@, k, next)[t] by {
                    let start = run_start(data@, k, n);
                    lemma_positions_grow(data@, k, next, n);
                    lemma_positions_grow(data@, k, now, n);
                    lemma_run_start_ordered(data@, 0, k, n);
                    lemma_run_start_ordered(data@, k, MAX_U16 as int, n);
                    assert(0 <= start + t < n);
                    if k < key {
                        lemma_run_start_ordered(data@, k, key as int, n);
                        assert(start + t != slot);
                        assert(positions(data@, k, next) == positions(data@, k, now));
                        assert(before[start + t] == offset + positions(data@, k, now)[t]);
                    } else if k > key {
                        lemma_run_start_ordered(data@, key as int, k, n);
                        assert(start + t != slot);
                        assert(positions(data@, k, next) == positions(data@, k, now));
                        assert(before[start + t] == offset + positions(data@, k, now)[t]);
                    } else {
                        assert(positions(data@, k, next) == positions(data@, k, now).push(now));
                        if t < positions(data@, k, now).len() {
                            assert(before[start + t] == offset + positions(data@, k, now)[t]);
                        }
                    }
                }
            }
            data_ofs = data_ofs + 1;
        }
        self.window = Ghost(data@);
        self.base = Ghost(offset as int);
        proof {
            assert forall|key: int| 0 <= key < 0x1_0000 implies #[trigger] self.entry_fits(key) by {
                assert(self.dict@[key].last_item == run_start(data@, key, n) + positions(
                    data@,
                    key,
                    n,
                ).len());
            }
            assert forall|key: int| 0 <= key < 0x1_0000 implies (#[trigger] self.passed_min(key))
                == -1 && self.passed_max(key) == -1 by {
                assert(self.dict@[key].last_item == run_start(data@, key, n) + positions(
                    data@,
                    key,
                    n,
                ).len());
            }
        }
    }

    /// Returns the places of `key` between `min_ofs` and `max_ofs`, both
    /// included, in ascending order.
    ///
    /// The two cursors of the key move forward to the ends of what is
    /// returned and stay there, so the next query for the key must not ask
    /// for places below them.
    pub fn get_item(&mut self, key: u16, min_ofs: usize, max_ofs: usize) -> (items: &[MaxOffset])
        requires
            old(self).well_formed(),
            min_ofs <= max_ofs + 1,
            old(self).admits(key as int, min_ofs as int, max_ofs as int),
        ensures
            final(self).well_formed(),
            final(self).window() == old(self).window(),
            final(self).base() == old(self).base(),
            final(self).capacity() == old(self).capacity(),
            final(self).admits(key as int, min_ofs as int, max_ofs as int),
            forall|later_min: int, later_max: int|
                min_ofs <= later_min && max_ofs <= later_max ==> #[trigger] final(self).admits(
                    key as int,
                    later_min,
                    later_max,
                ),
            forall|other: int, other_min: int, other_max: int|
                0 <= other < 0x1_0000 && other != key && old(self).admits(
                    other,
                    other_min,
                    other_max,
                ) ==> #[trigger] final(self).admits(other, other_min, other_max),
            forall|p: int|
                p < min_ofs && #[trigger] occurs(
                    old(self).window(),
                    old(self).base(),
                    key as int,
                    p,
                ) ==> p <= final(self).passed_min(key as int),
            forall|p: int|
                p <= max_ofs && #[trigger] occurs(
                    old(self).window(),
                    old(self).base(),
                    key as int,
                    p,
                ) ==> p <= final(self).passed_max(key as int),
            forall|other: int|
                0 <= other < 0x1_0000 && other != key ==> (#[trigger] final(self).passed_min(other))
                    == old(self).passed_min(other) && final(self).passed_max(other) == old(
                    self,
                ).passed_max(other),
            ascending(items@),
            forall|t: int|
                0 <= t < items@.len() ==> min_ofs <= #[trigger] items@[t] <= max_ofs && occurs(
                    old(self).window(),
                    old(self).base(),
                    key as int,
                    items@[t] as int,
                ),
            forall|p: int|
                min_ofs <= p <= max_ofs && #[trigger] occurs(
                    old(self).window(),
                    old(self).base(),
                    key as int,
                    p,
                ) ==> items@.contains(p as u32),
    {
        let ghost window = self.window@;
        let ghost base = self.base@;
        let ghost n = samples(window);
        let ghost run = positions(window, key as int, n);
        let ghost start = run_start(window, key as int, n);
        let entry = self.dict[key as usize];
        proof {
            assert(self.entry_fits(key as int));
            lemma_positions_sound(window, key as int, n);
            lemma_run_start_ordered(window, 0, key as int, n);
            lemma_run_start_ordered(window, key as int, MAX_U16 as int, n);
            lemma_run_start_total(window, n);
            assert forall|t: int| start <= t < entry.last_item implies self.offsets@[t] == base
                + run[t - start] by {
                assert(self.offsets@[start + (t - start)] == base + run[t - start]);
            }
        }

        let mut cur_last_read_item = entry.last_read_item;
        while cur_last_read_item < entry.last_item && (self.offsets[cur_last_read_item] as usize)
            < min_ofs
            invariant
                start <= cur_last_read_item <= entry.last_item,
                0 <= start,
                entry.last_item == start + run.len(),
                entry.last_item <= self.offsets@.len(),
                forall|t: int| start <= t < entry.last_item ==> self.offsets@[t] == base + run[t - start],
                forall|a: int, b: int| 0 <= a < b < run.len() ==> run[a] < run[b],
                forall|t: int| start <= t < cur_last_read_item ==> self.offsets@[t] < min_ofs,
            decreases entry.last_item - cur_last_read_item,
        {
            cur_last_read_item = cur_last_read_item + 1;
        }

        let mut end = entry.last_read_item_max;
        while end < entry.last_item && (self.offsets[end] as usize) <= max_ofs
            invariant
                start <= end <= entry.last_item,
                0 <= start,
                entry.last_item == start + run.len(),
                entry.last_item <= self.offsets@.len(),
                forall|t: int| start <= t < entry.last_item ==> self.offsets@[t] == base + run[t - start],
                forall|a: int, b: int| 0 <= a < b < run.len() ==> run[a] < run[b],
                forall|t: int| start <= t < end ==> self.offsets@[t] <= max_ofs,
            decreases entry.last_item - end,
        {
            end = end + 1;
        }

        proof {
            lemma_query(
                window,
                base,
                key as int,
                self.offsets@,
                start,
                cur_last_read_item as int,
                end as int,
                entry.last_item as int,
                min_ofs as int,
                max_ofs as int,
            );
        }
        let ghost before = *self;
        self.dict[key as usize] = CompDictEntry {
            last_read_item: cur_last_read_item,
            last_read_item_max: end,
            last_item: entry.last_item,
        };
        proof {
            assert forall|other: int| 0 <= other < 0x1_0000 implies #[trigger] self.entry_fits(
                other,
            ) by {
                assert(before.entry_fits(other));
            }
        }
        let items = slice_subrange(self.offsets.as_slice(), cur_last_read_item, end);
        items
    }

    /// Hands out the entries, one per key. Changing them may leave the
    /// index ill formed.
    pub fn get_dict_mut(&mut self) -> (entries: &mut [CompDictEntry])
        ensures
            entries@ == old(self).entries(),
            final(self).entries() == final(entries)@,
            final(self).arena() == old(self).arena(),
            final(self).window() == old(self).window(),
            final(self).base() == old(self).base(),
    {
        self.dict.as_mut_slice()
    }
}

impl CompDictEntry {
    /// Returns the items of the entry's key that queries have not passed:
    /// those from the lower cursor to the end of the key's run. The entry
    /// holds places in the arena of `dict`, which therefore has to be given.
    pub fn get_items<'a>(&self, dict: &'a CompDict) -> (items: &'a [MaxOffset])
        requires
            0 <= self.first_unread() <= self.end() <= dict.arena().len(),
        ensures
            items@ == dict.arena().subrange(self.first_unread(), self.end()),
    {
        slice_subrange(dict.offsets.as_slice(), self.last_read_item, self.last_item)
    }
}

} // verus!
