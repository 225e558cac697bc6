//! Setup-and-teardown chunker: the RAM cells that a run touched, with their
//! final values and last-access timestamps, cut into chunks the size of a
//! main circuit's trace.

use vstd::prelude::*;

verus! {

/// RAM words per 4 KiB page.
pub const WORDS_PER_PAGE: usize = 1024;

/// A lazily initialized RAM cell: where it is, what it held at the end and
/// when it was last accessed. The all-zero record is padding.
#[derive(Clone, Copy, Debug, PartialEq, Eq, Structural)]
pub struct LazyInitAndTeardown {
    pub address: u32,
    pub teardown_value: u32,
    pub teardown_timestamp: u64,
}

pub open spec fn padding_record() -> LazyInitAndTeardown {
    LazyInitAndTeardown { address: 0, teardown_value: 0, teardown_timestamp: 0 }
}

/// The record of word `w`.
pub open spec fn cell_record(ram: Seq<u32>, ts: Seq<u64>, w: int) -> LazyInitAndTeardown {
    LazyInitAndTeardown { address: (4 * w) as u32, teardown_value: ram[w], teardown_timestamp: ts[w] }
}

/// Records of the touched words (non-zero last-access timestamp) among the
/// first `n`, in address order.
pub open spec fn touched_cells(ram: Seq<u32>, ts: Seq<u64>, n: int) -> Seq<LazyInitAndTeardown>
    decreases n,
{
    if n <= 0 {
        Seq::empty()
    } else {
        let r = touched_cells(ram, ts, n - 1);
        if ts[n - 1] != 0 {
            r.push(cell_record(ram, ts, n - 1))
        } else {
            r
        }
    }
}

proof fn lemma_untouched_range(ram: Seq<u32>, ts: Seq<u64>, n: int, k: int)
    requires
        0 <= n,
        0 <= k,
        forall|w: int| n <= w < n + k ==> ts[w] == 0,
    ensures
        touched_cells(ram, ts, n + k) == touched_cells(ram, ts, n),
    decreases k,
{
    if k > 0 {
        lemma_untouched_range(ram, ts, n, k - 1);
    }
}

/// A page counted as untouched has no touched word.
pub open spec fn page_count_consistent(pages: Seq<u32>, ts: Seq<u64>, p: int) -> bool {
    pages[p] == 0 ==> forall|w: int|
        p * WORDS_PER_PAGE <= w < p * WORDS_PER_PAGE + WORDS_PER_PAGE ==> #[trigger] ts[w] == 0
}

pub open spec fn ceil_div(a: int, b: int) -> int {
    (a + b - 1) / b
}

/// Cuts the touched cells into chunks of `cycles_per_chunk` records.
pub struct SetupAndTeardownChunker {
    cells: Vec<LazyInitAndTeardown>,
    cycles_per_chunk: usize,
    chunks_count: usize,
    next_chunk: usize,
}

impl SetupAndTeardownChunker {
    pub closed spec fn cells_view(&self) -> Seq<LazyInitAndTeardown> {
        self.cells@
    }

    pub closed spec fn chunk_size(&self) -> nat {
        self.cycles_per_chunk as nat
    }

    pub closed spec fn count(&self) -> nat {
        self.chunks_count as nat
    }

    /// Index of the next chunk to be populated or skipped.
    pub closed spec fn position(&self) -> nat {
        self.next_chunk as nat
    }

    pub closed spec fn wf(&self) -> bool {
        &&& self.cycles_per_chunk >= 1
        &&& self.chunks_count == ceil_div(self.cells@.len() as int, self.cycles_per_chunk as int)
        &&& self.chunks_count * self.cycles_per_chunk <= usize::MAX
        &&& self.cells@.len() <= self.chunks_count * self.cycles_per_chunk
        &&& self.next_chunk <= self.chunks_count
    }

    /// Slot `s` of all chunks laid end to end: padding first, then the cells.
    pub open spec fn slot(cells: Seq<LazyInitAndTeardown>, total: int, s: int) -> LazyInitAndTeardown {
        let pad = total - cells.len();
        if s < pad {
            padding_record()
        } else {
            cells[s - pad]
        }
    }

    /// The records of chunk `k`.
    pub open spec fn chunk(&self, k: int) -> Seq<LazyInitAndTeardown> {
        let size = self.chunk_size() as int;
        Seq::new(
            self.chunk_size(),
            |i: int| Self::slot(self.cells_view(), self.count() * size, k * size + i),
        )
    }

    pub fn get_chunks_count(&self) -> (r: usize)
        ensures
            r == self.count(),
    {
        self.chunks_count
    }

    /// Moves past the next chunk without producing it.
    pub fn skip_next_chunk(&mut self)
        requires
            old(self).wf(),
            old(self).position() < old(self).count(),
        ensures
            final(self).wf(),
            final(self).position() == old(self).position() + 1,
            final(self).cells_view() == old(self).cells_view(),
            final(self).chunk_size() == old(self).chunk_size(),
            final(self).count() == old(self).count(),
    {
        self.next_chunk = self.next_chunk + 1;
    }

    /// Appends the next chunk's records to `out`.
    pub fn populate_next_chunk(&mut self, out: &mut Vec<LazyInitAndTeardown>)
        requires
            old(self).wf(),
            old(self).position() < old(self).count(),
        ensures
            final(self).wf(),
            final(out)@ == old(out)@ + old(self).chunk(old(self).position() as int),
            final(self).position() == old(self).position() + 1,
            final(self).cells_view() == old(self).cells_view(),
            final(self).chunk_size() == old(self).chunk_size(),
            final(self).count() == old(self).count(),
    {
        let size = self.cycles_per_chunk;
        let total = self.chunks_count * size;
        let pad = total - self.cells.len();
        let k = self.next_chunk;
        assert((k + 1) * size <= total) by (nonlinear_arith)
            requires
                k < self.chunks_count,
                total == self.chunks_count * size,
                size >= 1,
        ;
        assert(k * size + size == (k + 1) * size) by (nonlinear_arith);
        let start = k * size;
        let ghost before = out@;
        let ghost target = self.chunk(k as int);
        let mut i: usize = 0;
        while i < size
            invariant
                self.wf(),
                size == self.cycles_per_chunk,
                total == self.chunks_count * size,
                pad == total - self.cells@.len(),
                k == self.next_chunk,
                start == k * size,
                start + size <= total,
                target == self.chunk(k as int),
                0 <= i <= size,
                out@ == before + target.take(i as int),
            decreases size - i,
        {
            let s = start + i;
            let rec = if s < pad {
                LazyInitAndTeardown { address: 0, teardown_value: 0, teardown_timestamp: 0 }
            } else {
                self.cells[s - pad]
            };
            out.push(rec);
            assert(out@ =~= before + target.take(i as int + 1));
            i += 1;
        }
        assert(target.take(size as int) =~= target);
        self.next_chunk = k + 1;
    }
}

/// Builds the chunker from the per-page touched-cell counts, the final RAM
/// words and the per-word last-access timestamps (zero for untouched words).
/// Pages with no touched cells are not scanned.
pub fn create_setup_and_teardown_chunker(
    num_touched_ram_cells_in_pages: &Vec<u32>,
    memory_final_state: &Vec<u32>,
    ram_words_last_live_timestamps: &Vec<u64>,
    cycles_per_chunk: usize,
) -> (r: SetupAndTeardownChunker)
    requires
        cycles_per_chunk >= 1,
        memory_final_state@.len() == ram_words_last_live_timestamps@.len(),
        ram_words_last_live_timestamps@.len() == num_touched_ram_cells_in_pages@.len() * WORDS_PER_PAGE,
        4 * ram_words_last_live_timestamps@.len() <= 0x1_0000_0000,
        ram_words_last_live_timestamps@.len() + cycles_per_chunk <= usize::MAX,
        forall|p: int|
            0 <= p < num_touched_ram_cells_in_pages@.len() ==> #[trigger] page_count_consistent(
                num_touched_ram_cells_in_pages@,
                ram_words_last_live_timestamps@,
                p,
            ),
    ensures
        r.wf(),
        r.cells_view() == touched_cells(
            memory_final_state@,
            ram_words_last_live_timestamps@,
            ram_words_last_live_timestamps@.len() as int,
        ),
        r.chunk_size() == cycles_per_chunk,
        r.count() == ceil_div(r.cells_view().len() as int, cycles_per_chunk as int),
        r.position() == 0,
{
    let ghost ram = memory_final_state@;
    let ghost ts = ram_words_last_live_timestamps@;
    let pages = num_touched_ram_cells_in_pages.len();
    let mut cells: Vec<LazyInitAndTeardown> = Vec::new();
    let mut p: usize = 0;
    while p < pages
        invariant
            pages == num_touched_ram_cells_in_pages@.len(),
            ram == memory_final_state@,
            ts == ram_words_last_live_timestamps@,
            ram.len() == ts.len(),
            ts.len() == pages * WORDS_PER_PAGE,
            4 * ts.len() <= 0x1_0000_0000,
            0 <= p <= pages,
            cells@ == touched_cells(ram, ts, p * WORDS_PER_PAGE),
            cells@.len() <= p * WORDS_PER_PAGE,
            forall|q: int|
                0 <= q < pages ==> #[trigger] page_count_consistent(
                    num_touched_ram_cells_in_pages@,
                    ts,
                    q,
                ),
        decreases pages - p,
    {
        assert((p + 1) * WORDS_PER_PAGE <= ts.len()) by (nonlinear_arith)
            requires
                p < pages,
                ts.len() == pages * WORDS_PER_PAGE,
        ;
        let base = p * WORDS_PER_PAGE;
        if num_touched_ram_cells_in_pages[p] == 0 {
            proof {
                assert(page_count_consistent(num_touched_ram_cells_in_pages@, ts, p as int));
                assert forall|w: int| base <= w < base + WORDS_PER_PAGE implies ts[w] == 0 by {}
                lemma_untouched_range(ram, ts, base as int, WORDS_PER_PAGE as int);
            }
        } else {
            let mut w: usize = 0;
            while w < WORDS_PER_PAGE
                invariant
                    ram == memory_final_state@,
                    ts == ram_words_last_live_timestamps@,
                    ram.len() == ts.len(),
                    base + WORDS_PER_PAGE <= ts.len(),
                    4 * ts.len() <= 0x1_0000_0000,
                    0 <= w <= WORDS_PER_PAGE,
                    cells@ == touched_cells(ram, ts, base + w),
                    cells@.len() <= base + w,
                decreases WORDS_PER_PAGE - w,
            {
                let idx = base + w;
                let t = ram_words_last_live_timestamps[idx];
                if t != 0 {
                    cells.push(
                        LazyInitAndTeardown {
                            address: (4 * idx) as u32,
                            teardown_value: memory_final_state[idx],
                            teardown_timestamp: t,
                        },
                    );
                }
                w += 1;
            }
        }
        assert((p + 1) * WORDS_PER_PAGE == base + WORDS_PER_PAGE) by (nonlinear_arith)
            requires
                base == p * WORDS_PER_PAGE,
        ;
        p += 1;
    }
    let n = cells.len();
    let q = n / cycles_per_chunk;
    let rem = n % cycles_per_chunk;
    proof {
        vstd::arithmetic::div_mod::lemma_fundamental_div_mod(n as int, cycles_per_chunk as int);
        vstd::arithmetic::div_mod::lemma_fundamental_div_mod(n + cycles_per_chunk - 1, cycles_per_chunk as int);
    }
    let count = if rem == 0 { q } else { q + 1 };
    assert(count == ceil_div(n as int, cycles_per_chunk as int) && n <= count * cycles_per_chunk
        && count * cycles_per_chunk <= n + cycles_per_chunk) by (nonlinear_arith)
        requires
            n == cycles_per_chunk * q + rem,
            0 <= rem < cycles_per_chunk,
            count == if rem == 0 { q as int } else { q + 1 },
            n + cycles_per_chunk - 1 == cycles_per_chunk * ((n + cycles_per_chunk - 1) / (cycles_per_chunk as int))
                + (n + cycles_per_chunk - 1) % (cycles_per_chunk as int),
            0 <= (n + cycles_per_chunk - 1) % (cycles_per_chunk as int) < cycles_per_chunk,
            cycles_per_chunk >= 1,
    ;
    SetupAndTeardownChunker { cells, cycles_per_chunk, chunks_count: count, next_chunk: 0 }
}

} // verus!
