//! Locating packets inside a chunked container: the pure arithmetic over a
//! track's chunk offsets, per-sample sizes and sample-to-chunk runs. A
//! demuxer hands these tables in as plain values and asks where each packet
//! starts and how long it is; all file reading stays with the demuxer.

use vstd::prelude::*;

verus! {

/// One run of chunks holding the same number of samples each, with the
/// cumulative index of its first sample.
#[derive(Clone, Copy, Debug, PartialEq, Eq, Structural)]
pub struct SampleToChunk {
    pub first_sample: u32,
    /// Zero-based index of the first chunk of the run.
    pub first_chunk: u32,
    pub samples_per_chunk: u32,
}

/// Where one packet lives: a byte offset to seek to when the packet opens a
/// new chunk, and the packet's length.
#[derive(Clone, Copy, Debug, PartialEq, Eq, Structural)]
pub struct PacketLocation {
    pub seek_offset: Option<u64>,
    pub len: u32,
}

/// The chunk runs accumulated from raw one-based `(first_chunk,
/// samples_per_chunk)` pairs: each run starts at the running sample count,
/// which grows by the gap to the previous run times the run's own samples
/// per chunk. `None` when a run count is zero, the chunk indices do not
/// increase, or the sample count leaves `u32`.
pub open spec fn spec_scan_entries(
    raw: Seq<(u32, u32)>,
    i: nat,
    samples: int,
    prev: int,
    acc: Seq<SampleToChunk>,
) -> Option<Seq<SampleToChunk>>
    decreases raw.len() - i,
{
    if i >= raw.len() {
        Some(acc)
    } else {
        let (fc, spc) = raw[i as int];
        if fc < 1 || fc - 1 < prev || spc < 1 {
            None
        } else {
            let s2 = samples + (fc - 1 - prev) * spc;
            if s2 > u32::MAX {
                None
            } else {
                spec_scan_entries(
                    raw,
                    i + 1,
                    s2,
                    fc - 1,
                    acc.push(
                        SampleToChunk {
                            first_sample: s2 as u32,
                            first_chunk: (fc - 1) as u32,
                            samples_per_chunk: spc,
                        },
                    ),
                )
            }
        }
    }
}

/// The last run whose first sample is at or before `idx`, scanning from the
/// back.
pub open spec fn spec_find_entry(entries: Seq<SampleToChunk>, idx: u32) -> Option<int>
    decreases entries.len(),
{
    if entries.len() == 0 {
        None
    } else if entries[entries.len() - 1].first_sample <= idx {
        Some(entries.len() - 1)
    } else {
        spec_find_entry(entries.drop_last(), idx)
    }
}

/// Where the packet for sample `idx` lives: its run decides the chunk, the
/// chunk decides whether a seek is needed, and the size table gives the
/// length. `None` when the tables do not cover the sample.
pub open spec fn spec_locate(
    offsets: Seq<u64>,
    sizes: Seq<u32>,
    entries: Seq<SampleToChunk>,
    idx: u32,
) -> Option<PacketLocation> {
    match spec_find_entry(entries, idx) {
        None => None,
        Some(t) => {
            let e = entries[t];
            if e.samples_per_chunk < 1 {
                None
            } else {
                let chunks_past = ((idx - e.first_sample) as u32 / e.samples_per_chunk) as int;
                let samples_into_chunk = idx - chunks_past * e.samples_per_chunk;
                let chunk_idx = e.first_chunk + chunks_past;
                if samples_into_chunk == 0 && !(0 <= chunk_idx < offsets.len()) {
                    None
                } else {
                    Some(
                        PacketLocation {
                            seek_offset: if samples_into_chunk == 0 {
                                Some(offsets[chunk_idx])
                            } else {
                                None
                            },
                            len: sizes[idx as int],
                        },
                    )
                }
            }
        },
    }
}

/// A track's packet-location tables: chunk byte offsets, per-sample packet
/// sizes, and the accumulated sample-to-chunk runs.
pub struct SampleTable {
    chunk_offsets: Vec<u64>,
    sample_sizes: Vec<u32>,
    entries: Vec<SampleToChunk>,
}

impl SampleTable {
    /// The chunk byte offsets.
    pub closed spec fn offsets(&self) -> Seq<u64> {
        self.chunk_offsets@
    }

    /// The per-sample packet sizes.
    pub closed spec fn sizes(&self) -> Seq<u32> {
        self.sample_sizes@
    }

    /// The accumulated sample-to-chunk runs.
    pub closed spec fn entries(&self) -> Seq<SampleToChunk> {
        self.entries@
    }

    /// Builds the table, accumulating the raw one-based sample-to-chunk
    /// pairs into runs; rejects tables whose runs are empty, out of order
    /// or larger than `u32` can count.
    pub fn new(chunk_offsets: Vec<u64>, sample_sizes: Vec<u32>, raw: &Vec<(u32, u32)>) -> (r:
        Option<SampleTable>)
        ensures
            match r {
                Some(t) => {
                    &&& t.offsets() == chunk_offsets@
                    &&& t.sizes() == sample_sizes@
                    &&& Some(t.entries()) == spec_scan_entries(raw@, 0, 0, 0, Seq::empty())
                },
                None => spec_scan_entries(raw@, 0, 0, 0, Seq::empty()) is None,
            },
    {
        let mut entries: Vec<SampleToChunk> = Vec::new();
        let mut samples: u32 = 0;
        let mut prev: u32 = 0;
        let mut i: usize = 0;
        while i < raw.len()
            invariant
                i <= raw@.len(),
                entries@.len() == i,
                spec_scan_entries(raw@, 0, 0, 0, Seq::empty()) == spec_scan_entries(
                    raw@,
                    i as nat,
                    samples as int,
                    prev as int,
                    entries@,
                ),
            decreases raw@.len() - i,
        {
            let (fc, spc) = raw[i];
            if fc < 1 || spc < 1 {
                return None;
            }
            let fc0 = fc - 1;
            if fc0 < prev {
                return None;
            }
            proof {
                assert((fc0 - prev) * (spc as int) <= 0xFFFF_FFFF * 0xFFFF_FFFF)
                    by (nonlinear_arith)
                    requires
                        0 <= fc0 - prev <= 0xFFFF_FFFF,
                        0 <= spc <= 0xFFFF_FFFF,
                ;
                assert((fc0 - prev) * (spc as int) >= 0) by (nonlinear_arith)
                    requires
                        fc0 - prev >= 0,
                        spc >= 0,
                ;
            }
            let gap: u64 = ((fc0 - prev) as u64) * (spc as u64);
            let s2: u64 = (samples as u64) + gap;
            if s2 > 0xFFFF_FFFFu64 {
                return None;
            }
            samples = s2 as u32;
            prev = fc0;
            entries.push(
                SampleToChunk { first_sample: samples, first_chunk: fc0, samples_per_chunk: spc },
            );
            i = i + 1;
        }
        Some(SampleTable { chunk_offsets, sample_sizes, entries })
    }

    /// The number of packets the size table covers.
    pub fn sample_count(&self) -> (r: usize)
        ensures
            r == self.sizes().len(),
    {
        self.sample_sizes.len()
    }

    /// Locates the packet for sample `idx`: whether the reader must seek to
    /// a new chunk first, and how many bytes to read.
    pub fn locate(&self, idx: u32) -> (r: Option<PacketLocation>)
        requires
            idx < self.sizes().len(),
        ensures
            r == spec_locate(self.offsets(), self.sizes(), self.entries(), idx),
    {
        // Find the run this sample falls into, scanning from the back.
        let mut t: usize = self.entries.len();
        proof {
            assert(self.entries@.subrange(0, t as int) =~= self.entries@);
        }
        loop
            invariant_except_break
                t <= self.entries@.len(),
                spec_find_entry(self.entries@, idx) == spec_find_entry(
                    self.entries@.subrange(0, t as int),
                    idx,
                ),
            invariant
                idx < self.sizes().len(),
            ensures
                t <= self.entries@.len(),
                spec_find_entry(self.entries@, idx) == (if t > 0 {
                    Some(t - 1 as int)
                } else {
                    None::<int>
                }),
                t > 0 ==> self.entries@[t - 1].first_sample <= idx,
            decreases t,
        {
            if t == 0 {
                proof {
                    assert(self.entries@.subrange(0, 0) =~= Seq::<SampleToChunk>::empty());
                }
                break ;
            }
            proof {
                assert(self.entries@.subrange(0, t as int).drop_last() =~= self.entries@.subrange(
                    0,
                    t - 1 as int,
                ));
            }
            if self.entries[t - 1].first_sample <= idx {
                break ;
            }
            t = t - 1;
        }
        if t == 0 {
            return None;
        }
        let e = self.entries[t - 1];
        if e.samples_per_chunk < 1 {
            return None;
        }

        let chunks_past: u32 = (idx - e.first_sample) / e.samples_per_chunk;
        proof {
            vstd::arithmetic::div_mod::lemma_fundamental_div_mod(
                (idx - e.first_sample) as int,
                e.samples_per_chunk as int,
            );
            vstd::arithmetic::div_mod::lemma_mod_bound(
                (idx - e.first_sample) as int,
                e.samples_per_chunk as int,
            );
        }
        let samples_into_chunk: u32 = idx - chunks_past * e.samples_per_chunk;

        if samples_into_chunk == 0 {
            // The packet opens a new chunk: the reader must seek to it.
            let chunk_idx: u64 = (e.first_chunk as u64) + (chunks_past as u64);
            if chunk_idx >= self.chunk_offsets.len() as u64 {
                return None;
            }
            Some(
                PacketLocation {
                    seek_offset: Some(self.chunk_offsets[chunk_idx as usize]),
                    len: self.sample_sizes[idx as usize],
                },
            )
        } else {
            Some(
                PacketLocation { seek_offset: None, len: self.sample_sizes[idx as usize] },
            )
        }
    }
}

} // verus!
