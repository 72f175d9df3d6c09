//! The streaming buffer manager: accepts a file's bytes through
//! `append` calls of arbitrary size and count, keeps at most one
//! window of `max` unresolved bytes, and turns the stream into the
//! same chunks a whole-buffer run of the boundary detector would
//! produce.

use crate::boundary::{
    cut_facts, cuts_bounded, cuts_of, detect_chunks, detect_post, lemma_cuts_bounds,
    lemma_final_total, lemma_full_window_progress, lemma_nonfinal_prefix, lemma_sum_append,
    lemma_sum_take_le, lemma_sum_take_succ, sum_of, valid_params,
};
use crate::queue::PendingChunks;
use crate::ChunkWithData;
use vstd::prelude::*;

verus! {

/// Default minimum chunk size.  Base-image files of a few tens of
/// megabytes should share chunks, so fairly large chunks are preferred.
pub const MIN_CHUNK_SIZE: usize = 10 * 1024 * 1024;

/// Default average (target) chunk size.
pub const AVG_CHUNK_SIZE: usize = 40 * 1024 * 1024;

/// Default maximum chunk size, and so the window capacity.
pub const MAX_CHUNK_SIZE: usize = 256 * 1024 * 1024;

/// Rejected configuration: the requested chunk-size bounds do not
/// satisfy [`valid_params`].
#[derive(Clone, Copy, Debug, PartialEq, Eq)]
pub struct ConfigurationError;

/// A streaming content-defined chunker for one file's byte stream.
///
/// Writable until `finish` is called, then inert; chunks accumulate in
/// a pending queue until drained with `get_pending_chunks`.
pub struct FastCDCWrapper {
    min: usize,
    avg: usize,
    max: usize,
    buf: Vec<u8>,
    buf_offset: usize,
    global_offset: usize,
    chunks: PendingChunks,
    finished: bool,
    history: Ghost<Seq<u8>>,
    emitted: Ghost<Seq<int>>,
    taken: Ghost<nat>,
}

impl FastCDCWrapper {
    /// All bytes ever accepted through `append`, in stream order.
    pub closed spec fn appended(&self) -> Seq<u8> {
        self.history@
    }

    /// The configured minimum chunk size.
    pub closed spec fn min_spec(&self) -> int {
        self.min as int
    }

    /// The configured average chunk size.
    pub closed spec fn avg_spec(&self) -> int {
        self.avg as int
    }

    /// The configured maximum chunk size.
    pub closed spec fn max_spec(&self) -> int {
        self.max as int
    }

    /// Whether `finish` has been called.
    pub closed spec fn is_finished(&self) -> bool {
        self.finished
    }

    /// The length of every chunk finalized since construction, in
    /// stream order.
    pub closed spec fn produced_lengths(&self) -> Seq<int> {
        self.emitted@
    }

    /// Every chunk finalized since construction, as its
    /// (absolute byte offset, length) descriptor, in stream order.
    pub closed spec fn produced(&self) -> Seq<(int, int)> {
        Seq::new(self.emitted@.len(), |i: int| (sum_of(self.emitted@.take(i)), self.emitted@[i]))
    }

    /// How many finalized chunks were already handed out by
    /// `get_pending_chunks`.
    pub closed spec fn drained_count(&self) -> nat {
        self.taken@
    }

    /// The chunks currently waiting in the pending queue.
    pub closed spec fn pending(&self) -> Seq<ChunkWithData> {
        self.chunks@
    }

    /// The not-yet-chunked tail of the stream, held in the window.
    pub closed spec fn window(&self) -> Seq<u8> {
        self.history@.skip(self.global_offset as int)
    }

    /// Pending chunk `c` agrees with finalized chunk `k`: its offset
    /// is the count of bytes cut before it, its length is cut `k`, and
    /// its data is exactly its slice of the stream.
    spec fn chunk_matches(&self, c: ChunkWithData, k: int) -> bool {
        &&& c.offset as int == sum_of(self.emitted@.take(k))
        &&& c.length as int == self.emitted@[k]
        &&& c.data@ == self.history@.subrange(
            sum_of(self.emitted@.take(k)),
            sum_of(self.emitted@.take(k)) + self.emitted@[k],
        )
    }

    /// The structural invariant: the window is a `max`-byte buffer
    /// whose occupied front is exactly the not-yet-chunked tail of the
    /// stream; the global offset counts exactly the bytes already cut;
    /// and the pending queue holds exactly the finalized chunks not
    /// yet drained, each matching its descriptor.
    spec fn wf_base(&self) -> bool {
        &&& valid_params(self.min as int, self.avg as int, self.max as int)
        &&& self.buf@.len() == self.max
        &&& self.buf_offset <= self.max
        &&& self.history@.len() <= usize::MAX
        &&& self.global_offset as int == sum_of(self.emitted@)
        &&& self.global_offset + self.buf_offset == self.history@.len()
        &&& self.buf@.subrange(0, self.buf_offset as int) == self.history@.skip(
            self.global_offset as int,
        )
        &&& self.taken@ <= self.emitted@.len()
        &&& self.chunks@.len() == self.emitted@.len() - self.taken@
        &&& forall|j: int|
            0 <= j < self.chunks@.len() ==> self.chunk_matches(
                #[trigger] self.chunks@[j],
                self.taken@ + j,
            )
    }

    /// Chunks already committed are exactly those that every
    /// continuation of the stream would commit: however the remaining
    /// bytes arrive, chunking the whole stream to its end yields the
    /// committed cuts followed by the cuts of the window joined with
    /// the remainder.
    spec fn stream_invariant(&self) -> bool {
        forall|t: Seq<u8>|
            #![trigger cuts_of(self.history@ + t, self.min as int, self.avg as int, self.max as int, true)]
            cuts_of(self.history@ + t, self.min as int, self.avg as int, self.max as int, true)
                == self.emitted@ + cuts_of(
                self.history@.skip(self.global_offset as int) + t,
                self.min as int,
                self.avg as int,
                self.max as int,
                true,
            )
    }

    /// Well-formed engine state, as it holds between public calls.
    pub closed spec fn wf(&self) -> bool {
        &&& self.wf_base()
        &&& cuts_bounded(self.emitted@, self.min as int, self.max as int, self.finished)
        &&& !self.finished ==> self.buf_offset < self.max && self.stream_invariant()
        &&& self.finished ==> self.buf_offset == 0 && self.emitted@ == cuts_of(
            self.history@,
            self.min as int,
            self.avg as int,
            self.max as int,
            true,
        )
    }

    /// A fresh chunker with the default chunk-size bounds.
    pub fn new() -> (w: FastCDCWrapper)
        ensures
            w.wf(),
            !w.is_finished(),
            w.min_spec() == MIN_CHUNK_SIZE,
            w.avg_spec() == AVG_CHUNK_SIZE,
            w.max_spec() == MAX_CHUNK_SIZE,
            w.appended() == Seq::<u8>::empty(),
            w.produced() == Seq::<(int, int)>::empty(),
            w.pending() == Seq::<ChunkWithData>::empty(),
            w.drained_count() == 0,
    {
        match Self::new_with_sizes(MIN_CHUNK_SIZE, AVG_CHUNK_SIZE, MAX_CHUNK_SIZE) {
            Ok(w) => w,
            Err(_) => vstd::pervasive::unreached(),
        }
    }

    /// A fresh chunker with the given chunk-size bounds, or
    /// `Err(ConfigurationError)` exactly when they do not satisfy
    /// [`valid_params`].
    pub fn new_with_sizes(min: usize, avg: usize, max: usize) -> (r: Result<
        FastCDCWrapper,
        ConfigurationError,
    >)
        ensures
            (r matches Ok(_)) <==> valid_params(min as int, avg as int, max as int),
            r matches Ok(w) ==> {
                &&& w.wf()
                &&& !w.is_finished()
                &&& w.min_spec() == min
                &&& w.avg_spec() == avg
                &&& w.max_spec() == max
                &&& w.appended() == Seq::<u8>::empty()
                &&& w.produced() == Seq::<(int, int)>::empty()
                &&& w.pending() == Seq::<ChunkWithData>::empty()
                &&& w.drained_count() == 0
            },
    {
        let ok = 64 <= min && min <= 67_108_864 && 256 <= avg && avg <= 268_435_456
            && 1024 <= max && max <= 1_073_741_824 && min <= avg && avg <= max && min < max;
        if !ok {
            return Err(ConfigurationError);
        }
        let buf: Vec<u8> = vec![0u8; max];
        let w = FastCDCWrapper {
            min,
            avg,
            max,
            buf,
            buf_offset: 0,
            global_offset: 0,
            chunks: PendingChunks::new(),
            finished: false,
            history: Ghost(Seq::empty()),
            emitted: Ghost(Seq::empty()),
            taken: Ghost(0nat),
        };
        proof {
            assert(w.buf@.subrange(0, 0) =~= w.history@.skip(0));
            assert forall|t: Seq<u8>|
                #![trigger cuts_of(w.history@ + t, w.min as int, w.avg as int, w.max as int, true)]
                cuts_of(w.history@ + t, w.min as int, w.avg as int, w.max as int, true)
                    == w.emitted@ + cuts_of(
                    w.history@.skip(w.global_offset as int) + t,
                    w.min as int,
                    w.avg as int,
                    w.max as int,
                    true,
                ) by {
                assert(w.history@ + t =~= w.history@.skip(w.global_offset as int) + t);
                assert(w.emitted@ + cuts_of(
                    w.history@.skip(w.global_offset as int) + t,
                    w.min as int,
                    w.avg as int,
                    w.max as int,
                    true,
                ) =~= cuts_of(
                    w.history@.skip(w.global_offset as int) + t,
                    w.min as int,
                    w.avg as int,
                    w.max as int,
                    true,
                ));
            }
            assert(w.produced() =~= Seq::<(int, int)>::empty());
        }
        Ok(w)
    }

    /// One boundary-detection pass over the occupied window:
    /// materialize every chunk the detector resolves, append them to
    /// the pending queue, advance the global offset by the bytes
    /// consumed, and move the unconsumed tail to the front of the
    /// window.
    fn render_chunks(&mut self, eof: bool)
        requires
            old(self).wf_base(),
            !old(self).finished,
            old(self).stream_invariant(),
            cuts_bounded(old(self).emitted@, old(self).min as int, old(self).max as int, false),
            !eof ==> old(self).buf_offset == old(self).max,
        ensures
            final(self).wf_base(),
            final(self).finished == old(self).finished,
            final(self).min == old(self).min,
            final(self).avg == old(self).avg,
            final(self).max == old(self).max,
            final(self).history@ == old(self).history@,
            final(self).taken@ == old(self).taken@,
            final(self).emitted@ == old(self).emitted@ + cuts_of(
                old(self).window(),
                old(self).min as int,
                old(self).avg as int,
                old(self).max as int,
                eof,
            ),
            cuts_bounded(final(self).emitted@, old(self).min as int, old(self).max as int, eof),
            cut_facts(old(self).min as int, old(self).avg as int, old(self).max as int),
            eof ==> final(self).buf_offset == 0,
            !eof ==> final(self).buf_offset < final(self).max,
            !eof ==> final(self).stream_invariant(),
    {
        let ghost pmin = self.min as int;
        let ghost pavg = self.avg as int;
        let ghost pmax = self.max as int;
        let ghost hist = self.history@;
        let ghost g0 = self.global_offset as int;
        let ghost w0 = self.history@.skip(g0);
        let ghost old_emitted = self.emitted@;

        let win = vstd::slice::slice_subrange(self.buf.as_slice(), 0, self.buf_offset);
        let pairs = detect_chunks(win, self.min, self.avg, self.max, eof);
        let ghost cuts = cuts_of(w0, pmin, pavg, pmax, eof);
        proof {
            assert(win@ == w0);
            lemma_cuts_bounds(w0, pmin, pavg, pmax, eof);
        }
        let n = pairs.len();
        let mut used: usize = 0;
        let mut k: usize = 0;
        while k < n
            invariant
                k <= n,
                n == pairs@.len(),
                detect_post(pairs@, w0, pmin, pavg, pmax, eof),
                cuts == cuts_of(w0, pmin, pavg, pmax, eof),
                cuts_bounded(cuts, pmin, pmax, eof),
                0 <= sum_of(cuts) <= w0.len(),
                cut_facts(pmin, pavg, pmax),
                self.min == old(self).min,
                self.avg == old(self).avg,
                self.max == old(self).max,
                pmin == self.min as int,
                pavg == self.avg as int,
                pmax == self.max as int,
                self.finished == old(self).finished,
                self.buf == old(self).buf,
                self.buf_offset == old(self).buf_offset,
                self.global_offset == old(self).global_offset,
                self.history@ == hist,
                self.taken@ == old(self).taken@,
                valid_params(pmin, pavg, pmax),
                self.buf@.len() == self.max,
                self.buf_offset <= self.max,
                hist.len() <= usize::MAX,
                g0 == self.global_offset as int,
                g0 == sum_of(old_emitted),
                g0 + self.buf_offset == hist.len(),
                self.buf@.subrange(0, self.buf_offset as int) == w0,
                w0 == hist.skip(g0),
                w0.len() == self.buf_offset,
                old_emitted == old(self).emitted@,
                self.taken@ <= old_emitted.len(),
                used as int == sum_of(cuts.take(k as int)),
                used <= self.buf_offset,
                self.emitted@ == old_emitted + cuts.take(k as int),
                self.chunks@.len() == self.emitted@.len() - self.taken@,
                forall|j: int|
                    0 <= j < self.chunks@.len() ==> self.chunk_matches(
                        #[trigger] self.chunks@[j],
                        self.taken@ + j,
                    ),
            decreases n - k,
        {
            let pr = pairs[k];
            let rel_off = pr.0;
            let len = pr.1;
            proof {
                assert(rel_off as int == sum_of(cuts.take(k as int)));
                assert(len as int == cuts[k as int]);
                lemma_sum_take_succ(cuts, k as int);
                lemma_sum_take_le(cuts, k as int + 1);
            }
            let mut data: Vec<u8> = Vec::new();
            let mut j: usize = 0;
            while j < len
                invariant
                    j <= len,
                    used + len <= self.buf_offset,
                    self.buf_offset <= self.buf@.len(),
                    data@ == self.buf@.subrange(used as int, used as int + j as int),
                decreases len - j,
            {
                let b = self.buf[used + j];
                data.push(b);
                j += 1;
                proof {
                    assert(data@ =~= self.buf@.subrange(used as int, used as int + j as int));
                }
            }
            let off = self.global_offset + rel_off;
            let c = ChunkWithData { offset: off, length: len, data };
            let ghost pre_emitted = self.emitted@;
            let ghost pre_chunks = self.chunks@;
            self.chunks.push(c);
            self.emitted = Ghost(self.emitted@.push(len as int));
            proof {
                lemma_sum_append(old_emitted, cuts.take(k as int));
                assert(self.emitted@ =~= old_emitted + cuts.take(k as int + 1));
                assert forall|j2: int| 0 <= j2 < self.chunks@.len() implies self.chunk_matches(
                    #[trigger] self.chunks@[j2],
                    self.taken@ + j2,
                ) by {
                    let kk = self.taken@ + j2;
                    if j2 < self.chunks@.len() - 1 {
                        assert(self.chunks@[j2] == pre_chunks[j2]);
                        assert(self.emitted@.take(kk) =~= pre_emitted.take(kk));
                        assert(self.emitted@[kk] == pre_emitted[kk]);
                    } else {
                        // the chunk just pushed
                        assert(self.chunks@[j2] == c);
                        assert(kk == pre_emitted.len());
                        assert(self.emitted@.take(kk) =~= pre_emitted);
                        assert(c.offset as int == g0 + used);
                        assert(self.emitted@[kk] == len as int);
                        assert(c.data@ =~= self.buf@.subrange(
                            used as int,
                            used as int + len as int,
                        ));
                        assert forall|m: int| 0 <= m < len as int implies c.data@[m] == hist[g0
                            + used + m] by {
                            assert(self.buf@[used + m] == self.buf@.subrange(
                                0,
                                self.buf_offset as int,
                            )[used + m]);
                            assert(w0[used + m] == hist[g0 + used + m]);
                        }
                        assert(c.data@ =~= hist.subrange(
                            g0 + used,
                            g0 + used + len as int,
                        ));
                    }
                }
            }
            used = used + len;
            k = k + 1;
        }
        proof {
            assert(cuts.take(n as int) =~= cuts);
            lemma_sum_append(old_emitted, cuts);
        }
        let ghost buf0 = self.buf@;
        let leftover = self.buf_offset - used;
        let mut j: usize = 0;
        while j < leftover
            invariant
                j <= leftover,
                used + leftover == self.buf_offset,
                self.min == old(self).min,
                self.avg == old(self).avg,
                self.max == old(self).max,
                self.finished == old(self).finished,
                self.buf_offset == old(self).buf_offset,
                self.global_offset == old(self).global_offset,
                self.history@ == hist,
                self.taken@ == old(self).taken@,
                self.emitted@ == old_emitted + cuts,
                self.chunks@.len() == self.emitted@.len() - self.taken@,
                forall|j2: int|
                    0 <= j2 < self.chunks@.len() ==> self.chunk_matches(
                        #[trigger] self.chunks@[j2],
                        self.taken@ + j2,
                    ),
                self.buf@.len() == buf0.len(),
                buf0.len() == self.max,
                self.buf_offset <= self.max,
                buf0.subrange(0, self.buf_offset as int) == w0,
                w0.len() == self.buf_offset,
                forall|m: int| 0 <= m < j ==> self.buf@[m] == w0[used + m],
                forall|m: int| j <= m < buf0.len() ==> self.buf@[m] == buf0[m],
            decreases leftover - j,
        {
            let b = self.buf[used + j];
            self.buf.set(j, b);
            j += 1;
        }
        self.global_offset = self.global_offset + used;
        self.buf_offset = leftover;
        proof {
            assert(self.buf@.subrange(0, leftover as int) =~= hist.skip(g0 + used as int)) by {
                assert forall|m: int| 0 <= m < leftover as int implies self.buf@[m] == hist[g0
                    + used + m] by {
                    assert(self.buf@[m] == w0[used + m]);
                    assert(w0[used + m] == hist[g0 + used + m]);
                }
            }
            // the combined cut list stays within bounds
            assert forall|i: int| 0 <= i < self.emitted@.len() implies 1 <= #[trigger] self
                .emitted@[i] <= pmax by {
                if i >= old_emitted.len() {
                    assert(self.emitted@[i] == cuts[i - old_emitted.len()]);
                }
            }
            assert forall|i: int|
                0 <= i < self.emitted@.len() && (!eof || i < self.emitted@.len() - 1) implies #[trigger] self
                .emitted@[i] >= pmin by {
                if i >= old_emitted.len() {
                    assert(self.emitted@[i] == cuts[i - old_emitted.len()]);
                }
            }
            // pending chunks still match: emitted grew only at the back
            if eof {
                lemma_final_total(w0, pmin, pavg, pmax);
            } else {
                lemma_full_window_progress(w0, pmin, pavg, pmax);
                lemma_cuts_bounds(w0, pmin, pavg, pmax, false);
                assert(cuts[0] >= 1);
                assert(sum_of(cuts) >= 1);
                assert forall|t: Seq<u8>|
                    #![trigger cuts_of(self.history@ + t, self.min as int, self.avg as int, self.max as int, true)]
                    cuts_of(self.history@ + t, self.min as int, self.avg as int, self.max as int, true)
                        == self.emitted@ + cuts_of(
                        self.history@.skip(self.global_offset as int) + t,
                        self.min as int,
                        self.avg as int,
                        self.max as int,
                        true,
                    ) by {
                    assert(cuts_of(hist + t, pmin, pavg, pmax, true) == old_emitted + cuts_of(
                        w0 + t,
                        pmin,
                        pavg,
                        pmax,
                        true,
                    ));
                    lemma_nonfinal_prefix(w0, t, pmin, pavg, pmax);
                    assert(w0.skip(sum_of(cuts)) =~= hist.skip(g0 + sum_of(cuts)));
                    assert(self.emitted@ + cuts_of(
                        self.history@.skip(self.global_offset as int) + t,
                        pmin,
                        pavg,
                        pmax,
                        true,
                    ) =~= old_emitted + (cuts + cuts_of(
                        w0.skip(sum_of(cuts)) + t,
                        pmin,
                        pavg,
                        pmax,
                        true,
                    )));
                }
            }
        }
    }

    /// Accept `data` in its entirety, copying it into the window and
    /// triggering a non-final boundary-detection pass whenever the
    /// window fills — also when a write lands exactly at capacity — so
    /// that the window never holds more than `max` unresolved bytes,
    /// however large or small the writes are.  Returns the number of
    /// bytes accepted: always all of them.
    ///
    /// Must not be called after [`finish`](Self::finish): writing to a
    /// finished stream is a precondition violation, not a recoverable
    /// error.
    pub fn append(&mut self, data: &[u8]) -> (n: usize)
        requires
            old(self).wf(),
            !old(self).is_finished(),
            old(self).appended().len() + data@.len() <= usize::MAX,
        ensures
            final(self).wf(),
            !final(self).is_finished(),
            n == data@.len(),
            final(self).appended() == old(self).appended() + data@,
            final(self).min_spec() == old(self).min_spec(),
            final(self).avg_spec() == old(self).avg_spec(),
            final(self).max_spec() == old(self).max_spec(),
            final(self).drained_count() == old(self).drained_count(),
    {
        let mut i: usize = 0;
        while i < data.len()
            invariant
                i <= data@.len(),
                self.wf(),
                !self.is_finished(),
                self.history@ == old(self).history@ + data@.subrange(0, i as int),
                old(self).history@.len() + data@.len() <= usize::MAX,
                self.min == old(self).min,
                self.avg == old(self).avg,
                self.max == old(self).max,
                self.taken@ == old(self).taken@,
            decreases data@.len() - i,
        {
            let avail = self.max - self.buf_offset;
            let rem = data.len() - i;
            let room = if avail < rem {
                avail
            } else {
                rem
            };
            let ghost pre = *self;
            let mut j: usize = 0;
            while j < room
                invariant
                    j <= room,
                    i + room <= data@.len(),
                    data@.len() <= usize::MAX,
                    pre.buf_offset + room <= pre.max,
                    self.min == pre.min,
                    self.avg == pre.avg,
                    self.max == pre.max,
                    self.finished == pre.finished,
                    self.buf_offset == pre.buf_offset,
                    self.global_offset == pre.global_offset,
                    self.history@ == pre.history@,
                    self.emitted@ == pre.emitted@,
                    self.taken@ == pre.taken@,
                    self.chunks@ == pre.chunks@,
                    self.buf@.len() == pre.buf@.len(),
                    pre.buf@.len() == pre.max,
                    forall|m: int| 0 <= m < pre.buf_offset as int ==> self.buf@[m] == pre.buf@[m],
                    forall|m: int|
                        0 <= m < j as int ==> #[trigger] self.buf@[pre.buf_offset + m] == data@[i
                            + m],
                decreases room - j,
            {
                let b = data[i + j];
                self.buf.set(self.buf_offset + j, b);
                j += 1;
            }
            let ghost d = data@.subrange(i as int, i as int + room as int);
            self.buf_offset = self.buf_offset + room;
            self.history = Ghost(self.history@ + d);
            proof {
                let g = pre.global_offset as int;
                assert(self.buf@.subrange(0, self.buf_offset as int) =~= self.history@.skip(
                    g,
                )) by {
                    assert forall|m: int| 0 <= m < self.buf_offset as int implies self.buf@[m]
                        == self.history@[g + m] by {
                        if m < pre.buf_offset as int {
                            assert(self.buf@[m] == pre.buf@[m]);
                            assert(pre.buf@[m] == pre.buf@.subrange(0, pre.buf_offset as int)[m]);
                            assert(pre.buf@[m] == pre.history@[g + m]);
                        } else {
                            assert(self.buf@[pre.buf_offset + (m - pre.buf_offset)] == data@[i + (m
                                - pre.buf_offset)]);
                            assert(self.history@[g + m] == d[m - pre.buf_offset]);
                        }
                    }
                }
                assert forall|t: Seq<u8>|
                    #![trigger cuts_of(self.history@ + t, self.min as int, self.avg as int, self.max as int, true)]
                    cuts_of(self.history@ + t, self.min as int, self.avg as int, self.max as int, true)
                        == self.emitted@ + cuts_of(
                        self.history@.skip(self.global_offset as int) + t,
                        self.min as int,
                        self.avg as int,
                        self.max as int,
                        true,
                    ) by {
                    assert(self.history@ + t =~= pre.history@ + (d + t));
                    assert(cuts_of(pre.history@ + (d + t), pre.min as int, pre.avg as int, pre.max as int, true)
                        == pre.emitted@ + cuts_of(
                        pre.history@.skip(g) + (d + t),
                        pre.min as int,
                        pre.avg as int,
                        pre.max as int,
                        true,
                    ));
                    assert(self.history@.skip(self.global_offset as int) + t =~= pre.history@.skip(
                        g,
                    ) + (d + t));
                }
                assert forall|j2: int| 0 <= j2 < self.chunks@.len() implies self.chunk_matches(
                    #[trigger] self.chunks@[j2],
                    self.taken@ + j2,
                ) by {
                    let kk = self.taken@ + j2;
                    let a = sum_of(self.emitted@.take(kk));
                    let b2 = a + self.emitted@[kk];
                    assert(pre.chunk_matches(pre.chunks@[j2], kk));
                    lemma_sum_take_succ(self.emitted@, kk);
                    assert forall|i2: int| 0 <= i2 < self.emitted@.len() implies #[trigger] self
                        .emitted@[i2] >= 0 by {}
                    lemma_sum_take_le(self.emitted@, kk + 1);
                    assert(b2 == sum_of(self.emitted@.take(kk + 1)));
                    assert(b2 <= sum_of(self.emitted@));
                    assert(self.history@.subrange(a, b2) =~= pre.history@.subrange(a, b2));
                }
                assert(self.history@ =~= old(self).history@ + data@.subrange(
                    0,
                    i as int + room as int,
                ));
            }
            i = i + room;
            if self.buf_offset == self.max {
                self.render_chunks(false);
            }
        }
        proof {
            assert(data@.subrange(0, data@.len() as int) =~= data@);
        }
        data.len()
    }

    /// End the stream: one final boundary-detection pass flushes every
    /// remaining byte into chunks, including a possibly short final
    /// chunk.  Afterwards the finalized chunks are exactly what a
    /// whole-buffer run of the detector over all appended bytes
    /// produces, and together they cover every appended byte.
    ///
    /// Must be called exactly once, after the last
    /// [`append`](Self::append).
    pub fn finish(&mut self)
        requires
            old(self).wf(),
            !old(self).is_finished(),
        ensures
            final(self).wf(),
            final(self).is_finished(),
            final(self).appended() == old(self).appended(),
            final(self).min_spec() == old(self).min_spec(),
            final(self).avg_spec() == old(self).avg_spec(),
            final(self).max_spec() == old(self).max_spec(),
            final(self).drained_count() == old(self).drained_count(),
            final(self).produced_lengths() == cuts_of(
                old(self).appended(),
                old(self).min_spec(),
                old(self).avg_spec(),
                old(self).max_spec(),
                true,
            ),
            sum_of(final(self).produced_lengths()) == old(self).appended().len(),
            old(self).appended().len() == 0 ==> final(self).produced() == Seq::<(int, int)>::empty(),
    {
        let ghost pre = *self;
        self.render_chunks(true);
        self.finished = true;
        proof {
            let pmin = pre.min as int;
            let pavg = pre.avg as int;
            let pmax = pre.max as int;
            assert(pre.history@ + Seq::<u8>::empty() =~= pre.history@);
            assert(cuts_of(pre.history@ + Seq::<u8>::empty(), pmin, pavg, pmax, true)
                == pre.emitted@ + cuts_of(
                pre.history@.skip(pre.global_offset as int) + Seq::<u8>::empty(),
                pmin,
                pavg,
                pmax,
                true,
            ));
            assert(pre.window() + Seq::<u8>::empty() =~= pre.window());
            lemma_final_total(pre.window(), pmin, pavg, pmax);
            lemma_sum_append(pre.emitted@, cuts_of(pre.window(), pmin, pavg, pmax, true));
            if pre.history@.len() == 0 {
                assert(self.emitted@ =~= Seq::<int>::empty());
                assert(self.produced() =~= Seq::<(int, int)>::empty());
            }
        }
    }

    /// Move every chunk finalized since the previous drain into
    /// `pending`, oldest first, replacing `pending`'s previous
    /// contents and leaving the internal queue empty.  Each handed-out
    /// chunk carries its absolute offset, its length, and exactly its
    /// slice of the appended stream.  Safe to call at any time; with
    /// nothing newly finalized it hands out nothing.
    pub fn get_pending_chunks(&mut self, pending: &mut Vec<ChunkWithData>)
        requires
            old(self).wf(),
        ensures
            final(self).wf(),
            final(self).appended() == old(self).appended(),
            final(self).produced() == old(self).produced(),
            final(self).produced_lengths() == old(self).produced_lengths(),
            final(self).is_finished() == old(self).is_finished(),
            final(self).min_spec() == old(self).min_spec(),
            final(self).avg_spec() == old(self).avg_spec(),
            final(self).max_spec() == old(self).max_spec(),
            final(self).drained_count() == final(self).produced().len(),
            final(self).pending() == Seq::<ChunkWithData>::empty(),
            final(pending)@ == old(self).pending(),
            final(pending)@.len() == old(self).produced().len() - old(self).drained_count(),
            forall|j: int|
                0 <= j < final(pending)@.len() ==> {
                    let k = old(self).drained_count() + j;
                    &&& (#[trigger] final(pending)@[j]).offset as int == old(self).produced()[k].0
                    &&& final(pending)@[j].length as int == old(self).produced()[k].1
                    &&& final(pending)@[j].data@ == old(self).appended().subrange(
                        old(self).produced()[k].0,
                        old(self).produced()[k].0 + old(self).produced()[k].1,
                    )
                },
    {
        self.chunks.take_all(pending);
        self.taken = Ghost(self.emitted@.len());
    }
}

/// Write-granularity invariance: two finished streams that were
/// configured alike and received the same bytes produced the same
/// (offset, length) chunk sequence — however differently those bytes
/// were partitioned across `append` calls.
pub proof fn lemma_write_granularity_invariance(a: &FastCDCWrapper, b: &FastCDCWrapper)
    requires
        a.wf(),
        b.wf(),
        a.is_finished(),
        b.is_finished(),
        a.min_spec() == b.min_spec(),
        a.avg_spec() == b.avg_spec(),
        a.max_spec() == b.max_spec(),
        a.appended() == b.appended(),
    ensures
        a.produced() == b.produced(),
        a.produced_lengths() == b.produced_lengths(),
{
    assert(a.produced() =~= b.produced());
}

/// Contiguity: the produced chunks tile the stream without gaps or
/// overlaps — the first starts at offset 0, and each further chunk
/// starts exactly where the previous one ended.
pub proof fn lemma_contiguity(e: &FastCDCWrapper)
    requires
        e.wf(),
    ensures
        e.produced().len() > 0 ==> e.produced()[0].0 == 0,
        forall|i: int|
            0 <= i < e.produced().len() - 1 ==> (#[trigger] e.produced()[i]).0 + e.produced()[i].1
                == e.produced()[i + 1].0,
{
    let cuts = e.produced_lengths();
    if e.produced().len() > 0 {
        assert(cuts.take(0) =~= Seq::<int>::empty());
    }
    assert forall|i: int| 0 <= i < e.produced().len() - 1 implies (#[trigger] e.produced()[i]).0
        + e.produced()[i].1 == e.produced()[i + 1].0 by {
        lemma_sum_take_succ(cuts, i);
    }
}

/// Size bounds: every produced chunk is at most `max` bytes long, and
/// every one except the last is at least `min` bytes long.
pub proof fn lemma_size_bounds(e: &FastCDCWrapper)
    requires
        e.wf(),
    ensures
        forall|i: int|
            0 <= i < e.produced().len() ==> 1 <= (#[trigger] e.produced()[i]).1 <= e.max_spec(),
        forall|i: int|
            0 <= i < e.produced().len() - 1 ==> (#[trigger] e.produced()[i]).1 >= e.min_spec(),
{
    let cuts = e.produced_lengths();
    assert forall|i: int| 0 <= i < e.produced().len() implies 1 <= (#[trigger] e.produced()[i]).1
        <= e.max_spec() by {
        assert(1 <= cuts[i] <= e.max_spec());
    }
    assert forall|i: int| 0 <= i < e.produced().len() - 1 implies (#[trigger] e.produced()[i]).1
        >= e.min_spec() by {
        assert(cuts[i] >= e.min_spec());
    }
}

/// Bounded memory: however many bytes were ever appended, fewer than
/// `max` of them are still unresolved inside the engine — its window
/// is the only internal buffer of stream bytes, fixed at `max` bytes.
/// After `finish`, no byte is unresolved at all.
pub proof fn lemma_bounded_memory(e: &FastCDCWrapper)
    requires
        e.wf(),
    ensures
        !e.is_finished() ==> e.appended().len() - sum_of(e.produced_lengths()) < e.max_spec(),
        e.is_finished() ==> e.appended().len() == sum_of(e.produced_lengths()),
{
}

/// Drain idempotence: once every finalized chunk has been handed out
/// and nothing new was produced, nothing is pending — so a second
/// drain hands out nothing.
pub proof fn lemma_drain_idempotent(e: &FastCDCWrapper)
    requires
        e.wf(),
        e.drained_count() == e.produced().len(),
    ensures
        e.pending().len() == 0,
{
}

} // verus!
