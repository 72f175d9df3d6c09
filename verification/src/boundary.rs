//! The content-defined boundary detector, and its mathematical model.
//!
//! The detector is `fastcdc::FastCDC`: handed a byte window, the three
//! size parameters and an end-of-stream flag, it resolves the window
//! into chunk descriptors front to back.  Its cut decisions are modelled
//! by the uninterpreted function [`cut_of`]; everything the rest of the
//! crate knows about a decision is collected in [`cut_facts`] and
//! assumed only at the single trusted wrapper [`detect_chunks`].

use vstd::prelude::*;

verus! {

/// The configurations under which the boundary detector is defined.
///
/// `0 < min <= avg <= max` is the relation demanded of every
/// configuration.  The absolute bounds on each parameter are the ones
/// `fastcdc::FastCDC::with_eof` asserts, so a call inside them cannot
/// panic.  `min < max` is needed on top: with `min == max` the detector
/// withholds its cut even on a full window of `max` bytes, and a
/// streaming caller could then never free its window.
pub open spec fn valid_params(min: int, avg: int, max: int) -> bool {
    &&& 64 <= min <= 67_108_864
    &&& 256 <= avg <= 268_435_456
    &&& 1024 <= max <= 1_073_741_824
    &&& min <= avg <= max
    &&& min < max
}

/// The length of the first chunk the detector resolves when `w` is the
/// not-yet-chunked front of the stream, or `0` when it withholds the
/// cut because more bytes could still arrive.  The decision is a pure
/// function of the window content, the size parameters and the
/// end-of-stream flag; nothing else.
pub uninterp spec fn cut_of(w: Seq<u8>, min: int, avg: int, max: int, eof: bool) -> int;

/// The range every single cut decision stays in:
/// - a cut never reaches past the window nor past `max`;
/// - a cut shorter than `min` happens only at end of stream, where the
///   whole (short) window becomes the final chunk;
/// - at end of stream a non-empty window always yields a cut;
/// - before end of stream a window holding at least `max` bytes always
///   yields a cut (the pending chunk cannot grow past `max` anyway).
pub open spec fn cut_in_range(w: Seq<u8>, min: int, avg: int, max: int, eof: bool) -> bool {
    let c = cut_of(w, min, avg, max, eof);
    &&& 0 <= c <= w.len()
    &&& c <= max
    &&& (c != 0 && c < min ==> eof && c == w.len())
    &&& (!eof && w.len() >= max ==> c != 0)
    &&& (eof && w.len() > 0 ==> c != 0)
}

/// Everything the library relies on about the detector's cut decision,
/// for one configuration: the range of each decision ([`cut_in_range`]),
/// and stability — a nonzero cut decided *before* end of stream stays
/// the same however the window is extended, and whatever the
/// end-of-stream flag then says.  Stability is what lets a streaming
/// caller commit chunks early and still match a whole-buffer run bit
/// for bit.
///
/// Why `FastCDC::cut` is stable: a nonzero non-final decision is
/// either a rolling-hash match or the forced cut on a window of at
/// least `max` bytes.  A forced cut reads only the first `max` bytes
/// and returns `max`, whatever follows and whatever the flag says.  A
/// hash match at position `p` is found by scanning byte positions
/// upward from `min`, under the strict mask up to the phase boundary
/// and the lenient mask from there to the window's capped size; both
/// bounds only move up (never down) when the window grows, and a
/// lenient-mask match can only occur when the phase boundary has
/// already reached its window-independent ceiling — so the extended
/// scan walks the same positions with the same hash state up to `p`
/// and returns `p` again.
pub open spec fn cut_facts(min: int, avg: int, max: int) -> bool {
    &&& forall|w: Seq<u8>, eof: bool| #![trigger cut_of(w, min, avg, max, eof)]
        cut_in_range(w, min, avg, max, eof)
    &&& forall|w: Seq<u8>, t: Seq<u8>, eof: bool| #![trigger cut_of(w + t, min, avg, max, eof)]
        cut_of(w, min, avg, max, false) != 0 ==> cut_of(
            w + t,
            min,
            avg,
            max,
            eof,
        ) == cut_of(w, min, avg, max, false)
}

/// Every chunk length the detector resolves on window `w`, front to
/// back: cut the first chunk, then continue on what remains, until the
/// detector withholds its cut or the window is exhausted.
pub open spec fn cuts_of(w: Seq<u8>, min: int, avg: int, max: int, eof: bool) -> Seq<int>
    decreases w.len(),
{
    let c = cut_of(w, min, avg, max, eof);
    if 1 <= c <= w.len() {
        seq![c] + cuts_of(w.skip(c), min, avg, max, eof)
    } else {
        Seq::empty()
    }
}

/// The number of bytes a list of cuts consumes in total.
pub open spec fn sum_of(cuts: Seq<int>) -> int
    decreases cuts.len(),
{
    if cuts.len() == 0 {
        0
    } else {
        cuts[0] + sum_of(cuts.skip(1))
    }
}

/// What [`detect_chunks`] promises of its result `r` on window `w`:
/// the returned pairs are the (window-relative offset, length)
/// descriptors of `cuts_of(w, ...)`, offsets accumulating from `0`; and
/// the detector's decisions obey [`cut_facts`].
pub open spec fn detect_post(
    r: Seq<(usize, usize)>,
    w: Seq<u8>,
    min: int,
    avg: int,
    max: int,
    eof: bool,
) -> bool {
    let cuts = cuts_of(w, min, avg, max, eof);
    &&& r.len() == cuts.len()
    &&& forall|i: int|
        0 <= i < r.len() ==> {
            &&& (#[trigger] r[i]).0 as int == sum_of(cuts.take(i))
            &&& r[i].1 as int == cuts[i]
        }
    &&& cut_facts(min, avg, max)
}

/// Relies on `fastcdc::FastCDC::with_eof` and its `Iterator`
/// implementation: starting at the front of the window it resolves
/// chunk after chunk, each decision a pure function of the bytes still
/// unresolved, the three size parameters and the end-of-stream flag;
/// each returned chunk starts where the previous one ended, beginning
/// at offset `0`; iteration stops when the detector withholds a cut or
/// the window is exhausted.  `valid_params` keeps the call inside the
/// parameter ranges that `with_eof` asserts, so it cannot panic.
#[verifier::external_body]
pub(crate) fn detect_chunks(w: &[u8], min: usize, avg: usize, max: usize, eof: bool) -> (r: Vec<
    (usize, usize),
>)
    requires
        valid_params(min as int, avg as int, max as int),
    ensures
        detect_post(r@, w@, min as int, avg as int, max as int, eof),
        r@.len() == 0 <==> !(1 <= cut_of(w@, min as int, avg as int, max as int, eof) <= w@.len()),
{
    fastcdc::FastCDC::with_eof(w, min, avg, max, eof).map(|c| (c.offset, c.length)).collect()
}

/// Splitting a list of cuts splits its byte count.
pub proof fn lemma_sum_append(a: Seq<int>, b: Seq<int>)
    ensures
        sum_of(a + b) == sum_of(a) + sum_of(b),
    decreases a.len(),
{
    if a.len() == 0 {
        assert(a + b =~= b);
    } else {
        assert((a + b).skip(1) =~= a.skip(1) + b);
        lemma_sum_append(a.skip(1), b);
    }
}

/// A list of non-negative cuts consumes a non-negative byte count.
pub proof fn lemma_sum_nonneg(s: Seq<int>)
    requires
        forall|i: int| 0 <= i < s.len() ==> s[i] >= 0,
    ensures
        sum_of(s) >= 0,
    decreases s.len(),
{
    if s.len() > 0 {
        lemma_sum_nonneg(s.skip(1));
    }
}

/// A single cut consumes its own length.
pub proof fn lemma_sum_singleton(c: int)
    ensures
        sum_of(seq![c]) == c,
{
    assert(seq![c].skip(1) =~= Seq::<int>::empty());
    assert(sum_of(Seq::<int>::empty()) == 0);
}

/// Taking one more cut adds exactly that cut's length to the byte count.
pub proof fn lemma_sum_take_succ(s: Seq<int>, i: int)
    requires
        0 <= i < s.len(),
    ensures
        sum_of(s.take(i + 1)) == sum_of(s.take(i)) + s[i],
{
    lemma_sum_singleton(s[i]);
    assert(s.take(i + 1) =~= s.take(i) + seq![s[i]]);
    lemma_sum_append(s.take(i), seq![s[i]]);
}

/// The cuts taken so far never consume more than the whole list does,
/// as long as no cut is negative.
pub proof fn lemma_sum_take_le(s: Seq<int>, j: int)
    requires
        0 <= j <= s.len(),
        forall|i: int| 0 <= i < s.len() ==> s[i] >= 0,
    ensures
        0 <= sum_of(s.take(j)) <= sum_of(s),
{
    assert(s =~= s.take(j) + s.skip(j));
    lemma_sum_append(s.take(j), s.skip(j));
    assert forall|i: int| 0 <= i < s.take(j).len() implies #[trigger] s.take(j)[i] >= 0 by {}
    assert forall|i: int| 0 <= i < s.skip(j).len() implies #[trigger] s.skip(j)[i] >= 0 by {
        assert(s.skip(j)[i] == s[j + i]);
    }
    lemma_sum_nonneg(s.take(j));
    lemma_sum_nonneg(s.skip(j));
}

/// Bounds on a list of resolved chunk lengths: each is between 1 and
/// `max` bytes, and each is at least `min` bytes — except that a pass
/// at end of stream may close with one final shorter chunk.
pub open spec fn cuts_bounded(cuts: Seq<int>, min: int, max: int, eof: bool) -> bool {
    &&& forall|i: int| 0 <= i < cuts.len() ==> 1 <= #[trigger] cuts[i] <= max
    &&& forall|i: int|
        0 <= i < cuts.len() ==> ((!eof || i < cuts.len() - 1) ==> #[trigger] cuts[i] >= min)
}

/// Every pass resolves chunks within [`cuts_bounded`]'s bounds, and
/// together they never consume more than the window holds.
pub proof fn lemma_cuts_bounds(w: Seq<u8>, min: int, avg: int, max: int, eof: bool)
    requires
        cut_facts(min, avg, max),
    ensures
        cuts_bounded(cuts_of(w, min, avg, max, eof), min, max, eof),
        0 <= sum_of(cuts_of(w, min, avg, max, eof)) <= w.len(),
    decreases w.len(),
{
    let c = cut_of(w, min, avg, max, eof);
    let cuts = cuts_of(w, min, avg, max, eof);
    assert(cut_in_range(w, min, avg, max, eof));
    if 1 <= c <= w.len() {
        let rest = cuts_of(w.skip(c), min, avg, max, eof);
        lemma_cuts_bounds(w.skip(c), min, avg, max, eof);
        assert(cuts =~= seq![c] + rest);
        lemma_sum_singleton(c);
        lemma_sum_append(seq![c], rest);
        assert(sum_of(cuts) == c + sum_of(rest));
        assert forall|i: int| 0 <= i < cuts.len() implies 1 <= #[trigger] cuts[i] <= max by {
            if i > 0 {
                assert(cuts[i] == rest[i - 1]);
            }
        }
        assert forall|i: int|
            0 <= i < cuts.len() && (!eof || i < cuts.len() - 1) implies #[trigger] cuts[i]
            >= min by {
            if i == 0 {
                if c < min {
                    // a short cut happens only as the final chunk of the
                    // final pass, and then nothing remains to recurse on
                    assert(eof && c == w.len());
                    assert(w.skip(c).len() == 0);
                    assert(rest =~= Seq::<int>::empty());
                    assert(false);
                }
            } else {
                assert(cuts[i] == rest[i - 1]);
            }
        }
    } else {
        assert(cuts =~= Seq::<int>::empty());
    }
}

/// At end of stream the detector leaves nothing behind: the cuts of a
/// final pass consume the window exactly.
pub proof fn lemma_final_total(w: Seq<u8>, min: int, avg: int, max: int)
    requires
        cut_facts(min, avg, max),
    ensures
        sum_of(cuts_of(w, min, avg, max, true)) == w.len(),
    decreases w.len(),
{
    let c = cut_of(w, min, avg, max, true);
    assert(cut_in_range(w, min, avg, max, true));
    if w.len() == 0 {
        assert(cuts_of(w, min, avg, max, true) =~= Seq::<int>::empty());
    } else {
        let rest = cuts_of(w.skip(c), min, avg, max, true);
        lemma_final_total(w.skip(c), min, avg, max);
        lemma_sum_singleton(c);
        lemma_sum_append(seq![c], rest);
        assert(cuts_of(w, min, avg, max, true) =~= seq![c] + rest);
        assert(sum_of(cuts_of(w, min, avg, max, true)) == c + sum_of(rest));
    }
}

/// Before end of stream, a window of at least `max` bytes always
/// resolves at least one chunk, so a full window always shrinks.
pub proof fn lemma_full_window_progress(w: Seq<u8>, min: int, avg: int, max: int)
    requires
        cut_facts(min, avg, max),
        w.len() >= max,
        max >= 1,
    ensures
        cuts_of(w, min, avg, max, false).len() >= 1,
        sum_of(cuts_of(w, min, avg, max, false)) >= 1,
    decreases w.len(),
{
    let c = cut_of(w, min, avg, max, false);
    assert(cut_in_range(w, min, avg, max, false));
    lemma_cuts_bounds(w, min, avg, max, false);
    let cuts = cuts_of(w, min, avg, max, false);
    assert(cuts[0] == c);
    lemma_sum_take_succ(cuts, 0);
    assert(cuts.take(0) =~= Seq::<int>::empty());
    assert(cuts.take(1) =~= seq![c]);
    assert(cuts =~= cuts.take(1) + cuts.skip(1));
    lemma_sum_append(cuts.take(1), cuts.skip(1));
    assert forall|i: int| 0 <= i < cuts.skip(1).len() implies #[trigger] cuts.skip(1)[i] >= 0 by {
        assert(cuts.skip(1)[i] == cuts[i + 1]);
    }
    lemma_sum_nonneg(cuts.skip(1));
}

/// The keystone of streaming: a non-final pass commits only cuts that
/// every continuation of the stream would make as well.  Chunking
/// `w + t` to the end equals the non-final cuts of `w` followed by
/// chunking the leftover of `w` joined with `t`.
pub proof fn lemma_nonfinal_prefix(w: Seq<u8>, t: Seq<u8>, min: int, avg: int, max: int)
    requires
        cut_facts(min, avg, max),
    ensures
        ({
            let cuts = cuts_of(w, min, avg, max, false);
            cuts_of(w + t, min, avg, max, true) == cuts + cuts_of(
                w.skip(sum_of(cuts)) + t,
                min,
                avg,
                max,
                true,
            )
        }),
    decreases w.len(),
{
    let c = cut_of(w, min, avg, max, false);
    let cuts = cuts_of(w, min, avg, max, false);
    assert(cut_in_range(w, min, avg, max, false));
    if 1 <= c <= w.len() {
        let rest = cuts_of(w.skip(c), min, avg, max, false);
        assert(cut_of(w + t, min, avg, max, true) == c);
        assert((w + t).skip(c) =~= w.skip(c) + t);
        lemma_nonfinal_prefix(w.skip(c), t, min, avg, max);
        lemma_cuts_bounds(w.skip(c), min, avg, max, false);
        lemma_sum_singleton(c);
        lemma_sum_append(seq![c], rest);
        assert(cuts =~= seq![c] + rest);
        assert(sum_of(cuts) == c + sum_of(rest));
        assert(w.skip(c).skip(sum_of(rest)) =~= w.skip(sum_of(cuts)));
        assert(cuts_of(w + t, min, avg, max, true) =~= seq![c] + cuts_of(
            w.skip(c) + t,
            min,
            avg,
            max,
            true,
        ));
        assert(cuts + cuts_of(w.skip(sum_of(cuts)) + t, min, avg, max, true) =~= seq![c] + (rest
            + cuts_of(w.skip(c).skip(sum_of(rest)) + t, min, avg, max, true)));
    } else {
        assert(cuts =~= Seq::<int>::empty());
        assert(w.skip(0) =~= w);
        assert(cuts + cuts_of(w + t, min, avg, max, true) =~= cuts_of(w + t, min, avg, max, true));
    }
}

} // verus!
