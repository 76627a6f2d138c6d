//! The functional model of an icy stream: which bytes are audio, which
//! frames follow, and where, given the count of audio bytes still owed
//! before the next frame and the interval at which frames recur.
//!
//! A frame is one length byte holding `n`, followed by `16 * n` bytes of
//! payload. A frame whose payload runs past the end of the stream is
//! truncated: the audio ends at its boundary and it yields no event.

use vstd::prelude::*;

verus! {

/// The bytes of `stream` from offset `pos` on; empty past the end.
pub open spec fn rest_of(stream: Seq<u8>, pos: int) -> Seq<u8> {
    if 0 <= pos <= stream.len() {
        stream.skip(pos)
    } else {
        Seq::empty()
    }
}

/// The audio bytes remaining in `rest`, when `m` audio bytes are still owed
/// before the next frame and frames recur every `i` audio bytes after it.
pub open spec fn audio_rem(rest: Seq<u8>, m: int, i: int) -> Seq<u8>
    decreases rest.len(),
{
    if m < 0 {
        Seq::empty()
    } else if rest.len() <= m {
        rest
    } else {
        let fl = 16 * (rest[m] as int);
        if m + 1 + fl > rest.len() {
            rest.take(m)
        } else {
            rest.take(m) + audio_rem(rest.skip(m + 1 + fl), i, i)
        }
    }
}

/// The payloads of the complete, non-empty frames remaining in `rest`, in
/// stream order: the frames whose record is decoded and reported.
pub open spec fn events_rem(rest: Seq<u8>, m: int, i: int) -> Seq<Seq<u8>>
    decreases rest.len(),
{
    if m < 0 {
        Seq::empty()
    } else if rest.len() <= m {
        Seq::empty()
    } else {
        let fl = 16 * (rest[m] as int);
        if m + 1 + fl > rest.len() {
            Seq::empty()
        } else {
            (if fl > 0 {
                seq![rest.subrange(m + 1, m + 1 + fl)]
            } else {
                Seq::<Seq<u8>>::empty()
            }) + events_rem(rest.skip(m + 1 + fl), i, i)
        }
    }
}

/// The payload lengths of the complete frames remaining in `rest`, in
/// stream order, zero-length frames included: what the size history records.
pub open spec fn sizes_rem(rest: Seq<u8>, m: int, i: int) -> Seq<int>
    decreases rest.len(),
{
    if m < 0 {
        Seq::empty()
    } else if rest.len() <= m {
        Seq::empty()
    } else {
        let fl = 16 * (rest[m] as int);
        if m + 1 + fl > rest.len() {
            Seq::empty()
        } else {
            seq![fl] + sizes_rem(rest.skip(m + 1 + fl), i, i)
        }
    }
}

/// Whether no remaining frame of `rest` is truncated: the stream either
/// ends in audio (a boundary with no length byte included) or every frame
/// begun is complete.
pub open spec fn wf_rem(rest: Seq<u8>, m: int, i: int) -> bool
    decreases rest.len(),
{
    if m < 0 {
        true
    } else if rest.len() <= m {
        true
    } else {
        let fl = 16 * (rest[m] as int);
        m + 1 + fl <= rest.len() && wf_rem(rest.skip(m + 1 + fl), i, i)
    }
}

/// The physical bytes the frames of `sizes` occupy: one length byte plus
/// the payload, each.
pub open spec fn overhead(sizes: Seq<int>) -> int
    decreases sizes.len(),
{
    if sizes.len() == 0 {
        0
    } else {
        1 + sizes[0] + overhead(sizes.drop_first())
    }
}

/// Whether `sizes` lists, in order, the payload lengths of the frames of
/// `stream` starting at the segment start `q`: each frame's length byte
/// sits `i` audio bytes on, and each frame is complete within `stream`.
pub open spec fn frames_agree_from(stream: Seq<u8>, i: int, q: int, sizes: Seq<int>) -> bool
    decreases sizes.len(),
{
    if sizes.len() == 0 {
        true
    } else {
        &&& 0 <= q
        &&& q + i < stream.len()
        &&& sizes[0] == 16 * (stream[q + i] as int)
        &&& q + i + 1 + sizes[0] <= stream.len()
        &&& frames_agree_from(stream, i, q + i + 1 + sizes[0], sizes.drop_first())
    }
}

/// `h` with `x` appended, the oldest entry evicted when the length would
/// pass `cap`.
pub open spec fn push_evict(h: Seq<int>, x: int, cap: int) -> Seq<int> {
    let h1 = h.push(x);
    if h1.len() > cap {
        h1.drop_first()
    } else {
        h1
    }
}

/// `h` with each entry of `xs` appended in order by [`push_evict`].
pub open spec fn push_evict_all(h: Seq<int>, xs: Seq<int>, cap: int) -> Seq<int>
    decreases xs.len(),
{
    if xs.len() == 0 {
        h
    } else {
        push_evict_all(push_evict(h, xs[0], cap), xs.drop_first(), cap)
    }
}

/// No more audio remains than bytes remain.
pub proof fn lemma_audio_rem_len(rest: Seq<u8>, m: int, i: int)
    ensures
        audio_rem(rest, m, i).len() <= rest.len(),
    decreases rest.len(),
{
    if m >= 0 && rest.len() > m {
        let fl = 16 * (rest[m] as int);
        if m + 1 + fl <= rest.len() {
            lemma_audio_rem_len(rest.skip(m + 1 + fl), i, i);
        }
    }
}

/// Delivering `d` audio bytes within the current run leaves the models of
/// the rest of the stream intact, shifted by `d`.
pub proof fn lemma_advance_audio(rest: Seq<u8>, m: int, i: int, d: int)
    requires
        0 <= d <= m,
        d <= rest.len(),
    ensures
        audio_rem(rest, m, i).len() >= d,
        audio_rem(rest, m, i).take(d) == rest.take(d),
        audio_rem(rest.skip(d), m - d, i) == audio_rem(rest, m, i).skip(d),
        events_rem(rest.skip(d), m - d, i) == events_rem(rest, m, i),
        sizes_rem(rest.skip(d), m - d, i) == sizes_rem(rest, m, i),
        wf_rem(rest.skip(d), m - d, i) == wf_rem(rest, m, i),
{
    let a = audio_rem(rest, m, i);
    let rs = rest.skip(d);
    if rest.len() <= m {
        assert(a == rest);
        assert(rs.len() <= m - d);
        assert(audio_rem(rs, m - d, i) =~= a.skip(d));
        assert(a.take(d) =~= rest.take(d));
    } else {
        let fl = 16 * (rest[m] as int);
        assert(rs.len() > m - d);
        assert(rs[m - d] == rest[m]);
        assert((m - d) + 1 + fl > rs.len() <==> m + 1 + fl > rest.len());
        if m + 1 + fl > rest.len() {
            assert(a == rest.take(m));
            assert(audio_rem(rs, m - d, i) == rs.take(m - d));
            assert(rs.take(m - d) =~= a.skip(d));
            assert(a.take(d) =~= rest.take(d));
        } else {
            assert(rs.skip((m - d) + 1 + fl) =~= rest.skip(m + 1 + fl));
            assert(a == rest.take(m) + audio_rem(rest.skip(m + 1 + fl), i, i));
            assert(audio_rem(rs, m - d, i) == rs.take(m - d) + audio_rem(
                rest.skip(m + 1 + fl),
                i,
                i,
            ));
            assert(rs.take(m - d) =~= rest.take(m).skip(d));
            assert(audio_rem(rs, m - d, i) =~= a.skip(d));
            assert(a.take(d) =~= rest.take(d));
            assert(rs.subrange((m - d) + 1, (m - d) + 1 + fl) =~= rest.subrange(m + 1, m + 1 + fl));
        }
    }
}

/// Consuming the complete frame at the boundary peels its event and size
/// off the models and leaves the audio unchanged.
pub proof fn lemma_consume_frame(rest: Seq<u8>, i: int)
    requires
        rest.len() > 0,
        1 + 16 * (rest[0] as int) <= rest.len(),
    ensures
        ({
            let fl = 16 * (rest[0] as int);
            &&& audio_rem(rest.skip(1 + fl), i, i) == audio_rem(rest, 0, i)
            &&& events_rem(rest, 0, i) == (if fl > 0 {
                seq![rest.subrange(1, 1 + fl)]
            } else {
                Seq::<Seq<u8>>::empty()
            }) + events_rem(rest.skip(1 + fl), i, i)
            &&& sizes_rem(rest, 0, i) == seq![fl] + sizes_rem(rest.skip(1 + fl), i, i)
            &&& wf_rem(rest.skip(1 + fl), i, i) == wf_rem(rest, 0, i)
        }),
{
    let fl = 16 * (rest[0] as int);
    assert(audio_rem(rest, 0, i) == rest.take(0) + audio_rem(rest.skip(1 + fl), i, i));
    assert(rest.take(0) + audio_rem(rest.skip(1 + fl), i, i) =~= audio_rem(
        rest.skip(1 + fl),
        i,
        i,
    ));
}

/// `overhead` over an appended size.
pub proof fn lemma_overhead_push(sizes: Seq<int>, x: int)
    ensures
        overhead(sizes.push(x)) == overhead(sizes) + 1 + x,
    decreases sizes.len(),
{
    if sizes.len() == 0 {
        assert(sizes.push(x)[0] == x);
        assert(sizes.push(x).drop_first() =~= Seq::<int>::empty());
        assert(overhead(sizes.push(x)) == 1 + x + overhead(Seq::<int>::empty()));
    } else {
        assert(sizes.push(x)[0] == sizes[0]);
        assert(sizes.push(x).drop_first() =~= sizes.drop_first().push(x));
        lemma_overhead_push(sizes.drop_first(), x);
        assert(overhead(sizes.push(x)) == 1 + sizes[0] + overhead(sizes.drop_first().push(x)));
    }
}

/// The frames of `sizes` lie within `stream`, their lengths are byte
/// values, and the next segment start is in range.
pub proof fn lemma_frames_agree_bounds(stream: Seq<u8>, i: int, q: int, sizes: Seq<int>)
    requires
        frames_agree_from(stream, i, q, sizes),
        0 <= q,
        0 <= i,
    ensures
        overhead(sizes) >= sizes.len(),
        forall|j: int| 0 <= j < sizes.len() ==> 0 <= #[trigger] sizes[j] <= 16 * 255,
        sizes.len() > 0 ==> q + i * sizes.len() + overhead(sizes) <= stream.len(),
    decreases sizes.len(),
{
    if sizes.len() > 0 {
        let q2 = q + i + 1 + sizes[0];
        lemma_frames_agree_bounds(stream, i, q2, sizes.drop_first());
        assert forall|j: int| 0 <= j < sizes.len() implies 0 <= #[trigger] sizes[j] <= 16
            * 255 by {
            if j > 0 {
                assert(sizes[j] == sizes.drop_first()[j - 1]);
            }
        }
        assert(overhead(sizes) == 1 + sizes[0] + overhead(sizes.drop_first()));
        if sizes.len() > 1 {
            assert(q2 + i * (sizes.len() - 1) + overhead(sizes.drop_first()) <= stream.len());
            assert(i * sizes.len() == i * (sizes.len() - 1) + i) by (nonlinear_arith);
        } else {
            assert(sizes.drop_first().len() == 0);
            assert(overhead(sizes.drop_first()) == 0);
            assert(i * sizes.len() == i) by (nonlinear_arith)
                requires
                    sizes.len() == 1,
            ;
            assert(q + i + 1 + sizes[0] <= stream.len());
        }
    }
}

/// A prefix of an agreeing size list agrees too.
pub proof fn lemma_frames_agree_take(stream: Seq<u8>, i: int, q: int, sizes: Seq<int>, k: int)
    requires
        frames_agree_from(stream, i, q, sizes),
        0 <= k <= sizes.len(),
    ensures
        frames_agree_from(stream, i, q, sizes.take(k)),
    decreases k,
{
    if k > 0 {
        let q2 = q + i + 1 + sizes[0];
        assert(sizes.take(k).drop_first() =~= sizes.drop_first().take(k - 1));
        lemma_frames_agree_take(stream, i, q2, sizes.drop_first(), k - 1);
    }
}

/// Appending one more frame, found complete where the list ends, keeps the
/// list agreeing.
pub proof fn lemma_frames_agree_push(stream: Seq<u8>, i: int, q: int, sizes: Seq<int>, x: int)
    requires
        frames_agree_from(stream, i, q, sizes),
        ({
            let qe = q + i * sizes.len() + overhead(sizes);
            &&& 0 <= qe
            &&& qe + i < stream.len()
            &&& x == 16 * (stream[qe + i] as int)
            &&& qe + i + 1 + x <= stream.len()
        }),
    ensures
        frames_agree_from(stream, i, q, sizes.push(x)),
    decreases sizes.len(),
{
    if sizes.len() == 0 {
        assert(i * sizes.len() == 0) by (nonlinear_arith)
            requires
                sizes.len() == 0,
        ;
        assert(overhead(sizes) == 0);
        assert(sizes.push(x)[0] == x);
        assert(sizes.push(x).drop_first() =~= Seq::<int>::empty());
        assert(frames_agree_from(stream, i, q + i + 1 + x, Seq::<int>::empty()));
    } else {
        let q2 = q + i + 1 + sizes[0];
        assert(sizes.push(x).drop_first() =~= sizes.drop_first().push(x));
        assert(overhead(sizes) == 1 + sizes[0] + overhead(sizes.drop_first()));
        assert(q2 + i * sizes.drop_first().len() + overhead(sizes.drop_first()) == q + i
            * sizes.len() + overhead(sizes)) by (nonlinear_arith)
            requires
                q2 == q + i + 1 + sizes[0],
                overhead(sizes) == 1 + sizes[0] + overhead(sizes.drop_first()),
                sizes.drop_first().len() == sizes.len() - 1,
                sizes.len() >= 1,
        ;
        lemma_frames_agree_push(stream, i, q2, sizes.drop_first(), x);
        assert(sizes.push(x)[0] == sizes[0]);
    }
}

} // verus!
