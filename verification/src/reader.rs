//! The interval-tracking stream decorator: wraps a byte source, strips the
//! interleaved metadata frames from the audio transparently on read, records
//! each decoded frame as an event, and seeks in terms of audio-only offsets.

use std::collections::VecDeque;

use vstd::prelude::*;

use crate::error::MetadataParseError;
use crate::metadata::{decode_spec, md_model, IcyMetadata};
use crate::source::{read_amount, ByteSource, SeekPos, StreamError};
use crate::stream_model::{
    audio_rem, events_rem, frames_agree_from, lemma_advance_audio, lemma_audio_rem_len,
    lemma_consume_frame,
    lemma_frames_agree_bounds, lemma_frames_agree_push, lemma_frames_agree_take,
    lemma_overhead_push, overhead, push_evict, push_evict_all, rest_of, sizes_rem, wf_rem,
};
use crate::text::{chars_vec, trim_nul_chars, trim_nuls};

verus! {

/// The decoded outcome of one metadata frame: the record, or a typed
/// failure.
pub type MetadataEvent = Result<IcyMetadata, MetadataParseError>;

/// The smaller of two integers.
pub open spec fn min2(a: int, b: int) -> int {
    if a <= b {
        a
    } else {
        b
    }
}

/// Whether the event `e` is the decoded outcome of a frame holding
/// `payload`: invalid UTF-8 is the invalid-encoding failure carrying the
/// bytes; otherwise the text, its trailing NUL padding stripped, decodes to
/// the record, an empty mapping being the empty-metadata failure carrying
/// the text.
pub open spec fn event_matches(e: MetadataEvent, payload: Seq<u8>) -> bool {
    if vstd::utf8::valid_utf8(payload) {
        let text = trim_nuls(vstd::utf8::decode_utf8(payload));
        match decode_spec(text) {
            Some(model) => match e {
                Ok(md) => md_model(md) == model,
                Err(_) => false,
            },
            None => match e {
                Err(MetadataParseError::Empty(em)) => em.0@ == text,
                _ => false,
            },
        }
    } else {
        match e {
            Err(MetadataParseError::InvalidUtf8(b)) => b@ == payload,
            _ => false,
        }
    }
}

/// Whether the events `es` are, in order, the decoded outcomes of the frame
/// payloads `ps`.
pub open spec fn events_match(es: Seq<MetadataEvent>, ps: Seq<Seq<u8>>) -> bool {
    es.len() == ps.len() && forall|j: int| 0 <= j < es.len() ==> event_matches(#[trigger] es[j], ps[j])
}

/// Relies on `String::from_utf8`: `Ok` exactly on valid UTF-8, decoding the
/// bytes; on failure the bytes come back unchanged (via
/// `FromUtf8Error::into_bytes`).
#[verifier::external_body]
fn utf8_to_string(bytes: Vec<u8>) -> (r: Result<String, Vec<u8>>)
    ensures
        match r {
            Ok(s) => vstd::utf8::valid_utf8(bytes@) && s@ == vstd::utf8::decode_utf8(bytes@),
            Err(b) => !vstd::utf8::valid_utf8(bytes@) && b@ == bytes@,
        },
{
    match String::from_utf8(bytes) {
        Ok(s) => Ok(s),
        Err(e) => Err(e.into_bytes()),
    }
}

/// Decodes one frame payload into its event.
fn decode_frame(payload: Vec<u8>) -> (r: MetadataEvent)
    ensures
        event_matches(r, payload@),
{
    match utf8_to_string(payload) {
        Err(b) => Err(MetadataParseError::InvalidUtf8(b)),
        Ok(s) => {
            let chars = chars_vec(s.as_str());
            let trimmed = trim_nul_chars(&chars);
            match IcyMetadata::parse_chars(&trimmed) {
                Ok(md) => Ok(md),
                Err(em) => Err(MetadataParseError::Empty(em)),
            }
        },
    }
}

/// The abstract state of a metadata reader.
pub ghost struct ReaderView {
    /// The bytes of the underlying source.
    pub stream: Seq<u8>,
    /// The source's cursor (the physical position).
    pub pos: int,
    /// The configured interval, if any.
    pub interval: Option<int>,
    /// Audio bytes still owed before the next frame.
    pub boundary: int,
    /// Audio bytes delivered so far (the logical position).
    pub logical: int,
    /// The payload lengths of every frame consumed so far, in order.
    pub consumed: Seq<int>,
    /// The retained suffix of `consumed`: the frame-size history.
    pub history: Seq<int>,
    /// The history's configured capacity.
    pub cache: int,
    /// The decoded outcomes recorded so far, in order.
    pub events: Seq<MetadataEvent>,
}

impl ReaderView {
    /// The bytes of the stream the cursor has not passed.
    pub open spec fn rest(self) -> Seq<u8> {
        rest_of(self.stream, self.pos)
    }

    /// The audio bytes remaining.
    pub open spec fn remaining_audio(self, i: int) -> Seq<u8> {
        audio_rem(self.rest(), self.boundary, i)
    }

    /// The payloads of the reportable frames remaining.
    pub open spec fn remaining_events(self, i: int) -> Seq<Seq<u8>> {
        events_rem(self.rest(), self.boundary, i)
    }

    /// The payload lengths of the frames remaining.
    pub open spec fn remaining_sizes(self, i: int) -> Seq<int> {
        sizes_rem(self.rest(), self.boundary, i)
    }
}

/// Well-formedness of a reader state: the boundary counter, logical
/// position, physical position, consumed frames and history agree with each
/// other and with the stream.
pub open spec fn reader_wf(v: ReaderView) -> bool {
    &&& 0 <= v.pos <= 0xffff_ffff_ffff_ffff
    &&& match v.interval {
        Some(i) => {
            &&& 1 <= i
            &&& v.stream.len() <= 0x7fff_ffff_ffff_ffff
            &&& 0 <= v.boundary <= i
            &&& 0 <= v.logical <= 0x7fff_ffff_ffff_ffff
            &&& v.logical == i * v.consumed.len() + (i - v.boundary)
            &&& v.pos == v.logical + overhead(v.consumed)
            &&& frames_agree_from(v.stream, i, 0, v.consumed)
            &&& v.history.len() <= v.consumed.len()
            &&& v.history == v.consumed.skip(v.consumed.len() - v.history.len())
        },
        None => {
            &&& v.stream.len() <= 0x7fff_ffff_ffff_ffff
            &&& v.boundary == 0
            &&& v.logical == 0
            &&& v.consumed.len() == 0
            &&& v.history.len() == 0
        },
    }
}

/// How one or more read or seek steps move a reader state forward: the
/// consumed frames grow by exactly the sizes peeled off the remaining
/// stream, the remaining events shrink by the frames crossed, and — when
/// `record` holds — each crossed reportable frame appends one matching
/// event, in order; the history takes each crossed size with eviction.
pub open spec fn progress(o: ReaderView, f: ReaderView, i: int, record: bool) -> bool {
    let eo = o.remaining_events(i);
    let ef = f.remaining_events(i);
    &&& f.consumed.len() >= o.consumed.len()
    &&& f.consumed.take(o.consumed.len() as int) == o.consumed
    &&& o.remaining_sizes(i) == f.consumed.skip(o.consumed.len() as int) + f.remaining_sizes(i)
    &&& ef.len() <= eo.len()
    &&& ef == eo.skip(eo.len() - ef.len())
    &&& (record ==> {
        &&& f.events.len() == o.events.len() + (eo.len() - ef.len())
        &&& f.events.take(o.events.len() as int) == o.events
        &&& events_match(f.events.skip(o.events.len() as int), eo.take(eo.len() - ef.len()))
    })
    &&& (!record ==> f.events == o.events)
    &&& f.history == push_evict_all(o.history, f.consumed.skip(o.consumed.len() as int), o.cache)
    &&& wf_rem(f.rest(), f.boundary, i) == wf_rem(o.rest(), o.boundary, i)
}

/// A state makes no progress against itself.
pub proof fn lemma_progress_refl(o: ReaderView, i: int, record: bool)
    ensures
        progress(o, o, i, record),
{
    assert(o.consumed.take(o.consumed.len() as int) =~= o.consumed);
    assert(o.consumed.skip(o.consumed.len() as int) =~= Seq::<int>::empty());
    assert(Seq::<int>::empty() + o.remaining_sizes(i) =~= o.remaining_sizes(i));
    assert(o.remaining_events(i).skip(0) =~= o.remaining_events(i));
    assert(o.events.take(o.events.len() as int) =~= o.events);
    assert(o.events.skip(o.events.len() as int) =~= Seq::<MetadataEvent>::empty());
    assert(o.remaining_events(i).take(0) =~= Seq::<Seq<u8>>::empty());
}

/// `push_evict_all` composes over concatenation.
proof fn lemma_push_evict_all_app(h: Seq<int>, xs: Seq<int>, ys: Seq<int>, cap: int)
    ensures
        push_evict_all(h, xs + ys, cap) == push_evict_all(push_evict_all(h, xs, cap), ys, cap),
    decreases xs.len(),
{
    if xs.len() == 0 {
        assert(xs + ys =~= ys);
    } else {
        assert((xs + ys)[0] == xs[0]);
        assert((xs + ys).drop_first() =~= xs.drop_first() + ys);
        lemma_push_evict_all_app(push_evict(h, xs[0], cap), xs.drop_first(), ys, cap);
    }
}

/// Progress composes.
pub proof fn lemma_progress_trans(a: ReaderView, b: ReaderView, c: ReaderView, i: int, record: bool)
    requires
        progress(a, b, i, record),
        progress(b, c, i, record),
        b.cache == a.cache,
    ensures
        progress(a, c, i, record),
{
    let ga = c.consumed.skip(a.consumed.len() as int);
    let g1 = b.consumed.skip(a.consumed.len() as int);
    let g2 = c.consumed.skip(b.consumed.len() as int);
    assert(c.consumed.take(a.consumed.len() as int) =~= a.consumed);
    assert(ga =~= g1 + g2);
    assert(a.remaining_sizes(i) =~= ga + c.remaining_sizes(i));
    let ea = a.remaining_events(i);
    let eb = b.remaining_events(i);
    let ec = c.remaining_events(i);
    assert(ec =~= ea.skip(ea.len() - ec.len()));
    if record {
        assert(c.events.take(a.events.len() as int) =~= a.events);
        let ka = ea.len() - ec.len();
        let k1 = ea.len() - eb.len();
        let k2 = eb.len() - ec.len();
        assert(eb.take(k2) =~= ea.skip(k1).take(k2));
        assert(ea.take(ka) =~= ea.take(k1) + eb.take(k2));
        assert(c.events.skip(a.events.len() as int) =~= b.events.skip(a.events.len() as int)
            + c.events.skip(b.events.len() as int));
        let app = c.events.skip(a.events.len() as int);
        assert forall|j: int| 0 <= j < app.len() implies event_matches(
            #[trigger] app[j],
            ea.take(ka)[j],
        ) by {
            if j < k1 {
                assert(app[j] == b.events.skip(a.events.len() as int)[j]);
                assert(ea.take(ka)[j] == ea.take(k1)[j]);
            } else {
                assert(app[j] == c.events.skip(b.events.len() as int)[j - k1]);
                assert(ea.take(ka)[j] == eb.take(k2)[j - k1]);
            }
        }
    }
    lemma_push_evict_all_app(a.history, g1, g2, a.cache);
    assert(c.history == push_evict_all(a.history, ga, a.cache));
}

/// What a demultiplexing read of up to `max` bytes guarantees: the chunk is
/// the next stretch of the remaining audio — all of it that exists, up to
/// `max` — the state advances past exactly those bytes, every frame crossed
/// appends its matching event in order, and a chunk shorter than `max`
/// means the stream is exhausted.
pub open spec fn read_demux_post(
    o: ReaderView,
    f: ReaderView,
    chunk: Seq<u8>,
    max: int,
    i: int,
) -> bool {
    &&& reader_wf(f)
    &&& chunk.len() == min2(max, o.remaining_audio(i).len() as int)
    &&& chunk == o.remaining_audio(i).take(chunk.len() as int)
    &&& f.remaining_audio(i) == o.remaining_audio(i).skip(chunk.len() as int)
    &&& f.logical == o.logical + chunk.len()
    &&& (chunk.len() < max ==> f.pos >= f.stream.len())
    &&& (max > 0 && chunk.len() == max ==> f.boundary < i)
    &&& progress(o, f, i, true)
}

/// Reads icy metadata contained within a stream.
///
/// Seeking within the stream is supported with the following limitations:
///
/// - Seeking from the end of the stream is not supported, since the audio
///   length cannot be known without scanning the whole stream.
/// - Seeking backwards is limited by the size of the metadata cache. Since
///   the metadata values have dynamic sizes, we need to know the size of the
///   previous metadata value to seek past it. In order to prevent unbounded
///   memory growth, we cap the number of previous metadata sizes we keep
///   track of. You can change this limit using [`Self::metadata_size_cache`].
///
/// Each decoded frame is recorded as an event, in stream order; the caller
/// collects them with [`Self::events`] or [`Self::take_events`].
pub struct IcyMetadataReader<T> {
    inner: T,
    icy_metadata_interval: Option<usize>,
    next_metadata: usize,
    metadata_sizes: VecDeque<usize>,
    current_pos: u64,
    metadata_size_cache: usize,
    events: Vec<MetadataEvent>,
    consumed: Ghost<Seq<int>>,
}

impl<T: ByteSource> View for IcyMetadataReader<T> {
    type V = ReaderView;

    closed spec fn view(&self) -> ReaderView {
        ReaderView {
            stream: self.inner.contents(),
            pos: self.inner.spos(),
            interval: match self.icy_metadata_interval {
                Some(i) => Some(i as int),
                None => None,
            },
            boundary: self.next_metadata as int,
            logical: self.current_pos as int,
            consumed: self.consumed@,
            history: self.metadata_sizes@.map_values(|x: usize| x as int),
            cache: self.metadata_size_cache as int,
            events: self.events@,
        }
    }
}

impl<T: ByteSource> IcyMetadataReader<T> {
    /// Creates a new `IcyMetadataReader` over a source positioned at its
    /// start. `icy_metadata_interval` is required in order to figure out the
    /// location of the metadata blocks. If it is `None`, the reader treats
    /// the stream as though the metadata is absent and passes reads and
    /// seeks through.
    pub fn new(inner: T, icy_metadata_interval: Option<usize>) -> (r: Self)
        requires
            inner.spos() == 0,
            inner.contents().len() <= 0x7fff_ffff_ffff_ffff,
            icy_metadata_interval matches Some(i) ==> i >= 1,
        ensures
            reader_wf(r@),
            r@.stream == inner.contents(),
            r@.pos == 0,
            r@.interval == match icy_metadata_interval {
                Some(i) => Some(i as int),
                None => None::<int>,
            },
            r@.boundary == match icy_metadata_interval {
                Some(i) => i as int,
                None => 0,
            },
            r@.logical == 0,
            r@.consumed == Seq::<int>::empty(),
            r@.history == Seq::<int>::empty(),
            r@.cache == 1024,
            r@.events == Seq::<MetadataEvent>::empty(),
    {
        let next = match icy_metadata_interval {
            Some(i) => i,
            None => 0,
        };
        let r = IcyMetadataReader {
            inner,
            icy_metadata_interval,
            next_metadata: next,
            metadata_sizes: VecDeque::new(),
            current_pos: 0,
            metadata_size_cache: 1024,
            events: Vec::new(),
            consumed: Ghost(Seq::empty()),
        };
        proof {
            assert(r@.history =~= Seq::<int>::empty());
            assert(overhead(Seq::<int>::empty()) == 0);
            assert(Seq::<int>::empty().skip(0) =~= Seq::<int>::empty());
            assert(frames_agree_from(r@.stream, 1, 0, Seq::<int>::empty()));
            match icy_metadata_interval {
                Some(i) => {
                    assert(r@.logical == i * r@.consumed.len() + (i - r@.boundary))
                        by (nonlinear_arith)
                        requires
                            r@.consumed.len() == 0,
                            r@.logical == 0,
                            r@.boundary == i,
                    ;
                },
                None => {},
            }
        }
        r
    }

    /// Set the capacity of the metadata size history.
    pub fn metadata_size_cache(self, size: usize) -> (r: Self)
        ensures
            r@ == (ReaderView { cache: size as int, ..self@ }),
    {
        IcyMetadataReader { metadata_size_cache: size, ..self }
    }

    /// The events recorded so far: one per decoded frame, in stream order.
    pub fn events(&self) -> (r: &Vec<MetadataEvent>)
        ensures
            r@ == self@.events,
    {
        &self.events
    }

    /// Removes and returns the events recorded so far.
    pub fn take_events(&mut self) -> (r: Vec<MetadataEvent>)
        ensures
            r@ == old(self)@.events,
            final (self)@ == (ReaderView { events: Seq::empty(), ..old(self)@ }),
    {
        let mut out: Vec<MetadataEvent> = Vec::new();
        core::mem::swap(&mut out, &mut self.events);
        out
    }

    /// Reads the one-byte length prefix of the frame at the cursor and
    /// records the frame's payload length in the size history, evicting the
    /// oldest entry when the history passes its capacity. Yields the payload
    /// length, or `None` when the stream ends at the cursor. The cursor
    /// moves past the length byte only; the physical-position equation of
    /// [`reader_wf`] is re-established by the caller once the payload is
    /// consumed.
    fn update_metadata_size(&mut self) -> (r: Result<Option<usize>, StreamError>)
        requires
            0 <= old(self)@.pos <= 0xffff_ffff_ffff_ffff,
        ensures
            final (self)@.stream == old(self)@.stream,
            final (self)@.interval == old(self)@.interval,
            final (self)@.cache == old(self)@.cache,
            final (self)@.logical == old(self)@.logical,
            final (self)@.boundary == old(self)@.boundary,
            final (self)@.events == old(self)@.events,
            match r {
                Ok(Some(fl)) => {
                    &&& old(self)@.pos < old(self)@.stream.len()
                    &&& fl as int == 16 * (old(self)@.stream[old(self)@.pos] as int)
                    &&& final (self)@.pos == old(self)@.pos + 1
                    &&& final (self)@.consumed == old(self)@.consumed.push(fl as int)
                    &&& final (self)@.history == push_evict(
                        old(self)@.history,
                        fl as int,
                        old(self)@.cache,
                    )
                },
                Ok(None) => final (self)@ == old(self)@ && old(self)@.pos >= old(
                    self,
                )@.stream.len(),
                Err(e) => final (self)@ == old(self)@ && e is Source,
            },
    {
        let prefix = match self.inner.read_bytes(1) {
            Ok(chunk) => chunk,
            Err(_) => {
                return Err(StreamError::Source);
            },
        };
        if prefix.len() == 0 {
            return Ok(None);
        }
        let metadata_length = 16 * (prefix[0] as usize);
        let ghost old_hist = self@.history;
        let ghost old_consumed = self.consumed@;
        self.metadata_sizes.push_back(metadata_length);
        if self.metadata_sizes.len() > self.metadata_size_cache {
            self.metadata_sizes.pop_front();
        }
        self.consumed = Ghost(old_consumed.push(metadata_length as int));
        proof {
            assert(self@.history =~= push_evict(old_hist, metadata_length as int, self@.cache));
        }
        Ok(Some(metadata_length))
    }

    /// Consumes the frame at the boundary: reads its length prefix and
    /// payload, resets the boundary counter to the full interval, and — in
    /// callback mode — decodes the payload and records the outcome as an
    /// event. Yields `false`, changing nothing, when the stream ends cleanly
    /// at the boundary with no length byte.
    fn read_metadata(&mut self, interval: usize, trigger_callback: bool) -> (r: Result<
        bool,
        StreamError,
    >)
        requires
            reader_wf(old(self)@),
            old(self)@.interval == Some(interval as int),
            old(self)@.boundary == 0,
        ensures
            final (self)@.stream == old(self)@.stream,
            final (self)@.interval == old(self)@.interval,
            final (self)@.cache == old(self)@.cache,
            final (self)@.logical == old(self)@.logical,
            match r {
                Ok(true) => {
                    &&& reader_wf(final (self)@)
                    &&& progress(old(self)@, final (self)@, interval as int, trigger_callback)
                    &&& final (self)@.boundary == interval as int
                    &&& final (self)@.consumed.len() == old(self)@.consumed.len() + 1
                    &&& final (self)@.remaining_audio(interval as int) == old(
                        self,
                    )@.remaining_audio(interval as int)
                    &&& final (self)@.pos > old(self)@.pos
                },
                Ok(false) => final (self)@ == old(self)@ && old(self)@.pos >= old(
                    self,
                )@.stream.len(),
                Err(e) => {
                    &&& final (self)@.events.len() >= old(self)@.events.len()
                    &&& final (self)@.events.take(old(self)@.events.len() as int) == old(
                        self,
                    )@.events
                    &&& (!trigger_callback ==> final (self)@.events == old(self)@.events)
                    &&& (e is Source || e is UnexpectedEof)
                    &&& (e is UnexpectedEof ==> !wf_rem(
                        old(self)@.rest(),
                        old(self)@.boundary,
                        interval as int,
                    ))
                },
            },
    {
        let ghost o = self@;
        let ghost i = interval as int;
        let ghost rest0 = o.rest();
        let fl = match self.update_metadata_size()? {
            None => {
                return Ok(false);
            },
            Some(fl) => fl,
        };
        let ghost flv = fl as int;
        proof {
            assert(rest0.len() > 0);
            assert(rest0[0] == o.stream[o.pos]);
        }
        let mut payload: Vec<u8> = Vec::new();
        if fl > 0 {
            payload = match self.inner.read_bytes(fl) {
                Ok(chunk) => chunk,
                Err(_) => {
                    return Err(StreamError::Source);
                },
            };
            if payload.len() < fl {
                proof {
                    assert(0 + 1 + flv > rest0.len());
                    assert(!wf_rem(rest0, 0, i));
                }
                return Err(StreamError::UnexpectedEof);
            }
            proof {
                assert(o.pos + 1 + flv <= o.stream.len());
                assert(payload@ =~= rest0.subrange(1, 1 + flv));
            }
        } else {
            proof {
                assert(o.pos + 1 + flv <= o.stream.len());
            }
        }
        let ghost pre_events = self@.events;
        if trigger_callback && fl > 0 {
            let ev = decode_frame(payload);
            self.events.push(ev);
        }
        self.next_metadata = interval;
        proof {
            let f = self@;
            lemma_consume_frame(rest0, i);
            assert(f.pos == o.pos + 1 + flv);
            assert(f.rest() =~= rest0.skip(1 + flv));
            assert(f.consumed == o.consumed.push(flv));
            assert(f.consumed.take(o.consumed.len() as int) =~= o.consumed);
            assert(f.consumed.skip(o.consumed.len() as int) =~= seq![flv]);
            assert(f.consumed.last() == flv);
            // the new frame agrees with the stream
            lemma_frames_agree_bounds(o.stream, i, 0, o.consumed);
            lemma_overhead_push(o.consumed, flv);
            assert(i * f.consumed.len() == i * o.consumed.len() + i) by (nonlinear_arith)
                requires
                    f.consumed.len() == o.consumed.len() + 1,
            ;
            lemma_frames_agree_push(o.stream, i, 0, o.consumed, flv);
            // history: one push with eviction
            assert(push_evict_all(o.history, seq![flv], o.cache) == push_evict_all(
                push_evict(o.history, flv, o.cache),
                seq![flv].drop_first(),
                o.cache,
            ));
            assert(seq![flv].drop_first() =~= Seq::<int>::empty());
            assert(f.history == push_evict(o.history, flv, o.cache));
            // the history stays a suffix of the consumed sizes
            let h1 = o.history.push(flv);
            assert(h1 =~= f.consumed.skip(f.consumed.len() - h1.len()));
            if h1.len() > o.cache {
                assert(f.history =~= f.consumed.skip(f.consumed.len() - f.history.len()));
            } else {
                assert(f.history =~= f.consumed.skip(f.consumed.len() - f.history.len()));
            }
            // events: at most one appended, matching the payload
            let eo = o.remaining_events(i);
            let ef = f.remaining_events(i);
            if flv > 0 {
                assert(eo == seq![rest0.subrange(1, 1 + flv)] + ef);
                assert(eo.len() == ef.len() + 1);
                assert(ef =~= eo.skip(eo.len() - ef.len()));
                assert(eo.take(1) =~= seq![rest0.subrange(1, 1 + flv)]);
                if trigger_callback {
                    assert(f.events == o.events.push(self@.events.last()));
                    assert(f.events.take(o.events.len() as int) =~= o.events);
                    let app = f.events.skip(o.events.len() as int);
                    assert(app =~= seq![f.events.last()]);
                    assert(event_matches(app[0], payload@));
                    assert(events_match(app, eo.take(1)));
                }
            } else {
                assert(eo == Seq::<Seq<u8>>::empty() + ef);
                assert(eo =~= ef);
                assert(ef =~= eo.skip(0));
                if trigger_callback {
                    assert(f.events =~= o.events);
                    assert(f.events.take(o.events.len() as int) =~= o.events);
                    assert(f.events.skip(o.events.len() as int) =~= Seq::<MetadataEvent>::empty());
                    assert(eo.take(0) =~= Seq::<Seq<u8>>::empty());
                    assert(events_match(
                        f.events.skip(o.events.len() as int),
                        eo.take(eo.len() - ef.len()),
                    ));
                }
            }
        }
        Ok(true)
    }

    /// Reads up to `want` audio bytes within the current run, appending them
    /// to `out`. A short read means the stream is exhausted.
    fn read_audio_run(&mut self, out: &mut Vec<u8>, interval: usize, want: usize) -> (r: Result<
        usize,
        StreamError,
    >)
        requires
            reader_wf(old(self)@),
            old(self)@.interval == Some(interval as int),
            want <= old(self)@.boundary,
        ensures
            final (self)@.stream == old(self)@.stream,
            final (self)@.interval == old(self)@.interval,
            final (self)@.cache == old(self)@.cache,
            match r {
                Ok(k) => {
                    let i = interval as int;
                    let o = old(self)@;
                    let f = final (self)@;
                    &&& reader_wf(f)
                    &&& k <= want
                    &&& final (out)@ == old(out)@ + o.remaining_audio(i).take(k as int)
                    &&& o.remaining_audio(i).len() >= k
                    &&& f.remaining_audio(i) == o.remaining_audio(i).skip(k as int)
                    &&& f.logical == o.logical + k
                    &&& f.boundary == o.boundary - k
                    &&& f.consumed == o.consumed
                    &&& f.events == o.events
                    &&& f.history == o.history
                    &&& progress(o, f, i, true)
                    &&& (k < want ==> f.pos >= f.stream.len() && f.remaining_audio(i).len() == 0)
                },
                Err(e) => final (self)@ == old(self)@ && final (out)@ == old(out)@ && e is Source,
            },
    {
        let ghost o = self@;
        let ghost i = interval as int;
        let ghost out0 = out@;
        proof {
            lemma_frames_agree_bounds(o.stream, i, 0, o.consumed);
        }
        let mut chunk = match self.inner.read_bytes(want) {
            Ok(c) => c,
            Err(_) => {
                return Err(StreamError::Source);
            },
        };
        let k = chunk.len();
        self.next_metadata = self.next_metadata - k;
        self.current_pos = self.current_pos + k as u64;
        out.append(&mut chunk);
        proof {
            let a0 = o.remaining_audio(i);
            if k > 0 {
                assert(o.pos < o.stream.len());
                assert(o.pos + k <= o.stream.len());
                assert(o.rest().take(k as int) =~= o.stream.subrange(o.pos, o.pos + k));
            } else {
                assert(o.rest().take(0) =~= Seq::<u8>::empty());
            }
            assert(k <= o.rest().len() || k == 0);
            lemma_advance_audio(o.rest(), o.boundary, i, k as int);
            if o.pos <= o.stream.len() {
                assert(self@.rest() =~= o.rest().skip(k as int));
            } else {
                assert(o.rest() =~= Seq::<u8>::empty());
                assert(self@.rest() =~= o.rest().skip(k as int));
            }
            assert(out@ =~= out0 + a0.take(k as int));
            assert(self@.consumed == o.consumed);
            lemma_progress_refl(o, i, true);
            assert(progress(o, self@, i, true));
            assert(reader_wf(self@));
            if k < want {
                assert(self@.pos >= self@.stream.len());
                assert(self@.rest() =~= Seq::<u8>::empty());
            }
        }
        Ok(k)
    }

    /// One demultiplexing step: reads audio up to the next boundary, bounded
    /// by the space left in `out`; when the boundary is reached with space
    /// left, consumes the frame there and reads on into the fresh run. A
    /// step that appends nothing means the stream is exhausted.
    #[verifier::rlimit(60)]
    fn parse_next_metadata(&mut self, out: &mut Vec<u8>, max: usize, interval: usize) -> (r: Result<
        (),
        StreamError,
    >)
        requires
            reader_wf(old(self)@),
            old(self)@.interval == Some(interval as int),
            old(out)@.len() < max,
        ensures
            final (self)@.stream == old(self)@.stream,
            final (self)@.interval == old(self)@.interval,
            final (self)@.cache == old(self)@.cache,
            match r {
                Ok(_) => {
                    let i = interval as int;
                    let o = old(self)@;
                    let f = final (self)@;
                    let d = final (out)@.len() - old(out)@.len();
                    &&& reader_wf(f)
                    &&& old(out)@.len() <= final (out)@.len() <= max
                    &&& final (out)@ == old(out)@ + o.remaining_audio(i).take(d)
                    &&& o.remaining_audio(i).len() >= d
                    &&& f.remaining_audio(i) == o.remaining_audio(i).skip(d)
                    &&& f.logical == o.logical + d
                    &&& progress(o, f, i, true)
                    &&& (d == 0 ==> f.remaining_audio(i).len() == 0 && f.pos >= f.stream.len())
                    &&& (final (out)@.len() == max ==> f.boundary < i)
                },
                Err(e) => {
                    &&& final (self)@.events.len() >= old(self)@.events.len()
                    &&& final (self)@.events.take(old(self)@.events.len() as int) == old(
                        self,
                    )@.events
                    &&& (e is Source || e is UnexpectedEof)
                    &&& (e is UnexpectedEof ==> !wf_rem(
                        old(self)@.rest(),
                        old(self)@.boundary,
                        interval as int,
                    ))
                },
            },
    {
        let ghost o = self@;
        let ghost i = interval as int;
        let ghost out0 = out@;
        proof {
            assert(o.events.take(o.events.len() as int) =~= o.events);
        }
        if self.next_metadata > 0 {
            let space = max - out.len();
            let want = if self.next_metadata <= space {
                self.next_metadata
            } else {
                space
            };
            let k = self.read_audio_run(out, interval, want)?;
            if k == 0 || self.next_metadata > 0 || out.len() == max {
                proof {
                    let f = self@;
                    if k < want {
                        assert(f.pos >= f.stream.len());
                    }
                    if out@.len() - out0.len() == 0 {
                        assert(f.remaining_audio(i).len() == 0);
                        assert(f.pos >= f.stream.len());
                    }
                    if out@.len() == max {
                        assert(k >= 1);
                        assert(f.boundary < i);
                    }
                }
                return Ok(());
            }
        }
        let ghost mid = self@;
        let ghost d1 = out@.len() - out0.len();
        proof {
            assert(mid.boundary == 0);
            if o.boundary == 0 {
                assert(mid == o);
                assert(out@ =~= out0);
                assert(o.remaining_audio(i).take(0) =~= Seq::<u8>::empty());
                assert(out@ =~= out0 + o.remaining_audio(i).take(d1));
                lemma_progress_refl(o, i, true);
            }
            assert(progress(o, mid, i, true));
            assert(out@ == out0 + o.remaining_audio(i).take(d1));
            assert(mid.remaining_audio(i) == o.remaining_audio(i).skip(d1));
        }
        let proceeded = match self.read_metadata(interval, true) {
            Ok(p) => p,
            Err(e) => {
                proof {
                    if e is UnexpectedEof {
                        assert(!wf_rem(mid.rest(), mid.boundary, i));
                    }
                }
                return Err(e);
            },
        };
        if !proceeded {
            proof {
                assert(self@ == mid);
                assert(self@.rest() =~= Seq::<u8>::empty());
                if d1 == 0 {
                    assert(self@.remaining_audio(i).len() == 0);
                }
            }
            return Ok(());
        }
        let ghost post_frame = self@;
        proof {
            lemma_progress_trans(o, mid, post_frame, i, true);
        }
        let space2 = max - out.len();
        let want2 = if interval <= space2 {
            interval
        } else {
            space2
        };
        let k2 = self.read_audio_run(out, interval, want2)?;
        proof {
            let f = self@;
            lemma_progress_trans(o, post_frame, f, i, true);
            // the audio appended in the two reads concatenates
            let a0 = o.remaining_audio(i);
            let d = out@.len() - out0.len();
            assert(post_frame.remaining_audio(i) == a0.skip(d1));
            assert(a0.skip(d1).take(k2 as int) =~= a0.take(d).skip(d1));
            assert(out@ =~= out0 + a0.take(d));
            assert(a0.skip(d1).skip(k2 as int) =~= a0.skip(d));
            if d == 0 {
                assert(k2 == 0);
                assert(k2 < want2);
                assert(f.remaining_audio(i).len() == 0);
            }
            if out@.len() == max {
                assert(k2 >= 1);
                assert(f.boundary < i);
            }
        }
        Ok(())
    }

    /// Demultiplexes up to `max` audio bytes, crossing as many frame
    /// boundaries as the buffer spans, until the buffer is full or the
    /// stream is exhausted.
    fn parse_metadata_from_stream(&mut self, max: usize, interval: usize) -> (r: Result<
        Vec<u8>,
        StreamError,
    >)
        requires
            reader_wf(old(self)@),
            old(self)@.interval == Some(interval as int),
        ensures
            final (self)@.stream == old(self)@.stream,
            final (self)@.interval == old(self)@.interval,
            final (self)@.cache == old(self)@.cache,
            match r {
                Ok(chunk) => read_demux_post(
                    old(self)@,
                    final (self)@,
                    chunk@,
                    max as int,
                    interval as int,
                ),
                Err(e) => {
                    &&& final (self)@.events.len() >= old(self)@.events.len()
                    &&& final (self)@.events.take(old(self)@.events.len() as int) == old(
                        self,
                    )@.events
                    &&& (e is Source || e is UnexpectedEof)
                    &&& (e is UnexpectedEof ==> !wf_rem(
                        old(self)@.rest(),
                        old(self)@.boundary,
                        interval as int,
                    ))
                },
            },
    {
        let ghost o = self@;
        let ghost i = interval as int;
        let mut out: Vec<u8> = Vec::new();
        let mut eof = false;
        proof {
            lemma_progress_refl(o, i, true);
            assert(out@ =~= o.remaining_audio(i).take(0));
            assert(o.remaining_audio(i).skip(0) =~= o.remaining_audio(i));
        }
        while !eof && out.len() < max
            invariant
                o == old(self)@,
                reader_wf(self@),
                self@.stream == o.stream,
                self@.interval == o.interval,
                self@.interval == Some(i),
                self@.cache == o.cache,
                i == interval as int,
                out@.len() <= max,
                o.remaining_audio(i).len() >= out@.len(),
                out@ == o.remaining_audio(i).take(out@.len() as int),
                self@.remaining_audio(i) == o.remaining_audio(i).skip(out@.len() as int),
                self@.logical == o.logical + out@.len(),
                progress(o, self@, i, true),
                eof ==> self@.pos >= self@.stream.len() && self@.remaining_audio(i).len() == 0,
                out@.len() == max && max > 0 ==> self@.boundary < i,
            decreases max - out@.len() + (if eof {
                0int
            } else {
                1int
            }),
        {
            let prev = out.len();
            let ghost cur = self@;
            match self.parse_next_metadata(&mut out, max, interval) {
                Ok(_) => {},
                Err(e) => {
                    proof {
                        if e is UnexpectedEof {
                            assert(!wf_rem(cur.rest(), cur.boundary, i));
                            assert(!wf_rem(o.rest(), o.boundary, i));
                        }
                    }
                    return Err(e);
                },
            }
            proof {
                let a0 = o.remaining_audio(i);
                let d = out@.len() - prev;
                assert(cur.remaining_audio(i).take(d) =~= a0.take(out@.len() as int).skip(
                    prev as int,
                ));
                assert(out@ =~= a0.take(out@.len() as int));
                assert(cur.remaining_audio(i).skip(d) =~= a0.skip(out@.len() as int));
                lemma_progress_trans(o, cur, self@, i, true);
            }
            if out.len() == prev {
                eof = true;
            }
        }
        proof {
            let f = self@;
            let a0 = o.remaining_audio(i);
            if eof {
                assert(a0.len() == out@.len());
                assert(out@.len() == min2(max as int, a0.len() as int));
            } else {
                assert(out@.len() == max);
                assert(out@.len() == min2(max as int, a0.len() as int));
            }
        }
        Ok(out)
    }

    /// Reads up to `max` audio bytes, stripping the interleaved metadata
    /// frames. With an interval configured, the chunk returned is the next
    /// stretch of the audio-only stream — all of it that remains, up to
    /// `max` — and every frame crossed appends one decoded event, in stream
    /// order; a chunk shorter than `max` means the stream is exhausted.
    /// Without an interval, the read passes straight through to the source.
    pub fn read(&mut self, max: usize) -> (r: Result<Vec<u8>, StreamError>)
        requires
            reader_wf(old(self)@),
        ensures
            final (self)@.stream == old(self)@.stream,
            final (self)@.interval == old(self)@.interval,
            final (self)@.cache == old(self)@.cache,
            match old(self)@.interval {
                Some(iv) => match r {
                    Ok(chunk) => read_demux_post(old(self)@, final (self)@, chunk@, max as int, iv),
                    Err(e) => {
                        &&& final (self)@.events.len() >= old(self)@.events.len()
                        &&& final (self)@.events.take(old(self)@.events.len() as int) == old(
                            self,
                        )@.events
                        &&& (e is Source || e is UnexpectedEof)
                        &&& (e is UnexpectedEof ==> !wf_rem(old(self)@.rest(), old(self)@.boundary, iv))
                    },
                },
                None => match r {
                    Ok(chunk) => {
                        let o = old(self)@;
                        let f = final (self)@;
                        &&& reader_wf(f)
                        &&& chunk@.len() == read_amount(o.stream.len() as int, o.pos, max as int)
                        &&& (o.pos <= o.stream.len() ==> chunk@ == o.stream.subrange(
                            o.pos,
                            o.pos + chunk@.len(),
                        ))
                        &&& f.pos == o.pos + chunk@.len()
                        &&& f == (ReaderView { pos: f.pos, ..o })
                    },
                    Err(_) => final (self)@ == old(self)@,
                },
            },
    {
        match self.icy_metadata_interval {
            None => {
                let r = self.inner.read_bytes(max);
                proof {
                    assert(reader_wf(self@));
                }
                r
            },
            Some(interval) => {
                if max <= self.next_metadata {
                    let ghost o = self@;
                    let ghost i = interval as int;
                    let mut out: Vec<u8> = Vec::new();
                    match self.read_audio_run(&mut out, interval, max) {
                        Ok(k) => {
                            proof {
                                let a0 = o.remaining_audio(i);
                                assert(out@ =~= a0.take(k as int));
                                if k < max {
                                    assert(a0.len() == k);
                                }
                                assert(out@.len() == min2(max as int, a0.len() as int));
                            }
                            Ok(out)
                        },
                        Err(e) => Err(e),
                    }
                } else {
                    self.parse_metadata_from_stream(max, interval)
                }
            },
        }
    }

    /// Reads the whole remaining audio stream. With an interval configured,
    /// the chunk returned is exactly the remaining audio-only stream, and
    /// exactly one event per remaining reportable frame is recorded, in
    /// stream order.
    pub fn read_to_end(&mut self) -> (r: Result<Vec<u8>, StreamError>)
        requires
            reader_wf(old(self)@),
        ensures
            final (self)@.stream == old(self)@.stream,
            final (self)@.interval == old(self)@.interval,
            final (self)@.cache == old(self)@.cache,
            match old(self)@.interval {
                Some(iv) => match r {
                    Ok(chunk) => {
                        let o = old(self)@;
                        let f = final (self)@;
                        &&& reader_wf(f)
                        &&& chunk@ == o.remaining_audio(iv)
                        &&& f.remaining_audio(iv).len() == 0
                        &&& f.logical == o.logical + chunk@.len()
                        &&& f.events.len() == o.events.len() + o.remaining_events(iv).len()
                        &&& f.events.take(o.events.len() as int) == o.events
                        &&& events_match(
                            f.events.skip(o.events.len() as int),
                            o.remaining_events(iv),
                        )
                        &&& progress(o, f, iv, true)
                    },
                    Err(e) => {
                        &&& final (self)@.events.len() >= old(self)@.events.len()
                        &&& final (self)@.events.take(old(self)@.events.len() as int) == old(
                            self,
                        )@.events
                        &&& (e is Source || e is UnexpectedEof)
                        &&& (e is UnexpectedEof ==> !wf_rem(old(self)@.rest(), old(self)@.boundary, iv))
                    },
                },
                None => match r {
                    Ok(chunk) => {
                        let o = old(self)@;
                        let f = final (self)@;
                        &&& reader_wf(f)
                        &&& (0 <= o.pos <= o.stream.len() ==> chunk@ == o.stream.skip(o.pos))
                        &&& (o.pos > o.stream.len() ==> chunk@ == Seq::<u8>::empty())
                        &&& f.pos == o.pos + chunk@.len()
                        &&& f == (ReaderView { pos: f.pos, ..o })
                    },
                    Err(_) => true,
                },
            },
    {
        let ghost o = self@;
        let mut out: Vec<u8> = Vec::new();
        match self.icy_metadata_interval {
            Some(interval) => {
                let ghost i = interval as int;
                proof {
                    lemma_progress_refl(o, i, true);
                    assert(out@ =~= o.remaining_audio(i).take(0));
                    assert(o.remaining_audio(i).skip(0) =~= o.remaining_audio(i));
                }
                loop
                    invariant
                        o == old(self)@,
                        reader_wf(self@),
                        self@.stream == o.stream,
                        self@.interval == o.interval,
                        self@.interval == Some(i),
                        self@.cache == o.cache,
                        i == interval as int,
                        o.remaining_audio(i).len() >= out@.len(),
                        out@ == o.remaining_audio(i).take(out@.len() as int),
                        self@.remaining_audio(i) == o.remaining_audio(i).skip(out@.len() as int),
                        self@.logical == o.logical + out@.len(),
                        progress(o, self@, i, true),
                    decreases self@.remaining_audio(i).len() + 1,
                {
                    let ghost cur = self@;
                    let chunk = match self.read(4096) {
                        Ok(c) => c,
                        Err(e) => {
                            proof {
                                if e is UnexpectedEof {
                                    assert(!wf_rem(cur.rest(), cur.boundary, i));
                                    assert(!wf_rem(o.rest(), o.boundary, i));
                                }
                            }
                            return Err(e);
                        },
                    };
                    let short = chunk.len() < 4096;
                    let k = chunk.len();
                    let mut c = chunk;
                    out.append(&mut c);
                    proof {
                        let a0 = o.remaining_audio(i);
                        assert(cur.remaining_audio(i).take(k as int) =~= a0.take(
                            out@.len() as int,
                        ).skip(out@.len() - k));
                        assert(out@ =~= a0.take(out@.len() as int));
                        assert(cur.remaining_audio(i).skip(k as int) =~= a0.skip(
                            out@.len() as int,
                        ));
                        lemma_progress_trans(o, cur, self@, i, true);
                    }
                    if short {
                        proof {
                            assert(self@.remaining_audio(i).len() == 0);
                            assert(self@.pos >= self@.stream.len());
                            assert(self@.rest() =~= Seq::<u8>::empty());
                            assert(self@.remaining_events(i) =~= Seq::<Seq<u8>>::empty());
                            assert(out@ =~= o.remaining_audio(i));
                        }
                        return Ok(out);
                    }
                }
            },
            None => {
                loop
                    invariant
                        o == old(self)@,
                        reader_wf(o),
                        reader_wf(self@),
                        self@ == (ReaderView { pos: self@.pos, ..o }),
                        self@.interval == o.interval,
                        o.interval is None,
                        self@.pos == o.pos + out@.len(),
                        (0 <= o.pos <= o.stream.len() ==> self@.pos <= o.stream.len() && out@
                            == o.stream.subrange(o.pos, o.pos + out@.len())),
                        (o.pos > o.stream.len() ==> out@ == Seq::<u8>::empty()),
                    decreases o.stream.len() - o.pos - out@.len() + 1,
                {
                    let ghost cur = self@;
                    let chunk = match self.read(4096) {
                        Ok(c) => c,
                        Err(e) => {
                            return Err(e);
                        },
                    };
                    let short = chunk.len() < 4096;
                    let mut c = chunk;
                    let ghost k = c@.len();
                    out.append(&mut c);
                    proof {
                        if 0 <= o.pos <= o.stream.len() {
                            assert(out@ =~= o.stream.subrange(o.pos, o.pos + out@.len()));
                        } else {
                            assert(k == 0);
                            assert(out@ =~= Seq::<u8>::empty());
                        }
                    }
                    if short {
                        proof {
                            if 0 <= o.pos <= o.stream.len() {
                                assert(k < 4096);
                                assert(k == read_amount(o.stream.len() as int, cur.pos, 4096));
                                assert(self@.pos == o.stream.len());
                                assert(out@ =~= o.stream.skip(o.pos));
                            }
                        }
                        return Ok(out);
                    }
                }
            },
        }
    }
}

/// Chunking and read-granularity invariance (law): by `read`'s contract a
/// read of `d` bytes returns `audio.take(d)` and leaves `audio.skip(d)`
/// remaining, so two successive reads of `d1` and `d2` bytes return, in
/// concatenation, exactly what a single read of `d1 + d2` bytes returns —
/// however the caller slices its buffer, byte by byte included, the chunks
/// concatenate to the same audio stream.
pub proof fn law_chunking_invariance(audio: Seq<u8>, d1: int, d2: int)
    requires
        0 <= d1,
        0 <= d2,
        d1 + d2 <= audio.len(),
    ensures
        audio.take(d1) + audio.skip(d1).take(d2) == audio.take(d1 + d2),
{
    assert(audio.take(d1) + audio.skip(d1).take(d2) =~= audio.take(d1 + d2));
}

/// Read-granularity invariance (law), stated over `read`'s own contract:
/// if one reader performs two successive reads of `d1` and `d2` bytes, both
/// filled, and another reader over the same state performs a single read of
/// `d1 + d2` bytes, the two chunks concatenate to the single chunk — so
/// reads of one byte at a time produce byte-identical output to one large
/// read.
pub proof fn law_read_granularity(
    o: ReaderView,
    m: ReaderView,
    f: ReaderView,
    g: ReaderView,
    c1: Seq<u8>,
    c2: Seq<u8>,
    c: Seq<u8>,
    d1: int,
    d2: int,
    i: int,
)
    requires
        0 <= d1,
        0 <= d2,
        read_demux_post(o, m, c1, d1, i),
        read_demux_post(m, f, c2, d2, i),
        read_demux_post(o, g, c, d1 + d2, i),
        c1.len() == d1,
        c2.len() == d2,
    ensures
        c.len() == d1 + d2,
        c1 + c2 == c,
{
    let a = o.remaining_audio(i);
    assert(a.len() >= d1);
    assert(m.remaining_audio(i) == a.skip(d1));
    assert(a.len() >= d1 + d2);
    assert(c =~= a.take(d1 + d2));
    assert(c1 + c2 =~= a.take(d1) + a.skip(d1).take(d2));
    assert(c1 + c2 =~= a.take(d1 + d2));
}

/// Full-read reporting (law): a fresh reader read to its end returns
/// exactly the audio of the whole stream, and records exactly one matching
/// event per reportable frame of the whole stream, in stream order. The
/// hypotheses are what `new` gives for a fresh reader and what
/// `read_to_end`'s contract gives for its result.
pub proof fn law_full_read_reports_every_frame(
    o: ReaderView,
    f: ReaderView,
    chunk: Seq<u8>,
    i: int,
)
    requires
        reader_wf(o),
        o.interval == Some(i),
        o.logical == 0,
        o.events.len() == 0,
        chunk == o.remaining_audio(i),
        f.events.len() == o.events.len() + o.remaining_events(i).len(),
        events_match(f.events.skip(o.events.len() as int), o.remaining_events(i)),
    ensures
        chunk == audio_rem(o.stream, i, i),
        f.events.len() == events_rem(o.stream, i, i).len(),
        events_match(f.events, events_rem(o.stream, i, i)),
{
    assert(o.consumed.len() == 0 && o.boundary == i) by (nonlinear_arith)
        requires
            0 == i * o.consumed.len() + (i - o.boundary),
            0 <= o.boundary <= i,
            i >= 1,
            o.consumed.len() >= 0,
    ;
    assert(overhead(o.consumed) == 0) by {
        assert(o.consumed =~= Seq::<int>::empty());
    }
    assert(o.pos == 0);
    assert(o.rest() =~= o.stream);
    assert(f.events.skip(0) =~= f.events);
}

/// Seek-then-read idempotence (law): a reader seeked to logical offset
/// zero decodes exactly as a fresh reader over the same stream does — the
/// remaining audio and the remaining frame payloads coincide, so reading
/// forward returns the same bytes and records the same events, in the same
/// order. The hypotheses are what `seek`'s contract gives for a successful
/// seek to offset zero, and what `new` gives for a fresh reader.
pub proof fn law_seek_to_start_rereads(f: ReaderView, g: ReaderView, i: int)
    requires
        reader_wf(f),
        reader_wf(g),
        f.stream == g.stream,
        f.interval == Some(i),
        g.interval == Some(i),
        f.logical == 0,
        g.logical == 0,
    ensures
        f.boundary == i && g.boundary == i,
        f.remaining_audio(i) == g.remaining_audio(i),
        f.remaining_events(i) == g.remaining_events(i),
        f.remaining_sizes(i) == g.remaining_sizes(i),
{
    assert(f.consumed.len() == 0 && f.boundary == i) by (nonlinear_arith)
        requires
            0 == i * f.consumed.len() + (i - f.boundary),
            0 <= f.boundary <= i,
            i >= 1,
            f.consumed.len() >= 0,
    ;
    assert(g.consumed.len() == 0 && g.boundary == i) by (nonlinear_arith)
        requires
            0 == i * g.consumed.len() + (i - g.boundary),
            0 <= g.boundary <= i,
            i >= 1,
            g.consumed.len() >= 0,
    ;
    assert(overhead(f.consumed) == 0) by {
        assert(f.consumed =~= Seq::<int>::empty());
    }
    assert(overhead(g.consumed) == 0) by {
        assert(g.consumed =~= Seq::<int>::empty());
    }
    assert(f.pos == 0 && g.pos == 0);
    assert(f.rest() == g.rest());
}

/// The logical offset a seek asks for: absolute, or relative to the current
/// logical position. A seek from the end has no defined target.
pub open spec fn seek_target(pos: SeekPos, logical: int) -> int {
    match pos {
        SeekPos::Start(v) => v as int,
        SeekPos::Current(d) => logical + d as int,
        SeekPos::End(_) => 0,
    }
}

impl<T: ByteSource> IcyMetadataReader<T> {
    /// Rewinds to the logical offset `t`, undoing, via the size history, the
    /// frame skips between `t` and the current position. Fails with the
    /// insufficient-history error exactly when more frames must be undone
    /// than the history retains.
    fn seek_backward(&mut self, t: u64, interval: usize) -> (r: Result<u64, StreamError>)
        requires
            reader_wf(old(self)@),
            old(self)@.interval == Some(interval as int),
            t as int <= 0x7fff_ffff_ffff_ffff,
            (t as int) < old(self)@.logical,
        ensures
            final (self)@.stream == old(self)@.stream,
            final (self)@.interval == old(self)@.interval,
            final (self)@.cache == old(self)@.cache,
            final (self)@.events == old(self)@.events,
            ({
                let o = old(self)@;
                let f = final (self)@;
                let i = interval as int;
                let tt = t as int;
                let pops = o.consumed.len() - tt / i;
                &&& (r == Err::<u64, StreamError>(StreamError::InsufficientHistory) <==> pops
                    > o.history.len())
                &&& match r {
                    Ok(u) => {
                        &&& u == t
                        &&& reader_wf(f)
                        &&& f.logical == tt
                        &&& f.boundary == i - (tt % i)
                        &&& f.consumed.len() == tt / i
                        &&& f.consumed == o.consumed.take(tt / i)
                        &&& f.history == o.history.take(o.history.len() - pops)
                    },
                    Err(e) => e is InsufficientHistory || e is Source,
                }
            }),
    {
        let ghost o = self@;
        let ghost i = interval as int;
        let ghost tt = t as int;
        let audio_into_segment = interval - self.next_metadata;
        let mut seg_log: u64 = self.current_pos - audio_into_segment as u64;
        let p0 = self.inner.position();
        proof {
            lemma_frames_agree_bounds(o.stream, i, 0, o.consumed);
        }
        let mut seg_phys: u64 = p0 - audio_into_segment as u64;
        proof {
            assert(seg_log as int == i * o.consumed.len());
            assert(seg_phys as int == seg_log as int + overhead(o.consumed));
            assert(o.consumed.take(o.consumed.len() as int) =~= o.consumed);
            assert(o.history.take(o.history.len() as int) =~= o.history);
            assert(tt < seg_log as int + i);
        }
        while t < seg_log
            invariant
                o == old(self)@,
                reader_wf(o),
                o.interval == Some(i),
                i == interval as int,
                tt == t as int,
                tt <= 0x7fff_ffff_ffff_ffff,
                tt < o.logical,
                self@.stream == o.stream,
                self@.interval == o.interval,
                self@.cache == o.cache,
                self@.events == o.events,
                self@.pos == o.pos,
                self@.boundary == o.boundary,
                self@.logical == o.logical,
                self@.consumed.len() <= o.consumed.len(),
                self@.consumed == o.consumed.take(self@.consumed.len() as int),
                seg_log as int == i * self@.consumed.len(),
                seg_phys as int == seg_log as int + overhead(self@.consumed),
                o.consumed.len() - self@.consumed.len() <= o.history.len(),
                self@.history == o.history.take(
                    o.history.len() - (o.consumed.len() - self@.consumed.len()),
                ),
                self@.history.len() <= self@.consumed.len(),
                self@.history == self@.consumed.skip(
                    self@.consumed.len() - self@.history.len(),
                ),
                frames_agree_from(o.stream, i, 0, self@.consumed),
                tt < seg_log as int + i,
            decreases self@.consumed.len(),
        {
            let ghost f2 = self@.consumed.len() as int;
            proof {
                assert(i * f2 > tt >= 0);
                assert(f2 >= 1) by (nonlinear_arith)
                    requires
                        i * f2 > 0,
                        i >= 1,
                        f2 >= 0,
                ;
            }
            let ghost pre = self@.consumed;
            let ghost pre_h = self@.history;
            let last_size = match self.metadata_sizes.pop_back() {
                None => {
                    proof {
                        // the history is exhausted: more pops are needed than
                        // it retained
                        assert(pre_h.len() == 0);
                        let popped = o.consumed.len() - f2;
                        assert(popped == o.history.len());
                        vstd::arithmetic::div_mod::lemma_fundamental_div_mod(tt, i);
                        assert(tt / i < f2) by (nonlinear_arith)
                            requires
                                tt == i * (tt / i) + (tt % i),
                                0 <= tt % i < i,
                                i * f2 > tt,
                                i >= 1,
                        ;
                    }
                    return Err(StreamError::InsufficientHistory);
                },
                Some(s) => s,
            };
            proof {
                assert(pre_h.len() >= 1);
                assert(self@.history =~= pre_h.drop_last());
                assert(last_size as int == pre_h.last());
                assert(pre_h.last() == pre.last());
                self.consumed@ = pre.drop_last();
            }
            proof {
                assert(self@.consumed =~= o.consumed.take(f2 - 1));
                assert(pre =~= self@.consumed.push(pre.last()));
                lemma_overhead_push(self@.consumed, pre.last());
                lemma_frames_agree_take(o.stream, i, 0, pre, f2 - 1);
                lemma_frames_agree_bounds(o.stream, i, 0, self@.consumed);
                assert(i * (f2 - 1) == i * f2 - i) by (nonlinear_arith);
                assert(self@.history =~= o.history.take(
                    o.history.len() - (o.consumed.len() - (f2 - 1)),
                ));
                assert(self@.history =~= self@.consumed.skip(
                    self@.consumed.len() - self@.history.len(),
                ));
            }
            seg_log = seg_log - interval as u64;
            seg_phys = seg_phys - 1 - last_size as u64 - interval as u64;
        }
        // the target lies within the current segment
        let rr = t - seg_log;
        proof {
            let f2 = self@.consumed.len() as int;
            assert(0 <= tt - i * f2 < i);
            assert(f2 * i == i * f2) by (nonlinear_arith);
            vstd::arithmetic::div_mod::lemma_fundamental_div_mod_converse(tt, i, f2, tt - i * f2);
            assert(tt / i == f2);
            assert(tt % i == rr as int);
            lemma_frames_agree_bounds(o.stream, i, 0, self@.consumed);
            if self@.consumed.len() > 0 {
                assert(i * f2 + overhead(self@.consumed) <= o.stream.len());
                assert(i * f2 >= 0) by (nonlinear_arith)
                    requires
                        i >= 1,
                        f2 >= 0,
                ;
                assert(overhead(self@.consumed) <= o.stream.len());
            } else {
                assert(overhead(self@.consumed) == 0);
            }
            assert(seg_phys as int + rr as int <= 0xffff_ffff_ffff_ffff);
        }
        let target_phys = seg_phys + rr;
        match self.inner.seek_to(target_phys) {
            Ok(_) => {},
            Err(_) => {
                return Err(StreamError::Source);
            },
        }
        self.next_metadata = interval - rr as usize;
        self.current_pos = t;
        proof {
            let f = self@;
            assert(f.logical == i * f.consumed.len() + (i - f.boundary));
            assert(reader_wf(f));
        }
        Ok(t)
    }

    /// Skips forward over up to one audio run without reading it, moving the
    /// cursor to the next boundary or beyond the stream end.
    fn skip_audio_run(&mut self, interval: usize, skip: usize) -> (r: Result<(), StreamError>)
        requires
            reader_wf(old(self)@),
            old(self)@.interval == Some(interval as int),
            skip <= old(self)@.boundary,
            old(self)@.logical + skip <= 0x7fff_ffff_ffff_ffff,
        ensures
            final (self)@.stream == old(self)@.stream,
            final (self)@.interval == old(self)@.interval,
            final (self)@.cache == old(self)@.cache,
            final (self)@.events == old(self)@.events,
            match r {
                Ok(_) => {
                    let i = interval as int;
                    let o = old(self)@;
                    let f = final (self)@;
                    &&& reader_wf(f)
                    &&& f.logical == o.logical + skip
                    &&& f.boundary == o.boundary - skip
                    &&& f.consumed == o.consumed
                    &&& f.history == o.history
                    &&& progress(o, f, i, false)
                    &&& o.logical + o.remaining_audio(i).len() <= f.logical + f.remaining_audio(
                        i,
                    ).len()
                },
                Err(e) => {
                    &&& final (self)@ == old(self)@
                    &&& (e is Source || e is UnexpectedEof)
                    &&& (e is UnexpectedEof ==> skip > old(self)@.remaining_audio(
                        interval as int,
                    ).len())
                },
            },
    {
        let ghost o = self@;
        let ghost i = interval as int;
        proof {
            lemma_frames_agree_bounds(o.stream, i, 0, o.consumed);
            lemma_audio_rem_len(o.rest(), o.boundary, i);
        }
        let p = self.inner.position();
        if (skip as u64) > u64::MAX - p {
            // the next boundary lies past every representable offset, so
            // past the end of the stream
            proof {
                assert(o.rest().len() <= 0xffff_ffff_ffff_ffff - o.pos);
            }
            return Err(StreamError::UnexpectedEof);
        }
        match self.inner.seek_to(p + skip as u64) {
            Ok(_) => {},
            Err(_) => {
                return Err(StreamError::Source);
            },
        }
        self.current_pos = self.current_pos + skip as u64;
        self.next_metadata = self.next_metadata - skip;
        proof {
            let f = self@;
            lemma_progress_refl(o, i, false);
            if 0 <= o.pos && o.pos + skip <= o.stream.len() {
                assert(skip <= o.rest().len());
                lemma_advance_audio(o.rest(), o.boundary, i, skip as int);
                assert(f.rest() =~= o.rest().skip(skip as int));
                assert(progress(o, f, i, false));
            } else {
                // the run is cut short by the end of the stream: nothing
                // remains on either side
                assert(o.remaining_audio(i).len() <= o.rest().len());
                assert(o.rest().len() <= skip);
                assert(o.rest().len() <= o.boundary);
                assert(f.rest().len() <= f.boundary);
                assert(o.remaining_sizes(i) =~= Seq::<int>::empty());
                assert(f.remaining_sizes(i) =~= Seq::<int>::empty());
                assert(o.remaining_events(i) =~= Seq::<Seq<u8>>::empty());
                assert(f.remaining_events(i) =~= Seq::<Seq<u8>>::empty());
                assert(f.consumed.skip(o.consumed.len() as int) =~= Seq::<int>::empty());
                assert(Seq::<int>::empty() + f.remaining_sizes(i) =~= f.remaining_sizes(i));
                assert(f.remaining_events(i) =~= o.remaining_events(i).skip(0));
                assert(progress(o, f, i, false));
            }
            assert(reader_wf(f));
        }
        Ok(())
    }

    /// Seeks forward to the logical offset `t`, crossing each intervening
    /// frame boundary: the frame there is consumed and its size recorded,
    /// without decoding events. Fails when the stream ends before the
    /// target's physical offset is reached.
    fn seek_forward(&mut self, t: u64, interval: usize) -> (r: Result<u64, StreamError>)
        requires
            reader_wf(old(self)@),
            old(self)@.interval == Some(interval as int),
            t as int <= 0x7fff_ffff_ffff_ffff,
            t as int >= old(self)@.logical,
        ensures
            final (self)@.stream == old(self)@.stream,
            final (self)@.interval == old(self)@.interval,
            final (self)@.cache == old(self)@.cache,
            final (self)@.events == old(self)@.events,
            ({
                let o = old(self)@;
                let f = final (self)@;
                let i = interval as int;
                let tt = t as int;
                match r {
                    Ok(u) => {
                        &&& u == t
                        &&& reader_wf(f)
                        &&& f.logical == tt
                        &&& f.boundary == i - (tt % i)
                        &&& f.consumed.len() == tt / i
                        &&& progress(o, f, i, false)
                    },
                    Err(e) => {
                        &&& (e is Source || e is UnexpectedEof)
                        &&& (e is UnexpectedEof ==> !wf_rem(o.rest(), o.boundary, i) || tt
                            >= o.logical + o.remaining_audio(i).len())
                    },
                }
            }),
    {
        let ghost o = self@;
        let ghost i = interval as int;
        let ghost tt = t as int;
        proof {
            lemma_progress_refl(o, i, false);
        }
        let mut gap: u64 = t - self.current_pos;
        while gap >= self.next_metadata as u64
            invariant
                o == old(self)@,
                reader_wf(self@),
                o.interval == Some(i),
                i == interval as int,
                tt == t as int,
                tt <= 0x7fff_ffff_ffff_ffff,
                self@.stream == o.stream,
                self@.interval == o.interval,
                self@.cache == o.cache,
                self@.events == o.events,
                self@.logical + gap == tt,
                progress(o, self@, i, false),
                o.logical + o.remaining_audio(i).len() <= self@.logical + self@.remaining_audio(
                    i,
                ).len(),
            decreases 2 * (gap as int) + (if self@.boundary == 0 {
                1int
            } else {
                0int
            }),
        {
            let ghost cur = self@;
            let m = self.next_metadata;
            match self.skip_audio_run(interval, m) {
                Ok(_) => {},
                Err(e) => {
                    proof {
                        if e is UnexpectedEof {
                            assert(tt >= cur.logical + m);
                            assert(tt >= cur.logical + cur.remaining_audio(i).len());
                        }
                    }
                    return Err(e);
                },
            }
            gap = gap - m as u64;
            let ghost mid = self@;
            proof {
                lemma_progress_trans(o, cur, mid, i, false);
            }
            let proceeded = match self.read_metadata(interval, false) {
                Ok(p) => p,
                Err(e) => {
                    proof {
                        if e is UnexpectedEof {
                            assert(!wf_rem(mid.rest(), mid.boundary, i));
                            assert(!wf_rem(o.rest(), o.boundary, i));
                        }
                    }
                    return Err(e);
                },
            };
            if !proceeded {
                // the stream ends cleanly at the boundary: the target is
                // beyond the audio that exists
                proof {
                    assert(mid.rest() =~= Seq::<u8>::empty());
                    assert(mid.remaining_audio(i).len() == 0);
                    assert(tt >= mid.logical);
                }
                return Err(StreamError::UnexpectedEof);
            }
            proof {
                lemma_progress_trans(o, mid, self@, i, false);
            }
        }
        // the target lies within the current run
        let ghost cur2 = self@;
        match self.skip_audio_run(interval, gap as usize) {
            Ok(_) => {},
            Err(e) => {
                proof {
                    if e is UnexpectedEof {
                        assert(tt >= cur2.logical + cur2.remaining_audio(i).len());
                    }
                }
                return Err(e);
            },
        }
        proof {
            lemma_progress_trans(o, cur2, self@, i, false);
            let f = self@;
            let f2 = f.consumed.len() as int;
            assert(f.logical == tt);
            assert(0 <= tt - i * f2 < i);
            assert(f2 * i == i * f2) by (nonlinear_arith);
            vstd::arithmetic::div_mod::lemma_fundamental_div_mod_converse(tt, i, f2, tt - i * f2);
        }
        Ok(t)
    }

    /// Seeks to the given logical (audio-only) offset, returning the new
    /// offset. Seeking from the end is unsupported. Forward seeks cross each
    /// intervening frame, recording its size but decoding no event; backward
    /// seeks undo frame skips via the size history and fail with the
    /// insufficient-history error exactly when the history retains fewer
    /// frames than must be undone. Without an interval, the seek passes
    /// straight through to the source.
    pub fn seek(&mut self, pos: SeekPos) -> (r: Result<u64, StreamError>)
        requires
            reader_wf(old(self)@),
        ensures
            final (self)@.stream == old(self)@.stream,
            final (self)@.interval == old(self)@.interval,
            final (self)@.cache == old(self)@.cache,
            final (self)@.events == old(self)@.events,
            match old(self)@.interval {
                Some(iv) => ({
                    let o = old(self)@;
                    let f = final (self)@;
                    let tt = seek_target(pos, o.logical);
                    &&& ((r == Err::<u64, StreamError>(StreamError::SeekFromEnd)) <==> pos is End)
                    &&& ((r == Err::<u64, StreamError>(StreamError::InvalidPosition)) <==> (!(pos
                        is End) && !(0 <= tt <= 0x7fff_ffff_ffff_ffff)))
                    &&& ((r == Err::<u64, StreamError>(StreamError::InsufficientHistory)) <==> (!(
                    pos is End) && 0 <= tt <= 0x7fff_ffff_ffff_ffff && tt < o.logical
                        && o.consumed.len() - tt / iv > o.history.len()))
                    &&& ((r == Err::<u64, StreamError>(StreamError::UnexpectedEof)) ==> tt
                        >= o.logical && (!wf_rem(o.rest(), o.boundary, iv) || tt >= o.logical
                        + o.remaining_audio(iv).len()))
                    &&& match r {
                        Ok(u) => {
                            &&& u as int == tt
                            &&& reader_wf(f)
                            &&& f.logical == tt
                            &&& f.boundary == iv - (tt % iv)
                            &&& f.consumed.len() == tt / iv
                            &&& (tt < o.logical ==> f.consumed == o.consumed.take(tt / iv)
                                && f.history == o.history.take(
                                o.history.len() - (o.consumed.len() - tt / iv),
                            ))
                            &&& (tt >= o.logical ==> progress(o, f, iv, false))
                        },
                        Err(e) => e is SeekFromEnd || e is InvalidPosition
                            || e is InsufficientHistory || e is Source || e is UnexpectedEof,
                    }
                }),
                None => ({
                    let o = old(self)@;
                    let f = final (self)@;
                    match pos {
                        SeekPos::End(_) => r == Err::<u64, StreamError>(StreamError::SeekFromEnd)
                            && f == o,
                        SeekPos::Start(v) => match r {
                            Ok(u) => u == v && reader_wf(f) && f == (ReaderView {
                                pos: v as int,
                                ..o
                            }),
                            Err(e) => e is Source && f == o,
                        },
                        SeekPos::Current(d) => ({
                            let tp = o.pos + d as int;
                            &&& ((r == Err::<u64, StreamError>(StreamError::InvalidPosition))
                                <==> !(0 <= tp <= 0xffff_ffff_ffff_ffff))
                            &&& match r {
                                Ok(u) => u as int == tp && reader_wf(f) && f == (ReaderView {
                                    pos: tp,
                                    ..o
                                }),
                                Err(e) => (e is InvalidPosition || e is Source) && f == o,
                            }
                        }),
                    }
                }),
            },
    {
        match self.icy_metadata_interval {
            None => {
                match pos {
                    SeekPos::End(_) => Err(StreamError::SeekFromEnd),
                    SeekPos::Start(v) => {
                        match self.inner.seek_to(v) {
                            Ok(_) => Ok(v),
                            Err(_) => Err(StreamError::Source),
                        }
                    },
                    SeekPos::Current(d) => {
                        let p = self.inner.position();
                        let t128: i128 = p as i128 + d as i128;
                        if t128 < 0 || t128 > 0xffff_ffff_ffff_ffff {
                            return Err(StreamError::InvalidPosition);
                        }
                        let t = t128 as u64;
                        match self.inner.seek_to(t) {
                            Ok(_) => Ok(t),
                            Err(_) => Err(StreamError::Source),
                        }
                    },
                }
            },
            Some(interval) => {
                let t128: i128 = match pos {
                    SeekPos::Start(v) => v as i128,
                    SeekPos::Current(d) => self.current_pos as i128 + d as i128,
                    SeekPos::End(_) => {
                        return Err(StreamError::SeekFromEnd);
                    },
                };
                if t128 < 0 || t128 > 0x7fff_ffff_ffff_ffff {
                    return Err(StreamError::InvalidPosition);
                }
                let t = t128 as u64;
                if t < self.current_pos {
                    self.seek_backward(t, interval)
                } else {
                    self.seek_forward(t, interval)
                }
            },
        }
    }
}

} // verus!
