//! The multi-encoding dispatcher: a transparent UTF-8 fast path, or an
//! external raw decoding engine driven chunk by chunk with its errors
//! repaired in place.

use vstd::prelude::*;

use crate::emits::invalid_notices;
use crate::emits::process_spec;
use crate::emits::texts_of;
use crate::sink::TendrilSink;
use crate::utf8_decoder::Utf8LossyDecoder;

verus! {

/// The `encoding` crate's handle for one character encoding.  A trait
/// object, hence opaque here; everything read from it goes through the
/// trusted wrappers below.
#[verifier::external_body]
pub struct EncodingRaw {
    /// The handle itself.
    pub reference: encoding::types::EncodingRef,
}

/// The library's own view of a configured encoding: the one fact the
/// dispatcher reads — whether it is UTF-8 — as a plain value, plus the raw
/// handle an engine can be made from.
pub struct Encoding {
    /// True when the encoding is UTF-8 (canonical name "utf-8"), which
    /// selects the zero-buffering fast path.
    pub utf8: bool,
    /// The handle a raw engine is made from; needed exactly when the fast
    /// path is not taken.
    pub raw: Option<EncodingRaw>,
}

impl Encoding {
    /// An engine can be made whenever one will be asked for.
    pub open spec fn wf(&self) -> bool {
        self.utf8 || self.raw is Some
    }

    /// The UTF-8 encoding; no handle is needed for the fast path.
    pub fn utf8() -> (e: Encoding)
        ensures
            e.utf8,
            e.wf(),
    {
        Encoding { utf8: true, raw: None }
    }

    /// Wrap a raw handle: the fast path is chosen exactly when the
    /// encoding's canonical name is "utf-8", as the `encoding` crate spells
    /// it.
    pub fn from_handle(raw: EncodingRaw) -> (e: Encoding)
        ensures
            e.wf(),
            e.raw is Some,
    {
        let name = encoding_name(&raw);
        let utf8 = name == String::from_str("utf-8");
        Encoding { utf8, raw: Some(raw) }
    }
}

/// Relies on `Encoding::name` of the `encoding` crate: the canonical name
/// of the encoding, unique among its built-in encodings and "utf-8"
/// exactly for UTF-8.  Which name comes back is not modelled, so the
/// dispatch flag it decides stays opaque too.
#[verifier::external_body]
fn encoding_name(raw: &EncodingRaw) -> String {
    raw.reference.name().to_string()
}

/// One stateful decoder instance of the `encoding` crate, held opaquely:
/// its buffered bytes and table state are not modelled, so nothing but the
/// wrappers' stated facts is assumed of what it writes.
#[verifier::external_body]
pub struct RawEngine {
    engine: Box<dyn encoding::types::RawDecoder>,
}

/// Relies on `Encoding::raw_decoder` of the `encoding` crate: it makes a
/// fresh decoder instance for the encoding.  Nothing is assumed of it.
#[verifier::external_body]
fn new_engine(raw: &EncodingRaw) -> RawEngine {
    RawEngine { engine: raw.reference.raw_decoder() }
}

/// Relies on `RawDecoder::raw_feed` of the `encoding` crate: it decodes
/// from `input[from..]`, appending decoded text to `out`.  On an error it
/// reports a cause and the offset of the first byte to feed again,
/// relative to what was fed (possibly negative when the problematic bytes
/// arrived in an earlier call, never past the end of what was fed).
#[verifier::external_body]
fn engine_feed(eng: &mut RawEngine, input: &Vec<u8>, from: usize, out: &mut String) -> (r: Option<
    (isize, String),
>)
    requires
        from <= input@.len(),
    ensures
        old(out)@.is_prefix_of(final(out)@),
        r matches Some((upto, _)) ==> upto <= input@.len() - from,
{
    let (_, err) = eng.engine.raw_feed(&input[from..], out);
    err.map(|e| (e.upto, e.cause.into_owned()))
}

/// Relies on `RawDecoder::raw_finish` of the `encoding` crate: it
/// finalizes the instance, appending any last text to `out`; an error
/// means the stream ended inside an incomplete sequence, with its cause.
#[verifier::external_body]
fn engine_finish(eng: &mut RawEngine, out: &mut String) -> (r: Option<String>)
    ensures
        old(out)@.is_prefix_of(final(out)@),
{
    eng.engine.raw_finish(out).map(|e| e.cause.into_owned())
}

/// The engine's output segments of one call spliced together with one
/// replacement character per repaired error.
pub open spec fn spliced(parts: Seq<Seq<char>>) -> Seq<char>
    decreases parts.len(),
{
    if parts.len() == 0 {
        seq![]
    } else if parts.len() == 1 {
        parts[0]
    } else {
        parts[0] + seq![crate::replacement_char()] + spliced(parts.drop_first())
    }
}

/// What one accumulation buffer pushes: nothing when it stayed empty, one
/// chunk otherwise.
pub open spec fn pushed_chunk(s: Seq<char>) -> Seq<Seq<char>> {
    if s.len() == 0 {
        seq![]
    } else {
        seq![s]
    }
}

/// Extending the last segment extends the spliced whole.
proof fn lemma_spliced_extend(parts: Seq<Seq<char>>, delta: Seq<char>)
    requires
        parts.len() >= 1,
    ensures
        spliced(parts.update(parts.len() - 1, parts.last() + delta)) == spliced(parts) + delta,
    decreases parts.len(),
{
    let upd = parts.update(parts.len() - 1, parts.last() + delta);
    if parts.len() == 1 {
        assert(upd.len() == 1);
        assert(upd[0] == parts[0] + delta);
    } else {
        assert(upd[0] == parts[0]);
        assert(upd.drop_first() =~= parts.drop_first().update(
            parts.drop_first().len() - 1,
            parts.drop_first().last() + delta,
        ));
        lemma_spliced_extend(parts.drop_first(), delta);
        assert(parts[0] + seq![crate::replacement_char()] + (spliced(parts.drop_first()) + delta)
            =~= (parts[0] + seq![crate::replacement_char()] + spliced(parts.drop_first()))
            + delta);
    }
}

/// Opening a new empty segment appends one replacement character.
proof fn lemma_spliced_push(parts: Seq<Seq<char>>)
    requires
        parts.len() >= 1,
    ensures
        spliced(parts.push(seq![])) == spliced(parts) + seq![crate::replacement_char()],
    decreases parts.len(),
{
    let ext = parts.push(seq![]);
    if parts.len() == 1 {
        assert(ext.drop_first() =~= seq![Seq::<char>::empty()]);
        assert(spliced(ext.drop_first()) == Seq::<char>::empty());
        assert(parts[0] + seq![crate::replacement_char()] + Seq::<char>::empty() =~= parts[0]
            + seq![crate::replacement_char()]);
    } else {
        assert(ext[0] == parts[0]);
        assert(ext.drop_first() =~= parts.drop_first().push(seq![]));
        lemma_spliced_push(parts.drop_first());
        assert(parts[0] + seq![crate::replacement_char()] + (spliced(parts.drop_first()) + seq![
            crate::replacement_char(),
        ]) =~= (parts[0] + seq![crate::replacement_char()] + spliced(parts.drop_first())) + seq![
            crate::replacement_char(),
        ]);
    }
}

/// The dispatcher's two shapes: the UTF-8 fast path, or a raw engine and
/// the sink it feeds.
pub enum LossyDecoderInner<Sink: TendrilSink> {
    /// The transparent UTF-8 fast path.
    Utf8 { decoder: Utf8LossyDecoder<Sink> },
    /// An external engine for any other encoding.
    Other { engine: RawEngine, sink: Sink },
}

/// A decoder that takes byte chunks, decodes them as a configured
/// character encoding, lossily repairs ill-formed sequences with U+FFFD,
/// and pushes the text on to a consumer sink.
///
/// For UTF-8 it is a transparent wrapper over [`Utf8LossyDecoder`]; for
/// every other encoding it drives a raw engine of the `encoding` crate,
/// splicing one replacement character in at each reported error and
/// pushing at most one aggregated chunk per call.
pub struct LossyDecoder<Sink: TendrilSink> {
    /// Which of the two shapes this decoder took at construction.
    pub inner: LossyDecoderInner<Sink>,
}

impl<Sink: TendrilSink> LossyDecoder<Sink> {
    /// Whether the UTF-8 fast path was configured.
    pub open spec fn is_utf8(&self) -> bool {
        self.inner is Utf8
    }

    /// The chunks the consumer sink has received.
    pub open spec fn sink_texts(&self) -> Seq<Seq<char>> {
        match self.inner {
            LossyDecoderInner::Utf8 { decoder } => decoder.sink.texts(),
            LossyDecoderInner::Other { sink, .. } => sink.texts(),
        }
    }

    /// The error notices the consumer sink has received.
    pub open spec fn sink_errors(&self) -> Seq<Seq<char>> {
        match self.inner {
            LossyDecoderInner::Utf8 { decoder } => decoder.sink.errors(),
            LossyDecoderInner::Other { sink, .. } => sink.errors(),
        }
    }

    /// The bytes carried between chunks (the engine's buffering, on the
    /// other path, is its own and not modelled).
    pub open spec fn carry(&self) -> Seq<u8> {
        match self.inner {
            LossyDecoderInner::Utf8 { decoder } => decoder.carry@,
            LossyDecoderInner::Other { .. } => seq![],
        }
    }

    /// The carried bytes are a well-formed prefix.
    pub open spec fn wf(&self) -> bool {
        match self.inner {
            LossyDecoderInner::Utf8 { decoder } => decoder.wf(),
            LossyDecoderInner::Other { .. } => true,
        }
    }

    /// Create a new incremental decoder for `encoding`, pushing to `sink`.
    pub fn new(encoding: Encoding, sink: Sink) -> (d: LossyDecoder<Sink>)
        requires
            encoding.wf(),
        ensures
            d.wf(),
            d.is_utf8() == encoding.utf8,
            d.carry() == Seq::<u8>::empty(),
            d.sink_texts() == sink.texts(),
            d.sink_errors() == sink.errors(),
    {
        if encoding.utf8 {
            LossyDecoder { inner: LossyDecoderInner::Utf8 { decoder: Utf8LossyDecoder::new(sink) } }
        } else {
            let raw = encoding.raw.unwrap();
            LossyDecoder { inner: LossyDecoderInner::Other { engine: new_engine(&raw), sink } }
        }
    }

    /// Pass an upstream error notice through to the sink.
    pub fn error(&mut self, desc: String)
        ensures
            final(self).is_utf8() == old(self).is_utf8(),
            final(self).wf() == old(self).wf(),
            final(self).carry() == old(self).carry(),
            final(self).sink_texts() == old(self).sink_texts(),
            final(self).sink_errors() == old(self).sink_errors().push(desc@),
    {
        match &mut self.inner {
            LossyDecoderInner::Utf8 { decoder } => decoder.error(desc),
            LossyDecoderInner::Other { sink, .. } => sink.error(desc),
        }
    }

    /// Decode one more chunk of bytes.  On the UTF-8 path the pushes are
    /// pinned down exactly by [`process_spec`].  On the engine path the
    /// remaining input is fed and re-fed past each reported error: every
    /// error gets its notice and one replacement character spliced into
    /// the output, and whatever accumulated is pushed as one chunk — so
    /// the new notices number exactly the replacement characters spliced
    /// in, whatever the engine decoded.
    pub fn process(&mut self, t: &Vec<u8>)
        requires
            old(self).wf(),
        ensures
            final(self).wf(),
            final(self).is_utf8() == old(self).is_utf8(),
            old(self).is_utf8() ==> {
                &&& final(self).sink_texts() == old(self).sink_texts() + texts_of(
                    process_spec(old(self).carry(), t@).pushes,
                )
                &&& final(self).sink_errors() == old(self).sink_errors() + invalid_notices(
                    process_spec(old(self).carry(), t@).errs,
                )
                &&& final(self).carry() == process_spec(old(self).carry(), t@).carry
            },
            !old(self).is_utf8() ==> (exists|parts: Seq<Seq<char>>|
                #![auto]
                {
                    &&& parts.len() >= 1
                    &&& final(self).sink_texts() == old(self).sink_texts() + pushed_chunk(
                        spliced(parts),
                    )
                    &&& final(self).sink_errors().len() == old(self).sink_errors().len()
                        + parts.len() - 1
                    &&& old(self).sink_errors().is_prefix_of(final(self).sink_errors())
                }),
    {
        match &mut self.inner {
            LossyDecoderInner::Utf8 { decoder } => decoder.process(t),
            LossyDecoderInner::Other { engine, sink } => {
                let ghost texts0 = sink.texts();
                let ghost errs0 = sink.errors();
                let mut out = String::new();
                let mut from: usize = 0;
                let mut fuel: usize = usize::MAX;
                let n = t.len();
                proof {
                    assert(n == t@.len());
                }
                let ghost mut parts: Seq<Seq<char>> = seq![Seq::<char>::empty()];
                proof {
                    assert(out@ =~= spliced(parts));
                }
                loop
                    invariant
                        t@.len() <= usize::MAX,
                        from <= t@.len(),
                        parts.len() >= 1,
                        out@ == spliced(parts),
                        sink.texts() == texts0,
                        sink.errors().len() == errs0.len() + parts.len() - 1,
                        errs0.is_prefix_of(sink.errors()),
                    ensures
                        parts.len() >= 1,
                        out@ == spliced(parts),
                        sink.texts() == texts0,
                        sink.errors().len() == errs0.len() + parts.len() - 1,
                        errs0.is_prefix_of(sink.errors()),
                    decreases fuel,
                {
                    if fuel == 0 {
                        break ;
                    }
                    fuel = fuel - 1;
                    let ghost out_pre = out@;
                    match engine_feed(engine, t, from, &mut out) {
                        None => {
                            proof {
                                let delta = out@.skip(out_pre.len() as int);
                                assert(out@ =~= out_pre + delta);
                                lemma_spliced_extend(parts, delta);
                                parts = parts.update(
                                    parts.len() - 1,
                                    parts.last() + delta,
                                );
                            }
                            break ;
                        },
                        Some((upto, cause)) => {
                            proof {
                                let delta = out@.skip(out_pre.len() as int);
                                assert(out@ =~= out_pre + delta);
                                lemma_spliced_extend(parts, delta);
                                parts = parts.update(
                                    parts.len() - 1,
                                    parts.last() + delta,
                                );
                            }
                            out.push('\u{fffd}');
                            sink.error(cause);
                            proof {
                                lemma_spliced_push(parts);
                                assert(out@ =~= spliced(parts) + seq![crate::replacement_char()]);
                                parts = parts.push(seq![]);
                            }
                            let k: usize = if upto < 0 {
                                0
                            } else {
                                upto as usize
                            };
                            proof {
                                assert(k <= t@.len() - from);
                            }
                            from = from + k;
                        },
                    }
                }
                if !out.as_str().is_empty() {
                    let ghost full = out@;
                    sink.process(out);
                    proof {
                        assert(pushed_chunk(full) =~= seq![full]);
                        assert(texts0 + pushed_chunk(full) =~= texts0.push(full));
                    }
                } else {
                    proof {
                        assert(pushed_chunk(out@) =~= Seq::<Seq<char>>::empty());
                        assert(texts0 + pushed_chunk(out@) =~= texts0);
                    }
                }
            },
        }
    }

    /// End the stream.  On the UTF-8 path a still-incomplete sequence is
    /// repaired first; on the engine path the engine is finalized, a
    /// trailing error repaired with one replacement character, and any
    /// last text pushed as one chunk.  The sink is notified of the end and
    /// handed back.
    pub fn finish(self) -> (s: Sink)
        requires
            self.wf(),
        ensures
            self.is_utf8() ==> {
                &&& s.texts() == self.sink_texts() + texts_of(
                    crate::emits::finish_pushes(self.carry()),
                )
                &&& s.errors() == self.sink_errors() + crate::emits::finish_notices(self.carry())
            },
            !self.is_utf8() ==> (exists|full: Seq<char>|
                {
                    ||| {
                        &&& s.texts() == self.sink_texts() + #[trigger] pushed_chunk(full)
                        &&& s.errors() == self.sink_errors()
                    }
                    ||| {
                        &&& s.texts() == self.sink_texts() + pushed_chunk(full)
                        &&& full.len() >= 1 && full.last() == crate::replacement_char()
                        &&& s.errors().len() == self.sink_errors().len() + 1
                        &&& self.sink_errors().is_prefix_of(s.errors())
                    }
                }),
    {
        let LossyDecoder { inner } = self;
        match inner {
            LossyDecoderInner::Utf8 { decoder } => decoder.finish(),
            LossyDecoderInner::Other { mut engine, mut sink } => {
                let ghost texts0 = sink.texts();
                let ghost errs0 = sink.errors();
                let mut out = String::new();
                let r = engine_finish(&mut engine, &mut out);
                let ghost trailing_err = r is Some;
                match r {
                    Some(cause) => {
                        out.push('\u{fffd}');
                        sink.error(cause);
                    },
                    None => {},
                }
                let ghost full = out@;
                if !out.as_str().is_empty() {
                    sink.process(out);
                    proof {
                        assert(pushed_chunk(full) =~= seq![full]);
                        assert(texts0 + pushed_chunk(full) =~= texts0.push(full));
                    }
                } else {
                    proof {
                        assert(pushed_chunk(full) =~= Seq::<Seq<char>>::empty());
                        assert(texts0 + pushed_chunk(full) =~= texts0);
                    }
                }
                sink.finish();
                proof {
                    assert(sink.texts() == texts0 + pushed_chunk(full));
                    if trailing_err {
                        assert(full.len() >= 1 && full.last() == crate::replacement_char());
                        assert(sink.errors().len() == errs0.len() + 1);
                        assert(errs0.is_prefix_of(sink.errors())) by {
                            assert(sink.errors() =~= errs0.push(sink.errors().last()));
                            assert(errs0 =~= sink.errors().subrange(0, errs0.len() as int));
                        }
                    } else {
                        assert(sink.errors() == errs0);
                    }
                }
                sink
            },
        }
    }
}

} // verus!
