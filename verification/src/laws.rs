//! The decoder's general guarantees, proved once over the specification
//! functions its contracts are written in.

use vstd::prelude::*;
use vstd::utf8::decode_utf8;
use vstd::utf8::encode_utf8;
use vstd::utf8::valid_utf8;

use crate::emits::count_repls;
use crate::emits::feed_all;
use crate::emits::finish_notices;
use crate::emits::finish_pushes;
use crate::emits::flat_text;
use crate::emits::lemma_feed_all_lossy;
use crate::emits::lemma_flat_append;
use crate::emits::lemma_process_lossy;
use crate::emits::lemma_texts_flatten;
use crate::emits::texts_of;
use crate::emits::process_spec;
use crate::emits::scan_acc;
use crate::emits::Push;
use crate::toks::lemma_lossy_open_valid;
use crate::toks::wf_carry;

verus! {

/// Chunk-boundary invariance: feed a valid UTF-8 stream to a fresh decoder
/// cut into chunks anywhere — even mid-character — and everything pushed,
/// run together, is exactly the decode of the whole stream, with no error
/// notices, no replacement chunks, and nothing left carried, so that
/// finishing emits nothing more.
pub proof fn lemma_chunk_boundary_invariance(chunks: Seq<Seq<u8>>)
    requires
        valid_utf8(chunks.flatten()),
    ensures
        ({
            let fed = feed_all(Seq::<u8>::empty(), chunks);
            &&& flat_text(fed.pushes) == decode_utf8(chunks.flatten())
            &&& texts_of(fed.pushes).flatten() == decode_utf8(chunks.flatten())
            &&& fed.errs == 0
            &&& count_repls(fed.pushes) == 0
            &&& fed.carry == Seq::<u8>::empty()
            &&& finish_pushes(fed.carry) == Seq::<Push>::empty()
            &&& finish_notices(fed.carry) == Seq::<Seq<char>>::empty()
        }),
{
    lemma_feed_all_lossy(Seq::<u8>::empty(), chunks);
    assert(Seq::<u8>::empty() + chunks.flatten() =~= chunks.flatten());
    lemma_lossy_open_valid(chunks.flatten());
    lemma_texts_flatten(feed_all(Seq::<u8>::empty(), chunks).pushes);
}

/// The round trip: any character sequence, encoded as UTF-8 and cut into
/// chunks anywhere, streams back out as exactly itself, with no errors.
pub proof fn lemma_round_trip(text: Seq<char>, chunks: Seq<Seq<u8>>)
    requires
        chunks.flatten() == encode_utf8(text),
    ensures
        flat_text(feed_all(Seq::<u8>::empty(), chunks).pushes) == text,
        texts_of(feed_all(Seq::<u8>::empty(), chunks).pushes).flatten() == text,
        feed_all(Seq::<u8>::empty(), chunks).errs == 0,
        feed_all(Seq::<u8>::empty(), chunks).carry == Seq::<u8>::empty(),
{
    vstd::utf8::encode_utf8_valid_utf8(text);
    vstd::utf8::encode_utf8_decode_utf8(text);
    lemma_chunk_boundary_invariance(chunks);
}

/// Replacement count matches error count, call by call: one `process` call
/// pushes exactly as many replacement chunks as it reports errors, and
/// `finish` pushes one exactly when it reports its one error.
pub proof fn lemma_replacement_count(carry: Seq<u8>, chunk: Seq<u8>)
    requires
        wf_carry(carry),
    ensures
        count_repls(process_spec(carry, chunk).pushes) == process_spec(carry, chunk).errs,
        count_repls(finish_pushes(carry)) == finish_notices(carry).len(),
{
    lemma_process_lossy(carry, chunk);
    if carry.len() == 0 {
        assert(count_repls(finish_pushes(carry)) == 0);
    } else {
        assert(finish_pushes(carry).drop_first() =~= Seq::<Push>::empty());
        assert(count_repls(Seq::<Push>::empty()) == 0);
    }
}

/// Replacement count matches error count over a whole stream: feeding any
/// chunks to a fresh decoder and finishing pushes exactly as many
/// replacement chunks as error notices.
pub proof fn lemma_stream_replacement_count(chunks: Seq<Seq<u8>>)
    ensures
        ({
            let fed = feed_all(Seq::<u8>::empty(), chunks);
            count_repls(fed.pushes + finish_pushes(fed.carry)) == fed.errs + finish_notices(
                fed.carry,
            ).len()
        }),
{
    let fed = feed_all(Seq::<u8>::empty(), chunks);
    lemma_feed_all_lossy(Seq::<u8>::empty(), chunks);
    lemma_flat_append(fed.pushes, finish_pushes(fed.carry));
    if fed.carry.len() == 0 {
        assert(count_repls(finish_pushes(fed.carry)) == 0);
    } else {
        assert(finish_pushes(fed.carry).drop_first() =~= Seq::<Push>::empty());
        assert(count_repls(Seq::<Push>::empty()) == 0);
    }
}

/// Empty input: any number of empty chunks, then finishing, pushes no text
/// and reports no errors.
pub proof fn lemma_empty_input(chunks: Seq<Seq<u8>>)
    requires
        forall|i: int| 0 <= i < chunks.len() ==> #[trigger] chunks[i].len() == 0,
    ensures
        ({
            let fed = feed_all(Seq::<u8>::empty(), chunks);
            &&& fed.pushes == Seq::<Push>::empty()
            &&& fed.errs == 0
            &&& fed.carry == Seq::<u8>::empty()
            &&& finish_pushes(fed.carry) == Seq::<Push>::empty()
            &&& finish_notices(fed.carry) == Seq::<Seq<char>>::empty()
        }),
    decreases chunks.len(),
{
    if chunks.len() == 0 {
    } else {
        assert(chunks[0] =~= Seq::<u8>::empty());
        assert(scan_acc(chunks[0], Seq::<char>::empty()).pushes =~= Seq::<Push>::empty());
        lemma_empty_input(chunks.drop_first());
        let o = process_spec(Seq::<u8>::empty(), chunks[0]);
        let r = feed_all(o.carry, chunks.drop_first());
        assert(o.pushes + r.pushes =~= Seq::<Push>::empty());
    }
}

} // verus!
