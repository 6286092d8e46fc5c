//! What the UTF-8 fast path pushes downstream, call by call.
//!
//! [`process_spec`] pins down, for one `process` call, the exact sequence of
//! pushes made to the sink, the number of error notices, and the bytes
//! carried to the next call.  Chunk granularity matters and is part of the
//! contract: a maximal well-formed run is pushed as one chunk, a character
//! completed out of carried bytes as its own one-character chunk, and every
//! repair as its own replacement-character chunk.

use vstd::prelude::*;

use crate::toks::first_char;
use crate::toks::first_tok;
use crate::toks::Tok;

verus! {

/// One push made to the sink.
pub enum Push {
    /// A chunk of decoded text.
    Text { chunk: Seq<char> },
    /// The one-character replacement chunk that repairs an ill-formed
    /// stretch; it always follows an error notice.
    Repl,
}

/// The text a push delivers.
pub open spec fn push_text(p: Push) -> Seq<char> {
    match p {
        Push::Text { chunk } => chunk,
        Push::Repl => seq![crate::replacement_char()],
    }
}

/// The chunks delivered by a sequence of pushes, in order.
pub open spec fn texts_of(ps: Seq<Push>) -> Seq<Seq<char>> {
    ps.map_values(|p: Push| push_text(p))
}

/// All pushed text run together, chunk boundaries forgotten.
pub open spec fn flat_text(ps: Seq<Push>) -> Seq<char>
    decreases ps.len(),
{
    if ps.len() == 0 {
        seq![]
    } else {
        push_text(ps[0]) + flat_text(ps.drop_first())
    }
}

/// How many of the pushes are replacement chunks.
pub open spec fn count_repls(ps: Seq<Push>) -> nat
    decreases ps.len(),
{
    if ps.len() == 0 {
        0
    } else {
        (if ps[0] is Repl {
            1nat
        } else {
            0nat
        }) + count_repls(ps.drop_first())
    }
}

/// What one `process` call emits and carries.
pub struct ProcOut {
    /// The pushes made to the sink, in order.
    pub pushes: Seq<Push>,
    /// The number of error notices, one per replacement chunk.
    pub errs: nat,
    /// The bytes held for the next call: empty, or an incomplete prefix.
    pub carry: Seq<u8>,
}

/// The run accumulated so far flushed as one chunk; nothing when it is
/// empty, since empty chunks are never pushed.
pub open spec fn flush(pending: Seq<char>) -> Seq<Push> {
    if pending.len() == 0 {
        seq![]
    } else {
        seq![Push::Text { chunk: pending }]
    }
}

/// Scan a stream with no carried bytes.  `pending` is the maximal
/// well-formed run under construction; it grows over complete tokens and is
/// flushed as one chunk when an ill-formed stretch, the end of input, or a
/// trailing incomplete prefix stops it.
pub open spec fn scan_acc(s: Seq<u8>, pending: Seq<char>) -> ProcOut
    decreases s.len(),
{
    if s.len() == 0 {
        ProcOut { pushes: flush(pending), errs: 0, carry: seq![] }
    } else {
        match first_tok(s) {
            Tok::Complete { len } => scan_acc(s.skip(len), pending.push(first_char(s))),
            Tok::Incomplete => ProcOut { pushes: flush(pending), errs: 0, carry: s },
            Tok::Invalid { len } => {
                let r = scan_acc(s.skip(len), seq![]);
                ProcOut {
                    pushes: flush(pending) + seq![Push::Repl] + r.pushes,
                    errs: r.errs + 1,
                    carry: r.carry,
                }
            },
        }
    }
}

/// What one `process` call emits, given the bytes carried from the last
/// call and the new chunk.  A character completed out of carried bytes is
/// pushed as its own chunk (it cannot extend a zero-copy run of the new
/// chunk); a carried prefix that no new byte can continue is repaired
/// before the rest of the chunk is scanned afresh.
pub open spec fn process_spec(carry: Seq<u8>, input: Seq<u8>) -> ProcOut
    recommends
        crate::toks::wf_carry(carry),
{
    if carry.len() == 0 {
        scan_acc(input, seq![])
    } else {
        let all = carry + input;
        match first_tok(all) {
            Tok::Incomplete => ProcOut { pushes: seq![], errs: 0, carry: all },
            Tok::Complete { len } => {
                let r = scan_acc(input.skip(len - carry.len()), seq![]);
                ProcOut {
                    pushes: seq![Push::Text { chunk: seq![first_char(all)] }] + r.pushes,
                    errs: r.errs,
                    carry: r.carry,
                }
            },
            Tok::Invalid { len } => {
                let r = scan_acc(input.skip(len - carry.len()), seq![]);
                ProcOut {
                    pushes: seq![Push::Repl] + r.pushes,
                    errs: r.errs + 1,
                    carry: r.carry,
                }
            },
        }
    }
}

/// What `finish` emits: one error notice and one replacement chunk when an
/// incomplete sequence was still pending at the end of the stream, nothing
/// otherwise.
pub open spec fn finish_pushes(carry: Seq<u8>) -> Seq<Push> {
    if carry.len() == 0 {
        seq![]
    } else {
        seq![Push::Repl]
    }
}

/// Feed a whole sequence of chunks, starting from the given carry, and
/// gather everything emitted.
pub open spec fn feed_all(carry: Seq<u8>, chunks: Seq<Seq<u8>>) -> ProcOut
    decreases chunks.len(),
{
    if chunks.len() == 0 {
        ProcOut { pushes: seq![], errs: 0, carry: carry }
    } else {
        let o = process_spec(carry, chunks[0]);
        let r = feed_all(o.carry, chunks.drop_first());
        ProcOut { pushes: o.pushes + r.pushes, errs: o.errs + r.errs, carry: r.carry }
    }
}

/// The message reported for an ill-formed byte sequence.
pub open spec fn invalid_msg() -> Seq<char> {
    "invalid byte sequence"@
}

/// The message reported when the stream ends inside a multi-byte sequence.
pub open spec fn eof_msg() -> Seq<char> {
    "incomplete byte sequence at end of stream"@
}

/// The error notices of one `process` call: the same message, once per
/// repair.
pub open spec fn invalid_notices(n: nat) -> Seq<Seq<char>> {
    Seq::new(n, |i: int| invalid_msg())
}

/// The error notices of `finish`: one, exactly when bytes were still
/// carried.
pub open spec fn finish_notices(carry: Seq<u8>) -> Seq<Seq<char>> {
    if carry.len() == 0 {
        seq![]
    } else {
        seq![eof_msg()]
    }
}

/// Pushing onto a concatenation pushes into its tail.
pub proof fn lemma_push_append<A>(a: Seq<A>, b: Seq<A>, x: A)
    ensures
        (a + b).push(x) == a + b.push(x),
{
    assert((a + b).push(x) =~= a + b.push(x));
}

/// Delivered chunks distribute over concatenation of pushes.
pub proof fn lemma_texts_of_append(a: Seq<Push>, b: Seq<Push>)
    ensures
        texts_of(a + b) == texts_of(a) + texts_of(b),
{
    assert(texts_of(a + b) =~= texts_of(a) + texts_of(b));
}

/// One more repair appends one more notice.
pub proof fn lemma_invalid_notices_snoc(n: nat)
    ensures
        invalid_notices(n + 1) == invalid_notices(n).push(invalid_msg()),
{
    assert(invalid_notices(n + 1) =~= invalid_notices(n).push(invalid_msg()));
}

/// Concatenating the delivered chunks gives the same text as running the
/// pushes together: what holds of one holds of the other.
pub proof fn lemma_texts_flatten(ps: Seq<Push>)
    ensures
        texts_of(ps).flatten() == flat_text(ps),
    decreases ps.len(),
{
    if ps.len() == 0 {
        assert(texts_of(ps) =~= Seq::<Seq<char>>::empty());
        assert(texts_of(ps).flatten() =~= flat_text(ps));
    } else {
        assert(texts_of(ps).drop_first() =~= texts_of(ps.drop_first()));
        assert(texts_of(ps).first() == push_text(ps[0]));
        lemma_texts_flatten(ps.drop_first());
    }
}

/// Notices add up over successive repairs.
pub proof fn lemma_invalid_notices_append(a: nat, b: nat)
    ensures
        invalid_notices(a + b) == invalid_notices(a) + invalid_notices(b),
{
    assert(invalid_notices(a + b) =~= invalid_notices(a) + invalid_notices(b));
}

/// Feeding one more chunk appends what that chunk emits from the carry the
/// earlier chunks left.
pub proof fn lemma_feed_all_snoc(carry: Seq<u8>, chunks: Seq<Seq<u8>>, c: Seq<u8>)
    ensures
        feed_all(carry, chunks.push(c)).pushes == feed_all(carry, chunks).pushes + process_spec(
            feed_all(carry, chunks).carry,
            c,
        ).pushes,
        feed_all(carry, chunks.push(c)).errs == feed_all(carry, chunks).errs + process_spec(
            feed_all(carry, chunks).carry,
            c,
        ).errs,
        feed_all(carry, chunks.push(c)).carry == process_spec(
            feed_all(carry, chunks).carry,
            c,
        ).carry,
    decreases chunks.len(),
{
    if chunks.len() == 0 {
        let o = process_spec(carry, c);
        assert(chunks.push(c).drop_first() =~= Seq::<Seq<u8>>::empty());
        assert(chunks.push(c)[0] == c);
        assert(feed_all(carry, chunks).pushes + o.pushes =~= o.pushes);
        assert(o.pushes + feed_all(o.carry, Seq::<Seq<u8>>::empty()).pushes =~= o.pushes);
    } else {
        let o = process_spec(carry, chunks[0]);
        let r = feed_all(o.carry, chunks.drop_first());
        let p = process_spec(feed_all(carry, chunks).carry, c);
        assert(chunks.push(c).drop_first() =~= chunks.drop_first().push(c));
        assert(chunks.push(c)[0] == chunks[0]);
        lemma_feed_all_snoc(o.carry, chunks.drop_first(), c);
        assert(o.pushes + (r.pushes + p.pushes) =~= (o.pushes + r.pushes) + p.pushes);
    }
}

/// Pushed text and replacement counts distribute over concatenation.
pub proof fn lemma_flat_append(a: Seq<Push>, b: Seq<Push>)
    ensures
        flat_text(a + b) == flat_text(a) + flat_text(b),
        count_repls(a + b) == count_repls(a) + count_repls(b),
    decreases a.len(),
{
    if a.len() == 0 {
        assert(a + b =~= b);
        assert(flat_text(a) + flat_text(b) =~= flat_text(b));
    } else {
        assert((a + b).drop_first() =~= a.drop_first() + b);
        lemma_flat_append(a.drop_first(), b);
        assert(push_text(a[0]) + (flat_text(a.drop_first()) + flat_text(b)) =~= (push_text(a[0])
            + flat_text(a.drop_first())) + flat_text(b));
    }
}

proof fn lemma_flat_one_prepend(p: Push, ps: Seq<Push>)
    ensures
        flat_text(seq![p] + ps) == push_text(p) + flat_text(ps),
        count_repls(seq![p] + ps) == count_repls(ps) + (if p is Repl {
            1nat
        } else {
            0nat
        }),
{
    assert((seq![p] + ps).drop_first() =~= ps);
    assert((seq![p] + ps)[0] == p);
}

proof fn lemma_flat_flush(pending: Seq<char>)
    ensures
        flat_text(flush(pending)) == pending,
        count_repls(flush(pending)) == 0,
{
    assert(flat_text(Seq::<Push>::empty()) =~= Seq::<char>::empty());
    assert(count_repls(Seq::<Push>::empty()) == 0);
    if pending.len() == 0 {
        assert(flat_text(flush(pending)) =~= pending);
    } else {
        assert(flush(pending).drop_first() =~= Seq::<Push>::empty());
        assert(pending + flat_text(Seq::<Push>::empty()) =~= pending);
    }
}

/// A scan emits, run together, exactly the pending run followed by the
/// lossy decode of the stream; it reports one error per replacement chunk;
/// and it carries exactly the withheld trailing prefix.
pub proof fn lemma_scan_lossy(s: Seq<u8>, pending: Seq<char>)
    ensures
        flat_text(scan_acc(s, pending).pushes) == pending + crate::toks::lossy_open(s).text,
        scan_acc(s, pending).errs == crate::toks::lossy_open(s).errs,
        count_repls(scan_acc(s, pending).pushes) == scan_acc(s, pending).errs,
        scan_acc(s, pending).carry == crate::toks::lossy_open(s).rest,
    decreases s.len(),
{
    if s.len() == 0 {
        lemma_flat_flush(pending);
        assert(pending + crate::toks::lossy_open(s).text =~= pending);
    } else {
        match first_tok(s) {
            Tok::Complete { len } => {
                crate::toks::lemma_tok_bounds(s);
                lemma_scan_lossy(s.skip(len), pending.push(first_char(s)));
                assert(pending.push(first_char(s)) + crate::toks::lossy_open(s.skip(len)).text
                    =~= pending + (seq![first_char(s)] + crate::toks::lossy_open(
                    s.skip(len),
                ).text));
            },
            Tok::Incomplete => {
                lemma_flat_flush(pending);
                assert(pending + crate::toks::lossy_open(s).text =~= pending);
            },
            Tok::Invalid { len } => {
                crate::toks::lemma_tok_bounds(s);
                let r = scan_acc(s.skip(len), seq![]);
                lemma_scan_lossy(s.skip(len), seq![]);
                lemma_flat_flush(pending);
                lemma_flat_append(flush(pending), seq![Push::Repl]);
                lemma_flat_append(flush(pending) + seq![Push::Repl], r.pushes);
                assert(seq![Push::Repl].drop_first() =~= Seq::<Push>::empty());
                assert(flat_text(Seq::<Push>::empty()) =~= Seq::<char>::empty());
                assert(count_repls(Seq::<Push>::empty()) == 0);
                assert(flat_text(seq![Push::Repl]) =~= seq![crate::replacement_char()]);
                assert(count_repls(seq![Push::Repl]) == 1);
                assert(flat_text(r.pushes) =~= crate::toks::lossy_open(s.skip(len)).text);
                assert((pending + seq![crate::replacement_char()]) + crate::toks::lossy_open(
                    s.skip(len),
                ).text =~= pending + (seq![crate::replacement_char()] + crate::toks::lossy_open(
                    s.skip(len),
                ).text));
            },
        }
    }
}

/// What one call emits, run together, is exactly the lossy decode of the
/// carried bytes followed by the chunk; the new carry is the withheld
/// trailing prefix, and is again well formed.
pub proof fn lemma_process_lossy(carry: Seq<u8>, input: Seq<u8>)
    requires
        crate::toks::wf_carry(carry),
    ensures
        flat_text(process_spec(carry, input).pushes) == crate::toks::lossy_open(
            carry + input,
        ).text,
        process_spec(carry, input).errs == crate::toks::lossy_open(carry + input).errs,
        count_repls(process_spec(carry, input).pushes) == process_spec(carry, input).errs,
        process_spec(carry, input).carry == crate::toks::lossy_open(carry + input).rest,
        crate::toks::wf_carry(process_spec(carry, input).carry),
{
    let all = carry + input;
    crate::toks::lemma_lossy_open_rest_wf(all);
    if carry.len() == 0 {
        assert(all =~= input);
        lemma_scan_lossy(input, seq![]);
        assert(Seq::<char>::empty() + crate::toks::lossy_open(input).text =~= crate::toks::lossy_open(
            input,
        ).text);
    } else {
        assert(all[0] == carry[0]);
        if carry.len() >= 2 {
            assert(crate::toks::cont_ok(carry[0], 1, carry[1]));
            assert(all[1] == carry[1]);
        }
        if carry.len() >= 3 {
            assert(crate::toks::cont_ok(carry[0], 2, carry[2]));
            assert(all[2] == carry[2]);
        }
        match first_tok(all) {
            Tok::Incomplete => {
            },
            Tok::Complete { len } => {
                crate::toks::lemma_tok_bounds(all);
                assert(len >= carry.len());
                let r = scan_acc(input.skip(len - carry.len()), seq![]);
                assert(all.skip(len) =~= input.skip(len - carry.len()));
                lemma_scan_lossy(input.skip(len - carry.len()), seq![]);
                lemma_flat_one_prepend(Push::Text { chunk: seq![first_char(all)] }, r.pushes);
                assert(seq![first_char(all)] + (Seq::<char>::empty() + crate::toks::lossy_open(
                    all.skip(len),
                ).text) =~= seq![first_char(all)] + crate::toks::lossy_open(all.skip(len)).text);
            },
            Tok::Invalid { len } => {
                crate::toks::lemma_tok_bounds(all);
                assert(len >= carry.len());
                let r = scan_acc(input.skip(len - carry.len()), seq![]);
                assert(all.skip(len) =~= input.skip(len - carry.len()));
                lemma_scan_lossy(input.skip(len - carry.len()), seq![]);
                lemma_flat_one_prepend(Push::Repl, r.pushes);
                assert(seq![crate::replacement_char()] + (Seq::<char>::empty()
                    + crate::toks::lossy_open(all.skip(len)).text) =~= seq![
                    crate::replacement_char(),
                ] + crate::toks::lossy_open(all.skip(len)).text);
            },
        }
    }
}

/// Feeding chunk after chunk emits, run together, exactly the lossy decode
/// of all the bytes in order, however they were cut.
pub proof fn lemma_feed_all_lossy(carry: Seq<u8>, chunks: Seq<Seq<u8>>)
    requires
        crate::toks::wf_carry(carry),
    ensures
        flat_text(feed_all(carry, chunks).pushes) == crate::toks::lossy_open(
            carry + chunks.flatten(),
        ).text,
        feed_all(carry, chunks).errs == crate::toks::lossy_open(carry + chunks.flatten()).errs,
        count_repls(feed_all(carry, chunks).pushes) == feed_all(carry, chunks).errs,
        feed_all(carry, chunks).carry == crate::toks::lossy_open(carry + chunks.flatten()).rest,
        crate::toks::wf_carry(feed_all(carry, chunks).carry),
    decreases chunks.len(),
{
    crate::toks::lemma_lossy_open_rest_wf(carry + chunks.flatten());
    if chunks.len() == 0 {
        assert(chunks.flatten() =~= Seq::<u8>::empty());
        assert(carry + chunks.flatten() =~= carry);
        if carry.len() > 0 {
            crate::toks::lemma_incomplete_iff(carry);
        }
    } else {
        let o = process_spec(carry, chunks[0]);
        let r = feed_all(o.carry, chunks.drop_first());
        lemma_process_lossy(carry, chunks[0]);
        lemma_feed_all_lossy(o.carry, chunks.drop_first());
        lemma_flat_append(o.pushes, r.pushes);
        assert(chunks.flatten() =~= chunks[0] + chunks.drop_first().flatten());
        assert(carry + chunks.flatten() =~= (carry + chunks[0]) + chunks.drop_first().flatten());
        crate::toks::lemma_lossy_open_append(carry + chunks[0], chunks.drop_first().flatten());
        assert(crate::toks::lossy_open(carry + chunks[0]).rest + chunks.drop_first().flatten()
            =~= o.carry + chunks.drop_first().flatten());
    }
}

} // verus!
