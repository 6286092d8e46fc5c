//! The incremental UTF-8 validator and repairer.

use vstd::prelude::*;
use vstd::utf8::*;

use crate::emits::eof_msg;
use crate::emits::finish_notices;
use crate::emits::flush;
use crate::emits::lemma_push_append;
use crate::emits::finish_pushes;
use crate::emits::invalid_msg;
use crate::emits::invalid_notices;
use crate::emits::lemma_invalid_notices_snoc;
use crate::emits::lemma_texts_of_append;
use crate::emits::process_spec;
use crate::emits::scan_acc;
use crate::emits::texts_of;
use crate::emits::Push;
use crate::sink::TendrilSink;
use crate::toks::cont_ok;
use crate::toks::first_char;
use crate::toks::first_tok;
use crate::toks::incomplete_prefix;
use crate::toks::lead_width;
use crate::toks::lemma_incomplete_iff;
use crate::toks::lemma_scalar_of_width;
use crate::toks::second_ok;
use crate::toks::wf_carry;
use crate::toks::Tok;

verus! {

fn lead_width_x(b: u8) -> (w: usize)
    ensures
        w as int == lead_width(b),
{
    if b < 0x80 {
        1
    } else if 0xC2 <= b && b <= 0xDF {
        2
    } else if 0xE0 <= b && b <= 0xEF {
        3
    } else if 0xF0 <= b && b <= 0xF4 {
        4
    } else {
        0
    }
}

fn second_ok_x(b0: u8, b: u8) -> (r: bool)
    ensures
        r == second_ok(b0, b),
{
    if b0 == 0xE0 {
        0xA0 <= b && b <= 0xBF
    } else if b0 == 0xED {
        0x80 <= b && b <= 0x9F
    } else if b0 == 0xF0 {
        0x90 <= b && b <= 0xBF
    } else if b0 == 0xF4 {
        0x80 <= b && b <= 0x8F
    } else {
        0x80 <= b && b <= 0xBF
    }
}

fn cont_ok_x(b0: u8, k: usize, b: u8) -> (r: bool)
    requires
        1 <= k,
    ensures
        r == cont_ok(b0, k as int, b),
{
    if k == 1 {
        second_ok_x(b0, b)
    } else {
        0x80 <= b && b <= 0xBF
    }
}

/// Assemble the character encoded by `w` bytes that have passed the lead
/// and continuation checks.  Unused byte arguments are ignored.
fn decode_scalar_x(b0: u8, b1: u8, b2: u8, b3: u8, w: usize) -> (c: char)
    requires
        w as int == lead_width(b0),
        1 <= w,
        2 <= w ==> cont_ok(b0, 1, b1),
        3 <= w ==> cont_ok(b0, 2, b2),
        4 <= w ==> cont_ok(b0, 3, b3),
    ensures
        w == 1 ==> c as u32 == codepoint_width_1(b0),
        w == 2 ==> c as u32 == codepoint_width_2(b0, b1),
        w == 3 ==> c as u32 == codepoint_width_3(b0, b1, b2),
        w == 4 ==> c as u32 == codepoint_width_4(b0, b1, b2, b3),
{
    let cp: u32 = if w == 1 {
        (b0 & 0x7F) as u32
    } else if w == 2 {
        (((b0 & 0x1F) as u32) << 6u32) | ((b1 & 0x3F) as u32)
    } else if w == 3 {
        (((b0 & 0x0F) as u32) << 12u32) | (((b1 & 0x3F) as u32) << 6u32) | ((b2 & 0x3F) as u32)
    } else {
        (((b0 & 0x07) as u32) << 18u32) | (((b1 & 0x3F) as u32) << 12u32) | (((b2
            & 0x3F) as u32) << 6u32) | ((b3 & 0x3F) as u32)
    };
    proof {
        lemma_scalar_of_width(b0, b1, b2, b3, w as int);
    }
    char::from_u32(cp).unwrap()
}

/// A one-character text chunk.
fn char_chunk(c: char) -> (s: String)
    ensures
        s@ == seq![c],
{
    let mut s = String::new();
    s.push(c);
    proof {
        assert(s@ =~= seq![c]);
    }
    s
}

/// What the bytes from position `i` on begin with.
enum Classified {
    Complete { len: usize, c: char },
    Incomplete,
    Invalid { len: usize },
}

/// Classify the token at position `i` of the chunk, mirroring
/// [`first_tok`] on the suffix.
fn classify(t: &Vec<u8>, i: usize) -> (r: Classified)
    requires
        i < t@.len(),
    ensures
        ({
            let si = t@.skip(i as int);
            match r {
                Classified::Complete { len, c } => {
                    &&& first_tok(si) == (Tok::Complete { len: len as int })
                    &&& c == first_char(si)
                    &&& 1 <= len
                    &&& i + len <= t@.len()
                },
                Classified::Incomplete => first_tok(si) is Incomplete,
                Classified::Invalid { len } => {
                    &&& first_tok(si) == (Tok::Invalid { len: len as int })
                    &&& 1 <= len
                    &&& i + len <= t@.len()
                },
            }
        }),
{
    let ghost si = t@.skip(i as int);
    proof {
        assert(si.len() == t@.len() - i);
        assert(si[0] == t@[i as int]);
        if si.len() > 1 {
            assert(si[1] == t@[i + 1]);
        }
        if si.len() > 2 {
            assert(si[2] == t@[i + 2]);
        }
        if si.len() > 3 {
            assert(si[3] == t@[i + 3]);
        }
    }
    let b0 = t[i];
    let w = lead_width_x(b0);
    if w == 0 {
        return Classified::Invalid { len: 1 };
    }
    if w == 1 {
        let c = decode_scalar_x(b0, 0, 0, 0, 1);
        proof {
            char_u32_cast(c, decode_first_scalar(si));
        }
        return Classified::Complete { len: 1, c };
    }
    if t.len() - i <= 1 {
        return Classified::Incomplete;
    }
    let b1 = t[i + 1];
    if !cont_ok_x(b0, 1, b1) {
        return Classified::Invalid { len: 1 };
    }
    if w == 2 {
        let c = decode_scalar_x(b0, b1, 0, 0, 2);
        proof {
            char_u32_cast(c, decode_first_scalar(si));
        }
        return Classified::Complete { len: 2, c };
    }
    if t.len() - i <= 2 {
        return Classified::Incomplete;
    }
    let b2 = t[i + 2];
    if !cont_ok_x(b0, 2, b2) {
        return Classified::Invalid { len: 2 };
    }
    if w == 3 {
        let c = decode_scalar_x(b0, b1, b2, 0, 3);
        proof {
            char_u32_cast(c, decode_first_scalar(si));
        }
        return Classified::Complete { len: 3, c };
    }
    if t.len() - i <= 3 {
        return Classified::Incomplete;
    }
    let b3 = t[i + 3];
    if !cont_ok_x(b0, 3, b3) {
        return Classified::Invalid { len: 3 };
    }
    let c = decode_scalar_x(b0, b1, b2, b3, 4);
    proof {
        char_u32_cast(c, decode_first_scalar(si));
    }
    Classified::Complete { len: 4, c }
}

/// A decoder that takes byte chunks, validates them as UTF-8 across chunk
/// boundaries, repairs ill-formed stretches with U+FFFD, and pushes the
/// text on to a consumer sink.
///
/// Between calls it holds at most three bytes: the longest proper prefix of
/// a single encoding that a chunk may end in.
pub struct Utf8LossyDecoder<Sink: TendrilSink> {
    /// The consumer everything decoded is pushed to.
    pub sink: Sink,
    /// Bytes of an incomplete sequence carried to the next chunk.
    pub carry: Vec<u8>,
}

impl<Sink: TendrilSink> Utf8LossyDecoder<Sink> {
    /// The carried bytes are empty or a proper prefix of one encoding.
    pub open spec fn wf(&self) -> bool {
        wf_carry(self.carry@)
    }

    /// Create a new incremental validator pushing to `sink`.
    pub fn new(sink: Sink) -> (d: Utf8LossyDecoder<Sink>)
        ensures
            d.wf(),
            d.carry@ == Seq::<u8>::empty(),
            d.sink == sink,
    {
        Utf8LossyDecoder { sink, carry: Vec::new() }
    }

    /// Pass an upstream error notice through to the sink.
    pub fn error(&mut self, desc: String)
        ensures
            final(self).sink.texts() == old(self).sink.texts(),
            final(self).sink.errors() == old(self).sink.errors().push(desc@),
            final(self).carry == old(self).carry,
    {
        self.sink.error(desc);
    }

    /// Scan the chunk from `from` onward with nothing carried: push each
    /// maximal well-formed run as one chunk, repair each ill-formed
    /// stretch, and carry a trailing incomplete prefix.
    fn scan_from(&mut self, t: &Vec<u8>, from: usize)
        requires
            old(self).carry@.len() == 0,
            from <= t@.len(),
        ensures
            final(self).sink.texts() == old(self).sink.texts() + texts_of(
                scan_acc(t@.skip(from as int), seq![]).pushes,
            ),
            final(self).sink.errors() == old(self).sink.errors() + invalid_notices(
                scan_acc(t@.skip(from as int), seq![]).errs,
            ),
            final(self).carry@ == scan_acc(t@.skip(from as int), seq![]).carry,
            final(self).wf(),
    {
        let ghost target = scan_acc(t@.skip(from as int), Seq::<char>::empty());
        let ghost texts0 = old(self).sink.texts();
        let ghost errs0 = old(self).sink.errors();
        let mut i: usize = from;
        let mut pending = String::new();
        let ghost mut done: Seq<Push> = seq![];
        let ghost mut nerr: nat = 0;
        loop
            invariant_except_break
                from <= i <= t@.len(),
                self.carry@.len() == 0,
                self.sink.texts() == texts0 + texts_of(done),
                self.sink.errors() == errs0 + invalid_notices(nerr),
                target == scan_acc(t@.skip(from as int), Seq::<char>::empty()),
                target.pushes == done + scan_acc(t@.skip(i as int), pending@).pushes,
                target.errs == nerr + scan_acc(t@.skip(i as int), pending@).errs,
                target.carry == scan_acc(t@.skip(i as int), pending@).carry,
            ensures
                self.sink.texts() == texts0 + texts_of(target.pushes),
                self.sink.errors() == errs0 + invalid_notices(target.errs),
                self.carry@ == target.carry,
                wf_carry(self.carry@),
            decreases t@.len() - i,
        {
            let ghost si = t@.skip(i as int);
            if i == t.len() {
                proof {
                    assert(si =~= Seq::<u8>::empty());
                }
                let ghost p = pending@;
                if !pending.as_str().is_empty() {
                    self.sink.process(pending);
                    proof {
                        lemma_texts_of_append(done, flush(p));
                        assert(texts_of(flush(p)) =~= seq![p]);
                        lemma_push_append(texts0, texts_of(done), p);
                        assert(texts_of(done).push(p) =~= texts_of(done) + texts_of(flush(p)));
                        done = done + flush(p);
                    }
                } else {
                    proof {
                        assert(flush(p) =~= Seq::<Push>::empty());
                        assert(done + flush(p) =~= done);
                        done = done + flush(p);
                    }
                }
                proof {
                    assert(target.pushes == done);
                }
                break;
            }
            match classify(t, i) {
                Classified::Complete { len, c } => {
                    pending.push(c);
                    proof {
                        assert(si.skip(len as int) =~= t@.skip(i as int + len as int));
                    }
                    i = i + len;
                },
                Classified::Invalid { len } => {
                    let ghost p = pending@;
                    if !pending.as_str().is_empty() {
                        self.sink.process(pending);
                        pending = String::new();
                        proof {
                            lemma_texts_of_append(done, flush(p));
                            assert(texts_of(flush(p)) =~= seq![p]);
                            lemma_push_append(texts0, texts_of(done), p);
                            assert(texts_of(done).push(p) =~= texts_of(done) + texts_of(flush(p)));
                        }
                    } else {
                        proof {
                            assert(p =~= Seq::<char>::empty());
                            assert(flush(p) =~= Seq::<Push>::empty());
                            assert(texts_of(flush(p)) =~= Seq::<Seq<char>>::empty());
                            assert(texts_of(done) + texts_of(flush(p)) =~= texts_of(done));
                            lemma_texts_of_append(done, flush(p));
                        }
                    }
                    self.sink.error(String::from_str("invalid byte sequence"));
                    self.sink.process(char_chunk('\u{fffd}'));
                    proof {
                        assert(si.skip(len as int) =~= t@.skip(i as int + len as int));
                        let r = scan_acc(t@.skip(i as int + len as int), Seq::<char>::empty());
                        lemma_texts_of_append(done + flush(p), seq![Push::Repl]);
                        assert(texts_of(seq![Push::Repl]) =~= seq![
                            seq![crate::replacement_char()],
                        ]);
                        lemma_push_append(
                            texts0,
                            texts_of(done + flush(p)),
                            seq![crate::replacement_char()],
                        );
                        assert(texts_of(done + flush(p)).push(seq![crate::replacement_char()])
                            =~= texts_of(done + flush(p)) + texts_of(seq![Push::Repl]));
                        lemma_push_append(errs0, invalid_notices(nerr), invalid_msg());
                        lemma_invalid_notices_snoc(nerr);
                        done = done + flush(p) + seq![Push::Repl];
                        nerr = nerr + 1;
                        assert((done + r.pushes) =~= target.pushes);
                    }
                    i = i + len;
                },
                Classified::Incomplete => {
                    let ghost p = pending@;
                    if !pending.as_str().is_empty() {
                        self.sink.process(pending);
                        proof {
                            lemma_texts_of_append(done, flush(p));
                            assert(texts_of(flush(p)) =~= seq![p]);
                            lemma_push_append(texts0, texts_of(done), p);
                            assert(texts_of(done).push(p) =~= texts_of(done) + texts_of(flush(p)));
                            done = done + flush(p);
                        }
                    } else {
                        proof {
                            assert(flush(p) =~= Seq::<Push>::empty());
                            assert(done + flush(p) =~= done);
                            done = done + flush(p);
                        }
                    }
                    let ghost sink_snap = self.sink;
                    let mut j = i;
                    while j < t.len()
                        invariant
                            i <= j <= t@.len(),
                            self.carry@ == t@.subrange(i as int, j as int),
                            self.sink == sink_snap,
                        decreases t@.len() - j,
                    {
                        let b = t[j];
                        self.carry.push(b);
                        proof {
                            assert(t@.subrange(i as int, j as int + 1) =~= t@.subrange(
                                i as int,
                                j as int,
                            ).push(t@[j as int]));
                        }
                        j = j + 1;
                    }
                    proof {
                        assert(self.carry@ =~= si);
                        lemma_incomplete_iff(si);
                        assert(target.pushes == done);
                    }
                    break;
                },
            }
        }
    }

    /// Decode one more chunk of bytes.  Together with the carried bytes it
    /// is cut into maximal well-formed runs, each pushed as one text chunk;
    /// every ill-formed stretch is reported and repaired with one
    /// replacement chunk; a trailing incomplete sequence is carried to the
    /// next call.  [`process_spec`] pins the pushes down exactly; an empty
    /// chunk is a no-op.
    pub fn process(&mut self, t: &Vec<u8>)
        requires
            old(self).wf(),
        ensures
            final(self).wf(),
            final(self).sink.texts() == old(self).sink.texts() + texts_of(
                process_spec(old(self).carry@, t@).pushes,
            ),
            final(self).sink.errors() == old(self).sink.errors() + invalid_notices(
                process_spec(old(self).carry@, t@).errs,
            ),
            final(self).carry@ == process_spec(old(self).carry@, t@).carry,
    {
        let ghost c0 = old(self).carry@;
        let ghost all = c0 + t@;
        let ghost out = process_spec(c0, t@);
        if self.carry.len() == 0 {
            proof {
                assert(t@.skip(0) =~= t@);
            }
            self.scan_from(t, 0);
            return;
        }
        let lead = self.carry[0];
        let w = lead_width_x(lead);
        proof {
            assert(incomplete_prefix(c0));
            assert(2 <= w <= 4);
        }
        let mut i: usize = 0;
        let ghost mut head: Seq<Push> = seq![];
        let ghost mut herr: nat = 0;
        loop
            invariant_except_break
                self.sink == old(self).sink,
                i <= t@.len(),
                c0 == old(self).carry@,
                all == c0 + t@,
                out == process_spec(c0, t@),
                2 <= w <= 4,
                w as int == lead_width(c0[0]),
                lead == c0[0],
                incomplete_prefix(c0),
                self.carry@ == c0 + t@.take(i as int),
                (self.carry@.len() as int) < w as int,
                incomplete_prefix(self.carry@),
            ensures
                self.carry@.len() == 0,
                i <= t@.len(),
                self.sink.texts() == old(self).sink.texts() + texts_of(head),
                self.sink.errors() == old(self).sink.errors() + invalid_notices(herr),
                out.pushes == head + scan_acc(t@.skip(i as int), Seq::<char>::empty()).pushes,
                out.errs == herr + scan_acc(t@.skip(i as int), Seq::<char>::empty()).errs,
                out.carry == scan_acc(t@.skip(i as int), Seq::<char>::empty()).carry,
            decreases t@.len() - i,
        {
            proof {
                assert(self.carry@[0] == c0[0]);
                assert(forall|j: int|
                    0 <= j < self.carry@.len() ==> all[j] == #[trigger] self.carry@[j]);
            }
            if i == t.len() {
                proof {
                    assert(self.carry@ =~= all);
                    lemma_incomplete_iff(all);
                    assert(first_tok(all) is Incomplete);
                    assert(texts_of(out.pushes) =~= Seq::<Seq<char>>::empty());
                    assert(old(self).sink.texts() + texts_of(out.pushes) =~= old(
                        self,
                    ).sink.texts());
                    assert(old(self).sink.errors() + invalid_notices(out.errs) =~= old(
                        self,
                    ).sink.errors());
                }
                return;
            }
            let b = t[i];
            let k = self.carry.len();
            proof {
                assert(all[k as int] == t@[i as int]);
            }
            if cont_ok_x(lead, k, b) {
                let ghost pre = self.carry@;
                self.carry.push(b);
                i = i + 1;
                proof {
                    assert(self.carry@ =~= c0 + t@.take(i as int));
                    assert(self.carry@ == pre.push(b));
                    assert(forall|j: int|
                        1 <= j < self.carry@.len() ==> cont_ok(
                            self.carry@[0],
                            j,
                            #[trigger] self.carry@[j],
                        )) by {
                        assert(forall|j: int|
                            1 <= j < pre.len() ==> cont_ok(pre[0], j, #[trigger] pre[j]));
                        assert(forall|j: int|
                            0 <= j < pre.len() ==> #[trigger] self.carry@[j] == pre[j]);
                        assert(self.carry@[pre.len() as int] == b);
                        assert(pre[0] == c0[0]);
                        assert(cont_ok(pre[0], pre.len() as int, b));
                    }
                }
                if self.carry.len() == w {
                    let b0 = self.carry[0];
                    let b1 = self.carry[1];
                    let b2 = if w >= 3 {
                        self.carry[2]
                    } else {
                        0
                    };
                    let b3 = if w >= 4 {
                        self.carry[3]
                    } else {
                        0
                    };
                    proof {
                        assert(forall|j: int|
                            0 <= j < self.carry@.len() ==> all[j] == #[trigger] self.carry@[j]);
                        assert(first_tok(all) == (Tok::Complete { len: w as int }));
                    }
                    let c = decode_scalar_x(b0, b1, b2, b3, w);
                    proof {
                        char_u32_cast(c, decode_first_scalar(all));
                        assert(c == first_char(all));
                        head = seq![Push::Text { chunk: seq![c] }];
                        herr = 0;
                    }
                    self.sink.process(char_chunk(c));
                    self.carry.clear();
                    proof {
                        assert(all.skip(w as int) =~= t@.skip(i as int));
                        assert(texts_of(head) =~= seq![seq![c]]);
                        assert(old(self).sink.texts() + texts_of(head) =~= old(
                            self,
                        ).sink.texts().push(seq![c]));
                        assert(old(self).sink.errors() + invalid_notices(herr) =~= old(
                            self,
                        ).sink.errors());
                        assert(out.pushes =~= head + scan_acc(
                            t@.skip(i as int),
                            Seq::<char>::empty(),
                        ).pushes);
                    }
                    break;
                }
            } else {
                proof {
                    assert(all.len() == c0.len() + t@.len());
                    assert(all[0] == c0[0]);
                    if k >= 2 {
                        assert(cont_ok(self.carry@[0], 1, self.carry@[1]));
                        assert(cont_ok(all[0], 1, all[1]));
                    }
                    if k >= 3 {
                        assert(cont_ok(self.carry@[0], 2, self.carry@[2]));
                        assert(cont_ok(all[0], 2, all[2]));
                    }
                    assert(self.carry@[0] == c0[0]);
                    assert(all[k as int] == b);
                    assert(!cont_ok(all[0], k as int, all[k as int]));
                    assert(first_tok(all) == (Tok::Invalid { len: self.carry@.len() as int }));
                    head = seq![Push::Repl];
                    herr = 1;
                }
                self.sink.error(String::from_str("invalid byte sequence"));
                self.sink.process(char_chunk('\u{fffd}'));
                let ghost klen = self.carry@.len() as int;
                self.carry.clear();
                proof {
                    assert(all.skip(klen) =~= t@.skip(i as int));
                    assert(texts_of(head) =~= seq![seq![crate::replacement_char()]]);
                    assert(old(self).sink.texts() + texts_of(head) =~= old(
                        self,
                    ).sink.texts().push(seq![crate::replacement_char()]));
                    assert(invalid_notices(1nat) =~= seq![invalid_msg()]);
                    assert(old(self).sink.errors() + invalid_notices(herr) =~= old(
                        self,
                    ).sink.errors().push(invalid_msg()));
                    assert(out.pushes =~= head + scan_acc(
                        t@.skip(i as int),
                        Seq::<char>::empty(),
                    ).pushes);
                }
                break;
            }
        }
        let ghost mid_texts = self.sink.texts();
        let ghost mid_errs = self.sink.errors();
        self.scan_from(t, i);
        proof {
            let tail = scan_acc(t@.skip(i as int), Seq::<char>::empty());
            lemma_texts_of_append(head, tail.pushes);
            crate::emits::lemma_invalid_notices_append(herr, tail.errs);
            assert((old(self).sink.texts() + texts_of(head)) + texts_of(tail.pushes) =~= old(
                self,
            ).sink.texts() + (texts_of(head) + texts_of(tail.pushes)));
            assert((old(self).sink.errors() + invalid_notices(herr)) + invalid_notices(tail.errs)
                =~= old(self).sink.errors() + (invalid_notices(herr) + invalid_notices(tail.errs)));
        }
    }

    /// Feed every chunk in order, then finish, handing back the sink: the
    /// convenience for input that is already at hand, however it was cut.
    pub fn from_iter(self, chunks: &Vec<Vec<u8>>) -> (s: Sink)
        requires
            self.wf(),
        ensures
            ({
                let fed = crate::emits::feed_all(
                    self.carry@,
                    chunks@.map_values(|c: Vec<u8>| c@),
                );
                &&& s.texts() == self.sink.texts() + texts_of(
                    fed.pushes + finish_pushes(fed.carry),
                )
                &&& s.errors() == self.sink.errors() + (invalid_notices(fed.errs)
                    + finish_notices(fed.carry))
            }),
    {
        let ghost texts0 = self.sink.texts();
        let ghost errs0 = self.sink.errors();
        let ghost c0 = self.carry@;
        let ghost cs = chunks@.map_values(|c: Vec<u8>| c@);
        let ghost fed = crate::emits::feed_all(c0, cs);
        let mut d = self;
        let mut idx: usize = 0;
        while idx < chunks.len()
            invariant
                idx <= chunks@.len(),
                cs == chunks@.map_values(|c: Vec<u8>| c@),
                d.wf(),
                d.sink.texts() == texts0 + texts_of(
                    crate::emits::feed_all(c0, cs.take(idx as int)).pushes,
                ),
                d.sink.errors() == errs0 + invalid_notices(
                    crate::emits::feed_all(c0, cs.take(idx as int)).errs,
                ),
                d.carry@ == crate::emits::feed_all(c0, cs.take(idx as int)).carry,
            decreases chunks@.len() - idx,
        {
            let ghost before = crate::emits::feed_all(c0, cs.take(idx as int));
            d.process(&chunks[idx]);
            proof {
                assert(cs[idx as int] == chunks@[idx as int]@);
                assert(cs.take(idx as int + 1) =~= cs.take(idx as int).push(cs[idx as int]));
                crate::emits::lemma_feed_all_snoc(c0, cs.take(idx as int), cs[idx as int]);
                let step = process_spec(before.carry, cs[idx as int]);
                lemma_texts_of_append(before.pushes, step.pushes);
                crate::emits::lemma_invalid_notices_append(before.errs, step.errs);
                assert((texts0 + texts_of(before.pushes)) + texts_of(step.pushes) =~= texts0 + (
                texts_of(before.pushes) + texts_of(step.pushes)));
                assert((errs0 + invalid_notices(before.errs)) + invalid_notices(step.errs)
                    =~= errs0 + (invalid_notices(before.errs) + invalid_notices(step.errs)));
            }
            idx = idx + 1;
        }
        proof {
            assert(cs.take(cs.len() as int) =~= cs);
        }
        let s = d.finish();
        proof {
            lemma_texts_of_append(fed.pushes, finish_pushes(fed.carry));
            assert((texts0 + texts_of(fed.pushes)) + texts_of(finish_pushes(fed.carry)) =~= texts0
                + (texts_of(fed.pushes) + texts_of(finish_pushes(fed.carry))));
            assert((errs0 + invalid_notices(fed.errs)) + finish_notices(fed.carry) =~= errs0 + (
            invalid_notices(fed.errs) + finish_notices(fed.carry)));
        }
        s
    }

    /// End the stream.  A still-incomplete sequence is repaired first: one
    /// error notice and one replacement chunk.  The sink is notified of the
    /// end and handed back, so its accumulated result can be taken out.
    pub fn finish(self) -> (s: Sink)
        requires
            self.wf(),
        ensures
            s.texts() == self.sink.texts() + texts_of(finish_pushes(self.carry@)),
            s.errors() == self.sink.errors() + finish_notices(self.carry@),
    {
        let Utf8LossyDecoder { mut sink, carry } = self;
        if carry.len() > 0 {
            sink.error(String::from_str("incomplete byte sequence at end of stream"));
            sink.process(char_chunk('\u{fffd}'));
            proof {
                assert(texts_of(finish_pushes(carry@)) =~= seq![seq![crate::replacement_char()]]);
                assert(self.sink.texts() + texts_of(finish_pushes(carry@)) =~= self.sink.texts().push(
                    seq![crate::replacement_char()],
                ));
                assert(self.sink.errors() + finish_notices(carry@) =~= self.sink.errors().push(
                    eof_msg(),
                ));
            }
        } else {
            proof {
                assert(texts_of(finish_pushes(carry@)) =~= Seq::<Seq<char>>::empty());
                assert(self.sink.texts() + texts_of(finish_pushes(carry@)) =~= self.sink.texts());
                assert(self.sink.errors() + finish_notices(carry@) =~= self.sink.errors());
            }
        }
        sink.finish();
        sink
    }
}

} // verus!
