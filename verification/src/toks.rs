//! Byte-level view of an incremental UTF-8 stream.
//!
//! The stream is cut into tokens, each a complete scalar encoding, an
//! ill-formed stretch repaired as one replacement character, or the trailing
//! proper prefix of an encoding that a later chunk may still complete.
//! Ill-formed stretches follow the "maximal subpart" convention of the
//! Unicode standard: an error consumes the longest prefix of a well-formed
//! encoding (at least one byte) and nothing after it.

use vstd::prelude::*;
use vstd::utf8::*;

verus! {

/// Number of bytes in the encoding announced by a lead byte; 0 when the
/// byte cannot begin any well-formed sequence (continuation bytes, the
/// overlong leads 0xC0/0xC1, and bytes above 0xF4).
pub open spec fn lead_width(b: u8) -> int {
    if b < 0x80 {
        1
    } else if 0xC2 <= b && b <= 0xDF {
        2
    } else if 0xE0 <= b && b <= 0xEF {
        3
    } else if 0xF0 <= b && b <= 0xF4 {
        4
    } else {
        0
    }
}

/// Acceptable range for the second byte of a sequence led by `b0`.  The
/// constrained ranges for 0xE0, 0xED, 0xF0 and 0xF4 rule out overlong
/// encodings, surrogates, and codepoints beyond U+10FFFF.
pub open spec fn second_ok(b0: u8, b: u8) -> bool {
    if b0 == 0xE0 {
        0xA0 <= b && b <= 0xBF
    } else if b0 == 0xED {
        0x80 <= b && b <= 0x9F
    } else if b0 == 0xF0 {
        0x90 <= b && b <= 0xBF
    } else if b0 == 0xF4 {
        0x80 <= b && b <= 0x8F
    } else {
        is_continuation_byte(b)
    }
}

/// Whether `b` may stand at (0-based) position `k` of a sequence led by `b0`.
pub open spec fn cont_ok(b0: u8, k: int, b: u8) -> bool {
    if k == 1 {
        second_ok(b0, b)
    } else {
        is_continuation_byte(b)
    }
}

/// Classification of the bytes at the front of a stream.
pub enum Tok {
    /// The first `len` bytes are one well-formed scalar encoding.
    Complete { len: int },
    /// The whole remaining stream is a proper prefix of one encoding.
    Incomplete,
    /// The first `len` bytes are a maximal subpart of a well-formed
    /// encoding, and are repaired as one replacement character.
    Invalid { len: int },
}

/// Classify the front of a non-empty stream.
pub open spec fn first_tok(s: Seq<u8>) -> Tok
    recommends
        s.len() > 0,
{
    let w = lead_width(s[0]);
    if w == 0 {
        Tok::Invalid { len: 1 }
    } else if w == 1 {
        Tok::Complete { len: 1 }
    } else if s.len() == 1 {
        Tok::Incomplete
    } else if !cont_ok(s[0], 1, s[1]) {
        Tok::Invalid { len: 1 }
    } else if w == 2 {
        Tok::Complete { len: 2 }
    } else if s.len() == 2 {
        Tok::Incomplete
    } else if !cont_ok(s[0], 2, s[2]) {
        Tok::Invalid { len: 2 }
    } else if w == 3 {
        Tok::Complete { len: 3 }
    } else if s.len() == 3 {
        Tok::Incomplete
    } else if !cont_ok(s[0], 3, s[3]) {
        Tok::Invalid { len: 3 }
    } else {
        Tok::Complete { len: 4 }
    }
}

/// A proper prefix of a single well-formed sequence: exactly the shapes a
/// decoder may carry across a chunk boundary (at most three bytes).
pub open spec fn incomplete_prefix(s: Seq<u8>) -> bool {
    &&& 1 <= s.len() < lead_width(s[0])
    &&& forall|k: int| 1 <= k < s.len() ==> cont_ok(s[0], k, #[trigger] s[k])
}

/// What a decoder may hold between two chunks: nothing, or an incomplete
/// prefix.
pub open spec fn wf_carry(s: Seq<u8>) -> bool {
    s.len() == 0 || incomplete_prefix(s)
}

/// The character encoded at the front of a stream whose first token is
/// complete.
pub open spec fn first_char(s: Seq<u8>) -> char
    recommends
        first_tok(s) is Complete,
{
    decode_first_scalar(s) as char
}

/// Result of decoding a byte stream up to, but not beyond, a trailing
/// incomplete prefix.
pub struct LOut {
    /// The decoded characters, replacement characters included.
    pub text: Seq<char>,
    /// How many ill-formed stretches were repaired.
    pub errs: nat,
    /// The withheld trailing prefix (empty, or an incomplete prefix).
    pub rest: Seq<u8>,
}

/// Decode a whole stream token by token.  Each complete token contributes
/// its character, each invalid token one replacement character and one
/// error; a trailing incomplete prefix is withheld in `rest` rather than
/// condemned, since more bytes may follow.
pub open spec fn lossy_open(s: Seq<u8>) -> LOut
    decreases s.len(),
{
    if s.len() == 0 {
        LOut { text: seq![], errs: 0, rest: seq![] }
    } else {
        match first_tok(s) {
            Tok::Complete { len } => {
                let r = lossy_open(s.skip(len));
                LOut { text: seq![first_char(s)] + r.text, errs: r.errs, rest: r.rest }
            },
            Tok::Incomplete => LOut { text: seq![], errs: 0, rest: s },
            Tok::Invalid { len } => {
                let r = lossy_open(s.skip(len));
                LOut {
                    text: seq![crate::replacement_char()] + r.text,
                    errs: r.errs + 1,
                    rest: r.rest,
                }
            },
        }
    }
}

proof fn bv_width_1(b0: u8)
    by (bit_vector)
    requires
        b0 <= 0x7F,
    ensures
        ((b0 & 0x7F) as u32) == b0 as u32,
        (b0 & 0x7F) < 0x80,
{
}

proof fn bv_width_2(b0: u8, b1: u8)
    by (bit_vector)
    requires
        0xC0 <= b0,
        b0 <= 0xDF,
        0x80 <= b1,
        b1 <= 0xBF,
    ensures
        ((((b0 & 0x1F) as u32) << 6) | ((b1 & 0x3F) as u32)) <= 0x7FF,
        (0x80 <= ((((b0 & 0x1F) as u32) << 6) | ((b1 & 0x3F) as u32))) <==> 0xC2 <= b0,
{
}

proof fn bv_width_3(b0: u8, b1: u8, b2: u8)
    by (bit_vector)
    requires
        0xE0 <= b0,
        b0 <= 0xEF,
        0x80 <= b1,
        b1 <= 0xBF,
        0x80 <= b2,
        b2 <= 0xBF,
    ensures
        ((((b0 & 0x0F) as u32) << 12) | (((b1 & 0x3F) as u32) << 6) | ((b2 & 0x3F) as u32))
            <= 0xFFFF,
        (0x800 <= ((((b0 & 0x0F) as u32) << 12) | (((b1 & 0x3F) as u32) << 6) | ((b2
            & 0x3F) as u32))) <==> (b0 != 0xE0 || 0xA0 <= b1),
        (0xD800 <= ((((b0 & 0x0F) as u32) << 12) | (((b1 & 0x3F) as u32) << 6) | ((b2
            & 0x3F) as u32)) && ((((b0 & 0x0F) as u32) << 12) | (((b1 & 0x3F) as u32) << 6) | ((b2
            & 0x3F) as u32)) <= 0xDFFF) <==> (b0 == 0xED && 0xA0 <= b1),
{
}

proof fn bv_width_4(b0: u8, b1: u8, b2: u8, b3: u8)
    by (bit_vector)
    requires
        0xF0 <= b0,
        b0 <= 0xF7,
        0x80 <= b1,
        b1 <= 0xBF,
        0x80 <= b2,
        b2 <= 0xBF,
        0x80 <= b3,
        b3 <= 0xBF,
    ensures
        (0x10000 <= ((((b0 & 0x07) as u32) << 18) | (((b1 & 0x3F) as u32) << 12) | (((b2
            & 0x3F) as u32) << 6) | ((b3 & 0x3F) as u32))) <==> (b0 != 0xF0 || 0x90 <= b1),
        (((((b0 & 0x07) as u32) << 18) | (((b1 & 0x3F) as u32) << 12) | (((b2 & 0x3F) as u32) << 6)
            | ((b3 & 0x3F) as u32)) <= 0x10FFFF) <==> (b0 < 0xF4 || (b0 == 0xF4 && b1 <= 0x8F)),
{
}

/// A stream beginning with a well-formed scalar encoding, in the sense of
/// `vstd::utf8`, tokenizes as a complete token of that encoding's length.
pub proof fn lemma_valid_first_tok(s: Seq<u8>)
    requires
        valid_first_scalar(s),
    ensures
        first_tok(s) == (Tok::Complete { len: length_of_first_scalar(s) }),
{
    let b0 = s[0];
    if is_leading_byte_width_1(b0) {
        bv_width_1(b0);
    } else if is_leading_byte_width_2(b0) {
        bv_width_2(b0, s[1]);
    } else if is_leading_byte_width_3(b0) {
        bv_width_3(b0, s[1], s[2]);
    } else {
        bv_width_4(b0, s[1], s[2], s[3]);
    }
}

/// A non-empty stream tokenizes as incomplete exactly when it is a proper
/// prefix of a single well-formed encoding.
pub proof fn lemma_incomplete_iff(s: Seq<u8>)
    requires
        s.len() > 0,
    ensures
        (first_tok(s) is Incomplete) <==> incomplete_prefix(s),
{
    if incomplete_prefix(s) {
        assert(1 <= s.len() < lead_width(s[0]));
        if s.len() >= 2 {
            assert(cont_ok(s[0], 1, s[1]));
        }
        if s.len() >= 3 {
            assert(cont_ok(s[0], 2, s[2]));
        }
    }
}

/// Every token length is at least one byte and lies within the stream.
pub proof fn lemma_tok_bounds(s: Seq<u8>)
    requires
        s.len() > 0,
    ensures
        first_tok(s) matches Tok::Complete { len } ==> 1 <= len <= s.len(),
        first_tok(s) matches Tok::Invalid { len } ==> 1 <= len <= s.len(),
{
}

/// Classification of the front of a stream is settled by the bytes the
/// token spans, so feeding more bytes afterwards cannot change it — unless
/// the stream ended in an incomplete prefix, which is the one case a later
/// chunk may still decide.
pub proof fn lemma_first_tok_append(s: Seq<u8>, t: Seq<u8>)
    requires
        s.len() > 0,
        !(first_tok(s) is Incomplete),
    ensures
        first_tok(s + t) == first_tok(s),
        first_tok(s) is Complete ==> first_char(s + t) == first_char(s),
{
    let u = s + t;
    assert(u[0] == s[0]);
    if s.len() >= 2 {
        assert(u[1] == s[1]);
    }
    if s.len() >= 3 {
        assert(u[2] == s[2]);
    }
    if s.len() >= 4 {
        assert(u[3] == s[3]);
    }
}

/// The codepoint assembled from the bytes of a complete token is a Unicode
/// scalar: the constrained second-byte ranges leave no room for overlong
/// encodings, surrogates, or values beyond U+10FFFF.
pub proof fn lemma_scalar_of_width(b0: u8, b1: u8, b2: u8, b3: u8, w: int)
    requires
        w == lead_width(b0),
        1 <= w,
        2 <= w ==> cont_ok(b0, 1, b1),
        3 <= w ==> cont_ok(b0, 2, b2),
        4 <= w ==> cont_ok(b0, 3, b3),
    ensures
        w == 1 ==> is_scalar(codepoint_width_1(b0)),
        w == 2 ==> is_scalar(codepoint_width_2(b0, b1)),
        w == 3 ==> is_scalar(codepoint_width_3(b0, b1, b2)),
        w == 4 ==> is_scalar(codepoint_width_4(b0, b1, b2, b3)),
{
    if w == 1 {
        bv_width_1(b0);
    } else if w == 2 {
        bv_width_2(b0, b1);
    } else if w == 3 {
        bv_width_3(b0, b1, b2);
    } else {
        bv_width_4(b0, b1, b2, b3);
    }
}

/// The withheld trailing prefix of any stream is a well-formed carry.
pub proof fn lemma_lossy_open_rest_wf(s: Seq<u8>)
    ensures
        wf_carry(lossy_open(s).rest),
    decreases s.len(),
{
    if s.len() > 0 {
        match first_tok(s) {
            Tok::Complete { len } => {
                lemma_tok_bounds(s);
                lemma_lossy_open_rest_wf(s.skip(len));
            },
            Tok::Incomplete => {
                lemma_incomplete_iff(s);
            },
            Tok::Invalid { len } => {
                lemma_tok_bounds(s);
                lemma_lossy_open_rest_wf(s.skip(len));
            },
        }
    }
}

/// Decoding is compositional: a stream followed by more bytes decodes to
/// what the stream decoded, then whatever its withheld prefix and the new
/// bytes decode to.  This is what lets a decoder forget everything about a
/// consumed chunk except the carried prefix.
pub proof fn lemma_lossy_open_append(s: Seq<u8>, t: Seq<u8>)
    ensures
        lossy_open(s + t).text == lossy_open(s).text + lossy_open(lossy_open(s).rest + t).text,
        lossy_open(s + t).errs == lossy_open(s).errs + lossy_open(lossy_open(s).rest + t).errs,
        lossy_open(s + t).rest == lossy_open(lossy_open(s).rest + t).rest,
    decreases s.len(),
{
    if s.len() == 0 {
        assert(s + t =~= t);
        assert(lossy_open(s).rest + t =~= t);
        assert(lossy_open(s).text + lossy_open(t).text =~= lossy_open(t).text);
    } else {
        match first_tok(s) {
            Tok::Incomplete => {
                assert(lossy_open(s).rest == s);
                assert(lossy_open(s).text + lossy_open(s + t).text =~= lossy_open(s + t).text);
            },
            Tok::Complete { len } => {
                lemma_tok_bounds(s);
                lemma_first_tok_append(s, t);
                assert((s + t).skip(len) =~= s.skip(len) + t);
                lemma_lossy_open_append(s.skip(len), t);
                assert(seq![first_char(s)] + (lossy_open(s.skip(len)).text + lossy_open(
                    lossy_open(s.skip(len)).rest + t,
                ).text) =~= (seq![first_char(s)] + lossy_open(s.skip(len)).text) + lossy_open(
                    lossy_open(s.skip(len)).rest + t,
                ).text);
            },
            Tok::Invalid { len } => {
                lemma_tok_bounds(s);
                lemma_first_tok_append(s, t);
                assert((s + t).skip(len) =~= s.skip(len) + t);
                lemma_lossy_open_append(s.skip(len), t);
                assert(seq![crate::replacement_char()] + (lossy_open(s.skip(len)).text
                    + lossy_open(lossy_open(s.skip(len)).rest + t).text) =~= (seq![
                    crate::replacement_char(),
                ] + lossy_open(s.skip(len)).text) + lossy_open(
                    lossy_open(s.skip(len)).rest + t,
                ).text);
            },
        }
    }
}

/// A valid UTF-8 stream decodes exactly, with no repairs and nothing
/// withheld.
pub proof fn lemma_lossy_open_valid(s: Seq<u8>)
    requires
        valid_utf8(s),
    ensures
        lossy_open(s).text == decode_utf8(s),
        lossy_open(s).errs == 0,
        lossy_open(s).rest == Seq::<u8>::empty(),
    decreases s.len(),
{
    if s.len() > 0 {
        lemma_valid_first_tok(s);
        let l = length_of_first_scalar(s);
        assert(s.skip(l) =~= pop_first_scalar(s));
        lemma_lossy_open_valid(s.skip(l));
    }
}

} // verus!
