//! Base64 content handling: whitespace tolerance is the library's own,
//! verified logic; the encoding and decoding themselves are done by the
//! `base64` crate behind trusted wrappers.

use vstd::prelude::*;

use base64::Engine;

verus! {

/// The bytes the `base64` crate's standard encoding produces for a buffer.
pub uninterp spec fn b64_of(bytes: Seq<u8>) -> Seq<u8>;

/// What the `base64` crate's standard decoding yields for a piece of text:
/// the decoded bytes, or `None` where the text is not valid base64.
pub uninterp spec fn b64_decode_of(text: Seq<u8>) -> Option<Seq<u8>>;

/// Relies on base64's `STANDARD` engine `encode` (standard alphabet, with
/// padding); the result depends on the input bytes alone. The standard
/// encoding is documented to decode back to the input, and its alphabet
/// and padding hold no whitespace.
#[verifier::external_body]
pub fn b64_encode(b: &[u8]) -> (r: Vec<u8>)
    ensures
        r@ == b64_of(b@),
        b64_decode_of(r@) == Some(b@),
        strip_ws(r@) == r@,
{
    base64::engine::general_purpose::STANDARD.encode(b).into_bytes()
}

/// Relies on base64's `STANDARD` engine `decode`; the result depends on the
/// input bytes alone.
#[verifier::external_body]
pub fn b64_decode(s: &[u8]) -> (r: Option<Vec<u8>>)
    ensures
        r matches Some(v) ==> b64_decode_of(s@) == Some(v@),
        r is None ==> b64_decode_of(s@) is None,
{
    match base64::engine::general_purpose::STANDARD.decode(s) {
        Ok(v) => Some(v),
        Err(_) => None,
    }
}

/// An ASCII whitespace byte, as tolerated inside base64 content.
pub open spec fn is_ws(b: u8) -> bool {
    b == 32 || b == 9 || b == 10 || b == 13
}

/// The text with every whitespace byte removed.
pub open spec fn strip_ws(s: Seq<u8>) -> Seq<u8>
    decreases s.len(),
{
    if s.len() == 0 {
        Seq::empty()
    } else if is_ws(s[0]) {
        strip_ws(s.drop_first())
    } else {
        seq![s[0]] + strip_ws(s.drop_first())
    }
}

pub proof fn lemma_strip_ws_push(s: Seq<u8>, b: u8)
    ensures
        strip_ws(s.push(b)) == if is_ws(b) {
            strip_ws(s)
        } else {
            strip_ws(s) + seq![b]
        },
    decreases s.len(),
{
    if s.len() == 0 {
        assert(s.push(b)[0] == b);
        assert(s.push(b).drop_first() =~= Seq::<u8>::empty());
        if is_ws(b) {
            assert(strip_ws(s.push(b)) == strip_ws(Seq::<u8>::empty()));
        } else {
            assert(strip_ws(s.push(b)) == seq![b] + strip_ws(Seq::<u8>::empty()));
            assert(seq![b] + Seq::<u8>::empty() =~= Seq::<u8>::empty() + seq![b]);
        }
    } else {
        lemma_strip_ws_push(s.drop_first(), b);
        assert(s.push(b)[0] == s[0]);
        assert(s.push(b).drop_first() =~= s.drop_first().push(b));
        if is_ws(s[0]) {
            assert(strip_ws(s.push(b)) == strip_ws(s.drop_first().push(b)));
        } else if is_ws(b) {
            assert(strip_ws(s.push(b)) == seq![s[0]] + strip_ws(s.drop_first().push(b)));
        } else {
            assert(strip_ws(s.push(b)) == seq![s[0]] + (strip_ws(s.drop_first()) + seq![b]));
            assert(seq![s[0]] + (strip_ws(s.drop_first()) + seq![b]) =~= (seq![s[0]] + strip_ws(
                s.drop_first(),
            )) + seq![b]);
        }
    }
}

/// Stripping is idempotent: text without whitespace is left unchanged.
pub proof fn lemma_strip_ws_idempotent(s: Seq<u8>)
    ensures
        strip_ws(strip_ws(s)) == strip_ws(s),
    decreases s.len(),
{
    if s.len() > 0 {
        lemma_strip_ws_idempotent(s.drop_first());
        if !is_ws(s[0]) {
            let w = strip_ws(s.drop_first());
            assert((seq![s[0]] + w)[0] == s[0]);
            assert((seq![s[0]] + w).drop_first() =~= w);
            assert(strip_ws(seq![s[0]] + w) =~= seq![s[0]] + w);
        }
    }
}

/// Removes every whitespace byte from `s`.
pub fn strip_whitespace(s: &[u8]) -> (r: Vec<u8>)
    ensures
        r@ == strip_ws(s@),
{
    let mut out: Vec<u8> = Vec::new();
    let mut i: usize = 0;
    proof {
        assert(s@.take(0) =~= Seq::<u8>::empty());
    }
    while i < s.len()
        invariant
            0 <= i <= s@.len(),
            out@ == strip_ws(s@.take(i as int)),
        decreases s@.len() - i,
    {
        let b = s[i];
        if !(b == 32 || b == 9 || b == 10 || b == 13) {
            out.push(b);
        }
        proof {
            lemma_strip_ws_push(s@.take(i as int), b);
            assert(s@.take(i + 1) =~= s@.take(i as int).push(s@[i as int]));
        }
        i = i + 1;
    }
    proof {
        assert(s@.take(s@.len() as int) =~= s@);
    }
    out
}

/// What base64 content inside a `<base64>` element decodes to: whitespace
/// is stripped first, to tolerate line-wrapped content.
pub open spec fn b64_text_decode(s: Seq<u8>) -> Option<Seq<u8>> {
    b64_decode_of(strip_ws(s))
}

/// Decodes base64 content, tolerating embedded whitespace.
pub fn decode_base64_text(s: &[u8]) -> (r: Option<Vec<u8>>)
    ensures
        r matches Some(v) ==> b64_text_decode(s@) == Some(v@),
        r is None ==> b64_text_decode(s@) is None,
{
    let stripped = strip_whitespace(s);
    b64_decode(stripped.as_slice())
}

/// Base64 whitespace tolerance: content with embedded whitespace decodes
/// exactly as the same content without it.
pub proof fn lemma_b64_whitespace_tolerance(s: Seq<u8>)
    ensures
        b64_text_decode(s) == b64_text_decode(strip_ws(s)),
{
    lemma_strip_ws_idempotent(s);
}

} // verus!
