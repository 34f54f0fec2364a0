//! HDLC-style byte-stuffing framing.
//!
//! A payload is wrapped in `fend` sync delimiters; payload bytes that collide
//! with the delimiter or the escape symbol are replaced by two-byte escape
//! pairs, so that any byte value can travel inside a frame.  The crate offers
//! the encoder, an allocating decoder, and an in-place decoder that compacts
//! the caller's buffer and returns a sub-slice of it.
//!
//! Every operation is a pure function of its arguments and a [`SpecialChars`]
//! configuration.  The wire form of a payload is pinned down by the spec
//! functions [`frame_of`] and [`decoded`], and the encoder and the decoders
//! are verified against them; [`lemma_round_trip`] proves that decoding an
//! encoded frame always gives the original payload back.

use vstd::prelude::*;
use vstd::slice::slice_subrange;

verus! {

/// Special character configuration for encoding and decoding a packet.
///
/// The four values must be pairwise distinct; a configuration with a
/// duplicate value is rejected by every operation (see [`chars_valid`]).
#[derive(Debug, Copy, Clone)]
pub struct SpecialChars {
    /// Frame END. Byte that marks the beginning and end of a packet.
    pub fend: u8,
    /// Frame ESCape. Byte that marks the start of a swap byte.
    pub fesc: u8,
    /// Trade Frame END. Byte that is substituted for the FEND byte.
    pub tfend: u8,
    /// Trade Frame ESCape. Byte that is substituted for the FESC byte.
    pub tfesc: u8,
}

/// True when the four configured bytes are pairwise distinct.
///
/// A duplicate value would make the escaping rule ambiguous, so encoding and
/// decoding both refuse such a configuration before reading any data byte.
pub open spec fn chars_valid(c: SpecialChars) -> bool {
    &&& c.fend != c.fesc
    &&& c.fend != c.tfend
    &&& c.fend != c.tfesc
    &&& c.fesc != c.tfend
    &&& c.fesc != c.tfesc
    &&& c.tfend != c.tfesc
}

impl SpecialChars {
    /// Creates a new SpecialChars structure for encoding/decoding a packet.
    ///
    /// No validation happens here; a duplicate among the four values is
    /// reported by the first encode or decode call that uses them.
    pub fn new(fend: u8, fesc: u8, tfend: u8, tfesc: u8) -> (r: SpecialChars)
        ensures
            r.fend == fend,
            r.fesc == fesc,
            r.tfend == tfend,
            r.tfesc == tfesc,
    {
        SpecialChars { fend, fesc, tfend, tfesc }
    }
}

impl Default for SpecialChars {
    /// Creates the default SpecialChars structure, with the IEEE standard
    /// values FEND = 0x7E, FESC = 0x7D, TFEND = 0x5E, TFESC = 0x5D.
    fn default() -> (r: SpecialChars)
        ensures
            r.fend == 0x7E,
            r.fesc == 0x7D,
            r.tfend == 0x5E,
            r.tfesc == 0x5D,
            chars_valid(r),
    {
        SpecialChars { fend: 0x7E, fesc: 0x7D, tfend: 0x5E, tfesc: 0x5D }
    }
}

/// Common error for HDLC actions.
#[derive(Debug, PartialEq, Eq, Structural)]
pub enum HDLCError {
    /// Catches duplicate special characters.
    DuplicateSpecialChar,
    /// Catches a random sync char in the data.
    FendCharInData,
    /// Catches a random swap char, `fesc`, in the data with no `tfend` or `tfesc`.
    MissingTradeChar,
    /// No first fend on the message.
    MissingFirstFend,
    /// No final fend on the message.
    MissingFinalFend,
}

/// The wire bytes that stand for one payload byte.
///
/// `fend` and `fesc` become two-byte escape pairs; every other byte passes
/// through unchanged.
pub open spec fn escape_byte(b: u8, c: SpecialChars) -> Seq<u8> {
    if b == c.fesc {
        seq![c.fesc, c.tfesc]
    } else if b == c.fend {
        seq![c.fesc, c.tfend]
    } else {
        seq![b]
    }
}

/// The escaped form of a whole payload: each byte replaced by its wire bytes,
/// in order.
pub open spec fn escaped(data: Seq<u8>, c: SpecialChars) -> Seq<u8>
    decreases data.len(),
{
    if data.len() == 0 {
        Seq::empty()
    } else {
        escape_byte(data[0], c) + escaped(data.skip(1), c)
    }
}

/// The complete wire frame for a payload: `fend`, escaped payload, `fend`.
pub open spec fn frame_of(data: Seq<u8>, c: SpecialChars) -> Seq<u8> {
    seq![c.fend] + escaped(data, c) + seq![c.fend]
}

/// Checks the configuration on entry to every operation.
fn validate_chars(s_chars: &SpecialChars) -> (r: bool)
    ensures
        r == chars_valid(*s_chars),
{
    s_chars.fend != s_chars.fesc && s_chars.fend != s_chars.tfend && s_chars.fend
        != s_chars.tfesc && s_chars.fesc != s_chars.tfend && s_chars.fesc != s_chars.tfesc
        && s_chars.tfend != s_chars.tfesc
}

/// Produces escaped (encoded) message surrounded with `FEND`.
///
/// The result is exactly [`frame_of`] of the payload: an opening `fend`, the
/// escaped payload bytes, a closing `fend`.  Encoding never fails on payload
/// content; the only error is `DuplicateSpecialChar`, returned if and only if
/// the configuration holds two equal values.  The result depends on the
/// arguments alone.
pub fn encode(data: &[u8], s_chars: SpecialChars) -> (r: Result<Vec<u8>, HDLCError>)
    ensures
        chars_valid(s_chars) ==> r is Ok && r->Ok_0@ == frame_of(data@, s_chars),
        !chars_valid(s_chars) ==> r == Err::<Vec<u8>, HDLCError>(HDLCError::DuplicateSpecialChar),
{
    if !validate_chars(&s_chars) {
        return Err(HDLCError::DuplicateSpecialChar);
    }

    // Pre-size for the worst case, where every byte escapes; a capacity
    // hint only, the logic below never depends on it.
    let cap: usize = match data.len().checked_mul(2) {
        Some(c) => c,
        None => data.len(),
    };
    let mut output: Vec<u8> = Vec::with_capacity(cap);

    output.push(s_chars.fend);

    let n = data.len();
    let mut i: usize = 0;
    while i < n
        invariant
            n == data@.len(),
            0 <= i <= n,
            output@ == seq![s_chars.fend] + escaped(data@.take(i as int), s_chars),
        decreases n - i,
    {
        let b = data[i];
        if b == s_chars.fesc {
            output.push(s_chars.fesc);
            output.push(s_chars.tfesc);
        } else if b == s_chars.fend {
            output.push(s_chars.fesc);
            output.push(s_chars.tfend);
        } else {
            output.push(b);
        }
        proof {
            lemma_escaped_snoc(data@, i as int, s_chars);
        }
        i = i + 1;
    }

    output.push(s_chars.fend);

    proof {
        assert(data@.take(n as int) =~= data@);
        assert(output@ =~= frame_of(data@, s_chars));
    }
    Ok(output)
}

/// Escaping one more byte appends that byte's wire bytes.
proof fn lemma_escaped_snoc(data: Seq<u8>, i: int, c: SpecialChars)
    requires
        0 <= i < data.len(),
    ensures
        escaped(data.take(i + 1), c) == escaped(data.take(i), c) + escape_byte(data[i], c),
    decreases i,
{
    if i == 0 {
        assert(data.take(1) =~= seq![data[0]]);
        assert(escaped(seq![data[0]], c) == escape_byte(data[0], c) + escaped(
            seq![data[0]].skip(1),
            c,
        ));
        assert(seq![data[0]].skip(1) =~= Seq::<u8>::empty());
        assert(data.take(0) =~= Seq::<u8>::empty());
        assert(escaped(data.take(1), c) =~= escape_byte(data[0], c));
        assert(escaped(data.take(0), c) + escape_byte(data[0], c) =~= escape_byte(data[0], c));
    } else {
        lemma_escaped_snoc(data.skip(1), i - 1, c);
        assert(data.take(i + 1).skip(1) =~= data.skip(1).take(i));
        assert(data.take(i).skip(1) =~= data.skip(1).take(i - 1));
        assert(data.take(i + 1)[0] == data[0]);
        assert(data.take(i)[0] == data[0]);
        assert(data.skip(1)[i - 1] == data[i]);
        assert(escaped(data.take(i + 1), c) == escape_byte(data[0], c) + escaped(
            data.skip(1).take(i),
            c,
        ));
        assert(escaped(data.take(i), c) == escape_byte(data[0], c) + escaped(
            data.skip(1).take(i - 1),
            c,
        ));
        assert(escaped(data.take(i), c) + escape_byte(data[i], c) =~= escape_byte(data[0], c) + (
        escaped(data.skip(1).take(i - 1), c) + escape_byte(data.skip(1)[i - 1], c)));
    }
}

/// What decoding the bytes after the opening `fend` yields.
///
/// This is the three-state machine of the decoder, written as structural
/// recursion on the remaining input: a `fend` is accepted only as the very
/// last byte, a `fesc` must be followed by `tfend` or `tfesc` (which decode
/// to `fend` and `fesc`), and any other byte passes through.  Running out of
/// input before the closing `fend` — also right after a trailing `fesc` —
/// is `MissingFinalFend`.
pub open spec fn decoded_body(s: Seq<u8>, c: SpecialChars) -> Result<Seq<u8>, HDLCError>
    decreases s.len(),
{
    if s.len() == 0 {
        Err(HDLCError::MissingFinalFend)
    } else if s[0] == c.fend {
        if s.len() == 1 {
            Ok(Seq::empty())
        } else {
            Err(HDLCError::FendCharInData)
        }
    } else if s[0] == c.fesc {
        if s.len() == 1 {
            Err(HDLCError::MissingFinalFend)
        } else if s[1] == c.tfend {
            prepend_decoded(c.fend, decoded_body(s.skip(2), c))
        } else if s[1] == c.tfesc {
            prepend_decoded(c.fesc, decoded_body(s.skip(2), c))
        } else {
            Err(HDLCError::MissingTradeChar)
        }
    } else {
        prepend_decoded(s[0], decoded_body(s.skip(1), c))
    }
}

/// Puts one decoded byte in front of the rest of a decode result.
pub open spec fn prepend_decoded(b: u8, r: Result<Seq<u8>, HDLCError>) -> Result<
    Seq<u8>,
    HDLCError,
> {
    match r {
        Ok(p) => Ok(seq![b] + p),
        Err(e) => Err(e),
    }
}

/// What decoding a whole frame yields, for a valid configuration.
///
/// The first byte must be the opening `fend`; the rest goes through
/// [`decoded_body`].
pub open spec fn decoded(frame: Seq<u8>, c: SpecialChars) -> Result<Seq<u8>, HDLCError> {
    if frame.len() == 0 || frame[0] != c.fend {
        Err(HDLCError::MissingFirstFend)
    } else {
        decoded_body(frame.skip(1), c)
    }
}

/// Puts a whole decoded prefix in front of the rest of a decode result.
pub open spec fn prepend_all_decoded(prefix: Seq<u8>, r: Result<Seq<u8>, HDLCError>) -> Result<
    Seq<u8>,
    HDLCError,
> {
    match r {
        Ok(p) => Ok(prefix + p),
        Err(e) => Err(e),
    }
}

/// Skipping `a` bytes and then `b` more skips `a + b` bytes.
proof fn lemma_skip_skip(s: Seq<u8>, a: int, b: int)
    requires
        0 <= a,
        0 <= b,
        a + b <= s.len(),
    ensures
        s.skip(a).skip(b) == s.skip(a + b),
{
    assert(s.skip(a).skip(b) =~= s.skip(a + b));
}

/// Prepending a byte and then a prefix is prepending the longer prefix.
proof fn lemma_prepend_fold(prefix: Seq<u8>, b: u8, r: Result<Seq<u8>, HDLCError>)
    ensures
        prepend_all_decoded(prefix, prepend_decoded(b, r)) == prepend_all_decoded(
            prefix.push(b),
            r,
        ),
{
    match r {
        Ok(p) => {
            assert(prefix + (seq![b] + p) =~= prefix.push(b) + p);
        },
        Err(_) => {},
    }
}

/// Produces unescaped (decoded) message without `FEND` characters.
///
/// The result is exactly [`decoded`] of the input: the payload whose escaped
/// form the frame carries, or the first error the state machine meets.
/// Success is owed precisely when the configuration is duplicate-free, the
/// input opens with `fend`, closes with `fend`, and in between every `fesc`
/// is followed by `tfend` or `tfesc` and no further `fend` occurs.  The
/// result depends on the arguments alone.
pub fn decode(input: &[u8], s_chars: SpecialChars) -> (r: Result<Vec<u8>, HDLCError>)
    ensures
        !chars_valid(s_chars) ==> r == Err::<Vec<u8>, HDLCError>(HDLCError::DuplicateSpecialChar),
        chars_valid(s_chars) ==> {
            &&& r is Ok <==> decoded(input@, s_chars) is Ok
            &&& r is Ok ==> r->Ok_0@ == decoded(input@, s_chars)->Ok_0
            &&& r is Err ==> r->Err_0 == decoded(input@, s_chars)->Err_0
        },
{
    if !validate_chars(&s_chars) {
        return Err(HDLCError::DuplicateSpecialChar);
    }

    let n = input.len();
    if n == 0 || input[0] != s_chars.fend {
        return Err(HDLCError::MissingFirstFend);
    }

    let mut output: Vec<u8> = Vec::with_capacity(n);
    let mut i: usize = 1;

    while i < n
        invariant
            chars_valid(s_chars),
            n == input@.len(),
            1 <= i <= n,
            input@[0] == s_chars.fend,
            decoded_body(input@.skip(1), s_chars) == prepend_all_decoded(
                output@,
                decoded_body(input@.skip(i as int), s_chars),
            ),
        decreases n - i,
    {
        let ghost rest = input@.skip(i as int);
        let b = input[i];
        assert(rest[0] == b);
        if b == s_chars.fesc {
            if i + 1 == n {
                // A trailing escape with nothing after it: the input ran out
                // before the pair, and before any closing fend.
                proof {
                    assert(rest.len() == 1);
                    assert(decoded_body(rest, s_chars) == Err::<Seq<u8>, HDLCError>(
                        HDLCError::MissingFinalFend,
                    ));
                }
                return Err(HDLCError::MissingFinalFend);
            }
            let t = input[i + 1];
            assert(rest[1] == t);
            proof {
                lemma_skip_skip(input@, i as int, 2);
            }
            if t == s_chars.tfend {
                let ghost out0 = output@;
                output.push(s_chars.fend);
                proof {
                    assert(decoded_body(rest, s_chars) == prepend_decoded(
                        s_chars.fend,
                        decoded_body(input@.skip(i as int + 2), s_chars),
                    ));
                    lemma_prepend_fold(
                        out0,
                        s_chars.fend,
                        decoded_body(input@.skip(i as int + 2), s_chars),
                    );
                    assert(out0.push(s_chars.fend) =~= output@);
                }
            } else if t == s_chars.tfesc {
                let ghost out0 = output@;
                output.push(s_chars.fesc);
                proof {
                    assert(decoded_body(rest, s_chars) == prepend_decoded(
                        s_chars.fesc,
                        decoded_body(input@.skip(i as int + 2), s_chars),
                    ));
                    lemma_prepend_fold(
                        out0,
                        s_chars.fesc,
                        decoded_body(input@.skip(i as int + 2), s_chars),
                    );
                    assert(out0.push(s_chars.fesc) =~= output@);
                }
            } else {
                return Err(HDLCError::MissingTradeChar);
            }
            i = i + 2;
        } else if b == s_chars.fend {
            if i + 1 == n {
                proof {
                    assert(rest.len() == 1);
                    assert(output@ + Seq::<u8>::empty() =~= output@);
                }
                return Ok(output);
            }
            return Err(HDLCError::FendCharInData);
        } else {
            proof {
                lemma_skip_skip(input@, i as int, 1);
            }
            let ghost out0 = output@;
            output.push(b);
            proof {
                assert(decoded_body(rest, s_chars) == prepend_decoded(
                    b,
                    decoded_body(input@.skip(i as int + 1), s_chars),
                ));
                lemma_prepend_fold(out0, b, decoded_body(input@.skip(i as int + 1), s_chars));
                assert(out0.push(b) =~= output@);
            }
            i = i + 1;
        }
    }

    // The closing fend was never reached.
    proof {
        assert(input@.skip(n as int) =~= Seq::<u8>::empty());
    }
    Err(HDLCError::MissingFinalFend)
}

/// An empty decoded prefix changes nothing.
proof fn lemma_prepend_empty(r: Result<Seq<u8>, HDLCError>)
    ensures
        prepend_all_decoded(Seq::empty(), r) == r,
{
    match r {
        Ok(p) => {
            assert(Seq::empty() + p =~= p);
        },
        Err(_) => {},
    }
}

/// Produces slice (`&[u8]`) unescaped (decoded) message without `FEND` characters.
///
/// Same acceptance semantics as [`decode`] — the result is pinned to
/// [`decoded`] of the buffer's initial contents — but the unescape compacts
/// bytes leftward inside the caller's buffer, without allocating a result
/// buffer, and on success a borrowed view of the decoded prefix is returned.
/// Bytes of the buffer beyond that view are left in an unspecified state and
/// must not be read as payload.
pub fn decode_slice<'a>(input: &'a mut [u8], s_chars: SpecialChars) -> (r: Result<
    &'a [u8],
    HDLCError,
>)
    ensures
        !chars_valid(s_chars) ==> r is Err && r->Err_0 == HDLCError::DuplicateSpecialChar,
        chars_valid(s_chars) ==> {
            &&& r is Ok <==> decoded(old(input)@, s_chars) is Ok
            &&& r is Ok ==> r->Ok_0@ == decoded(old(input)@, s_chars)->Ok_0
            &&& r is Err ==> r->Err_0 == decoded(old(input)@, s_chars)->Err_0
        },
{
    if !validate_chars(&s_chars) {
        return Err(HDLCError::DuplicateSpecialChar);
    }

    let n = input.len();
    if n == 0 || input[0] != s_chars.fend {
        return Err(HDLCError::MissingFirstFend);
    }

    // The next byte to read is input[i]; decoded bytes so far sit in
    // input[..w].  Escape pairs collapse, so the write index w stays behind
    // the read index i and never disturbs bytes still to be read.
    let mut i: usize = 1;
    let mut w: usize = 0;

    proof {
        lemma_prepend_empty(decoded_body(old(input)@.skip(1), s_chars));
        assert(input@.subrange(0, 0) =~= Seq::<u8>::empty());
    }

    while i < n
        invariant
            chars_valid(s_chars),
            input@.len() == n,
            old(input)@.len() == n,
            1 <= i <= n,
            w < i,
            old(input)@[0] == s_chars.fend,
            forall|j: int| i <= j < n ==> input@[j] == old(input)@[j],
            decoded_body(old(input)@.skip(1), s_chars) == prepend_all_decoded(
                input@.subrange(0, w as int),
                decoded_body(old(input)@.skip(i as int), s_chars),
            ),
        decreases n - i,
    {
        let ghost rest = old(input)@.skip(i as int);
        let b = input[i];
        assert(b == old(input)@[i as int]);
        assert(rest[0] == b);
        if b == s_chars.fesc {
            if i + 1 == n {
                // A trailing escape with nothing after it: the input ran out
                // before the pair, and before any closing fend.
                proof {
                    assert(rest.len() == 1);
                    assert(decoded_body(rest, s_chars) == Err::<Seq<u8>, HDLCError>(
                        HDLCError::MissingFinalFend,
                    ));
                }
                return Err(HDLCError::MissingFinalFend);
            }
            let t = input[i + 1];
            assert(t == old(input)@[i as int + 1]);
            assert(rest[1] == t);
            proof {
                lemma_skip_skip(old(input)@, i as int, 2);
            }
            if t == s_chars.tfend {
                let ghost pre0 = input@.subrange(0, w as int);
                input[w] = s_chars.fend;
                proof {
                    assert(input@.subrange(0, w as int + 1) =~= pre0.push(s_chars.fend));
                    assert(decoded_body(rest, s_chars) == prepend_decoded(
                        s_chars.fend,
                        decoded_body(old(input)@.skip(i as int + 2), s_chars),
                    ));
                    lemma_prepend_fold(
                        pre0,
                        s_chars.fend,
                        decoded_body(old(input)@.skip(i as int + 2), s_chars),
                    );
                }
                w = w + 1;
                i = i + 2;
            } else if t == s_chars.tfesc {
                let ghost pre0 = input@.subrange(0, w as int);
                input[w] = s_chars.fesc;
                proof {
                    assert(input@.subrange(0, w as int + 1) =~= pre0.push(s_chars.fesc));
                    assert(decoded_body(rest, s_chars) == prepend_decoded(
                        s_chars.fesc,
                        decoded_body(old(input)@.skip(i as int + 2), s_chars),
                    ));
                    lemma_prepend_fold(
                        pre0,
                        s_chars.fesc,
                        decoded_body(old(input)@.skip(i as int + 2), s_chars),
                    );
                }
                w = w + 1;
                i = i + 2;
            } else {
                proof {
                    assert(decoded_body(rest, s_chars) == Err::<Seq<u8>, HDLCError>(
                        HDLCError::MissingTradeChar,
                    ));
                }
                return Err(HDLCError::MissingTradeChar);
            }
        } else if b == s_chars.fend {
            if i + 1 == n {
                proof {
                    assert(rest.len() == 1);
                    assert(decoded_body(rest, s_chars) == Ok::<Seq<u8>, HDLCError>(Seq::empty()));
                    assert(input@.subrange(0, w as int) + Seq::<u8>::empty() =~= input@.subrange(
                        0,
                        w as int,
                    ));
                }
                return Ok(slice_subrange(input, 0, w));
            }
            return Err(HDLCError::FendCharInData);
        } else {
            let ghost pre0 = input@.subrange(0, w as int);
            input[w] = b;
            proof {
                assert(input@.subrange(0, w as int + 1) =~= pre0.push(b));
                lemma_skip_skip(old(input)@, i as int, 1);
                assert(decoded_body(rest, s_chars) == prepend_decoded(
                    b,
                    decoded_body(old(input)@.skip(i as int + 1), s_chars),
                ));
                lemma_prepend_fold(pre0, b, decoded_body(old(input)@.skip(i as int + 1), s_chars));
            }
            w = w + 1;
            i = i + 1;
        }
    }

    // The closing fend was never reached.
    proof {
        assert(old(input)@.skip(n as int) =~= Seq::<u8>::empty());
    }
    Err(HDLCError::MissingFinalFend)
}

/// Decoding the escaped payload followed by the closing `fend` yields the
/// payload: the inner induction behind [`lemma_round_trip`].
proof fn lemma_decoded_body_escaped(p: Seq<u8>, c: SpecialChars)
    requires
        chars_valid(c),
    ensures
        decoded_body(escaped(p, c) + seq![c.fend], c) == Ok::<Seq<u8>, HDLCError>(p),
    decreases p.len(),
{
    let s = escaped(p, c) + seq![c.fend];
    if p.len() == 0 {
        assert(s =~= seq![c.fend]);
        assert(decoded_body(s, c) == Ok::<Seq<u8>, HDLCError>(Seq::empty()));
        assert(Seq::<u8>::empty() =~= p);
    } else {
        let b = p[0];
        let tail = escaped(p.skip(1), c) + seq![c.fend];
        lemma_decoded_body_escaped(p.skip(1), c);
        assert(escaped(p, c) == escape_byte(b, c) + escaped(p.skip(1), c));
        if b == c.fesc {
            assert(s =~= seq![c.fesc, c.tfesc] + tail);
            assert(s.skip(2) =~= tail);
            assert(decoded_body(s, c) == prepend_decoded(c.fesc, decoded_body(tail, c)));
            assert(seq![c.fesc] + p.skip(1) =~= p);
        } else if b == c.fend {
            assert(s =~= seq![c.fesc, c.tfend] + tail);
            assert(s.skip(2) =~= tail);
            assert(decoded_body(s, c) == prepend_decoded(c.fend, decoded_body(tail, c)));
            assert(seq![c.fend] + p.skip(1) =~= p);
        } else {
            assert(s =~= seq![b] + tail);
            assert(s.skip(1) =~= tail);
            assert(decoded_body(s, c) == prepend_decoded(b, decoded_body(tail, c)));
            assert(seq![b] + p.skip(1) =~= p);
        }
    }
}

/// Law: round-trip.  For every payload and every duplicate-free
/// configuration, decoding an encoded frame gives exactly the original
/// payload back.  Through the contracts of [`encode`], [`decode`] and
/// [`decode_slice`], which pin their results to [`frame_of`] and
/// [`decoded`], this covers both decoders.
pub proof fn lemma_round_trip(p: Seq<u8>, c: SpecialChars)
    requires
        chars_valid(c),
    ensures
        decoded(frame_of(p, c), c) == Ok::<Seq<u8>, HDLCError>(p),
{
    let f = frame_of(p, c);
    assert(f[0] == c.fend);
    assert(f.skip(1) =~= escaped(p, c) + seq![c.fend]);
    lemma_decoded_body_escaped(p, c);
}

/// The escaped payload is at most twice the payload, and exactly twice
/// precisely when every byte needs an escape pair.
proof fn lemma_escaped_len(p: Seq<u8>, c: SpecialChars)
    ensures
        escaped(p, c).len() <= 2 * p.len(),
        escaped(p, c).len() == 2 * p.len() <==> (forall|k: int|
            0 <= k < p.len() ==> p[k] == c.fend || p[k] == c.fesc),
    decreases p.len(),
{
    if p.len() == 0 {
    } else {
        let b = p[0];
        let rest = p.skip(1);
        lemma_escaped_len(rest, c);
        assert(escaped(p, c) == escape_byte(b, c) + escaped(rest, c));
        if escaped(p, c).len() == 2 * p.len() {
            assert(escape_byte(b, c).len() == 2 && escaped(rest, c).len() == 2 * rest.len());
            assert(forall|k: int| 0 <= k < p.len() ==> p[k] == c.fend || p[k] == c.fesc) by {
                assert(forall|k: int|
                    1 <= k < p.len() ==> p[k] == rest[k - 1] && (rest[k - 1] == c.fend || rest[k
                        - 1] == c.fesc));
            }
        }
        if forall|k: int| 0 <= k < p.len() ==> p[k] == c.fend || p[k] == c.fesc {
            assert(b == c.fend || b == c.fesc);
            assert(forall|k: int| 0 <= k < rest.len() ==> rest[k] == p[k + 1] && (p[k + 1] == c.fend
                || p[k + 1] == c.fesc));
            assert(escaped(rest, c).len() == 2 * rest.len());
            assert(escaped(p, c).len() == 2 * p.len());
        }
    }
}

/// Law: escaping bound.  A frame is never longer than twice the payload
/// plus the two delimiters, and reaches that length exactly when every
/// payload byte is `fend` or `fesc`.
pub proof fn lemma_escaping_bound(p: Seq<u8>, c: SpecialChars)
    requires
        chars_valid(c),
    ensures
        frame_of(p, c).len() <= 2 * p.len() + 2,
        frame_of(p, c).len() == 2 * p.len() + 2 <==> (forall|k: int|
            0 <= k < p.len() ==> p[k] == c.fend || p[k] == c.fesc),
{
    lemma_escaped_len(p, c);
}

impl HDLCError {
    /// A short human-readable account of the error.
    pub fn description(&self) -> (r: String)
        ensures
            *self is DuplicateSpecialChar ==> r@ == "Caught a duplicate special character."@,
            *self is FendCharInData ==> r@ == "Caught a random sync char in the data."@,
            *self is MissingTradeChar ==> r@ == "Caught a random swap char in the data."@,
            *self is MissingFirstFend ==> r@ == "Missing first FEND character."@,
            *self is MissingFinalFend ==> r@ == "Missing final FEND character."@,
    {
        match self {
            HDLCError::DuplicateSpecialChar => "Caught a duplicate special character.".to_owned(),
            HDLCError::FendCharInData => "Caught a random sync char in the data.".to_owned(),
            HDLCError::MissingTradeChar => "Caught a random swap char in the data.".to_owned(),
            HDLCError::MissingFirstFend => "Missing first FEND character.".to_owned(),
            HDLCError::MissingFinalFend => "Missing final FEND character.".to_owned(),
        }
    }
}

} // verus!
