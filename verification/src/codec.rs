//! The generic encode/decode protocol for scalars, byte strings and
//! (possibly nested) key-value collections.
//!
//! The byte grammar is fixed here once, and every implementation follows it:
//!
//! * `u32` — 4 bytes, little-endian.
//! * `u64` — 8 bytes, little-endian.
//! * byte string — a `u64` length, then that many raw bytes.
//! * key-value collection — a `u64` entry count, then per entry the key's
//!   encoding followed by the value's encoding, recursively.
//!
//! Every multi-byte quantity uses the one fixed byte order, little-endian;
//! mixing byte orders between encode and decode corrupts data silently, so
//! no other order appears anywhere in the crate.

use vstd::prelude::*;

verus! {

use vstd::bytes::{
    lemma_auto_spec_u32_to_from_le_bytes, lemma_auto_spec_u64_to_from_le_bytes,
    spec_u32_from_le_bytes, spec_u32_to_le_bytes, spec_u64_from_le_bytes, spec_u64_to_le_bytes,
    u32_from_le_bytes, u32_to_le_bytes, u64_from_le_bytes, u64_to_le_bytes,
};
use vstd::slice::{slice_subrange, slice_to_vec};

/// Why a byte buffer failed to parse as a well-formed record.
#[derive(Clone, Copy, Debug, PartialEq, Eq, Structural)]
pub enum DecodeError {
    /// The buffer ends before the content its length indicators declare.
    Truncated,
    /// Bytes remain unconsumed in a context that requires exact consumption.
    TrailingBytes,
}

/// A type that can be written to and read back from bytes.
///
/// `spec_decode` is the mathematical decoder: it alone fixes the byte
/// grammar. `encode_into` promises that the bytes it appends decode to the
/// encoded value's view and are consumed exactly; `decode_from` promises to
/// agree with `spec_decode`. Together these give the round-trip law: for any
/// value, decoding its encoding yields a value with the same view.
pub trait Codec: View + Sized {
    /// Validity of a value; what `encode_into` asks of its input and every
    /// decoded value satisfies.
    spec fn wf(&self) -> bool;

    /// The view encoded at the front of `b`, with the number of bytes that
    /// encoding occupies, or `None` when `b` holds no such prefix.
    spec fn spec_decode(b: Seq<u8>) -> Option<(Self::V, int)>;

    /// A decoded prefix never reaches past the buffer's end.
    proof fn lemma_decode_len(b: Seq<u8>)
        ensures
            Self::spec_decode(b) matches Some(p) ==> 0 <= p.1 <= b.len(),
    ;

    /// Decoding reads only the bytes it consumes: cutting a buffer down to
    /// the consumed prefix changes neither the value nor the count.
    proof fn lemma_decode_prefix(b: Seq<u8>)
        ensures
            Self::spec_decode(b) matches Some(p) ==> Self::spec_decode(b.take(p.1)) == Self::spec_decode(b),
    ;

    /// Decoding reads only the bytes it consumes: extending a buffer that
    /// was consumed exactly changes neither the value nor the count.
    proof fn lemma_decode_extend(b: Seq<u8>, ext: Seq<u8>)
        requires
            Self::spec_decode(b) matches Some(p) && p.1 == b.len(),
        ensures
            Self::spec_decode(b + ext) == Self::spec_decode(b),
    ;

    /// Append this value's encoding to `out`, leaving the existing bytes
    /// untouched. The appended bytes decode to this value's view, consuming
    /// all of them.
    fn encode_into(&self, out: &mut Vec<u8>)
        requires
            self.wf(),
        ensures
            final(out)@.len() >= old(out)@.len(),
            final(out)@.take(old(out)@.len() as int) == old(out)@,
            Self::spec_decode(final(out)@.skip(old(out)@.len() as int)) == Some(
                (self@, final(out)@.len() as int - old(out)@.len() as int),
            ),
    ;

    /// Decode one value from `b` starting at `pos`, returning it with the
    /// position just past its encoding; `None` exactly when `spec_decode`
    /// finds no value there.
    fn decode_from(b: &[u8], pos: usize) -> (r: Option<(Self, usize)>)
        requires
            pos <= b@.len(),
        ensures
            match r {
                Some(p) => {
                    &&& Self::spec_decode(b@.skip(pos as int)) == Some(
                        (p.0@, p.1 as int - pos as int),
                    )
                    &&& pos <= p.1 <= b@.len()
                    &&& p.0.wf()
                },
                None => Self::spec_decode(b@.skip(pos as int)) is None,
            },
    ;
}

/// A type usable as a collection key: equality on values decides equality
/// of views.
pub trait Key: Codec {
    /// Executable equality agreeing with view equality.
    fn key_eq(&self, other: &Self) -> (r: bool)
        ensures
            r == (self@ == other@),
    ;
}

impl Codec for u32 {
    open spec fn wf(&self) -> bool {
        true
    }

    open spec fn spec_decode(b: Seq<u8>) -> Option<(u32, int)> {
        if b.len() >= 4 {
            Some((spec_u32_from_le_bytes(b.take(4)), 4))
        } else {
            None
        }
    }

    proof fn lemma_decode_len(b: Seq<u8>) {
    }

    proof fn lemma_decode_prefix(b: Seq<u8>) {
        if b.len() >= 4 {
            assert(b.take(4).take(4) =~= b.take(4));
        }
    }

    proof fn lemma_decode_extend(b: Seq<u8>, ext: Seq<u8>) {
        assert((b + ext).take(4) =~= b.take(4));
    }

    fn encode_into(&self, out: &mut Vec<u8>) {
        let mut bytes = u32_to_le_bytes(*self);
        out.append(&mut bytes);
        proof {
            lemma_auto_spec_u32_to_from_le_bytes();
            let app = out@.skip(old(out)@.len() as int);
            assert(app =~= spec_u32_to_le_bytes(*self));
            assert(app.take(4) =~= app);
            assert(out@.take(old(out)@.len() as int) =~= old(out)@);
        }
    }

    fn decode_from(b: &[u8], pos: usize) -> (r: Option<(Self, usize)>) {
        if b.len() - pos < 4 {
            return None;
        }
        let s = slice_subrange(b, pos, pos + 4);
        let x = u32_from_le_bytes(s);
        proof {
            assert(b@.skip(pos as int).take(4) =~= s@);
        }
        Some((x, pos + 4))
    }
}

impl Key for u32 {
    fn key_eq(&self, other: &Self) -> (r: bool) {
        *self == *other
    }
}

impl Codec for u64 {
    open spec fn wf(&self) -> bool {
        true
    }

    open spec fn spec_decode(b: Seq<u8>) -> Option<(u64, int)> {
        if b.len() >= 8 {
            Some((spec_u64_from_le_bytes(b.take(8)), 8))
        } else {
            None
        }
    }

    proof fn lemma_decode_len(b: Seq<u8>) {
    }

    proof fn lemma_decode_prefix(b: Seq<u8>) {
        if b.len() >= 8 {
            assert(b.take(8).take(8) =~= b.take(8));
        }
    }

    proof fn lemma_decode_extend(b: Seq<u8>, ext: Seq<u8>) {
        assert((b + ext).take(8) =~= b.take(8));
    }

    fn encode_into(&self, out: &mut Vec<u8>) {
        let mut bytes = u64_to_le_bytes(*self);
        out.append(&mut bytes);
        proof {
            lemma_auto_spec_u64_to_from_le_bytes();
            let app = out@.skip(old(out)@.len() as int);
            assert(app =~= spec_u64_to_le_bytes(*self));
            assert(app.take(8) =~= app);
            assert(out@.take(old(out)@.len() as int) =~= old(out)@);
        }
    }

    fn decode_from(b: &[u8], pos: usize) -> (r: Option<(Self, usize)>) {
        if b.len() - pos < 8 {
            return None;
        }
        let s = slice_subrange(b, pos, pos + 8);
        let x = u64_from_le_bytes(s);
        proof {
            assert(b@.skip(pos as int).take(8) =~= s@);
        }
        Some((x, pos + 8))
    }
}

impl Key for u64 {
    fn key_eq(&self, other: &Self) -> (r: bool) {
        *self == *other
    }
}

impl Codec for Vec<u8> {
    open spec fn wf(&self) -> bool {
        true
    }

    open spec fn spec_decode(b: Seq<u8>) -> Option<(Seq<u8>, int)> {
        match <u64 as Codec>::spec_decode(b) {
            Some(p) => {
                if b.len() - p.1 >= p.0 {
                    Some((b.subrange(p.1, p.1 + p.0), p.1 + p.0))
                } else {
                    None
                }
            },
            None => None,
        }
    }

    proof fn lemma_decode_len(b: Seq<u8>) {
    }

    proof fn lemma_decode_prefix(b: Seq<u8>) {
        if <Self as Codec>::spec_decode(b) is Some {
            let p = <u64 as Codec>::spec_decode(b)->Some_0;
            let t = b.take(p.1 + p.0);
            assert(t.take(8) =~= b.take(8));
            assert(t.subrange(p.1, p.1 + p.0) =~= b.subrange(p.1, p.1 + p.0));
        }
    }

    proof fn lemma_decode_extend(b: Seq<u8>, ext: Seq<u8>) {
        assert((b + ext).take(8) =~= b.take(8));
        let p = <u64 as Codec>::spec_decode(b)->Some_0;
        assert((b + ext).subrange(p.1, p.1 + p.0) =~= b.subrange(p.1, p.1 + p.0));
    }

    fn encode_into(&self, out: &mut Vec<u8>) {
        let old_len: Ghost<int> = Ghost(out@.len() as int);
        let n: u64 = self.len() as u64;
        n.encode_into(out);
        let e: Ghost<Seq<u8>> = Ghost(out@.skip(old_len@));
        out.extend_from_slice(self.as_slice());
        proof {
            assert(e@ + self@ =~= out@.skip(old_len@));
            <u64 as Codec>::lemma_decode_extend(e@, self@);
            assert(out@.skip(old_len@).subrange(e@.len() as int, out@.len() - old_len@)
                =~= self@);
            assert(out@.take(old_len@) =~= old(out)@);
        }
    }

    fn decode_from(b: &[u8], pos: usize) -> (r: Option<(Self, usize)>) {
        match u64::decode_from(b, pos) {
            None => None,
            Some((n, pos1)) => {
                if ((b.len() - pos1) as u64) < n {
                    proof {
                        assert(b@.skip(pos as int).len() - (pos1 - pos) < n);
                    }
                    return None;
                }
                let len = n as usize;
                let s = slice_subrange(b, pos1, pos1 + len);
                let v = slice_to_vec(s);
                proof {
                    assert(b@.skip(pos as int).subrange(
                        pos1 as int - pos as int,
                        pos1 as int - pos as int + n as int,
                    ) =~= s@);
                }
                Some((v, pos1 + len))
            },
        }
    }
}

/// A small composite value: a scalar field and a byte-string field, encoded
/// as the one's encoding followed by the other's.
#[derive(Clone, Debug, PartialEq, Eq)]
pub struct Record {
    pub field1: u32,
    pub field2: Vec<u8>,
}

impl View for Record {
    type V = (u32, Seq<u8>);

    open spec fn view(&self) -> (u32, Seq<u8>) {
        (self.field1, self.field2@)
    }
}

impl Codec for Record {
    open spec fn wf(&self) -> bool {
        true
    }

    open spec fn spec_decode(b: Seq<u8>) -> Option<((u32, Seq<u8>), int)> {
        match <u32 as Codec>::spec_decode(b) {
            Some(p1) => match <Vec<u8> as Codec>::spec_decode(b.skip(p1.1)) {
                Some(p2) => Some(((p1.0, p2.0), p1.1 + p2.1)),
                None => None,
            },
            None => None,
        }
    }

    proof fn lemma_decode_len(b: Seq<u8>) {
        if <Self as Codec>::spec_decode(b) is Some {
            let p1 = <u32 as Codec>::spec_decode(b)->Some_0;
            <u32 as Codec>::lemma_decode_len(b);
            <Vec<u8> as Codec>::lemma_decode_len(b.skip(p1.1));
        }
    }

    proof fn lemma_decode_prefix(b: Seq<u8>) {
        if <Self as Codec>::spec_decode(b) is Some {
            let p1 = <u32 as Codec>::spec_decode(b)->Some_0;
            let p2 = <Vec<u8> as Codec>::spec_decode(b.skip(p1.1))->Some_0;
            <u32 as Codec>::lemma_decode_len(b);
            <Vec<u8> as Codec>::lemma_decode_len(b.skip(p1.1));
            let t = b.take(p1.1 + p2.1);
            assert(t.take(4) =~= b.take(4));
            assert(t.skip(p1.1) =~= b.skip(p1.1).take(p2.1));
            <Vec<u8> as Codec>::lemma_decode_prefix(b.skip(p1.1));
        }
    }

    proof fn lemma_decode_extend(b: Seq<u8>, ext: Seq<u8>) {
        let p1 = <u32 as Codec>::spec_decode(b)->Some_0;
        <u32 as Codec>::lemma_decode_len(b);
        assert(b.take(p1.1) + (b.skip(p1.1) + ext) =~= b + ext);
        assert(b.take(p1.1) + b.skip(p1.1) =~= b);
        assert((b + ext).take(4) =~= b.take(4));
        assert((b + ext).skip(p1.1) =~= b.skip(p1.1) + ext);
        <Vec<u8> as Codec>::lemma_decode_extend(b.skip(p1.1), ext);
    }

    fn encode_into(&self, out: &mut Vec<u8>) {
        let old_len: Ghost<int> = Ghost(out@.len() as int);
        self.field1.encode_into(out);
        let e1: Ghost<Seq<u8>> = Ghost(out@.skip(old_len@));
        self.field2.encode_into(out);
        proof {
            let e2 = out@.skip(old_len@ + e1@.len());
            assert(e1@ + e2 =~= out@.skip(old_len@));
            <u32 as Codec>::lemma_decode_extend(e1@, e2);
            assert(out@.skip(old_len@).skip(e1@.len() as int) =~= e2);
            assert(out@.take(old_len@) =~= old(out)@);
        }
    }

    fn decode_from(b: &[u8], pos: usize) -> (r: Option<(Self, usize)>) {
        match u32::decode_from(b, pos) {
            None => None,
            Some((f1, pos1)) => {
                proof {
                    assert(b@.skip(pos as int).skip(pos1 as int - pos as int) =~= b@.skip(
                        pos1 as int,
                    ));
                }
                match <Vec<u8>>::decode_from(b, pos1) {
                    None => None,
                    Some((f2, pos2)) => Some((Record { field1: f1, field2: f2 }, pos2)),
                }
            },
        }
    }
}

} // verus!
