//! The actions that a moment carries, seen only through their codec.

use vstd::prelude::*;
use crate::bytes::{
    lemma_parse_u32_cut, lemma_parse_u32_written, parse_u32, read_u32_le, u32_le, write_u32_le,
    DecodeError, ParserOptions,
};

verus! {

/// A codec for one action. A timeline writes its actions back to back with
/// no framing of its own, so each encoding must tell where it ends: reading
/// from the front of an encoding followed by anything gives the action back
/// and stops exactly at its end, and a cut encoding is reported as cut.
pub trait ActionCodec: Sized {
    /// The bytes that `serialize` writes for this action.
    spec fn spec_encode(&self) -> Seq<u8>;

    /// Reading one action from the front of `bytes`: the action and the number
    /// of bytes it took.
    spec fn spec_decode(bytes: Seq<u8>, strict: bool) -> Result<(Self, nat), DecodeError>;

    /// Appends the encoding of this action; returns the number of bytes written.
    fn serialize(&self, out: &mut Vec<u8>) -> (n: usize)
        requires
            old(out)@.len() + self.spec_encode().len() <= usize::MAX,
        ensures
            final(out)@ == old(out)@ + self.spec_encode(),
            n == self.spec_encode().len(),
    ;

    /// Reads one action at `pos`; returns it with the position after it.
    fn deserialize(bin: &[u8], pos: usize, options: &ParserOptions) -> (r: Result<
        (Self, usize),
        DecodeError,
    >)
        requires
            pos <= bin@.len(),
        ensures
            match r {
                Ok((a, e)) => pos <= e && Self::spec_decode(bin@.skip(pos as int), options.strict)
                    == Ok::<(Self, nat), DecodeError>((a, (e - pos) as nat)),
                Err(x) => Self::spec_decode(bin@.skip(pos as int), options.strict) == Err::<
                    (Self, nat),
                    DecodeError,
                >(x),
            },
    ;

    /// Reading never takes more bytes than there are.
    proof fn lemma_decode_within(bytes: Seq<u8>, strict: bool)
        ensures
            Self::spec_decode(bytes, strict) matches Ok((_, n)) ==> n <= bytes.len(),
    ;

    /// An encoding reads back as the action it encodes, whatever follows it,
    /// in either mode.
    proof fn lemma_decode_encode(a: Self, rest: Seq<u8>, strict: bool)
        ensures
            Self::spec_decode(a.spec_encode() + rest, strict) == Ok::<(Self, nat), DecodeError>(
                (a, a.spec_encode().len()),
            ),
    ;

    /// An encoding cut before its end fails as running out of bytes.
    proof fn lemma_decode_cut(a: Self, k: nat, strict: bool)
        requires
            k < a.spec_encode().len(),
        ensures
            Self::spec_decode(a.spec_encode().take(k as int), strict) == Err::<
                (Self, nat),
                DecodeError,
            >(DecodeError::UnexpectedEof),
    ;
}

/// The plainest action: a bare numeric code, in four little-endian bytes.
impl ActionCodec for u32 {
    open spec fn spec_encode(&self) -> Seq<u8> {
        u32_le(*self)
    }

    open spec fn spec_decode(bytes: Seq<u8>, strict: bool) -> Result<(u32, nat), DecodeError> {
        parse_u32(bytes, 0)
    }

    fn serialize(&self, out: &mut Vec<u8>) -> (n: usize) {
        write_u32_le(out, *self);
        4
    }

    fn deserialize(bin: &[u8], pos: usize, options: &ParserOptions) -> (r: Result<
        (u32, usize),
        DecodeError,
    >) {
        let ghost rest = bin@.skip(pos as int);
        assert(forall|i: int| 0 <= i < rest.len() ==> rest[i] == bin@[pos + i]);
        read_u32_le(bin, pos)
    }

    proof fn lemma_decode_within(bytes: Seq<u8>, strict: bool) {
    }

    proof fn lemma_decode_encode(a: u32, rest: Seq<u8>, strict: bool) {
        lemma_parse_u32_written(Seq::empty(), a, rest);
        assert(Seq::<u8>::empty() + u32_le(a) + rest =~= u32_le(a) + rest);
    }

    proof fn lemma_decode_cut(a: u32, k: nat, strict: bool) {
        lemma_parse_u32_cut(Seq::empty(), a, k);
        assert(Seq::<u8>::empty() + u32_le(a).take(k as int) =~= u32_le(a).take(k as int));
    }
}

} // verus!
