//! The signature-driven encoder: a stateful writer that walks a type
//! signature, emits alignment padding relative to the current output offset,
//! and writes primitive and composite values, with back-patched array
//! lengths and re-entrant variant encoding.
use vstd::prelude::*;

use crate::signature_parser::{
    complete_type_len, lemma_dict_entry_type_len, lemma_type_len_agree, lemma_type_len_bounds,
    type_len, SignatureParser,
};
use crate::utils::{
    alignment_for_signature_char, padding_for_n_bytes, spec_alignment, spec_padding, u16_bytes,
    u32_bytes, u64_bytes, zeros, ByteOrder, EncodingFormat, Error, ARRAY_ALIGNMENT,
    ARRAY_SIGNATURE_CHAR, DICT_ENTRY_ALIGNMENT, DICT_ENTRY_SIG_END_CHAR,
    DICT_ENTRY_SIG_START_CHAR, SIG_BOOL, SIG_DOUBLE, SIG_I16, SIG_I32, SIG_I64, SIG_OBJECT_PATH,
    SIG_SIGNATURE, SIG_STRING, SIG_U16, SIG_U32, SIG_U64, SIG_U8, STRUCT_ALIGNMENT,
    STRUCT_SIG_END_CHAR, STRUCT_SIG_START_CHAR, VARIANT_SIGNATURE_CHAR,
};
use crate::value::{
    enc_entries, enc_items, encoded, entry_bytes, fits, fits_entries, fits_items, is_basic_value,
    lemma_enc_entries_snoc, lemma_enc_items_snoc, lemma_encoded_nonempty,
    lemma_fits_entries_extract, lemma_fits_entries_snoc, lemma_fits_items_extract,
    lemma_fits_items_snoc, lemma_wf_elems_index, lemma_wf_entries_index, lemma_wf_items_index,
    lemma_sig_concat_split, push_all, sig_concat, sig_of, signature_of, wf_value, Value,
};

verus! {

/// The encoder state: the chosen format and byte order, the output buffer
/// with its monotonic offset counter, the signature cursor, and the pending
/// variant signature.
pub struct Serializer {
    pub format: EncodingFormat,
    pub byte_order: ByteOrder,
    pub buf: Vec<u8>,
    pub bytes_written: usize,
    pub sign_parser: SignatureParser,
    pub variant_sign: Option<Vec<u8>>,
}

impl Serializer {
    /// The offset counter always equals the bytes appended so far, and the
    /// cursor never stands past the end of its signature.
    pub open spec fn wf(&self) -> bool {
        self.bytes_written == self.buf@.len() && self.sign_parser.wf()
    }

    /// The signature characters not yet consumed.
    pub open spec fn remaining(&self) -> Seq<u8> {
        self.sign_parser.remaining()
    }

    /// Format, byte order and signature are fixed for the encoder's lifetime.
    pub open spec fn same_config(&self, other: &Serializer) -> bool {
        self.format == other.format && self.byte_order == other.byte_order
            && self.sign_parser.sig@ == other.sign_parser.sig@
    }

    /// The cursor stands exactly before the signature of `v`.
    pub open spec fn ready_for(&self, v: Value) -> bool {
        self.sign_parser.pos + sig_of(v).len() <= self.sign_parser.sig@.len()
            && self.sign_parser.sig@.subrange(
            self.sign_parser.pos as int,
            self.sign_parser.pos + sig_of(v).len(),
        ) == sig_of(v)
    }

    pub fn new(signature: Vec<u8>, format: EncodingFormat, byte_order: ByteOrder) -> (r: Self)
        ensures
            r.wf(),
            r.format == format,
            r.byte_order == byte_order,
            r.sign_parser.sig@ == signature@,
            r.sign_parser.pos == 0,
            r.buf@ == Seq::<u8>::empty(),
            r.bytes_written == 0,
            r.variant_sign is None,
    {
        Serializer {
            format,
            byte_order,
            buf: Vec::new(),
            bytes_written: 0,
            sign_parser: SignatureParser::new(signature),
            variant_sign: None,
        }
    }

    /// Append one byte and advance the offset counter.
    fn push_byte(&mut self, b: u8)
        requires
            old(self).wf(),
        ensures
            final(self).wf(),
            final(self).same_config(old(self)),
            final(self).buf@ == old(self).buf@ + seq![b],
            final(self).bytes_written == old(self).bytes_written + 1,
            final(self).sign_parser == old(self).sign_parser,
            final(self).variant_sign == old(self).variant_sign,
    {
        self.buf.push(b);
        self.bytes_written = self.buf.len();
        proof {
            assert(self.buf@ =~= old(self).buf@ + seq![b]);
        }
    }

    /// Append a run of bytes and advance the offset counter.
    pub fn write(&mut self, bytes: &Vec<u8>)
        requires
            old(self).wf(),
        ensures
            final(self).wf(),
            final(self).same_config(old(self)),
            final(self).buf@ == old(self).buf@ + bytes@,
            final(self).bytes_written == old(self).bytes_written + bytes@.len(),
            final(self).sign_parser == old(self).sign_parser,
            final(self).variant_sign == old(self).variant_sign,
    {
        push_all(&mut self.buf, bytes);
        self.bytes_written = self.buf.len();
    }

    /// Append the two bytes of `x` in the configured byte order.
    fn write_u16(&mut self, x: u16)
        requires
            old(self).wf(),
        ensures
            final(self).wf(),
            final(self).same_config(old(self)),
            final(self).buf@ == old(self).buf@ + u16_bytes(old(self).byte_order, x),
            final(self).bytes_written == old(self).bytes_written + 2,
            final(self).sign_parser == old(self).sign_parser,
            final(self).variant_sign == old(self).variant_sign,
    {
        let lo = #[verifier::truncate] ((x & 0xff) as u8);
        let hi = #[verifier::truncate] ((x >> 8) as u8);
        match self.byte_order {
            ByteOrder::LittleEndian => {
                self.push_byte(lo);
                self.push_byte(hi);
            },
            ByteOrder::BigEndian => {
                self.push_byte(hi);
                self.push_byte(lo);
            },
        }
        proof {
            assert(self.buf@ =~= old(self).buf@ + u16_bytes(old(self).byte_order, x));
        }
    }

    /// Append the four bytes of `x` in the configured byte order.
    fn write_u32(&mut self, x: u32)
        requires
            old(self).wf(),
        ensures
            final(self).wf(),
            final(self).same_config(old(self)),
            final(self).buf@ == old(self).buf@ + u32_bytes(old(self).byte_order, x),
            final(self).bytes_written == old(self).bytes_written + 4,
            final(self).sign_parser == old(self).sign_parser,
            final(self).variant_sign == old(self).variant_sign,
    {
        let b0 = #[verifier::truncate] ((x & 0xff) as u8);
        let b1 = #[verifier::truncate] (((x >> 8) & 0xff) as u8);
        let b2 = #[verifier::truncate] (((x >> 16) & 0xff) as u8);
        let b3 = #[verifier::truncate] ((x >> 24) as u8);
        match self.byte_order {
            ByteOrder::LittleEndian => {
                self.push_byte(b0);
                self.push_byte(b1);
                self.push_byte(b2);
                self.push_byte(b3);
            },
            ByteOrder::BigEndian => {
                self.push_byte(b3);
                self.push_byte(b2);
                self.push_byte(b1);
                self.push_byte(b0);
            },
        }
        proof {
            assert(self.buf@ =~= old(self).buf@ + u32_bytes(old(self).byte_order, x));
        }
    }

    /// Append the eight bytes of `x` in the configured byte order.
    fn write_u64(&mut self, x: u64)
        requires
            old(self).wf(),
        ensures
            final(self).wf(),
            final(self).same_config(old(self)),
            final(self).buf@ == old(self).buf@ + u64_bytes(old(self).byte_order, x),
            final(self).bytes_written == old(self).bytes_written + 8,
            final(self).sign_parser == old(self).sign_parser,
            final(self).variant_sign == old(self).variant_sign,
    {
        let b0 = #[verifier::truncate] ((x & 0xff) as u8);
        let b1 = #[verifier::truncate] (((x >> 8) & 0xff) as u8);
        let b2 = #[verifier::truncate] (((x >> 16) & 0xff) as u8);
        let b3 = #[verifier::truncate] (((x >> 24) & 0xff) as u8);
        let b4 = #[verifier::truncate] (((x >> 32) & 0xff) as u8);
        let b5 = #[verifier::truncate] (((x >> 40) & 0xff) as u8);
        let b6 = #[verifier::truncate] (((x >> 48) & 0xff) as u8);
        let b7 = #[verifier::truncate] ((x >> 56) as u8);
        match self.byte_order {
            ByteOrder::LittleEndian => {
                self.push_byte(b0);
                self.push_byte(b1);
                self.push_byte(b2);
                self.push_byte(b3);
                self.push_byte(b4);
                self.push_byte(b5);
                self.push_byte(b6);
                self.push_byte(b7);
            },
            ByteOrder::BigEndian => {
                self.push_byte(b7);
                self.push_byte(b6);
                self.push_byte(b5);
                self.push_byte(b4);
                self.push_byte(b3);
                self.push_byte(b2);
                self.push_byte(b1);
                self.push_byte(b0);
            },
        }
        proof {
            assert(self.buf@ =~= old(self).buf@ + u64_bytes(old(self).byte_order, x));
        }
    }

    /// Emit `(-offset) mod alignment` zero bytes and return how many there were.
    pub fn add_padding(&mut self, alignment: usize) -> (r: usize)
        requires
            old(self).wf(),
            1 <= alignment <= 8,
        ensures
            final(self).wf(),
            final(self).same_config(old(self)),
            r == spec_padding(old(self).bytes_written as nat, alignment as nat),
            final(self).buf@ == old(self).buf@ + zeros(r as nat),
            final(self).bytes_written == old(self).bytes_written + r,
            (old(self).bytes_written + r) % (alignment as int) == 0,
            r < alignment,
            final(self).sign_parser == old(self).sign_parser,
            final(self).variant_sign == old(self).variant_sign,
    {
        let padding = padding_for_n_bytes(self.bytes_written, alignment);
        let mut i: usize = 0;
        while i < padding
            invariant
                i <= padding,
                old(self).wf(),
                self.wf(),
                self.same_config(old(self)),
                self.buf@ == old(self).buf@ + zeros(i as nat),
                self.bytes_written == old(self).bytes_written + i,
                self.sign_parser == old(self).sign_parser,
                self.variant_sign == old(self).variant_sign,
            decreases padding - i,
        {
            self.push_byte(0);
            proof {
                assert(old(self).buf@ + zeros((i + 1) as nat) =~= (old(self).buf@ + zeros(
                    i as nat,
                )) + seq![0u8]);
            }
            i = i + 1;
        }
        padding
    }

    /// Overwrite four already-written bytes with `x` in the configured byte
    /// order; the offset counter does not move.
    fn patch_u32(&mut self, at: usize, x: u32)
        requires
            old(self).wf(),
            at + 4 <= old(self).buf@.len(),
        ensures
            final(self).wf(),
            final(self).same_config(old(self)),
            final(self).buf@.len() == old(self).buf@.len(),
            final(self).buf@ == old(self).buf@.subrange(0, at as int) + u32_bytes(
                old(self).byte_order,
                x,
            ) + old(self).buf@.subrange(at + 4, old(self).buf@.len() as int),
            final(self).bytes_written == old(self).bytes_written,
            final(self).sign_parser == old(self).sign_parser,
            final(self).variant_sign == old(self).variant_sign,
    {
        let b0 = #[verifier::truncate] ((x & 0xff) as u8);
        let b1 = #[verifier::truncate] (((x >> 8) & 0xff) as u8);
        let b2 = #[verifier::truncate] (((x >> 16) & 0xff) as u8);
        let b3 = #[verifier::truncate] ((x >> 24) as u8);
        let (c0, c1, c2, c3) = match self.byte_order {
            ByteOrder::LittleEndian => (b0, b1, b2, b3),
            ByteOrder::BigEndian => (b3, b2, b1, b0),
        };
        self.buf.set(at, c0);
        self.buf.set(at + 1, c1);
        self.buf.set(at + 2, c2);
        self.buf.set(at + 3, c3);
        proof {
            assert(self.buf@ =~= old(self).buf@.subrange(0, at as int) + u32_bytes(
                old(self).byte_order,
                x,
            ) + old(self).buf@.subrange(at + 4, old(self).buf@.len() as int));
        }
    }

    /// Require the next signature character to be `sig_char`, then pad the
    /// output to `alignment`.
    pub fn prep_serialize_basic(&mut self, sig_char: u8, alignment: usize) -> (r: Result<
        (),
        Error,
    >)
        requires
            old(self).wf(),
            1 <= alignment <= 8,
        ensures
            final(self).wf(),
            final(self).same_config(old(self)),
            final(self).variant_sign == old(self).variant_sign,
            r is Ok <==> old(self).remaining().len() >= 1 && old(self).remaining()[0] == sig_char,
            r is Ok ==> final(self).buf@ == old(self).buf@ + zeros(
                spec_padding(old(self).bytes_written as nat, alignment as nat),
            ) && final(self).bytes_written == old(self).bytes_written + spec_padding(
                old(self).bytes_written as nat,
                alignment as nat,
            ) && final(self).sign_parser.pos == old(self).sign_parser.pos + 1 && (
            old(self).bytes_written + spec_padding(
                old(self).bytes_written as nat,
                alignment as nat,
            )) % (alignment as int) == 0,
            r is Err ==> final(self).buf@ == old(self).buf@ && final(self).bytes_written == old(self).bytes_written && final(self).sign_parser.pos == old(self).sign_parser.pos && r
                == Err::<(), Error>(Error::SignatureMismatch),
    {
        match self.sign_parser.parse_char(Some(sig_char)) {
            Ok(()) => {},
            Err(_) => {
                return Err(Error::SignatureMismatch);
            },
        }
        self.add_padding(alignment);
        Ok(())
    }

    pub fn serialize_bool(&mut self, v: bool) -> (r: Result<(), Error>)
        requires
            old(self).wf(),
        ensures
            final(self).wf(),
            final(self).same_config(old(self)),
            r is Ok <==> old(self).remaining().len() >= 1 && old(self).remaining()[0] == SIG_BOOL,
            r is Ok ==> value_written(*old(self), *final(self), Value::Bool(v)),
            r is Err ==> unchanged_state(*old(self), *final(self)) && r == Err::<(), Error>(
                Error::SignatureMismatch,
            ),
    {
        self.prep_serialize_basic(SIG_BOOL, 4)?;
        self.write_u32(
            if v {
                1
            } else {
                0
            },
        );
        proof {
            assert(self.buf@ =~= old(self).buf@ + encoded(
                old(self).byte_order,
                Value::Bool(v),
                old(self).bytes_written as nat,
            ));
        }
        Ok(())
    }

    /// An 8-bit signed integer has no type of its own on the wire: it widens
    /// to a 16-bit signed integer.
    pub fn serialize_i8(&mut self, v: i8) -> (r: Result<(), Error>)
        requires
            old(self).wf(),
        ensures
            final(self).wf(),
            final(self).same_config(old(self)),
            r is Ok <==> old(self).remaining().len() >= 1 && old(self).remaining()[0] == SIG_I16,
            r is Ok ==> value_written(*old(self), *final(self), Value::I16(v as i16)),
            r is Err ==> unchanged_state(*old(self), *final(self)) && r == Err::<(), Error>(
                Error::SignatureMismatch,
            ),
    {
        self.serialize_i16(v as i16)
    }

    pub fn serialize_i16(&mut self, v: i16) -> (r: Result<(), Error>)
        requires
            old(self).wf(),
        ensures
            final(self).wf(),
            final(self).same_config(old(self)),
            r is Ok <==> old(self).remaining().len() >= 1 && old(self).remaining()[0] == SIG_I16,
            r is Ok ==> value_written(*old(self), *final(self), Value::I16(v)),
            r is Err ==> unchanged_state(*old(self), *final(self)) && r == Err::<(), Error>(
                Error::SignatureMismatch,
            ),
    {
        self.prep_serialize_basic(SIG_I16, 2)?;
        self.write_u16(#[verifier::truncate] (v as u16));
        proof {
            assert(self.buf@ =~= old(self).buf@ + encoded(
                old(self).byte_order,
                Value::I16(v),
                old(self).bytes_written as nat,
            ));
        }
        Ok(())
    }

    pub fn serialize_i32(&mut self, v: i32) -> (r: Result<(), Error>)
        requires
            old(self).wf(),
        ensures
            final(self).wf(),
            final(self).same_config(old(self)),
            r is Ok <==> old(self).remaining().len() >= 1 && old(self).remaining()[0] == SIG_I32,
            r is Ok ==> value_written(*old(self), *final(self), Value::I32(v)),
            r is Err ==> unchanged_state(*old(self), *final(self)) && r == Err::<(), Error>(
                Error::SignatureMismatch,
            ),
    {
        self.prep_serialize_basic(SIG_I32, 4)?;
        self.write_u32(#[verifier::truncate] (v as u32));
        proof {
            assert(self.buf@ =~= old(self).buf@ + encoded(
                old(self).byte_order,
                Value::I32(v),
                old(self).bytes_written as nat,
            ));
        }
        Ok(())
    }

    pub fn serialize_i64(&mut self, v: i64) -> (r: Result<(), Error>)
        requires
            old(self).wf(),
        ensures
            final(self).wf(),
            final(self).same_config(old(self)),
            r is Ok <==> old(self).remaining().len() >= 1 && old(self).remaining()[0] == SIG_I64,
            r is Ok ==> value_written(*old(self), *final(self), Value::I64(v)),
            r is Err ==> unchanged_state(*old(self), *final(self)) && r == Err::<(), Error>(
                Error::SignatureMismatch,
            ),
    {
        self.prep_serialize_basic(SIG_I64, 8)?;
        self.write_u64(#[verifier::truncate] (v as u64));
        proof {
            assert(self.buf@ =~= old(self).buf@ + encoded(
                old(self).byte_order,
                Value::I64(v),
                old(self).bytes_written as nat,
            ));
        }
        Ok(())
    }

    pub fn serialize_u8(&mut self, v: u8) -> (r: Result<(), Error>)
        requires
            old(self).wf(),
        ensures
            final(self).wf(),
            final(self).same_config(old(self)),
            r is Ok <==> old(self).remaining().len() >= 1 && old(self).remaining()[0] == SIG_U8,
            r is Ok ==> value_written(*old(self), *final(self), Value::U8(v)),
            r is Err ==> unchanged_state(*old(self), *final(self)) && r == Err::<(), Error>(
                Error::SignatureMismatch,
            ),
    {
        self.prep_serialize_basic(SIG_U8, 1)?;
        self.push_byte(v);
        proof {
            assert(self.buf@ =~= old(self).buf@ + encoded(
                old(self).byte_order,
                Value::U8(v),
                old(self).bytes_written as nat,
            ));
        }
        Ok(())
    }

    pub fn serialize_u16(&mut self, v: u16) -> (r: Result<(), Error>)
        requires
            old(self).wf(),
        ensures
            final(self).wf(),
            final(self).same_config(old(self)),
            r is Ok <==> old(self).remaining().len() >= 1 && old(self).remaining()[0] == SIG_U16,
            r is Ok ==> value_written(*old(self), *final(self), Value::U16(v)),
            r is Err ==> unchanged_state(*old(self), *final(self)) && r == Err::<(), Error>(
                Error::SignatureMismatch,
            ),
    {
        self.prep_serialize_basic(SIG_U16, 2)?;
        self.write_u16(v);
        proof {
            assert(self.buf@ =~= old(self).buf@ + encoded(
                old(self).byte_order,
                Value::U16(v),
                old(self).bytes_written as nat,
            ));
        }
        Ok(())
    }

    pub fn serialize_u32(&mut self, v: u32) -> (r: Result<(), Error>)
        requires
            old(self).wf(),
        ensures
            final(self).wf(),
            final(self).same_config(old(self)),
            r is Ok <==> old(self).remaining().len() >= 1 && old(self).remaining()[0] == SIG_U32,
            r is Ok ==> value_written(*old(self), *final(self), Value::U32(v)),
            r is Err ==> unchanged_state(*old(self), *final(self)) && r == Err::<(), Error>(
                Error::SignatureMismatch,
            ),
    {
        self.prep_serialize_basic(SIG_U32, 4)?;
        self.write_u32(v);
        proof {
            assert(self.buf@ =~= old(self).buf@ + encoded(
                old(self).byte_order,
                Value::U32(v),
                old(self).bytes_written as nat,
            ));
        }
        Ok(())
    }

    pub fn serialize_u64(&mut self, v: u64) -> (r: Result<(), Error>)
        requires
            old(self).wf(),
        ensures
            final(self).wf(),
            final(self).same_config(old(self)),
            r is Ok <==> old(self).remaining().len() >= 1 && old(self).remaining()[0] == SIG_U64,
            r is Ok ==> value_written(*old(self), *final(self), Value::U64(v)),
            r is Err ==> unchanged_state(*old(self), *final(self)) && r == Err::<(), Error>(
                Error::SignatureMismatch,
            ),
    {
        self.prep_serialize_basic(SIG_U64, 8)?;
        self.write_u64(v);
        proof {
            assert(self.buf@ =~= old(self).buf@ + encoded(
                old(self).byte_order,
                Value::U64(v),
                old(self).bytes_written as nat,
            ));
        }
        Ok(())
    }

    /// A 64-bit float is written as its IEEE-754 bit pattern; the caller
    /// supplies the bits, so no floating-point value enters the encoder.
    pub fn serialize_f64_bits(&mut self, bits: u64) -> (r: Result<(), Error>)
        requires
            old(self).wf(),
        ensures
            final(self).wf(),
            final(self).same_config(old(self)),
            r is Ok <==> old(self).remaining().len() >= 1 && old(self).remaining()[0]
                == SIG_DOUBLE,
            r is Ok ==> value_written(*old(self), *final(self), Value::F64Bits(bits)),
            r is Err ==> unchanged_state(*old(self), *final(self)) && r == Err::<(), Error>(
                Error::SignatureMismatch,
            ),
    {
        self.prep_serialize_basic(SIG_DOUBLE, 8)?;
        self.write_u64(bits);
        proof {
            assert(self.buf@ =~= old(self).buf@ + encoded(
                old(self).byte_order,
                Value::F64Bits(bits),
                old(self).bytes_written as nat,
            ));
        }
        Ok(())
    }

    /// Write a length-prefixed, NUL-terminated string. Which prefix it gets is
    /// decided by the signature character under the cursor: a string or object
    /// path carries a u32 byte length, a signature a u8 one. When the cursor
    /// stands on a variant, the bytes are a variant's inner signature: they are
    /// written like a signature and also put aside for the value that follows.
    pub fn serialize_str(&mut self, v: &Vec<u8>) -> (r: Result<(), Error>)
        requires
            old(self).wf(),
        ensures
            final(self).wf(),
            final(self).same_config(old(self)),
            r is Ok <==> (old(self).remaining().len() >= 1 && (((old(self).remaining()[0]
                == SIG_STRING || old(self).remaining()[0] == SIG_OBJECT_PATH) && v@.len()
                <= u32::MAX) || ((old(self).remaining()[0] == SIG_SIGNATURE || old(self).remaining()[0] == VARIANT_SIGNATURE_CHAR) && v@.len() <= 255))),
            r is Ok ==> final(self).sign_parser.pos == old(self).sign_parser.pos + 1,
            r is Ok && (old(self).remaining()[0] == SIG_STRING || old(self).remaining()[0]
                == SIG_OBJECT_PATH) ==> final(self).buf@ == old(self).buf@ + zeros(
                spec_padding(old(self).bytes_written as nat, 4),
            ) + u32_bytes(old(self).byte_order, v@.len() as u32) + v@ + seq![0u8] && final(self).variant_sign == old(self).variant_sign,
            r is Ok && (old(self).remaining()[0] == SIG_SIGNATURE || old(self).remaining()[0]
                == VARIANT_SIGNATURE_CHAR) ==> final(self).buf@ == old(self).buf@ + seq![
                (v@.len() as u8),
            ] + v@ + seq![0u8],
            r is Ok && old(self).remaining()[0] == SIG_SIGNATURE ==> final(self).variant_sign
                == old(self).variant_sign,
            r is Ok && old(self).remaining()[0] == VARIANT_SIGNATURE_CHAR ==> (final(self).variant_sign matches Some(w) && w@ == v@),
            r is Err ==> unchanged_state(*old(self), *final(self)),
            r is Err ==> (old(self).remaining().len() == 0 ==> r == Err::<(), Error>(
                Error::SignatureExhausted,
            )),
            r is Err && old(self).remaining().len() >= 1 ==> {
                let c = old(self).remaining()[0];
                &&& (!(c == SIG_STRING || c == SIG_OBJECT_PATH || c == SIG_SIGNATURE || c
                    == VARIANT_SIGNATURE_CHAR) ==> r == Err::<(), Error>(Error::SignatureMismatch))
                &&& ((c == SIG_STRING || c == SIG_OBJECT_PATH) && v@.len() > u32::MAX ==> r
                    == Err::<(), Error>(Error::EncodingValueOutOfRange))
                &&& ((c == SIG_SIGNATURE || c == VARIANT_SIGNATURE_CHAR) && v@.len() > 255 ==> r
                    == Err::<(), Error>(Error::SignatureTooLong))
            },
    {
        let c = match self.sign_parser.next_char() {
            Ok(c) => c,
            Err(e) => {
                return Err(e);
            },
        };
        if c == SIG_STRING || c == SIG_OBJECT_PATH {
            if v.len() > (u32::MAX as usize) {
                return Err(Error::EncodingValueOutOfRange);
            }
            self.add_padding(4);
            self.write_u32(#[verifier::truncate] (v.len() as u32));
        } else if c == SIG_SIGNATURE || c == VARIANT_SIGNATURE_CHAR {
            if v.len() > 255 {
                return Err(Error::SignatureTooLong);
            }
            self.push_byte(#[verifier::truncate] (v.len() as u8));
            if c == VARIANT_SIGNATURE_CHAR {
                let mut sg: Vec<u8> = Vec::new();
                push_all(&mut sg, v);
                self.variant_sign = Some(sg);
            }
        } else {
            return Err(Error::SignatureMismatch);
        }
        match self.sign_parser.parse_char(None) {
            Ok(()) => {},
            Err(e) => {
                return Err(e);
            },
        }
        self.write(v);
        self.push_byte(0);
        proof {
            assert(self.buf@ =~= old(self).buf@ + zeros(
                spec_padding(old(self).bytes_written as nat, 4),
            ) + u32_bytes(old(self).byte_order, v@.len() as u32) + v@ + seq![0u8] || self.buf@
                =~= old(self).buf@ + seq![(v@.len() as u8)] + v@ + seq![0u8]);
        }
        Ok(())
    }

    /// The D-Bus format has no encoding for an optional with no value.
    pub fn serialize_none(&mut self) -> (r: Result<(), Error>)
        requires
            old(self).wf(),
        ensures
            final(self).wf(),
            final(self).same_config(old(self)),
            unchanged_state(*old(self), *final(self)),
            r == Err::<(), Error>(Error::UnsupportedShape),
    {
        Err(Error::UnsupportedShape)
    }

    /// The D-Bus format has no encoding for the unit value.
    pub fn serialize_unit(&mut self) -> (r: Result<(), Error>)
        requires
            old(self).wf(),
        ensures
            final(self).wf(),
            final(self).same_config(old(self)),
            unchanged_state(*old(self), *final(self)),
            r == Err::<(), Error>(Error::UnsupportedShape),
    {
        self.serialize_none()
    }

    /// A unit struct carries no data that the wire could hold.
    pub fn serialize_unit_struct(&mut self) -> (r: Result<(), Error>)
        requires
            old(self).wf(),
        ensures
            final(self).wf(),
            final(self).same_config(old(self)),
            unchanged_state(*old(self), *final(self)),
            r == Err::<(), Error>(Error::UnsupportedShape),
    {
        self.serialize_none()
    }

    /// A unit enum variant is written as the u32 index of the variant.
    pub fn serialize_unit_variant(&mut self, variant_index: u32) -> (r: Result<(), Error>)
        requires
            old(self).wf(),
        ensures
            final(self).wf(),
            final(self).same_config(old(self)),
            r is Ok <==> old(self).remaining().len() >= 1 && old(self).remaining()[0] == SIG_U32,
            r is Ok ==> value_written(*old(self), *final(self), Value::U32(variant_index)),
            r is Err ==> unchanged_state(*old(self), *final(self)) && r == Err::<(), Error>(
                Error::SignatureMismatch,
            ),
    {
        self.serialize_u32(variant_index)
    }
}

/// The standard successful outcome: the bytes of `v` were appended at the old
/// offset, the cursor moved over exactly the signature of `v`, and the
/// configuration and the pending variant signature are as they were.
pub open spec fn value_written(pre: Serializer, post: Serializer, v: Value) -> bool {
    &&& post.wf()
    &&& post.same_config(&pre)
    &&& post.buf@ == pre.buf@ + encoded(pre.byte_order, v, pre.bytes_written as nat)
    &&& post.bytes_written == pre.bytes_written + encoded(
        pre.byte_order,
        v,
        pre.bytes_written as nat,
    ).len()
    &&& post.sign_parser.pos == pre.sign_parser.pos + sig_of(v).len()
    &&& post.variant_sign == pre.variant_sign
}

/// Nothing observable changed: no bytes, no cursor movement, no pending
/// variant signature.
pub open spec fn unchanged_state(pre: Serializer, post: Serializer) -> bool {
    &&& post.buf@ == pre.buf@
    &&& post.bytes_written == pre.bytes_written
    &&& post.sign_parser.pos == pre.sign_parser.pos
    &&& post.variant_sign == pre.variant_sign
}

impl Serializer {
    /// Open an array (or dictionary): consume the `a`, pad to 4, write a zero
    /// placeholder for the byte length, and pad for the first element.
    pub fn serialize_seq(&mut self) -> (r: Result<SeqSerializer, Error>)
        requires
            old(self).wf(),
            old(self).remaining().len() >= 2,
            old(self).remaining()[0] == ARRAY_SIGNATURE_CHAR,
            type_len(old(self).remaining().skip(1)) is Some,
        ensures
            final(self).wf(),
            final(self).same_config(old(self)),
            final(self).variant_sign == old(self).variant_sign,
            r is Ok,
            ({
                let o = old(self).bytes_written as nat;
                let p1 = spec_padding(o, 4);
                let p2 = spec_padding(o + p1 + 4, spec_alignment(old(self).remaining()[1]));
                r matches Ok(ss) ==> {
                    &&& final(self).buf@ == old(self).buf@ + zeros(p1) + u32_bytes(
                        old(self).byte_order,
                        0,
                    ) + zeros(p2)
                    &&& final(self).bytes_written == old(self).bytes_written + p1 + 4 + p2
                    &&& final(self).sign_parser.pos == old(self).sign_parser.pos + 1
                    &&& ss.start == old(self).bytes_written + p1 + 4
                    &&& ss.first_padding == p2
                    &&& ss.element_signature_pos == old(self).sign_parser.pos + 1
                    &&& ss.element_signature_len == type_len(old(self).remaining().skip(1))->Some_0
                }
            }),
    {
        let ghost pre = *self;
        proof {
            lemma_type_len_bounds(pre.remaining().skip(1));
        }
        match self.sign_parser.parse_char(Some(ARRAY_SIGNATURE_CHAR)) {
            Ok(()) => {},
            Err(e) => {
                return Err(e);
            },
        }
        self.add_padding(ARRAY_ALIGNMENT);
        self.write_u32(0);
        let next = match self.sign_parser.next_char() {
            Ok(c) => c,
            Err(e) => {
                return Err(e);
            },
        };
        proof {
            assert(next == pre.remaining()[1]);
        }
        let alignment = alignment_for_signature_char(next, self.format);
        let start = self.bytes_written;
        let first_padding = self.add_padding(alignment);
        let element_signature_pos = self.sign_parser.pos();
        proof {
            assert(self.sign_parser.sig@.skip(element_signature_pos as int) =~= pre.remaining(
            ).skip(1));
        }
        let element_signature_len = match complete_type_len(
            self.sign_parser.signature(),
            element_signature_pos,
        ) {
            Ok(n) => n,
            Err(e) => {
                return Err(e);
            },
        };
        Ok(
            SeqSerializer {
                start,
                element_signature_pos,
                element_signature_len,
                first_padding,
            },
        )
    }

    /// A map is opened exactly as an array of dictionary entries.
    pub fn serialize_map(&mut self) -> (r: Result<SeqSerializer, Error>)
        requires
            old(self).wf(),
            old(self).remaining().len() >= 2,
            old(self).remaining()[0] == ARRAY_SIGNATURE_CHAR,
            type_len(old(self).remaining().skip(1)) is Some,
        ensures
            final(self).wf(),
            final(self).same_config(old(self)),
            final(self).variant_sign == old(self).variant_sign,
            r is Ok,
            ({
                let o = old(self).bytes_written as nat;
                let p1 = spec_padding(o, 4);
                let p2 = spec_padding(o + p1 + 4, spec_alignment(old(self).remaining()[1]));
                r matches Ok(ss) ==> {
                    &&& final(self).buf@ == old(self).buf@ + zeros(p1) + u32_bytes(
                        old(self).byte_order,
                        0,
                    ) + zeros(p2)
                    &&& final(self).bytes_written == old(self).bytes_written + p1 + 4 + p2
                    &&& final(self).sign_parser.pos == old(self).sign_parser.pos + 1
                    &&& ss.start == old(self).bytes_written + p1 + 4
                    &&& ss.first_padding == p2
                    &&& ss.element_signature_pos == old(self).sign_parser.pos + 1
                    &&& ss.element_signature_len == type_len(old(self).remaining().skip(1))->Some_0
                }
            }),
    {
        self.serialize_seq()
    }

    /// Open a struct or dictionary-entry frame (pad to 8, note the owed close
    /// bracket), or become transparent before a variant.
    pub fn serialize_struct(&mut self) -> (r: Result<StructSerializer, Error>)
        requires
            old(self).wf(),
            old(self).remaining().len() >= 1,
            old(self).remaining()[0] == STRUCT_SIG_START_CHAR || old(self).remaining()[0]
                == DICT_ENTRY_SIG_START_CHAR || old(self).remaining()[0] == VARIANT_SIGNATURE_CHAR,
        ensures
            final(self).wf(),
            final(self).same_config(old(self)),
            final(self).variant_sign == old(self).variant_sign,
            r is Ok,
            old(self).remaining()[0] == VARIANT_SIGNATURE_CHAR ==> unchanged_state(
                *old(self),
                *final(self),
            ) && (r matches Ok(st) ==> st.end_parens is None),
            old(self).remaining()[0] != VARIANT_SIGNATURE_CHAR ==> ({
                let p = spec_padding(old(self).bytes_written as nat, 8);
                &&& final(self).buf@ == old(self).buf@ + zeros(p)
                &&& final(self).bytes_written == old(self).bytes_written + p
                &&& final(self).sign_parser.pos == old(self).sign_parser.pos + 1
                &&& (r matches Ok(st) ==> st.end_parens == Some(
                    if old(self).remaining()[0] == STRUCT_SIG_START_CHAR {
                        STRUCT_SIG_END_CHAR
                    } else {
                        DICT_ENTRY_SIG_END_CHAR
                    },
                ))
            }),
    {
        let c = match self.sign_parser.next_char() {
            Ok(c) => c,
            Err(e) => {
                return Err(e);
            },
        };
        if c == VARIANT_SIGNATURE_CHAR {
            return Ok(StructSerializer { end_parens: None });
        }
        match self.sign_parser.parse_char(Some(c)) {
            Ok(()) => {},
            Err(e) => {
                return Err(e);
            },
        }
        self.add_padding(STRUCT_ALIGNMENT);
        let end_parens = if c == STRUCT_SIG_START_CHAR {
            Some(STRUCT_SIG_END_CHAR)
        } else {
            Some(DICT_ENTRY_SIG_END_CHAR)
        };
        Ok(StructSerializer { end_parens })
    }
}

/// The state of one array or dictionary being encoded: where its body begins,
/// where the element signature stands and how long it is, and the padding
/// that was emitted for a first element.
pub struct SeqSerializer {
    pub start: usize,
    pub element_signature_pos: usize,
    pub element_signature_len: usize,
    pub first_padding: usize,
}

impl SeqSerializer {
    /// The handle matches the serializer it was opened on.
    pub open spec fn valid(&self, s: &Serializer) -> bool {
        &&& self.element_signature_pos + self.element_signature_len <= s.sign_parser.sig@.len()
        &&& self.start >= 4
        &&& self.start + self.first_padding <= s.bytes_written
    }

    /// The element signature recorded for this sequence.
    pub open spec fn esig(&self, s: &Serializer) -> Seq<u8> {
        s.sign_parser.sig@.subrange(
            self.element_signature_pos as int,
            self.element_signature_pos + self.element_signature_len,
        )
    }

    /// The cursor stands before the element signature for a first element,
    /// and past it otherwise.
    pub open spec fn cursor_ok(&self, s: &Serializer) -> bool {
        s.sign_parser.pos == if s.bytes_written == self.start + self.first_padding {
            self.element_signature_pos as int
        } else {
            self.element_signature_pos + self.element_signature_len
        }
    }

    /// Encode one array element. For every element after the first, the
    /// cursor is first rewound over the element signature.
    pub fn serialize_element(&self, s: &mut Serializer, v: &Value) -> (r: Result<(), Error>)
        requires
            old(s).wf(),
            old(s).variant_sign is None,
            wf_value(*v),
            self.valid(old(s)),
            sig_of(*v) == self.esig(old(s)),
            self.cursor_ok(old(s)),
        ensures
            final(s).wf(),
            final(s).same_config(old(s)),
            final(s).variant_sign is None,
            r is Ok <==> fits(old(s).byte_order, *v, old(s).bytes_written as nat),
            r is Ok ==> final(s).buf@ == old(s).buf@ + encoded(
                old(s).byte_order,
                *v,
                old(s).bytes_written as nat,
            ) && final(s).bytes_written == old(s).bytes_written + encoded(
                old(s).byte_order,
                *v,
                old(s).bytes_written as nat,
            ).len() && final(s).sign_parser.pos == self.element_signature_pos
                + self.element_signature_len,
        decreases v, 3int,
    {
        if self.start + self.first_padding != s.bytes_written {
            s.sign_parser.rewind_chars(self.element_signature_len);
        }
        proof {
            assert(s.ready_for(*v));
        }
        s.serialize_value(v)
    }

    /// Close the sequence: skip the element signature if no element consumed
    /// it, then patch the body's byte length into the placeholder.
    pub fn end_seq(self, s: &mut Serializer) -> (r: Result<(), Error>)
        requires
            old(s).wf(),
            self.valid(old(s)),
            self.cursor_ok(old(s)),
        ensures
            final(s).wf(),
            final(s).same_config(old(s)),
            final(s).variant_sign == old(s).variant_sign,
            final(s).sign_parser.pos == self.element_signature_pos + self.element_signature_len,
            final(s).bytes_written == old(s).bytes_written,
            final(s).buf@.len() == old(s).buf@.len(),
            r is Ok <==> old(s).bytes_written - (self.start + self.first_padding) <= u32::MAX,
            r is Ok ==> final(s).buf@ == old(s).buf@.subrange(0, self.start - 4) + u32_bytes(
                old(s).byte_order,
                (old(s).bytes_written - (self.start + self.first_padding)) as u32,
            ) + old(s).buf@.subrange(self.start as int, old(s).buf@.len() as int),
            r is Err ==> final(s).buf@ == old(s).buf@ && r == Err::<(), Error>(Error::ArrayTooLong),
    {
        if self.start + self.first_padding == s.bytes_written {
            match s.sign_parser.skip_chars(self.element_signature_len) {
                Ok(()) => {},
                Err(e) => {
                    return Err(e);
                },
            }
        }
        let array_len = s.bytes_written - self.start;
        let len_bytes = array_len - self.first_padding;
        if len_bytes > (u32::MAX as usize) {
            return Err(Error::ArrayTooLong);
        }
        s.patch_u32(self.start - 4, #[verifier::truncate] (len_bytes as u32));
        Ok(())
    }

    /// Close the sequence.
    pub fn end(self, s: &mut Serializer) -> (r: Result<(), Error>)
        requires
            old(s).wf(),
            self.valid(old(s)),
            self.cursor_ok(old(s)),
        ensures
            final(s).wf(),
            final(s).same_config(old(s)),
            final(s).variant_sign == old(s).variant_sign,
            final(s).sign_parser.pos == self.element_signature_pos + self.element_signature_len,
            final(s).bytes_written == old(s).bytes_written,
            final(s).buf@.len() == old(s).buf@.len(),
            r is Ok <==> old(s).bytes_written - (self.start + self.first_padding) <= u32::MAX,
            r is Ok ==> final(s).buf@ == old(s).buf@.subrange(0, self.start - 4) + u32_bytes(
                old(s).byte_order,
                (old(s).bytes_written - (self.start + self.first_padding)) as u32,
            ) + old(s).buf@.subrange(self.start as int, old(s).buf@.len() as int),
            r is Err ==> final(s).buf@ == old(s).buf@ && r == Err::<(), Error>(Error::ArrayTooLong),
    {
        self.end_seq(s)
    }

    /// Encode one dictionary key: consume the `{` for the first entry, rewind
    /// over key and value types otherwise, pad the entry to 8, and refuse a
    /// key of a composite type.
    pub fn serialize_key(&self, s: &mut Serializer, key: &Value) -> (r: Result<(), Error>)
        requires
            old(s).wf(),
            old(s).variant_sign is None,
            wf_value(*key),
            self.valid(old(s)),
            self.element_signature_len >= sig_of(*key).len() + 2,
            self.esig(old(s))[0] == DICT_ENTRY_SIG_START_CHAR,
            self.esig(old(s)).subrange(1, 1 + sig_of(*key).len() as int) == sig_of(*key),
            old(s).sign_parser.pos == if old(s).bytes_written == self.start + self.first_padding {
                self.element_signature_pos as int
            } else {
                self.element_signature_pos + self.element_signature_len - 1
            },
        ensures
            final(s).wf(),
            final(s).same_config(old(s)),
            final(s).variant_sign is None,
            r is Ok <==> is_basic_value(*key) && fits(
                old(s).byte_order,
                *key,
                old(s).bytes_written as nat + spec_padding(old(s).bytes_written as nat, 8),
            ),
            r is Ok ==> ({
                let p = spec_padding(old(s).bytes_written as nat, 8);
                let k = encoded(old(s).byte_order, *key, old(s).bytes_written as nat + p);
                &&& final(s).buf@ == old(s).buf@ + zeros(p) + k
                &&& final(s).bytes_written == old(s).bytes_written + p + k.len()
                &&& final(s).sign_parser.pos == self.element_signature_pos + 1 + sig_of(*key).len()
            }),
            r is Err && !is_basic_value(*key) ==> r == Err::<(), Error>(Error::InvalidMapKey)
                && unchanged_state(*old(s), *final(s)),
        decreases key, 3int,
    {
        if !key.is_basic() {
            return Err(Error::InvalidMapKey);
        }
        if self.start + self.first_padding == s.bytes_written {
            match s.sign_parser.parse_char(Some(DICT_ENTRY_SIG_START_CHAR)) {
                Ok(()) => {},
                Err(e) => {
                    return Err(e);
                },
            }
        } else {
            s.sign_parser.rewind_chars(self.element_signature_len - 2);
        }
        s.add_padding(DICT_ENTRY_ALIGNMENT);
        proof {
            assert(s.ready_for(*key)) by {
                assert(s.sign_parser.sig@.subrange(
                    self.element_signature_pos + 1,
                    self.element_signature_pos + 1 + sig_of(*key).len(),
                ) =~= self.esig(old(s)).subrange(1, 1 + sig_of(*key).len() as int));
            }
        }
        s.serialize_value(key)
    }

    /// Encode one dictionary value.
    pub fn serialize_value(&self, s: &mut Serializer, value: &Value) -> (r: Result<(), Error>)
        requires
            old(s).wf(),
            old(s).variant_sign is None,
            wf_value(*value),
            old(s).ready_for(*value),
        ensures
            final(s).wf(),
            final(s).same_config(old(s)),
            final(s).variant_sign is None,
            r is Ok <==> fits(old(s).byte_order, *value, old(s).bytes_written as nat),
            r is Ok ==> value_written(*old(s), *final(s), *value),
        decreases value, 3int,
    {
        s.serialize_value(value)
    }
}

/// A struct, dictionary-entry or variant frame: the close bracket the cursor
/// owes when the frame ends, or none for a transparent variant frame.
pub struct StructSerializer {
    pub end_parens: Option<u8>,
}

impl StructSerializer {
    /// Encode one element of the frame. With `variant_value_slot` the element
    /// is the value of a variant, announced in the wire protocol by an agreed
    /// in-band field tag: the pending variant signature is taken and a fresh
    /// cursor over it drives the value, sharing the output buffer and offset.
    pub fn serialize_struct_element(
        &self,
        s: &mut Serializer,
        variant_value_slot: bool,
        v: &Value,
    ) -> (r: Result<(), Error>)
        requires
            old(s).wf(),
            wf_value(*v),
            !variant_value_slot ==> old(s).variant_sign is None && old(s).ready_for(*v),
            variant_value_slot ==> (old(s).variant_sign matches Some(sg) ==> sg@ == sig_of(*v)),
        ensures
            final(s).wf(),
            final(s).same_config(old(s)),
            final(s).variant_sign is None || final(s).variant_sign == old(s).variant_sign,
            !variant_value_slot ==> final(s).variant_sign is None && (r is Ok <==> fits(
                old(s).byte_order,
                *v,
                old(s).bytes_written as nat,
            )) && (r is Ok ==> value_written(*old(s), *final(s), *v)),
            variant_value_slot && old(s).variant_sign is None ==> r == Err::<(), Error>(
                Error::MissingVariantSignature,
            ) && unchanged_state(*old(s), *final(s)),
            variant_value_slot && old(s).variant_sign is Some ==> {
                &&& final(s).variant_sign is None
                &&& final(s).sign_parser.pos == old(s).sign_parser.pos
                &&& (r is Ok <==> fits(old(s).byte_order, *v, old(s).bytes_written as nat))
                &&& (r is Ok ==> final(s).buf@ == old(s).buf@ + encoded(
                    old(s).byte_order,
                    *v,
                    old(s).bytes_written as nat,
                ) && final(s).bytes_written == old(s).bytes_written + encoded(
                    old(s).byte_order,
                    *v,
                    old(s).bytes_written as nat,
                ).len())
            },
        decreases v, 3int,
    {
        if variant_value_slot {
            let mut taken: Option<Vec<u8>> = None;
            core::mem::swap(&mut s.variant_sign, &mut taken);
            let sg = match taken {
                Some(sg) => sg,
                None => {
                    return Err(Error::MissingVariantSignature);
                },
            };
            let mut sub = SignatureParser::new(sg);
            core::mem::swap(&mut s.sign_parser, &mut sub);
            proof {
                assert(s.sign_parser.sig@.subrange(0, sig_of(*v).len() as int) =~= sig_of(*v));
                assert(s.ready_for(*v));
            }
            let r = s.serialize_value(v);
            core::mem::swap(&mut s.sign_parser, &mut sub);
            r
        } else {
            s.serialize_value(v)
        }
    }

    /// Close the frame: consume the owed close bracket, if any.
    pub fn end_struct(self, s: &mut Serializer) -> (r: Result<(), Error>)
        requires
            old(s).wf(),
            self.end_parens matches Some(c) ==> old(s).remaining().len() >= 1 && old(
                s,
            ).remaining()[0] == c,
        ensures
            final(s).wf(),
            final(s).same_config(old(s)),
            final(s).buf@ == old(s).buf@,
            final(s).bytes_written == old(s).bytes_written,
            final(s).variant_sign == old(s).variant_sign,
            r is Ok,
            self.end_parens is Some ==> final(s).sign_parser.pos == old(s).sign_parser.pos + 1,
            self.end_parens is None ==> final(s).sign_parser.pos == old(s).sign_parser.pos,
    {
        match self.end_parens {
            Some(c) => match s.sign_parser.parse_char(Some(c)) {
                Ok(()) => Ok(()),
                Err(e) => Err(e),
            },
            None => Ok(()),
        }
    }

    /// Close the frame.
    pub fn end(self, s: &mut Serializer) -> (r: Result<(), Error>)
        requires
            old(s).wf(),
            self.end_parens matches Some(c) ==> old(s).remaining().len() >= 1 && old(
                s,
            ).remaining()[0] == c,
        ensures
            final(s).wf(),
            final(s).same_config(old(s)),
            final(s).buf@ == old(s).buf@,
            final(s).bytes_written == old(s).bytes_written,
            final(s).variant_sign == old(s).variant_sign,
            r is Ok,
            self.end_parens is Some ==> final(s).sign_parser.pos == old(s).sign_parser.pos + 1,
            self.end_parens is None ==> final(s).sign_parser.pos == old(s).sign_parser.pos,
    {
        self.end_struct(s)
    }
}

impl Serializer {
    /// Encode one value against the signature under the cursor: the bytes of
    /// `encoded` are appended at the current offset and the cursor moves over
    /// exactly the value's signature. Encoding succeeds if and only if every
    /// length field fits its width, every dictionary key is of a basic type,
    /// and no unsupported shape occurs.
    #[verifier::rlimit(100)]
    pub fn serialize_value(&mut self, v: &Value) -> (r: Result<(), Error>)
        requires
            old(self).wf(),
            wf_value(*v),
            old(self).variant_sign is None,
            old(self).ready_for(*v),
        ensures
            final(self).wf(),
            final(self).same_config(old(self)),
            final(self).variant_sign is None,
            r is Ok <==> fits(old(self).byte_order, *v, old(self).bytes_written as nat),
            r is Ok ==> value_written(*old(self), *final(self), *v),
        decreases v, 2int,
    {
        let ghost pre = *old(self);
        let ghost bo = pre.byte_order;
        let ghost o0 = pre.bytes_written as nat;
        proof {
            if sig_of(*v).len() >= 1 {
                assert(pre.remaining()[0] == sig_of(*v)[0]) by {
                    assert(pre.sign_parser.sig@.subrange(
                        pre.sign_parser.pos as int,
                        pre.sign_parser.pos + sig_of(*v).len(),
                    )[0] == sig_of(*v)[0]);
                }
                assert(pre.remaining().len() >= sig_of(*v).len());
            }
        }
        match v {
            Value::U8(x) => self.serialize_u8(*x),
            Value::Bool(x) => self.serialize_bool(*x),
            Value::I16(x) => self.serialize_i16(*x),
            Value::U16(x) => self.serialize_u16(*x),
            Value::I32(x) => self.serialize_i32(*x),
            Value::U32(x) => self.serialize_u32(*x),
            Value::I64(x) => self.serialize_i64(*x),
            Value::U64(x) => self.serialize_u64(*x),
            Value::F64Bits(x) => self.serialize_f64_bits(*x),
            Value::Str(bytes) => {
                let r = self.serialize_str(bytes);
                proof {
                    if r is Ok {
                        assert(self.buf@ =~= pre.buf@ + encoded(bo, *v, o0));
                    }
                }
                r
            },
            Value::ObjectPath(bytes) => {
                let r = self.serialize_str(bytes);
                proof {
                    if r is Ok {
                        assert(self.buf@ =~= pre.buf@ + encoded(bo, *v, o0));
                    }
                }
                r
            },
            Value::Sig(bytes) => {
                let r = self.serialize_str(bytes);
                proof {
                    if r is Ok {
                        assert(self.buf@ =~= pre.buf@ + encoded(bo, *v, o0));
                    }
                }
                r
            },
            Value::Variant(_) => self.serialize_variant_value(v),
            Value::Array(_, _) => self.serialize_array_value(v),
            Value::Struct(_) => self.serialize_struct_value(v),
            Value::Dict(_, _, _) => self.serialize_dict_value(v),
            Value::Unit => Err(Error::UnsupportedShape),
        }
    }

    /// Encode a variant: its inner signature, then its value through a fresh cursor.
    #[verifier::rlimit(100)]
    fn serialize_variant_value(&mut self, v: &Value) -> (r: Result<(), Error>)
        requires
            old(self).wf(),
            wf_value(*v),
            old(self).variant_sign is None,
            old(self).ready_for(*v),
            (*v is Variant),
        ensures
            final(self).wf(),
            final(self).same_config(old(self)),
            final(self).variant_sign is None,
            r is Ok <==> fits(old(self).byte_order, *v, old(self).bytes_written as nat),
            r is Ok ==> value_written(*old(self), *final(self), *v),
        decreases v, 1int,
    {
        let ghost pre = *old(self);
        let ghost bo = pre.byte_order;
        let ghost o0 = pre.bytes_written as nat;
        proof {
            if sig_of(*v).len() >= 1 {
                assert(pre.remaining()[0] == sig_of(*v)[0]) by {
                    assert(pre.sign_parser.sig@.subrange(
                        pre.sign_parser.pos as int,
                        pre.sign_parser.pos + sig_of(*v).len(),
                    )[0] == sig_of(*v)[0]);
                }
                assert(pre.remaining().len() >= sig_of(*v).len());
            }
        }
        match v {
            Value::Variant(inner) => {
                let st = match self.serialize_struct() {
                    Ok(st) => st,
                    Err(e) => {
                        return Err(e);
                    },
                };
                let sg = signature_of(&**inner);
                proof {
                    assert(is_smaller_than(*(*v)->Variant_0, *v));
                }
                match self.serialize_str(&sg) {
                    Ok(()) => {},
                    Err(e) => {
                        return Err(e);
                    },
                }
                match st.serialize_struct_element(self, true, &**inner) {
                    Ok(()) => {},
                    Err(e) => {
                        return Err(e);
                    },
                }
                let r = st.end_struct(self);
                proof {
                    assert(self.buf@ =~= pre.buf@ + encoded(bo, *v, o0));
                }
                r
            },
            _ => {
                proof {
                    assert(false);
                }
                Err(Error::UnsupportedShape)
            },
        }
    }

    /// Encode an array: length placeholder, first-element padding, elements, patch.
    #[verifier::rlimit(100)]
    fn serialize_array_value(&mut self, v: &Value) -> (r: Result<(), Error>)
        requires
            old(self).wf(),
            wf_value(*v),
            old(self).variant_sign is None,
            old(self).ready_for(*v),
            (*v is Array),
        ensures
            final(self).wf(),
            final(self).same_config(old(self)),
            final(self).variant_sign is None,
            r is Ok <==> fits(old(self).byte_order, *v, old(self).bytes_written as nat),
            r is Ok ==> value_written(*old(self), *final(self), *v),
        decreases v, 1int,
    {
        let ghost pre = *old(self);
        let ghost bo = pre.byte_order;
        let ghost o0 = pre.bytes_written as nat;
        proof {
            if sig_of(*v).len() >= 1 {
                assert(pre.remaining()[0] == sig_of(*v)[0]) by {
                    assert(pre.sign_parser.sig@.subrange(
                        pre.sign_parser.pos as int,
                        pre.sign_parser.pos + sig_of(*v).len(),
                    )[0] == sig_of(*v)[0]);
                }
                assert(pre.remaining().len() >= sig_of(*v).len());
            }
        }
        match v {
            Value::Array(esig, items) => {
                proof {
                    lemma_type_len_bounds(esig@);
                    assert(pre.remaining().skip(1).subrange(0, esig@.len() as int) =~= esig@) by {
                        assert(pre.sign_parser.sig@.subrange(
                            pre.sign_parser.pos as int,
                            pre.sign_parser.pos + sig_of(*v).len(),
                        ).skip(1) =~= pre.remaining().skip(1).subrange(0, esig@.len() as int));
                    }
                    assert(esig@.subrange(0, esig@.len() as int) =~= esig@);
                    lemma_type_len_agree(esig@, pre.remaining().skip(1));
                    assert(pre.remaining()[1] == esig@[0]) by {
                        assert(pre.sign_parser.sig@.subrange(
                            pre.sign_parser.pos as int,
                            pre.sign_parser.pos + sig_of(*v).len(),
                        )[1] == sig_of(*v)[1]);
                    }
                }
                let ss = match self.serialize_seq() {
                    Ok(ss) => ss,
                    Err(e) => {
                        return Err(e);
                    },
                };
                let ghost p1 = spec_padding(o0, 4);
                let ghost p2 = spec_padding(o0 + p1 + 4, spec_alignment(esig@[0]));
                let ghost body_start = o0 + p1 + 4 + p2;
                proof {
                    assert(ss.esig(self) =~= esig@) by {
                        assert(pre.sign_parser.sig@.subrange(
                            pre.sign_parser.pos + 1,
                            pre.sign_parser.pos + 1 + esig@.len(),
                        ) =~= pre.sign_parser.sig@.subrange(
                            pre.sign_parser.pos as int,
                            pre.sign_parser.pos + sig_of(*v).len(),
                        ).skip(1));
                    }
                    assert(items@.subrange(0, 0) =~= Seq::<Value>::empty());
                }
                let mut i: usize = 0;
                while i < items.len()
                    invariant
                        pre == *old(self),
                        bo == pre.byte_order,
                        o0 == pre.bytes_written as nat,
                        p1 == spec_padding(o0, 4),
                        p2 == spec_padding(o0 + p1 + 4, spec_alignment(esig@[0])),
                        body_start == o0 + p1 + 4 + p2,
                        esig@.len() >= 1,
                        type_len(esig@) == Some(esig@.len() as nat),
                        self.wf(),
                        self.same_config(&pre),
                        self.variant_sign is None,
                        i <= items@.len(),
                        *v == Value::Array(*esig, *items),
                        wf_value(*v),
                        ss.start == o0 + p1 + 4,
                        ss.first_padding == p2,
                        ss.element_signature_pos == pre.sign_parser.pos + 1,
                        ss.element_signature_len == esig@.len(),
                        ss.esig(self) == esig@,
                        ss.element_signature_pos + ss.element_signature_len
                            <= self.sign_parser.sig@.len(),
                        ss.start >= 4,
                        self.buf@ == pre.buf@ + zeros(p1) + u32_bytes(pre.byte_order, 0) + zeros(
                            p2,
                        ) + enc_items(bo, items@.subrange(0, i as int), body_start),
                        self.bytes_written == body_start + enc_items(
                            bo,
                            items@.subrange(0, i as int),
                            body_start,
                        ).len(),
                        self.sign_parser.pos == if i == 0 {
                            ss.element_signature_pos as int
                        } else {
                            ss.element_signature_pos + ss.element_signature_len
                        },
                        i == 0 <==> self.bytes_written == ss.start + ss.first_padding,
                        fits_items(bo, items@.subrange(0, i as int), body_start),
                    decreases items@.len() - i,
                {
                    proof {
                        lemma_wf_elems_index(items@, esig@, i as int);
                        assert(is_smaller_than((*v)->Array_1, *v));
                        assert(is_smaller_than((*v)->Array_1@, (*v)->Array_1));
                        assert(is_smaller_than((*v)->Array_1@[i as int], *v));
                    }
                    let ghost bw_i = self.bytes_written as nat;
                    match ss.serialize_element(self, &items[i]) {
                        Ok(()) => {},
                        Err(e) => {
                            proof {
                                if fits(bo, *v, o0) {
                                    assert(fits_items(bo, items@, body_start));
                                    lemma_fits_items_extract(bo, items@, i as int, body_start);
                                }
                            }
                            return Err(e);
                        },
                    }
                    proof {
                        lemma_enc_items_snoc(
                            bo,
                            items@.subrange(0, i as int),
                            items@[i as int],
                            body_start,
                        );
                        lemma_fits_items_snoc(
                            bo,
                            items@.subrange(0, i as int),
                            items@[i as int],
                            body_start,
                        );
                        assert(items@.subrange(0, i + 1) =~= items@.subrange(0, i as int).push(
                            items@[i as int],
                        ));
                        lemma_encoded_nonempty(bo, items@[i as int], bw_i);
                        assert(self.buf@ =~= pre.buf@ + zeros(p1) + u32_bytes(pre.byte_order, 0)
                            + zeros(p2) + enc_items(bo, items@.subrange(0, i + 1), body_start));
                    }
                    i = i + 1;
                }
                proof {
                    assert(items@.subrange(0, items@.len() as int) =~= items@);
                }
                match ss.end_seq(self) {
                    Ok(()) => {
                        proof {
                            assert(self.buf@ =~= pre.buf@ + encoded(bo, *v, o0));
                        }
                        Ok(())
                    },
                    Err(e) => Err(e),
                }
            },
            _ => {
                proof {
                    assert(false);
                }
                Err(Error::UnsupportedShape)
            },
        }
    }

    /// Encode a struct: pad to 8, then each field in order.
    #[verifier::rlimit(100)]
    fn serialize_struct_value(&mut self, v: &Value) -> (r: Result<(), Error>)
        requires
            old(self).wf(),
            wf_value(*v),
            old(self).variant_sign is None,
            old(self).ready_for(*v),
            (*v is Struct),
        ensures
            final(self).wf(),
            final(self).same_config(old(self)),
            final(self).variant_sign is None,
            r is Ok <==> fits(old(self).byte_order, *v, old(self).bytes_written as nat),
            r is Ok ==> value_written(*old(self), *final(self), *v),
        decreases v, 1int,
    {
        let ghost pre = *old(self);
        let ghost bo = pre.byte_order;
        let ghost o0 = pre.bytes_written as nat;
        proof {
            if sig_of(*v).len() >= 1 {
                assert(pre.remaining()[0] == sig_of(*v)[0]) by {
                    assert(pre.sign_parser.sig@.subrange(
                        pre.sign_parser.pos as int,
                        pre.sign_parser.pos + sig_of(*v).len(),
                    )[0] == sig_of(*v)[0]);
                }
                assert(pre.remaining().len() >= sig_of(*v).len());
            }
        }
        match v {
            Value::Struct(fields) => {
                let st = match self.serialize_struct() {
                    Ok(st) => st,
                    Err(e) => {
                        return Err(e);
                    },
                };
                let ghost p = spec_padding(o0, 8);
                let ghost body_start = o0 + p;
                let ghost sc = sig_concat(fields@);
                proof {
                    assert(fields@.subrange(0, 0) =~= Seq::<Value>::empty());
                }
                let mut i: usize = 0;
                while i < fields.len()
                    invariant
                        pre == *old(self),
                        bo == pre.byte_order,
                        o0 == pre.bytes_written as nat,
                        p == spec_padding(o0, 8),
                        body_start == o0 + p,
                        self.wf(),
                        self.same_config(&pre),
                        self.variant_sign is None,
                        i <= fields@.len(),
                        *v == Value::Struct(*fields),
                        wf_value(*v),
                        pre.wf(),
                        pre.ready_for(*v),
                        pre.variant_sign is None,
                        sc == sig_concat(fields@),
                        st.end_parens == Some(STRUCT_SIG_END_CHAR),
                        self.buf@ == pre.buf@ + zeros(p) + enc_items(
                            bo,
                            fields@.subrange(0, i as int),
                            body_start,
                        ),
                        self.bytes_written == body_start + enc_items(
                            bo,
                            fields@.subrange(0, i as int),
                            body_start,
                        ).len(),
                        self.sign_parser.pos == pre.sign_parser.pos + 1 + sig_concat(
                            fields@.subrange(0, i as int),
                        ).len(),
                        fits_items(bo, fields@.subrange(0, i as int), body_start),
                    decreases fields@.len() - i,
                {
                    proof {
                        lemma_wf_items_index(fields@, i as int);
                        assert(is_smaller_than((*v)->Struct_0, *v));
                        assert(is_smaller_than((*v)->Struct_0@, (*v)->Struct_0));
                        assert(is_smaller_than((*v)->Struct_0@[i as int], *v));
                        lemma_sig_concat_split(fields@, i as int);
                        let fsig = sig_of(fields@[i as int]);
                        let tk = sig_concat(fields@.subrange(0, i as int));
                        assert(self.ready_for(fields@[i as int])) by {
                            assert(self.sign_parser.sig@.subrange(
                                pre.sign_parser.pos + 1 + tk.len(),
                                pre.sign_parser.pos + 1 + tk.len() + fsig.len(),
                            ) =~= pre.sign_parser.sig@.subrange(
                                pre.sign_parser.pos as int,
                                pre.sign_parser.pos + sig_of(*v).len(),
                            ).subrange((1 + tk.len()) as int, (1 + tk.len() + fsig.len()) as int));
                            assert(sig_of(*v).subrange(
                                (1 + tk.len()) as int,
                                (1 + tk.len() + fsig.len()) as int,
                            ) =~= fsig);
                        }
                    }
                    match st.serialize_struct_element(self, false, &fields[i]) {
                        Ok(()) => {},
                        Err(e) => {
                            proof {
                                if fits(bo, *v, o0) {
                                    assert(fits_items(bo, fields@, body_start));
                                    lemma_fits_items_extract(bo, fields@, i as int, body_start);
                                }
                            }
                            return Err(e);
                        },
                    }
                    proof {
                        lemma_enc_items_snoc(
                            bo,
                            fields@.subrange(0, i as int),
                            fields@[i as int],
                            body_start,
                        );
                        lemma_fits_items_snoc(
                            bo,
                            fields@.subrange(0, i as int),
                            fields@[i as int],
                            body_start,
                        );
                        crate::value::lemma_sig_concat_snoc(
                            fields@.subrange(0, i as int),
                            fields@[i as int],
                        );
                        assert(fields@.subrange(0, i + 1) =~= fields@.subrange(0, i as int).push(
                            fields@[i as int],
                        ));
                        assert(self.buf@ =~= pre.buf@ + zeros(p) + enc_items(
                            bo,
                            fields@.subrange(0, i + 1),
                            body_start,
                        ));
                    }
                    i = i + 1;
                }
                proof {
                    assert(fields@.subrange(0, fields@.len() as int) =~= fields@);
                    assert(self.remaining().len() >= 1 && self.remaining()[0]
                        == STRUCT_SIG_END_CHAR) by {
                        assert(pre.sign_parser.sig@.subrange(
                            pre.sign_parser.pos as int,
                            pre.sign_parser.pos + sig_of(*v).len(),
                        )[(1 + sc.len()) as int] == sig_of(*v)[(1 + sc.len()) as int]);
                        assert(sig_of(*v)[(1 + sc.len()) as int] == STRUCT_SIG_END_CHAR);
                    }
                }
                let r = st.end_struct(self);
                proof {
                    assert(self.buf@ =~= pre.buf@ + encoded(bo, *v, o0));
                }
                r
            },
            _ => {
                proof {
                    assert(false);
                }
                Err(Error::UnsupportedShape)
            },
        }
    }

    /// Encode a dictionary: an array of 8-aligned key-value entries.
    #[verifier::rlimit(100)]
    fn serialize_dict_value(&mut self, v: &Value) -> (r: Result<(), Error>)
        requires
            old(self).wf(),
            wf_value(*v),
            old(self).variant_sign is None,
            old(self).ready_for(*v),
            (*v is Dict),
        ensures
            final(self).wf(),
            final(self).same_config(old(self)),
            final(self).variant_sign is None,
            r is Ok <==> fits(old(self).byte_order, *v, old(self).bytes_written as nat),
            r is Ok ==> value_written(*old(self), *final(self), *v),
        decreases v, 1int,
    {
        let ghost pre = *old(self);
        let ghost bo = pre.byte_order;
        let ghost o0 = pre.bytes_written as nat;
        proof {
            if sig_of(*v).len() >= 1 {
                assert(pre.remaining()[0] == sig_of(*v)[0]) by {
                    assert(pre.sign_parser.sig@.subrange(
                        pre.sign_parser.pos as int,
                        pre.sign_parser.pos + sig_of(*v).len(),
                    )[0] == sig_of(*v)[0]);
                }
                assert(pre.remaining().len() >= sig_of(*v).len());
            }
        }
        match v {
            Value::Dict(ksig, vsig, entries) => {
                let ghost kl = ksig@.len() as int;
                let ghost vl = vsig@.len() as int;
                let ghost esig = seq![DICT_ENTRY_SIG_START_CHAR] + ksig@ + vsig@ + seq![
                    DICT_ENTRY_SIG_END_CHAR,
                ];
                proof {
                    lemma_dict_entry_type_len(ksig@, vsig@);
                    lemma_type_len_bounds(ksig@);
                    lemma_type_len_bounds(vsig@);
                    assert(sig_of(*v).skip(1) =~= esig);
                    assert(pre.remaining().skip(1).subrange(0, esig.len() as int) =~= esig) by {
                        assert(pre.sign_parser.sig@.subrange(
                            pre.sign_parser.pos as int,
                            pre.sign_parser.pos + sig_of(*v).len(),
                        ).skip(1) =~= pre.remaining().skip(1).subrange(0, esig.len() as int));
                    }
                    assert(esig.subrange(0, esig.len() as int) =~= esig);
                    lemma_type_len_agree(esig, pre.remaining().skip(1));
                    assert(pre.remaining()[1] == DICT_ENTRY_SIG_START_CHAR) by {
                        assert(pre.sign_parser.sig@.subrange(
                            pre.sign_parser.pos as int,
                            pre.sign_parser.pos + sig_of(*v).len(),
                        )[1] == sig_of(*v)[1]);
                    }
                }
                let ss = match self.serialize_seq() {
                    Ok(ss) => ss,
                    Err(e) => {
                        return Err(e);
                    },
                };
                let ghost p1 = spec_padding(o0, 4);
                let ghost p2 = spec_padding(o0 + p1 + 4, 8);
                let ghost body_start = o0 + p1 + 4 + p2;
                proof {
                    assert(spec_alignment(DICT_ENTRY_SIG_START_CHAR) == 8);
                    assert(ss.esig(self) =~= esig) by {
                        assert(pre.sign_parser.sig@.subrange(
                            pre.sign_parser.pos + 1,
                            pre.sign_parser.pos + 1 + esig.len(),
                        ) =~= pre.sign_parser.sig@.subrange(
                            pre.sign_parser.pos as int,
                            pre.sign_parser.pos + sig_of(*v).len(),
                        ).skip(1));
                    }
                    assert(entries@.subrange(0, 0) =~= Seq::<(Value, Value)>::empty());
                }
                let mut i: usize = 0;
                while i < entries.len()
                    invariant
                        pre == *old(self),
                        bo == pre.byte_order,
                        o0 == pre.bytes_written as nat,
                        p1 == spec_padding(o0, 4),
                        p2 == spec_padding(o0 + p1 + 4, 8),
                        body_start == o0 + p1 + 4 + p2,
                        ksig@.len() >= 1,
                        vsig@.len() >= 1,
                        self.wf(),
                        self.same_config(&pre),
                        self.variant_sign is None,
                        i <= entries@.len(),
                        *v == Value::Dict(*ksig, *vsig, *entries),
                        wf_value(*v),
                        kl == ksig@.len() && vl == vsig@.len(),
                        esig == seq![DICT_ENTRY_SIG_START_CHAR] + ksig@ + vsig@ + seq![
                            DICT_ENTRY_SIG_END_CHAR,
                        ],
                        ss.start == o0 + p1 + 4,
                        ss.first_padding == p2,
                        ss.element_signature_pos == pre.sign_parser.pos + 1,
                        ss.element_signature_len == esig.len(),
                        ss.esig(self) == esig,
                        ss.element_signature_pos + ss.element_signature_len
                            <= self.sign_parser.sig@.len(),
                        ss.start >= 4,
                        self.buf@ == pre.buf@ + zeros(p1) + u32_bytes(pre.byte_order, 0) + zeros(
                            p2,
                        ) + enc_entries(bo, entries@.subrange(0, i as int), body_start),
                        self.bytes_written == body_start + enc_entries(
                            bo,
                            entries@.subrange(0, i as int),
                            body_start,
                        ).len(),
                        self.sign_parser.pos == if i == 0 {
                            ss.element_signature_pos as int
                        } else {
                            ss.element_signature_pos + ss.element_signature_len - 1
                        },
                        i == 0 <==> self.bytes_written == ss.start + ss.first_padding,
                        fits_entries(bo, entries@.subrange(0, i as int), body_start),
                    decreases entries@.len() - i,
                {
                    proof {
                        lemma_wf_entries_index(entries@, ksig@, vsig@, i as int);
                        assert(is_smaller_than((*v)->Dict_2, *v));
                        assert(is_smaller_than((*v)->Dict_2@, (*v)->Dict_2));
                        assert(is_smaller_than((*v)->Dict_2@[i as int], *v));
                        assert(is_smaller_than((*v)->Dict_2@[i as int].0, (*v)->Dict_2@[i as int]));
                        assert(is_smaller_than((*v)->Dict_2@[i as int].1, (*v)->Dict_2@[i as int]));
                        assert(ss.esig(self)[0] == DICT_ENTRY_SIG_START_CHAR);
                        assert(ss.esig(self).subrange(1, 1 + kl) =~= ksig@);
                    }
                    let ghost bw_i = self.bytes_written as nat;
                    let ghost pe = spec_padding(bw_i, 8);
                    match ss.serialize_key(self, &entries[i].0) {
                        Ok(()) => {},
                        Err(e) => {
                            proof {
                                if fits(bo, *v, o0) {
                                    assert(fits_entries(bo, entries@, body_start));
                                    lemma_fits_entries_extract(bo, entries@, i as int, body_start);
                                }
                            }
                            return Err(e);
                        },
                    }
                    proof {
                        assert(self.ready_for(entries@[i as int].1)) by {
                            assert(self.sign_parser.sig@.subrange(
                                ss.element_signature_pos + 1 + kl,
                                ss.element_signature_pos + 1 + kl + vl,
                            ) =~= esig.subrange(1 + kl, 1 + kl + vl));
                            assert(esig.subrange(1 + kl, 1 + kl + vl) =~= vsig@);
                        }
                    }
                    match ss.serialize_value(self, &entries[i].1) {
                        Ok(()) => {},
                        Err(e) => {
                            proof {
                                if fits(bo, *v, o0) {
                                    assert(fits_entries(bo, entries@, body_start));
                                    lemma_fits_entries_extract(bo, entries@, i as int, body_start);
                                }
                            }
                            return Err(e);
                        },
                    }
                    proof {
                        lemma_enc_entries_snoc(
                            bo,
                            entries@.subrange(0, i as int),
                            entries@[i as int],
                            body_start,
                        );
                        lemma_fits_entries_snoc(
                            bo,
                            entries@.subrange(0, i as int),
                            entries@[i as int],
                            body_start,
                        );
                        assert(entries@.subrange(0, i + 1) =~= entries@.subrange(0, i as int).push(
                            entries@[i as int],
                        ));
                        lemma_encoded_nonempty(bo, entries@[i as int].0, bw_i + pe);
                        assert(self.buf@ =~= pre.buf@ + zeros(p1) + u32_bytes(pre.byte_order, 0)
                            + zeros(p2) + enc_entries(bo, entries@.subrange(0, i + 1), body_start));
                    }
                    i = i + 1;
                }
                proof {
                    assert(entries@.subrange(0, entries@.len() as int) =~= entries@);
                }
                if entries.len() > 0 {
                    proof {
                        assert(self.sign_parser.sig@[ss.element_signature_pos + esig.len() - 1]
                            == DICT_ENTRY_SIG_END_CHAR) by {
                            assert(ss.esig(self)[esig.len() - 1] == esig[esig.len() - 1]);
                        }
                    }
                    match self.sign_parser.parse_char(Some(DICT_ENTRY_SIG_END_CHAR)) {
                        Ok(()) => {},
                        Err(e) => {
                            return Err(e);
                        },
                    }
                }
                match ss.end_seq(self) {
                    Ok(()) => {
                        proof {
                            assert(self.buf@ =~= pre.buf@ + encoded(bo, *v, o0));
                        }
                        Ok(())
                    },
                    Err(e) => Err(e),
                }
            },
            _ => {
                proof {
                    assert(false);
                }
                Err(Error::UnsupportedShape)
            },
        }
    }

    /// Encode a contiguous byte run as an array of unsigned bytes. Since a
    /// byte element has alignment 1 and width 1, the element region is the
    /// bytes themselves, with no per-element padding and no back-patching
    /// needed: the length is known up front.
    pub fn serialize_bytes(&mut self, bytes: &Vec<u8>) -> (r: Result<(), Error>)
        requires
            old(self).wf(),
            old(self).variant_sign is None,
            old(self).remaining().len() >= 2,
            old(self).remaining()[0] == ARRAY_SIGNATURE_CHAR,
            old(self).remaining()[1] == SIG_U8,
        ensures
            final(self).wf(),
            final(self).same_config(old(self)),
            final(self).variant_sign is None,
            r is Ok <==> bytes@.len() <= u32::MAX,
            r is Ok ==> final(self).buf@ == old(self).buf@ + zeros(
                spec_padding(old(self).bytes_written as nat, 4),
            ) + u32_bytes(old(self).byte_order, bytes@.len() as u32) + bytes@ && final(self).sign_parser.pos == old(self).sign_parser.pos + 2,
            r is Err ==> r == Err::<(), Error>(Error::ArrayTooLong),
    {
        if bytes.len() > (u32::MAX as usize) {
            return Err(Error::ArrayTooLong);
        }
        match self.sign_parser.parse_char(Some(ARRAY_SIGNATURE_CHAR)) {
            Ok(()) => {},
            Err(e) => {
                return Err(Error::ArrayTooLong);
            },
        }
        self.add_padding(ARRAY_ALIGNMENT);
        self.write_u32(#[verifier::truncate] (bytes.len() as u32));
        self.write(bytes);
        match self.sign_parser.parse_char(Some(SIG_U8)) {
            Ok(()) => {},
            Err(e) => {
                return Err(Error::ArrayTooLong);
            },
        }
        proof {
            assert(self.buf@ =~= old(self).buf@ + zeros(
                spec_padding(old(self).bytes_written as nat, 4),
            ) + u32_bytes(old(self).byte_order, bytes@.len() as u32) + bytes@);
        }
        Ok(())
    }

    /// Under the D-Bus rules a present optional is encoded as its value.
    pub fn serialize_some(&mut self, v: &Value) -> (r: Result<(), Error>)
        requires
            old(self).wf(),
            wf_value(*v),
            old(self).variant_sign is None,
            old(self).ready_for(*v),
        ensures
            final(self).wf(),
            final(self).same_config(old(self)),
            final(self).variant_sign is None,
            r is Ok <==> fits(old(self).byte_order, *v, old(self).bytes_written as nat),
            r is Ok ==> value_written(*old(self), *final(self), *v),
    {
        self.serialize_value(v)
    }

    /// A newtype struct is encoded exactly as its inner value.
    pub fn serialize_newtype_struct(&mut self, v: &Value) -> (r: Result<(), Error>)
        requires
            old(self).wf(),
            wf_value(*v),
            old(self).variant_sign is None,
            old(self).ready_for(*v),
        ensures
            final(self).wf(),
            final(self).same_config(old(self)),
            final(self).variant_sign is None,
            r is Ok <==> fits(old(self).byte_order, *v, old(self).bytes_written as nat),
            r is Ok ==> value_written(*old(self), *final(self), *v),
    {
        self.serialize_value(v)
    }

    /// A newtype enum variant is encoded exactly as its payload; the variant
    /// identity is not emitted.
    pub fn serialize_newtype_variant(&mut self, v: &Value) -> (r: Result<(), Error>)
        requires
            old(self).wf(),
            wf_value(*v),
            old(self).variant_sign is None,
            old(self).ready_for(*v),
        ensures
            final(self).wf(),
            final(self).same_config(old(self)),
            final(self).variant_sign is None,
            r is Ok <==> fits(old(self).byte_order, *v, old(self).bytes_written as nat),
            r is Ok ==> value_written(*old(self), *final(self), *v),
    {
        self.serialize_value(v)
    }
}

/// Encode one value into a fresh buffer, against the signature the value
/// itself announces. On success the buffer holds exactly the bytes of
/// `encoded` at offset zero, so the output is a function of format, byte
/// order and value alone.
pub fn to_bytes(format: EncodingFormat, byte_order: ByteOrder, value: &Value) -> (r: Result<
    Vec<u8>,
    Error,
>)
    requires
        wf_value(*value),
    ensures
        r matches Ok(buf) ==> buf@ == encoded(byte_order, *value, 0),
        r is Ok <==> fits(byte_order, *value, 0),
{
    let signature = signature_of(value);
    let mut serializer = Serializer::new(signature, format, byte_order);
    proof {
        assert(serializer.sign_parser.sig@.subrange(0, sig_of(*value).len() as int) =~= sig_of(
            *value,
        ));
    }
    match serializer.serialize_value(value) {
        Ok(()) => Ok(serializer.buf),
        Err(e) => Err(e),
    }
}

/// The offset counter counts exactly the bytes ever appended: a well-formed
/// serializer's counter equals its buffer's length. The array-length patch,
/// the one seek-back, alters neither the counter nor the buffer's length, as
/// the contracts of `patch_u32` and `end_seq` state.
pub proof fn lemma_offset_counter_is_buffer_length(s: Serializer)
    requires
        s.wf(),
    ensures
        s.bytes_written == s.buf@.len(),
{
}

} // verus!
