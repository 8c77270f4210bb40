//! Signature alphabet, alignment table, padding arithmetic and the byte images
//! of fixed-width integers in either byte order.
use vstd::prelude::*;

verus! {

/// The byte order in which multi-byte primitives are written.
#[derive(Clone, Copy, PartialEq, Eq, Structural, Debug)]
pub enum ByteOrder {
    LittleEndian,
    BigEndian,
}

/// The wire format whose alignment and width rules drive the encoder.
/// Only the D-Bus rules are laid down here; the GVariant member is reserved
/// and currently encodes with the same table.
#[derive(Clone, Copy, PartialEq, Eq, Structural, Debug)]
pub enum EncodingFormat {
    DBus,
    GVariant,
}

/// Everything that can go wrong while encoding.
#[derive(Clone, Copy, PartialEq, Eq, Structural, Debug)]
pub enum Error {
    /// The signature cursor expected one character and found another, or the end.
    SignatureMismatch,
    /// The signature cursor was advanced past the end of the signature.
    SignatureExhausted,
    /// A bracketed type in a signature has no matching close bracket.
    UnbalancedBrackets,
    /// A dictionary key of a composite type.
    InvalidMapKey,
    /// A variant value slot was entered with no pending signature.
    MissingVariantSignature,
    /// An array body longer than a u32 can describe.
    ArrayTooLong,
    /// A signature longer than a u8 length prefix can describe.
    SignatureTooLong,
    /// A shape (unit, none, unit struct) that the D-Bus format cannot carry.
    UnsupportedShape,
    /// A value outside the encodable range, such as an over-long string.
    EncodingValueOutOfRange,
}

pub const SIG_U8: u8 = 121;  // 'y'
pub const SIG_BOOL: u8 = 98;  // 'b'
pub const SIG_I16: u8 = 110;  // 'n'
pub const SIG_U16: u8 = 113;  // 'q'
pub const SIG_I32: u8 = 105;  // 'i'
pub const SIG_U32: u8 = 117;  // 'u'
pub const SIG_I64: u8 = 120;  // 'x'
pub const SIG_U64: u8 = 116;  // 't'
pub const SIG_DOUBLE: u8 = 100;  // 'd'
pub const SIG_STRING: u8 = 115;  // 's'
pub const SIG_OBJECT_PATH: u8 = 111;  // 'o'
pub const SIG_SIGNATURE: u8 = 103;  // 'g'
pub const ARRAY_SIGNATURE_CHAR: u8 = 97;  // 'a'
pub const STRUCT_SIG_START_CHAR: u8 = 40;  // '('
pub const STRUCT_SIG_END_CHAR: u8 = 41;  // ')'
pub const DICT_ENTRY_SIG_START_CHAR: u8 = 123;  // '{'
pub const DICT_ENTRY_SIG_END_CHAR: u8 = 125;  // '}'
pub const VARIANT_SIGNATURE_CHAR: u8 = 118;  // 'v'
pub const ARRAY_ALIGNMENT: usize = 4;
pub const STRUCT_ALIGNMENT: usize = 8;
pub const DICT_ENTRY_ALIGNMENT: usize = 8;

/// The single-character types whose values may key a dictionary.
pub open spec fn spec_is_basic_char(c: u8) -> bool {
    ||| c == SIG_U8
    ||| c == SIG_BOOL
    ||| c == SIG_I16
    ||| c == SIG_U16
    ||| c == SIG_I32
    ||| c == SIG_U32
    ||| c == SIG_I64
    ||| c == SIG_U64
    ||| c == SIG_DOUBLE
    ||| c == SIG_STRING
    ||| c == SIG_OBJECT_PATH
    ||| c == SIG_SIGNATURE
}

pub fn is_basic_char(c: u8) -> (r: bool)
    ensures
        r == spec_is_basic_char(c),
{
    c == SIG_U8 || c == SIG_BOOL || c == SIG_I16 || c == SIG_U16 || c == SIG_I32 || c == SIG_U32 || c == SIG_I64
        || c == SIG_U64 || c == SIG_DOUBLE || c == SIG_STRING || c == SIG_OBJECT_PATH || c == SIG_SIGNATURE
}

/// The alignment, under the D-Bus rules, of the type that starts with `c`.
pub open spec fn spec_alignment(c: u8) -> nat {
    if c == SIG_I16 || c == SIG_U16 {
        2
    } else if c == SIG_BOOL || c == SIG_I32 || c == SIG_U32 || c == SIG_STRING || c == SIG_OBJECT_PATH || c == ARRAY_SIGNATURE_CHAR {
        4
    } else if c == SIG_I64 || c == SIG_U64 || c == SIG_DOUBLE || c == STRUCT_SIG_START_CHAR || c == DICT_ENTRY_SIG_START_CHAR {
        8
    } else {
        1
    }
}

pub fn alignment_for_signature_char(c: u8, format: EncodingFormat) -> (r: usize)
    ensures
        r == spec_alignment(c),
        1 <= r <= 8,
{
    if c == SIG_I16 || c == SIG_U16 {
        2
    } else if c == SIG_BOOL || c == SIG_I32 || c == SIG_U32 || c == SIG_STRING || c == SIG_OBJECT_PATH || c == ARRAY_SIGNATURE_CHAR {
        4
    } else if c == SIG_I64 || c == SIG_U64 || c == SIG_DOUBLE || c == STRUCT_SIG_START_CHAR || c == DICT_ENTRY_SIG_START_CHAR {
        8
    } else {
        1
    }
}

/// Zero bytes that carry a value to its alignment: `(-o) mod a` of them.
pub open spec fn spec_padding(o: nat, a: nat) -> nat
    recommends
        a >= 1,
{
    if o % a == 0 {
        0
    } else {
        (a - o % a) as nat
    }
}

/// A run of zero bytes.
pub open spec fn zeros(n: nat) -> Seq<u8> {
    Seq::new(n, |i: int| 0u8)
}

/// Padding never reaches the alignment, and lands the offset on a multiple of it.
pub proof fn lemma_padding_aligns(o: nat, a: nat)
    requires
        a >= 1,
    ensures
        spec_padding(o, a) < a,
        (o + spec_padding(o, a)) % a == 0,
{
    let oi = o as int;
    let ai = a as int;
    let r = oi % ai;
    assert(0 <= r < ai) by (nonlinear_arith)
        requires
            ai >= 1 && oi >= 0 && r == oi % ai,
    ;
    if r == 0 {
    } else {
        assert((oi + (ai - r)) % ai == 0) by (nonlinear_arith)
            requires
                ai >= 1 && r == oi % ai,
        ;
    }
}

pub fn padding_for_n_bytes(o: usize, a: usize) -> (r: usize)
    requires
        1 <= a <= 8,
    ensures
        r == spec_padding(o as nat, a as nat),
        r < a,
        (o + r) % (a as int) == 0,
{
    proof {
        lemma_padding_aligns(o as nat, a as nat);
    }
    let rem = o % a;
    if rem == 0 {
        0
    } else {
        a - rem
    }
}

/// The two bytes of `x` in byte order `bo`.
pub open spec fn u16_bytes(bo: ByteOrder, x: u16) -> Seq<u8> {
    match bo {
        ByteOrder::LittleEndian => seq![(x & 0xff) as u8, (x >> 8) as u8],
        ByteOrder::BigEndian => seq![(x >> 8) as u8, (x & 0xff) as u8],
    }
}

/// The four bytes of `x` in byte order `bo`.
pub open spec fn u32_bytes(bo: ByteOrder, x: u32) -> Seq<u8> {
    match bo {
        ByteOrder::LittleEndian => seq![
            (x & 0xff) as u8,
            ((x >> 8) & 0xff) as u8,
            ((x >> 16) & 0xff) as u8,
            (x >> 24) as u8,
        ],
        ByteOrder::BigEndian => seq![
            (x >> 24) as u8,
            ((x >> 16) & 0xff) as u8,
            ((x >> 8) & 0xff) as u8,
            (x & 0xff) as u8,
        ],
    }
}

/// The eight bytes of `x` in byte order `bo`.
pub open spec fn u64_bytes(bo: ByteOrder, x: u64) -> Seq<u8> {
    match bo {
        ByteOrder::LittleEndian => seq![
            (x & 0xff) as u8,
            ((x >> 8) & 0xff) as u8,
            ((x >> 16) & 0xff) as u8,
            ((x >> 24) & 0xff) as u8,
            ((x >> 32) & 0xff) as u8,
            ((x >> 40) & 0xff) as u8,
            ((x >> 48) & 0xff) as u8,
            (x >> 56) as u8,
        ],
        ByteOrder::BigEndian => seq![
            (x >> 56) as u8,
            ((x >> 48) & 0xff) as u8,
            ((x >> 40) & 0xff) as u8,
            ((x >> 32) & 0xff) as u8,
            ((x >> 24) & 0xff) as u8,
            ((x >> 16) & 0xff) as u8,
            ((x >> 8) & 0xff) as u8,
            (x & 0xff) as u8,
        ],
    }
}

} // verus!
