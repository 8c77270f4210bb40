//! The value-traversal protocol: a value announces its shape through this
//! enumeration, and the mathematical model of the wire format says which
//! bytes each shape produces at each output offset.
use vstd::prelude::*;

use crate::utils::{
    spec_alignment, spec_is_basic_char, spec_padding, u16_bytes, u32_bytes, u64_bytes, zeros,
    ByteOrder, ARRAY_SIGNATURE_CHAR, DICT_ENTRY_SIG_END_CHAR, DICT_ENTRY_SIG_START_CHAR, SIG_BOOL,
    SIG_DOUBLE, SIG_I16, SIG_I32, SIG_I64, SIG_OBJECT_PATH, SIG_SIGNATURE, SIG_STRING, SIG_U16,
    SIG_U32, SIG_U64, SIG_U8, STRUCT_SIG_END_CHAR, STRUCT_SIG_START_CHAR, VARIANT_SIGNATURE_CHAR,
};
use crate::signature_parser::type_len;

verus! {

/// A value to be encoded. Strings, object paths and signatures carry their
/// UTF-8 bytes; a double carries its IEEE-754 bit pattern; an array carries
/// the signature of its element type beside its elements, and a dictionary
/// the signatures of its key and value types beside its entries.
pub enum Value {
    U8(u8),
    Bool(bool),
    I16(i16),
    U16(u16),
    I32(i32),
    U32(u32),
    I64(i64),
    U64(u64),
    F64Bits(u64),
    Str(Vec<u8>),
    ObjectPath(Vec<u8>),
    Sig(Vec<u8>),
    Variant(Box<Value>),
    Array(Vec<u8>, Vec<Value>),
    Struct(Vec<Value>),
    Dict(Vec<u8>, Vec<u8>, Vec<(Value, Value)>),
    Unit,
}

/// The D-Bus signature of a value.
pub open spec fn sig_of(v: Value) -> Seq<u8>
    decreases v, 1int,
{
    match v {
        Value::U8(_) => seq![SIG_U8],
        Value::Bool(_) => seq![SIG_BOOL],
        Value::I16(_) => seq![SIG_I16],
        Value::U16(_) => seq![SIG_U16],
        Value::I32(_) => seq![SIG_I32],
        Value::U32(_) => seq![SIG_U32],
        Value::I64(_) => seq![SIG_I64],
        Value::U64(_) => seq![SIG_U64],
        Value::F64Bits(_) => seq![SIG_DOUBLE],
        Value::Str(_) => seq![SIG_STRING],
        Value::ObjectPath(_) => seq![SIG_OBJECT_PATH],
        Value::Sig(_) => seq![SIG_SIGNATURE],
        Value::Variant(_) => seq![VARIANT_SIGNATURE_CHAR],
        Value::Array(esig, _) => seq![ARRAY_SIGNATURE_CHAR] + esig@,
        Value::Struct(fields) => seq![STRUCT_SIG_START_CHAR] + sig_concat(fields@) + seq![
            STRUCT_SIG_END_CHAR,
        ],
        Value::Dict(ksig, vsig, _) => seq![ARRAY_SIGNATURE_CHAR, DICT_ENTRY_SIG_START_CHAR] + ksig@
            + vsig@ + seq![DICT_ENTRY_SIG_END_CHAR],
        Value::Unit => Seq::empty(),
    }
}

/// The concatenated signatures of a run of values.
pub open spec fn sig_concat(items: Seq<Value>) -> Seq<u8>
    decreases items, 2int,
{
    if items.len() == 0 {
        Seq::empty()
    } else {
        sig_of(items[0]) + sig_concat(items.subrange(1, items.len() as int))
    }
}

/// A value whose stored signatures describe its parts: array elements match
/// the stored element signature, dictionary entries the stored key and value
/// signatures, and a struct has at least one field.
pub open spec fn wf_value(v: Value) -> bool
    decreases v, 1int,
{
    match v {
        Value::Variant(inner) => wf_value(*inner),
        Value::Array(esig, items) => type_len(esig@) == Some(esig@.len() as nat) && wf_elems(
            items@,
            esig@,
        ),
        Value::Struct(fields) => fields@.len() >= 1 && wf_items(fields@),
        Value::Dict(ksig, vsig, entries) => type_len(ksig@) == Some(ksig@.len() as nat) && type_len(
            vsig@,
        ) == Some(vsig@.len() as nat) && wf_entries(entries@, ksig@, vsig@),
        _ => true,
    }
}

/// Every item is well formed.
pub open spec fn wf_items(items: Seq<Value>) -> bool
    decreases items, 2int,
{
    items.len() == 0 || (wf_value(items[0]) && wf_items(items.subrange(1, items.len() as int)))
}

/// Every item is well formed and has the signature `esig`.
pub open spec fn wf_elems(items: Seq<Value>, esig: Seq<u8>) -> bool
    decreases items, 2int,
{
    items.len() == 0 || (wf_value(items[0]) && sig_of(items[0]) == esig && wf_elems(
        items.subrange(1, items.len() as int),
        esig,
    ))
}

/// Every entry holds a well-formed key of signature `ksig` and a well-formed
/// value of signature `vsig`.
pub open spec fn wf_entries(entries: Seq<(Value, Value)>, ksig: Seq<u8>, vsig: Seq<u8>) -> bool
    decreases entries, 2int,
{
    entries.len() == 0 || (wf_value(entries[0].0) && sig_of(entries[0].0) == ksig && wf_value(
        entries[0].1,
    ) && sig_of(entries[0].1) == vsig && wf_entries(
        entries.subrange(1, entries.len() as int),
        ksig,
        vsig,
    ))
}

/// A value of one of the single-character basic types.
pub open spec fn is_basic_value(v: Value) -> bool {
    match v {
        Value::U8(_) | Value::Bool(_) | Value::I16(_) | Value::U16(_) | Value::I32(_)
            | Value::U32(_) | Value::I64(_) | Value::U64(_) | Value::F64Bits(_) | Value::Str(_)
            | Value::ObjectPath(_) | Value::Sig(_) => true,
        _ => false,
    }
}

/// The bytes that encoding `v` appends when the output already holds `o` bytes.
pub open spec fn encoded(bo: ByteOrder, v: Value, o: nat) -> Seq<u8>
    decreases v, 1int,
{
    match v {
        Value::U8(x) => seq![x],
        Value::Bool(x) => zeros(spec_padding(o, 4)) + u32_bytes(
            bo,
            if x {
                1u32
            } else {
                0u32
            },
        ),
        Value::I16(x) => zeros(spec_padding(o, 2)) + u16_bytes(bo, x as u16),
        Value::U16(x) => zeros(spec_padding(o, 2)) + u16_bytes(bo, x),
        Value::I32(x) => zeros(spec_padding(o, 4)) + u32_bytes(bo, x as u32),
        Value::U32(x) => zeros(spec_padding(o, 4)) + u32_bytes(bo, x),
        Value::I64(x) => zeros(spec_padding(o, 8)) + u64_bytes(bo, x as u64),
        Value::U64(x) => zeros(spec_padding(o, 8)) + u64_bytes(bo, x),
        Value::F64Bits(x) => zeros(spec_padding(o, 8)) + u64_bytes(bo, x),
        Value::Str(s) => zeros(spec_padding(o, 4)) + u32_bytes(bo, s@.len() as u32) + s@ + seq![
            0u8,
        ],
        Value::ObjectPath(s) => zeros(spec_padding(o, 4)) + u32_bytes(bo, s@.len() as u32) + s@
            + seq![0u8],
        Value::Sig(s) => seq![s@.len() as u8] + s@ + seq![0u8],
        Value::Variant(inner) => {
            let sg = sig_of(*inner);
            seq![sg.len() as u8] + sg + seq![0u8] + encoded(bo, *inner, o + sg.len() + 2)
        },
        Value::Array(esig, items) => {
            let p1 = spec_padding(o, 4);
            let o1 = o + p1 + 4;
            let ea = if esig@.len() > 0 {
                spec_alignment(esig@[0])
            } else {
                1nat
            };
            let p2 = spec_padding(o1, ea);
            let body = enc_items(bo, items@, o1 + p2);
            zeros(p1) + u32_bytes(bo, body.len() as u32) + zeros(p2) + body
        },
        Value::Struct(fields) => {
            let p = spec_padding(o, 8);
            zeros(p) + enc_items(bo, fields@, o + p)
        },
        Value::Dict(_, _, entries) => {
            let p1 = spec_padding(o, 4);
            let o1 = o + p1 + 4;
            let p2 = spec_padding(o1, 8);
            let body = enc_entries(bo, entries@, o1 + p2);
            zeros(p1) + u32_bytes(bo, body.len() as u32) + zeros(p2) + body
        },
        Value::Unit => Seq::empty(),
    }
}

/// The bytes of a run of values, each encoded at the offset the previous one reached.
pub open spec fn enc_items(bo: ByteOrder, items: Seq<Value>, o: nat) -> Seq<u8>
    decreases items, 2int,
{
    if items.len() == 0 {
        Seq::empty()
    } else {
        let e = encoded(bo, items[0], o);
        e + enc_items(bo, items.subrange(1, items.len() as int), o + e.len())
    }
}

/// The bytes of a run of dictionary entries: each entry is padded to 8, then
/// its key and value follow.
pub open spec fn enc_entries(bo: ByteOrder, entries: Seq<(Value, Value)>, o: nat) -> Seq<u8>
    decreases entries, 2int,
{
    if entries.len() == 0 {
        Seq::empty()
    } else {
        let p = spec_padding(o, 8);
        let k = encoded(bo, entries[0].0, o + p);
        let v = encoded(bo, entries[0].1, o + p + k.len());
        zeros(p) + k + v + enc_entries(
            bo,
            entries.subrange(1, entries.len() as int),
            o + p + k.len() + v.len(),
        )
    }
}

/// Whether encoding `v` at offset `o` succeeds: every length field fits its
/// width, dictionary keys are of basic types, and no unsupported shape occurs.
pub open spec fn fits(bo: ByteOrder, v: Value, o: nat) -> bool
    decreases v, 1int,
{
    match v {
        Value::Str(s) => s@.len() <= u32::MAX,
        Value::ObjectPath(s) => s@.len() <= u32::MAX,
        Value::Sig(s) => s@.len() <= 255,
        Value::Variant(inner) => sig_of(*inner).len() <= 255 && fits(
            bo,
            *inner,
            o + sig_of(*inner).len() + 2,
        ),
        Value::Array(esig, items) => {
            let p1 = spec_padding(o, 4);
            let o1 = o + p1 + 4;
            let ea = if esig@.len() > 0 {
                spec_alignment(esig@[0])
            } else {
                1nat
            };
            let p2 = spec_padding(o1, ea);
            fits_items(bo, items@, o1 + p2) && enc_items(bo, items@, o1 + p2).len() <= u32::MAX
        },
        Value::Struct(fields) => fits_items(bo, fields@, o + spec_padding(o, 8)),
        Value::Dict(_, _, entries) => {
            let p1 = spec_padding(o, 4);
            let o1 = o + p1 + 4;
            let p2 = spec_padding(o1, 8);
            fits_entries(bo, entries@, o1 + p2) && enc_entries(bo, entries@, o1 + p2).len()
                <= u32::MAX
        },
        Value::Unit => false,
        _ => true,
    }
}

pub open spec fn fits_items(bo: ByteOrder, items: Seq<Value>, o: nat) -> bool
    decreases items, 2int,
{
    if items.len() == 0 {
        true
    } else {
        fits(bo, items[0], o) && fits_items(
            bo,
            items.subrange(1, items.len() as int),
            o + encoded(bo, items[0], o).len(),
        )
    }
}

pub open spec fn fits_entries(bo: ByteOrder, entries: Seq<(Value, Value)>, o: nat) -> bool
    decreases entries, 2int,
{
    if entries.len() == 0 {
        true
    } else {
        let p = spec_padding(o, 8);
        let k = encoded(bo, entries[0].0, o + p);
        let v = encoded(bo, entries[0].1, o + p + k.len());
        is_basic_value(entries[0].0) && fits(bo, entries[0].0, o + p) && fits(
            bo,
            entries[0].1,
            o + p + k.len(),
        ) && fits_entries(bo, entries.subrange(1, entries.len() as int), o + p + k.len() + v.len())
    }
}

/// A value that can be encoded writes at least one byte.
pub proof fn lemma_encoded_nonempty(bo: ByteOrder, v: Value, o: nat)
    requires
        wf_value(v),
        fits(bo, v, o),
    ensures
        encoded(bo, v, o).len() >= 1,
    decreases v,
{
    if v is Struct {
        let fields = v->Struct_0;
        let p = spec_padding(o, 8);
        assert(fits_items(bo, fields@, o + p));
        assert(wf_items(fields@));
        assert(fields@.len() >= 1);
        assert(fits(bo, fields@[0], o + p));
        assert(wf_value(fields@[0]));
        lemma_encoded_nonempty(bo, fields@[0], o + p);
        assert(enc_items(bo, fields@, o + p).len() >= encoded(bo, fields@[0], o + p).len());
    }
}

/// Whether the byte runs of `a` and `b` are equal.
pub fn bytes_eq(a: &Vec<u8>, b: &Vec<u8>) -> (r: bool)
    ensures
        r == (a@ == b@),
{
    if a.len() != b.len() {
        return false;
    }
    let mut i: usize = 0;
    while i < a.len()
        invariant
            a@.len() == b@.len(),
            i <= a@.len(),
            forall|j: int| 0 <= j < i ==> a@[j] == b@[j],
        decreases a@.len() - i,
    {
        if a[i] != b[i] {
            return false;
        }
        i = i + 1;
    }
    proof {
        assert(a@ =~= b@);
    }
    true
}

impl Value {
    /// Whether this value's type may key a dictionary.
    pub fn is_basic(&self) -> (r: bool)
        ensures
            r == is_basic_value(*self),
    {
        match self {
            Value::U8(_) | Value::Bool(_) | Value::I16(_) | Value::U16(_) | Value::I32(_)
                | Value::U32(_) | Value::I64(_) | Value::U64(_) | Value::F64Bits(_)
                | Value::Str(_) | Value::ObjectPath(_) | Value::Sig(_) => true,
            _ => false,
        }
    }

    /// Whether this value's stored signatures describe its parts, so that it
    /// can be handed to the encoder.
    pub fn is_well_formed(&self) -> (r: bool)
        ensures
            r == wf_value(*self),
        decreases self,
    {
        match self {
            Value::Variant(inner) => inner.is_well_formed(),
            Value::Array(esig, items) => {
                proof {
                    assert(esig@.skip(0) =~= esig@);
                }
                match crate::signature_parser::complete_type_len(esig, 0) {
                    Ok(n) => {
                        if n != esig.len() {
                            return false;
                        }
                    },
                    Err(_) => {
                        return false;
                    },
                }
                let ghost whole = esig@.skip(0);
                proof {
                    assert(whole =~= esig@);
                }
                let mut i: usize = items.len();
                while i > 0
                    invariant
                        i <= items@.len(),
                        *self == Value::Array(*esig, *items),
                        wf_elems(items@.subrange(i as int, items@.len() as int), esig@),
                    decreases i,
                {
                    i = i - 1;
                    proof {
                        assert(is_smaller_than((*self)->Array_1, *self));
                        assert(is_smaller_than((*self)->Array_1@, (*self)->Array_1));
                        assert(is_smaller_than((*self)->Array_1@[i as int], *self));
                    }
                    let fs = signature_of(&items[i]);
                    if !bytes_eq(&fs, esig) || !items[i].is_well_formed() {
                        proof {
                            if wf_value(*self) {
                                lemma_wf_elems_index(items@, esig@, i as int);
                            }
                        }
                        return false;
                    }
                    proof {
                        let tail = items@.subrange(i as int, items@.len() as int);
                        assert(tail[0] == items@[i as int]);
                        assert(tail.subrange(1, tail.len() as int) =~= items@.subrange(
                            i + 1,
                            items@.len() as int,
                        ));
                    }
                }
                proof {
                    assert(items@.subrange(0, items@.len() as int) =~= items@);
                }
                true
            },
            Value::Struct(fields) => {
                if fields.len() == 0 {
                    return false;
                }
                let mut i: usize = fields.len();
                while i > 0
                    invariant
                        i <= fields@.len(),
                        *self == Value::Struct(*fields),
                        wf_items(fields@.subrange(i as int, fields@.len() as int)),
                    decreases i,
                {
                    i = i - 1;
                    proof {
                        assert(is_smaller_than((*self)->Struct_0, *self));
                        assert(is_smaller_than((*self)->Struct_0@, (*self)->Struct_0));
                        assert(is_smaller_than((*self)->Struct_0@[i as int], *self));
                    }
                    if !fields[i].is_well_formed() {
                        proof {
                            if wf_value(*self) {
                                lemma_wf_items_index(fields@, i as int);
                            }
                        }
                        return false;
                    }
                    proof {
                        let tail = fields@.subrange(i as int, fields@.len() as int);
                        assert(tail[0] == fields@[i as int]);
                        assert(tail.subrange(1, tail.len() as int) =~= fields@.subrange(
                            i + 1,
                            fields@.len() as int,
                        ));
                    }
                }
                proof {
                    assert(fields@.subrange(0, fields@.len() as int) =~= fields@);
                }
                true
            },
            Value::Dict(ksig, vsig, entries) => {
                proof {
                    assert(ksig@.skip(0) =~= ksig@);
                    assert(vsig@.skip(0) =~= vsig@);
                }
                match crate::signature_parser::complete_type_len(ksig, 0) {
                    Ok(n) => {
                        if n != ksig.len() {
                            return false;
                        }
                    },
                    Err(_) => {
                        return false;
                    },
                }
                match crate::signature_parser::complete_type_len(vsig, 0) {
                    Ok(n) => {
                        if n != vsig.len() {
                            return false;
                        }
                    },
                    Err(_) => {
                        return false;
                    },
                }
                proof {
                    assert(ksig@.skip(0) =~= ksig@);
                    assert(vsig@.skip(0) =~= vsig@);
                }
                let mut i: usize = entries.len();
                while i > 0
                    invariant
                        i <= entries@.len(),
                        *self == Value::Dict(*ksig, *vsig, *entries),
                        wf_entries(
                            entries@.subrange(i as int, entries@.len() as int),
                            ksig@,
                            vsig@,
                        ),
                    decreases i,
                {
                    i = i - 1;
                    proof {
                        assert(is_smaller_than((*self)->Dict_2, *self));
                        assert(is_smaller_than((*self)->Dict_2@, (*self)->Dict_2));
                        assert(is_smaller_than((*self)->Dict_2@[i as int], *self));
                        assert(is_smaller_than((*self)->Dict_2@[i as int].0, (*self)->Dict_2@[i as int]));
                        assert(is_smaller_than((*self)->Dict_2@[i as int].1, (*self)->Dict_2@[i as int]));
                    }
                    let ks = signature_of(&entries[i].0);
                    let vs = signature_of(&entries[i].1);
                    if !bytes_eq(&ks, ksig) || !bytes_eq(&vs, vsig) || !entries[i].0.is_well_formed()
                        || !entries[i].1.is_well_formed() {
                        proof {
                            if wf_value(*self) {
                                lemma_wf_entries_index(entries@, ksig@, vsig@, i as int);
                            }
                        }
                        return false;
                    }
                    proof {
                        let tail = entries@.subrange(i as int, entries@.len() as int);
                        assert(tail[0] == entries@[i as int]);
                        assert(tail.subrange(1, tail.len() as int) =~= entries@.subrange(
                            i + 1,
                            entries@.len() as int,
                        ));
                    }
                }
                proof {
                    assert(entries@.subrange(0, entries@.len() as int) =~= entries@);
                }
                true
            },
            _ => true,
        }
    }
}

/// Append the bytes of `src` to `dst`.
pub fn push_all(dst: &mut Vec<u8>, src: &Vec<u8>)
    ensures
        final(dst)@ == old(dst)@ + src@,
{
    let mut i: usize = 0;
    while i < src.len()
        invariant
            i <= src@.len(),
            dst@ == old(dst)@ + src@.subrange(0, i as int),
        decreases src@.len() - i,
    {
        dst.push(src[i]);
        proof {
            assert(old(dst)@ + src@.subrange(0, i + 1) =~= (old(dst)@ + src@.subrange(
                0,
                i as int,
            )).push(src@[i as int]));
        }
        i = i + 1;
    }
    proof {
        assert(src@.subrange(0, src@.len() as int) =~= src@);
    }
}

/// The D-Bus signature of a value, as bytes.
pub fn signature_of(v: &Value) -> (r: Vec<u8>)
    ensures
        r@ == sig_of(*v),
    decreases v,
{
    match v {
        Value::U8(_) => {
            let mut r: Vec<u8> = Vec::new();
            r.push(SIG_U8);
            r
        },
        Value::Bool(_) => {
            let mut r: Vec<u8> = Vec::new();
            r.push(SIG_BOOL);
            r
        },
        Value::I16(_) => {
            let mut r: Vec<u8> = Vec::new();
            r.push(SIG_I16);
            r
        },
        Value::U16(_) => {
            let mut r: Vec<u8> = Vec::new();
            r.push(SIG_U16);
            r
        },
        Value::I32(_) => {
            let mut r: Vec<u8> = Vec::new();
            r.push(SIG_I32);
            r
        },
        Value::U32(_) => {
            let mut r: Vec<u8> = Vec::new();
            r.push(SIG_U32);
            r
        },
        Value::I64(_) => {
            let mut r: Vec<u8> = Vec::new();
            r.push(SIG_I64);
            r
        },
        Value::U64(_) => {
            let mut r: Vec<u8> = Vec::new();
            r.push(SIG_U64);
            r
        },
        Value::F64Bits(_) => {
            let mut r: Vec<u8> = Vec::new();
            r.push(SIG_DOUBLE);
            r
        },
        Value::Str(_) => {
            let mut r: Vec<u8> = Vec::new();
            r.push(SIG_STRING);
            r
        },
        Value::ObjectPath(_) => {
            let mut r: Vec<u8> = Vec::new();
            r.push(SIG_OBJECT_PATH);
            r
        },
        Value::Sig(_) => {
            let mut r: Vec<u8> = Vec::new();
            r.push(SIG_SIGNATURE);
            r
        },
        Value::Variant(_) => {
            let mut r: Vec<u8> = Vec::new();
            r.push(VARIANT_SIGNATURE_CHAR);
            r
        },
        Value::Array(esig, _) => {
            let mut r: Vec<u8> = Vec::new();
            r.push(ARRAY_SIGNATURE_CHAR);
            push_all(&mut r, esig);
            proof {
                assert(r@ =~= sig_of(*v));
            }
            r
        },
        Value::Struct(fields) => {
            let mut r: Vec<u8> = Vec::new();
            r.push(STRUCT_SIG_START_CHAR);
            let mut i: usize = 0;
            while i < fields.len()
                invariant
                    i <= fields@.len(),
                    r@ == seq![STRUCT_SIG_START_CHAR] + sig_concat(fields@.subrange(0, i as int)),
                    *v == Value::Struct(*fields),
                decreases fields@.len() - i,
            {
                proof {
                    assert(is_smaller_than((*v)->Struct_0@[i as int], *v));
                }
                let fs = signature_of(&fields[i]);
                push_all(&mut r, &fs);
                proof {
                    lemma_sig_concat_snoc(fields@.subrange(0, i as int), fields@[i as int]);
                    assert(fields@.subrange(0, i + 1) =~= fields@.subrange(0, i as int).push(
                        fields@[i as int],
                    ));
                }
                i = i + 1;
            }
            r.push(STRUCT_SIG_END_CHAR);
            proof {
                assert(fields@.subrange(0, fields@.len() as int) =~= fields@);
                assert(r@ =~= sig_of(*v));
            }
            r
        },
        Value::Dict(ksig, vsig, _) => {
            let mut r: Vec<u8> = Vec::new();
            r.push(ARRAY_SIGNATURE_CHAR);
            r.push(DICT_ENTRY_SIG_START_CHAR);
            push_all(&mut r, ksig);
            push_all(&mut r, vsig);
            r.push(DICT_ENTRY_SIG_END_CHAR);
            proof {
                assert(r@ =~= sig_of(*v));
            }
            r
        },
        Value::Unit => Vec::new(),
    }
}

/// Appending one value to a run appends its signature to the run's.
pub proof fn lemma_sig_concat_snoc(items: Seq<Value>, v: Value)
    ensures
        sig_concat(items.push(v)) == sig_concat(items) + sig_of(v),
    decreases items.len(),
{
    let ip = items.push(v);
    if items.len() == 0 {
        assert(ip.subrange(1, ip.len() as int) =~= Seq::<Value>::empty());
        assert(sig_concat(ip) == sig_of(ip[0]) + sig_concat(ip.subrange(1, ip.len() as int)));
        assert(ip[0] == v);
        assert(sig_concat(ip) =~= sig_concat(items) + sig_of(v));
    } else {
        let tail = items.subrange(1, items.len() as int);
        assert(ip.subrange(1, ip.len() as int) =~= tail.push(v));
        lemma_sig_concat_snoc(tail, v);
        assert(ip[0] == items[0]);
        assert(sig_concat(ip) == sig_of(ip[0]) + sig_concat(ip.subrange(1, ip.len() as int)));
        assert(sig_concat(items) == sig_of(items[0]) + sig_concat(tail));
        assert(sig_concat(ip) =~= sig_concat(items) + sig_of(v));
    }
}

/// Well-formedness of a run of items, at one index.
pub proof fn lemma_wf_items_index(items: Seq<Value>, i: int)
    requires
        wf_items(items),
        0 <= i < items.len(),
    ensures
        wf_value(items[i]),
    decreases i,
{
    if i > 0 {
        lemma_wf_items_index(items.subrange(1, items.len() as int), i - 1);
    }
}

/// Well-formedness and the common signature of array elements, at one index.
pub proof fn lemma_wf_elems_index(items: Seq<Value>, esig: Seq<u8>, i: int)
    requires
        wf_elems(items, esig),
        0 <= i < items.len(),
    ensures
        wf_value(items[i]),
        sig_of(items[i]) == esig,
    decreases i,
{
    if i > 0 {
        lemma_wf_elems_index(items.subrange(1, items.len() as int), esig, i - 1);
    }
}

/// Well-formedness and the signatures of dictionary entries, at one index.
pub proof fn lemma_wf_entries_index(
    entries: Seq<(Value, Value)>,
    ksig: Seq<u8>,
    vsig: Seq<u8>,
    i: int,
)
    requires
        wf_entries(entries, ksig, vsig),
        0 <= i < entries.len(),
    ensures
        wf_value(entries[i].0),
        sig_of(entries[i].0) == ksig,
        wf_value(entries[i].1),
        sig_of(entries[i].1) == vsig,
    decreases i,
{
    if i > 0 {
        lemma_wf_entries_index(entries.subrange(1, entries.len() as int), ksig, vsig, i - 1);
    }
}

/// Appending one item to a run appends its bytes at the offset the run reached.
pub proof fn lemma_enc_items_snoc(bo: ByteOrder, items: Seq<Value>, x: Value, o: nat)
    ensures
        enc_items(bo, items.push(x), o) == enc_items(bo, items, o) + encoded(
            bo,
            x,
            o + enc_items(bo, items, o).len(),
        ),
    decreases items.len(),
{
    reveal_with_fuel(enc_items, 3);
    let ip = items.push(x);
    if items.len() == 0 {
        assert(ip.subrange(1, ip.len() as int) =~= Seq::<Value>::empty());
        assert(ip[0] == x);
        assert(enc_items(bo, ip, o) =~= enc_items(bo, items, o) + encoded(
            bo,
            x,
            o + enc_items(bo, items, o).len(),
        ));
    } else {
        let tail = items.subrange(1, items.len() as int);
        let e0 = encoded(bo, items[0], o);
        assert(ip.subrange(1, ip.len() as int) =~= tail.push(x));
        assert(ip[0] == items[0]);
        lemma_enc_items_snoc(bo, tail, x, o + e0.len());
        assert(enc_items(bo, ip, o) =~= enc_items(bo, items, o) + encoded(
            bo,
            x,
            o + enc_items(bo, items, o).len(),
        ));
    }
}

/// A run with one more item fits exactly when the run fits and the new item
/// fits at the offset the run reached.
pub proof fn lemma_fits_items_snoc(bo: ByteOrder, items: Seq<Value>, x: Value, o: nat)
    ensures
        fits_items(bo, items.push(x), o) == (fits_items(bo, items, o) && fits(
            bo,
            x,
            o + enc_items(bo, items, o).len(),
        )),
    decreases items.len(),
{
    reveal_with_fuel(enc_items, 3);
    reveal_with_fuel(fits_items, 3);
    let ip = items.push(x);
    if items.len() == 0 {
        assert(ip.subrange(1, ip.len() as int) =~= Seq::<Value>::empty());
        assert(ip[0] == x);
        assert(enc_items(bo, items, o) == Seq::<u8>::empty());
    } else {
        let tail = items.subrange(1, items.len() as int);
        let e0 = encoded(bo, items[0], o);
        assert(ip.subrange(1, ip.len() as int) =~= tail.push(x));
        assert(ip[0] == items[0]);
        lemma_fits_items_snoc(bo, tail, x, o + e0.len());
    }
}

/// If a whole run fits, each item fits at the offset where the run places it.
pub proof fn lemma_fits_items_extract(bo: ByteOrder, items: Seq<Value>, i: int, o: nat)
    requires
        fits_items(bo, items, o),
        0 <= i < items.len(),
    ensures
        fits(bo, items[i], o + enc_items(bo, items.subrange(0, i), o).len()),
    decreases i,
{
    if i == 0 {
        assert(items.subrange(0, 0) =~= Seq::<Value>::empty());
    } else {
        let tail = items.subrange(1, items.len() as int);
        let e0 = encoded(bo, items[0], o);
        lemma_fits_items_extract(bo, tail, i - 1, o + e0.len());
        let pre = items.subrange(0, i);
        assert(pre[0] == items[0]);
        assert(pre.subrange(1, pre.len() as int) =~= tail.subrange(0, i - 1));
        assert(tail[i - 1] == items[i]);
    }
}

/// The bytes of one dictionary entry at offset `o`: padding to 8, the key,
/// then the value.
pub open spec fn entry_bytes(bo: ByteOrder, kv: (Value, Value), o: nat) -> Seq<u8> {
    let p = spec_padding(o, 8);
    let k = encoded(bo, kv.0, o + p);
    zeros(p) + k + encoded(bo, kv.1, o + p + k.len())
}

/// Appending one entry to a run appends that entry's bytes at the offset the
/// run reached.
#[verifier::rlimit(50)]
pub proof fn lemma_enc_entries_snoc(bo: ByteOrder, entries: Seq<(Value, Value)>, kv: (Value, Value), o: nat)
    ensures
        enc_entries(bo, entries.push(kv), o) == enc_entries(bo, entries, o) + entry_bytes(
            bo,
            kv,
            o + enc_entries(bo, entries, o).len(),
        ),
    decreases entries.len(),
{
    reveal_with_fuel(enc_entries, 2);
    let ep = entries.push(kv);
    if entries.len() == 0 {
        assert(ep.subrange(1, ep.len() as int) =~= Seq::<(Value, Value)>::empty());
        assert(ep[0] == kv);
        assert(enc_entries(bo, ep, o) =~= enc_entries(bo, entries, o) + entry_bytes(
            bo,
            kv,
            o + enc_entries(bo, entries, o).len(),
        ));
    } else {
        let tail = entries.subrange(1, entries.len() as int);
        let eb = entry_bytes(bo, entries[0], o);
        assert(ep.subrange(1, ep.len() as int) =~= tail.push(kv));
        assert(ep[0] == entries[0]);
        lemma_enc_entries_snoc(bo, tail, kv, o + eb.len());
        assert(enc_entries(bo, ep, o) =~= enc_entries(bo, entries, o) + entry_bytes(
            bo,
            kv,
            o + enc_entries(bo, entries, o).len(),
        ));
    }
}

/// A run with one more entry fits exactly when the run fits, the new key is
/// basic, and key and value fit at the offsets the run reached.
#[verifier::rlimit(50)]
pub proof fn lemma_fits_entries_snoc(bo: ByteOrder, entries: Seq<(Value, Value)>, kv: (Value, Value), o: nat)
    ensures
        fits_entries(bo, entries.push(kv), o) == ({
            let oe = o + enc_entries(bo, entries, o).len();
            let p = spec_padding(oe, 8);
            let k = encoded(bo, kv.0, oe + p);
            fits_entries(bo, entries, o) && is_basic_value(kv.0) && fits(bo, kv.0, oe + p) && fits(
                bo,
                kv.1,
                oe + p + k.len(),
            )
        }),
    decreases entries.len(),
{
    reveal_with_fuel(enc_entries, 2);
    reveal_with_fuel(fits_entries, 2);
    let ep = entries.push(kv);
    if entries.len() == 0 {
        assert(ep.subrange(1, ep.len() as int) =~= Seq::<(Value, Value)>::empty());
        assert(ep[0] == kv);
        assert(enc_entries(bo, entries, o) == Seq::<u8>::empty());
    } else {
        let tail = entries.subrange(1, entries.len() as int);
        let eb = entry_bytes(bo, entries[0], o);
        assert(ep.subrange(1, ep.len() as int) =~= tail.push(kv));
        assert(ep[0] == entries[0]);
        lemma_fits_entries_snoc(bo, tail, kv, o + eb.len());
    }
}

/// If a whole run of entries fits, each entry's key and value fit at the
/// offsets where the run places them.
pub proof fn lemma_fits_entries_extract(bo: ByteOrder, entries: Seq<(Value, Value)>, i: int, o: nat)
    requires
        fits_entries(bo, entries, o),
        0 <= i < entries.len(),
    ensures
        ({
            let oe = o + enc_entries(bo, entries.subrange(0, i), o).len();
            let p = spec_padding(oe, 8);
            let k = encoded(bo, entries[i].0, oe + p);
            is_basic_value(entries[i].0) && fits(bo, entries[i].0, oe + p) && fits(
                bo,
                entries[i].1,
                oe + p + k.len(),
            )
        }),
    decreases i,
{
    if i == 0 {
        assert(entries.subrange(0, 0) =~= Seq::<(Value, Value)>::empty());
    } else {
        let tail = entries.subrange(1, entries.len() as int);
        let eb = entry_bytes(bo, entries[0], o);
        lemma_fits_entries_extract(bo, tail, i - 1, o + eb.len());
        let pre = entries.subrange(0, i);
        assert(pre[0] == entries[0]);
        assert(pre.subrange(1, pre.len() as int) =~= tail.subrange(0, i - 1));
        assert(tail[i - 1] == entries[i]);
        assert(enc_entries(bo, pre, o) == eb + enc_entries(bo, tail.subrange(0, i - 1), o + eb.len()));
    }
}

/// A run's concatenated signature splits at any index into the part before,
/// the signature at that index, and the part after.
pub proof fn lemma_sig_concat_split(items: Seq<Value>, i: int)
    requires
        0 <= i < items.len(),
    ensures
        sig_concat(items) == sig_concat(items.subrange(0, i)) + sig_of(items[i]) + sig_concat(
            items.subrange(i + 1, items.len() as int),
        ),
    decreases i,
{
    reveal_with_fuel(sig_concat, 2);
    if i == 0 {
        assert(items.subrange(0, 0) =~= Seq::<Value>::empty());
        assert(items.subrange(1, items.len() as int) == items.subrange(i + 1, items.len() as int));
        assert(sig_concat(items) =~= sig_concat(items.subrange(0, 0)) + sig_of(items[0])
            + sig_concat(items.subrange(1, items.len() as int)));
    } else {
        let tail = items.subrange(1, items.len() as int);
        lemma_sig_concat_split(tail, i - 1);
        let pre = items.subrange(0, i);
        assert(pre[0] == items[0]);
        assert(pre.subrange(1, pre.len() as int) =~= tail.subrange(0, i - 1));
        assert(tail[i - 1] == items[i]);
        assert(tail.subrange(i, tail.len() as int) =~= items.subrange(i + 1, items.len() as int));
        assert(sig_concat(items) =~= sig_concat(items.subrange(0, i)) + sig_of(items[i])
            + sig_concat(items.subrange(i + 1, items.len() as int)));
    }
}

/// Every primitive value's bytes begin at an offset divisible by its type's
/// alignment: the encoding first carries the offset there with zero bytes,
/// and padding never reaches a full alignment unit.
pub proof fn lemma_primitive_alignment(bo: ByteOrder, v: Value, o: nat)
    requires
        is_basic_value(v),
    ensures
        ({
            let a = spec_alignment(sig_of(v)[0]);
            let pd = spec_padding(o, a);
            &&& a >= 1
            &&& pd < a
            &&& ((o + pd) as int) % (a as int) == 0
            &&& encoded(bo, v, o).subrange(0, pd as int) == zeros(pd)
        }),
{
    let a = spec_alignment(sig_of(v)[0]);
    crate::utils::lemma_padding_aligns(o, a);
    let pd = spec_padding(o, a);
    match v {
        Value::U8(_) | Value::Sig(_) => {
            assert(pd == 0);
            assert(encoded(bo, v, o).subrange(0, 0) =~= zeros(0));
        },
        _ => {
            assert(encoded(bo, v, o).subrange(0, pd as int) =~= zeros(pd));
        },
    }
}

/// The u32 length field of an array or dictionary counts exactly the bytes
/// from the end of the first-element padding to the end of the element
/// region, excluding that padding and the field itself.
pub proof fn lemma_array_length_field(bo: ByteOrder, v: Value, o: nat)
    requires
        v is Array || v is Dict,
        fits(bo, v, o),
    ensures
        ({
            let p1 = spec_padding(o, 4);
            let body = encoded(bo, v, o).subrange(
                encoded(bo, v, o).len() as int - body_bytes_len(bo, v, o) as int,
                encoded(bo, v, o).len() as int,
            );
            encoded(bo, v, o).subrange(p1 as int, (p1 + 4) as int) == u32_bytes(bo, body.len() as u32)
        }),
{
    let e = encoded(bo, v, o);
    let p1 = spec_padding(o, 4);
    match v {
        Value::Array(esig, items) => {
            let o1 = o + p1 + 4;
            let ea = if esig@.len() > 0 {
                spec_alignment(esig@[0])
            } else {
                1nat
            };
            let p2 = spec_padding(o1, ea);
            let body = enc_items(bo, items@, o1 + p2);
            assert(e.subrange(
                e.len() as int - body_bytes_len(bo, v, o) as int,
                e.len() as int,
            ) =~= body);
            assert(e.subrange(p1 as int, (p1 + 4) as int) =~= u32_bytes(bo, body.len() as u32));
        },
        Value::Dict(_, _, entries) => {
            let o1 = o + p1 + 4;
            let p2 = spec_padding(o1, 8);
            let body = enc_entries(bo, entries@, o1 + p2);
            assert(e.subrange(
                e.len() as int - body_bytes_len(bo, v, o) as int,
                e.len() as int,
            ) =~= body);
            assert(e.subrange(p1 as int, (p1 + 4) as int) =~= u32_bytes(bo, body.len() as u32));
        },
        _ => {},
    }
}

/// The length, in bytes, of the element region of an array or dictionary.
pub open spec fn body_bytes_len(bo: ByteOrder, v: Value, o: nat) -> nat {
    match v {
        Value::Array(esig, items) => {
            let p1 = spec_padding(o, 4);
            let ea = if esig@.len() > 0 {
                spec_alignment(esig@[0])
            } else {
                1nat
            };
            enc_items(bo, items@, o + p1 + 4 + spec_padding(o + p1 + 4, ea)).len()
        },
        Value::Dict(_, _, entries) => {
            let p1 = spec_padding(o, 4);
            enc_entries(bo, entries@, o + p1 + 4 + spec_padding(o + p1 + 4, 8)).len()
        },
        _ => 0,
    }
}

/// Encoding is deterministic: the bytes of a value are a function of the byte
/// order, the value and the starting offset alone, so re-encoding a value
/// yields bit-identical output.
pub proof fn lemma_encode_deterministic(bo: ByteOrder, v: Value, b1: Seq<u8>, b2: Seq<u8>)
    requires
        b1 == encoded(bo, v, 0),
        b2 == encoded(bo, v, 0),
    ensures
        b1 == b2,
{
}

} // verus!
