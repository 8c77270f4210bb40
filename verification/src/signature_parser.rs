//! The signature grammar and the forward/rewindable cursor over a signature.
//!
//! `type_len` gives the length of the shortest prefix of a byte sequence that
//! forms one syntactically complete type, or `None` when there is no such
//! prefix; `complete_type_len` computes it executably.
use vstd::prelude::*;

use crate::utils::{
    is_basic_char, spec_is_basic_char, Error, ARRAY_SIGNATURE_CHAR, DICT_ENTRY_SIG_END_CHAR,
    DICT_ENTRY_SIG_START_CHAR, STRUCT_SIG_END_CHAR, STRUCT_SIG_START_CHAR, VARIANT_SIGNATURE_CHAR,
};

verus! {

/// The length of the complete type that `s` starts with: one character for a
/// primitive or a variant, an `a` plus one complete type for an array, and a
/// bracket pair around member types for structs and dictionary entries.
pub open spec fn type_len(s: Seq<u8>) -> Option<nat>
    decreases s.len(), 0int,
{
    if s.len() == 0 {
        None
    } else {
        let c = s[0];
        if spec_is_basic_char(c) || c == VARIANT_SIGNATURE_CHAR {
            Some(1nat)
        } else if c == ARRAY_SIGNATURE_CHAR {
            match type_len(s.skip(1)) {
                Some(n) => Some((n + 1) as nat),
                None => None,
            }
        } else if c == STRUCT_SIG_START_CHAR {
            match body_len(s.skip(1), STRUCT_SIG_END_CHAR) {
                Some(n) => Some((n + 1) as nat),
                None => None,
            }
        } else if c == DICT_ENTRY_SIG_START_CHAR {
            match body_len(s.skip(1), DICT_ENTRY_SIG_END_CHAR) {
                Some(n) => Some((n + 1) as nat),
                None => None,
            }
        } else {
            None
        }
    }
}

/// The length, close bracket included, of a run of complete types ended by `close`.
pub open spec fn body_len(s: Seq<u8>, close: u8) -> Option<nat>
    decreases s.len(), 1int,
{
    if s.len() == 0 {
        None
    } else if s[0] == close {
        Some(1nat)
    } else {
        match type_len(s) {
            Some(t) => if t < 1 || t > s.len() {
                None
            } else {
                match body_len(s.skip(t as int), close) {
                    Some(m) => Some((t + m) as nat),
                    None => None,
                }
            },
            None => None,
        }
    }
}

/// A complete type is at least one byte and no longer than the sequence.
pub proof fn lemma_type_len_bounds(s: Seq<u8>)
    ensures
        type_len(s) matches Some(n) ==> 1 <= n <= s.len(),
    decreases s.len(), 0int,
{
    if s.len() > 0 {
        let c = s[0];
        if c == ARRAY_SIGNATURE_CHAR {
            lemma_type_len_bounds(s.skip(1));
        } else if c == STRUCT_SIG_START_CHAR {
            lemma_body_len_bounds(s.skip(1), STRUCT_SIG_END_CHAR);
        } else if c == DICT_ENTRY_SIG_START_CHAR {
            lemma_body_len_bounds(s.skip(1), DICT_ENTRY_SIG_END_CHAR);
        }
    }
}

pub proof fn lemma_body_len_bounds(s: Seq<u8>, close: u8)
    ensures
        body_len(s, close) matches Some(m) ==> 1 <= m <= s.len(),
    decreases s.len(), 1int,
{
    if s.len() > 0 && s[0] != close {
        lemma_type_len_bounds(s);
        if type_len(s) is Some {
            let t = type_len(s)->Some_0;
            if 1 <= t <= s.len() {
                lemma_body_len_bounds(s.skip(t as int), close);
            }
        }
    }
}

/// `type_len` reads only the bytes of the type itself: any sequence that
/// agrees with `s1` on that prefix has the same complete-type length.
pub proof fn lemma_type_len_agree(s1: Seq<u8>, s2: Seq<u8>)
    requires
        type_len(s1) matches Some(n) && n <= s2.len() && s2.subrange(0, n as int) == s1.subrange(
            0,
            n as int,
        ),
    ensures
        type_len(s2) == type_len(s1),
    decreases s1.len(), 0int,
{
    let n = type_len(s1)->Some_0;
    lemma_type_len_bounds(s1);
    assert(s1[0] == s2[0]) by {
        assert(s1.subrange(0, n as int)[0] == s1[0]);
        assert(s2.subrange(0, n as int)[0] == s2[0]);
    }
    let c = s1[0];
    if spec_is_basic_char(c) || c == VARIANT_SIGNATURE_CHAR {
    } else if c == ARRAY_SIGNATURE_CHAR {
        let inner = type_len(s1.skip(1))->Some_0;
        lemma_type_len_bounds(s1.skip(1));
        assert(s2.skip(1).subrange(0, inner as int) =~= s2.subrange(0, n as int).skip(1));
        assert(s1.skip(1).subrange(0, inner as int) =~= s1.subrange(0, n as int).skip(1));
        lemma_type_len_agree(s1.skip(1), s2.skip(1));
    } else if c == STRUCT_SIG_START_CHAR || c == DICT_ENTRY_SIG_START_CHAR {
        let close = if c == STRUCT_SIG_START_CHAR {
            STRUCT_SIG_END_CHAR
        } else {
            DICT_ENTRY_SIG_END_CHAR
        };
        let inner = body_len(s1.skip(1), close)->Some_0;
        lemma_body_len_bounds(s1.skip(1), close);
        assert(s2.skip(1).subrange(0, inner as int) =~= s2.subrange(0, n as int).skip(1));
        assert(s1.skip(1).subrange(0, inner as int) =~= s1.subrange(0, n as int).skip(1));
        lemma_body_len_agree(s1.skip(1), s2.skip(1), close);
    }
}

pub proof fn lemma_body_len_agree(s1: Seq<u8>, s2: Seq<u8>, close: u8)
    requires
        body_len(s1, close) matches Some(m) && m <= s2.len() && s2.subrange(0, m as int)
            == s1.subrange(0, m as int),
    ensures
        body_len(s2, close) == body_len(s1, close),
    decreases s1.len(), 1int,
{
    let m = body_len(s1, close)->Some_0;
    lemma_body_len_bounds(s1, close);
    assert(s1[0] == s2[0]) by {
        assert(s1.subrange(0, m as int)[0] == s1[0]);
        assert(s2.subrange(0, m as int)[0] == s2[0]);
    }
    if s1[0] == close {
    } else {
        let t = type_len(s1)->Some_0;
        lemma_type_len_bounds(s1);
        let rest = body_len(s1.skip(t as int), close)->Some_0;
        lemma_body_len_bounds(s1.skip(t as int), close);
        // m == t + rest, so the first t bytes agree and the next rest bytes agree.
        assert(s2.subrange(0, t as int) =~= s2.subrange(0, m as int).subrange(0, t as int));
        assert(s1.subrange(0, t as int) =~= s1.subrange(0, m as int).subrange(0, t as int));
        lemma_type_len_agree(s1, s2);
        assert(s2.skip(t as int).subrange(0, rest as int) =~= s2.subrange(0, m as int).skip(
            t as int,
        ));
        assert(s1.skip(t as int).subrange(0, rest as int) =~= s1.subrange(0, m as int).skip(
            t as int,
        ));
        lemma_body_len_agree(s1.skip(t as int), s2.skip(t as int), close);
    }
}

/// The length of the complete type that starts at `start` in `sig`.
pub fn complete_type_len(sig: &Vec<u8>, start: usize) -> (r: Result<usize, Error>)
    requires
        start <= sig@.len(),
    ensures
        r matches Ok(n) ==> type_len(sig@.skip(start as int)) == Some(n as nat) && 1 <= n
            && start + n <= sig@.len(),
        r is Err ==> type_len(sig@.skip(start as int)) is None && r == Err::<
            usize,
            Error,
        >(Error::UnbalancedBrackets),
    decreases sig@.len() - start,
{
    proof {
        lemma_type_len_bounds(sig@.skip(start as int));
    }
    if start >= sig.len() {
        return Err(Error::UnbalancedBrackets);
    }
    let c = sig[start];
    if is_basic_char(c) || c == VARIANT_SIGNATURE_CHAR {
        Ok(1)
    } else if c == ARRAY_SIGNATURE_CHAR {
        proof {
            assert(sig@.skip(start as int).skip(1) =~= sig@.skip(start + 1));
        }
        match complete_type_len(sig, start + 1) {
            Ok(n) => Ok(n + 1),
            Err(e) => Err(e),
        }
    } else if c == STRUCT_SIG_START_CHAR || c == DICT_ENTRY_SIG_START_CHAR {
        let close = if c == STRUCT_SIG_START_CHAR {
            STRUCT_SIG_END_CHAR
        } else {
            DICT_ENTRY_SIG_END_CHAR
        };
        let ghost whole = sig@.skip(start as int);
        proof {
            assert(whole.skip(1) =~= sig@.skip(start + 1));
        }
        let mut j = start + 1;
        loop
            invariant
                start + 1 <= j <= sig@.len(),
                start < sig@.len(),
                sig@[start as int] == c,
                (c == STRUCT_SIG_START_CHAR || c == DICT_ENTRY_SIG_START_CHAR),
                close == (if c == STRUCT_SIG_START_CHAR {
                    STRUCT_SIG_END_CHAR
                } else {
                    DICT_ENTRY_SIG_END_CHAR
                }),
                whole == sig@.skip(start as int),
                type_len(whole) == (match body_len(sig@.skip(j as int), close) {
                    Some(m) => Some((j - start + m) as nat),
                    None => None::<nat>,
                }),
            decreases sig@.len() - j,
        {
            if j >= sig.len() {
                return Err(Error::UnbalancedBrackets);
            }
            if sig[j] == close {
                proof {
                    assert(sig@.skip(j as int)[0] == close);
                }
                return Ok(j + 1 - start);
            }
            match complete_type_len(sig, j) {
                Ok(t) => {
                    proof {
                        lemma_type_len_bounds(sig@.skip(j as int));
                        assert(sig@.skip(j as int).skip(t as int) =~= sig@.skip(j + t));
                    }
                    j = j + t;
                },
                Err(e) => {
                    return Err(e);
                },
            }
        }
    } else {
        Err(Error::UnbalancedBrackets)
    }
}

/// A dictionary-entry signature assembled from one complete key type and one
/// complete value type is itself one complete type.
pub proof fn lemma_dict_entry_type_len(ksig: Seq<u8>, vsig: Seq<u8>)
    requires
        type_len(ksig) == Some(ksig.len() as nat),
        type_len(vsig) == Some(vsig.len() as nat),
    ensures
        type_len(seq![DICT_ENTRY_SIG_START_CHAR] + ksig + vsig + seq![DICT_ENTRY_SIG_END_CHAR])
            == Some((ksig.len() + vsig.len() + 2) as nat),
{
    reveal_with_fuel(type_len, 2);
    reveal_with_fuel(body_len, 3);
    lemma_type_len_bounds(ksig);
    lemma_type_len_bounds(vsig);
    let s = seq![DICT_ENTRY_SIG_START_CHAR] + ksig + vsig + seq![DICT_ENTRY_SIG_END_CHAR];
    let b1 = ksig + vsig + seq![DICT_ENTRY_SIG_END_CHAR];
    let b2 = vsig + seq![DICT_ENTRY_SIG_END_CHAR];
    let kl = ksig.len() as int;
    let vl = vsig.len() as int;
    if ksig[0] == DICT_ENTRY_SIG_END_CHAR {
        assert(type_len(ksig) is None);
    }
    if vsig[0] == DICT_ENTRY_SIG_END_CHAR {
        assert(type_len(vsig) is None);
    }
    assert(b1.subrange(0, kl) =~= ksig.subrange(0, kl));
    lemma_type_len_agree(ksig, b1);
    assert(b2.subrange(0, vl) =~= vsig.subrange(0, vl));
    lemma_type_len_agree(vsig, b2);
    assert(b1[0] == ksig[0]);
    assert(b2[0] == vsig[0]);
    assert(b1.skip(kl) =~= b2);
    assert(b2.skip(vl) =~= seq![DICT_ENTRY_SIG_END_CHAR]);
    assert(body_len(b2.skip(vl), DICT_ENTRY_SIG_END_CHAR) == Some(1nat));
    assert(body_len(b2, DICT_ENTRY_SIG_END_CHAR) == Some((vl + 1) as nat));
    assert(body_len(b1, DICT_ENTRY_SIG_END_CHAR) == Some((kl + vl + 1) as nat));
    assert(s[0] == DICT_ENTRY_SIG_START_CHAR);
    assert(s.skip(1) =~= b1);
    assert(type_len(s) == Some((kl + vl + 2) as nat));
}

/// A forward/rewindable cursor over a signature.
pub struct SignatureParser {
    pub sig: Vec<u8>,
    pub pos: usize,
}

impl SignatureParser {
    /// The cursor never stands past the end of its signature.
    pub open spec fn wf(&self) -> bool {
        self.pos <= self.sig@.len()
    }

    /// The part of the signature that is still to be consumed.
    pub open spec fn remaining(&self) -> Seq<u8> {
        self.sig@.skip(self.pos as int)
    }

    pub fn new(signature: Vec<u8>) -> (r: Self)
        ensures
            r.sig@ == signature@,
            r.pos == 0,
            r.wf(),
    {
        SignatureParser { sig: signature, pos: 0 }
    }

    pub fn signature(&self) -> (r: &Vec<u8>)
        ensures
            r@ == self.sig@,
    {
        &self.sig
    }

    pub fn pos(&self) -> (r: usize)
        ensures
            r == self.pos,
    {
        self.pos
    }

    /// The next character, without advancing.
    pub fn next_char(&self) -> (r: Result<u8, Error>)
        ensures
            self.pos < self.sig@.len() ==> r == Ok::<u8, Error>(self.sig@[self.pos as int]),
            self.pos >= self.sig@.len() ==> r == Err::<u8, Error>(Error::SignatureExhausted),
    {
        if self.pos < self.sig.len() {
            Ok(self.sig[self.pos])
        } else {
            Err(Error::SignatureExhausted)
        }
    }

    /// Advance over one character; with `Some(c)`, fail unless that character is `c`.
    pub fn parse_char(&mut self, expected: Option<u8>) -> (r: Result<(), Error>)
        requires
            old(self).wf(),
        ensures
            final(self).sig@ == old(self).sig@,
            final(self).wf(),
            r is Ok <==> old(self).pos < old(self).sig@.len() && (expected matches Some(c)
                ==> old(self).sig@[old(self).pos as int] == c),
            r is Ok ==> final(self).pos == old(self).pos + 1,
            r is Err ==> final(self).pos == old(self).pos && (r == Err::<(), Error>(
                Error::SignatureMismatch,
            ) || r == Err::<(), Error>(Error::SignatureExhausted)),
    {
        if self.pos >= self.sig.len() {
            return if expected.is_some() {
                Err(Error::SignatureMismatch)
            } else {
                Err(Error::SignatureExhausted)
            };
        }
        match expected {
            Some(c) => {
                if self.sig[self.pos] != c {
                    return Err(Error::SignatureMismatch);
                }
            },
            None => {},
        }
        self.pos = self.pos + 1;
        Ok(())
    }

    /// Move the cursor back over `count` characters already consumed.
    pub fn rewind_chars(&mut self, count: usize)
        requires
            old(self).wf(),
            count <= old(self).pos,
        ensures
            final(self).sig@ == old(self).sig@,
            final(self).pos == old(self).pos - count,
            final(self).wf(),
    {
        self.pos = self.pos - count;
    }

    /// Advance the cursor over `count` characters without reading them.
    pub fn skip_chars(&mut self, count: usize) -> (r: Result<(), Error>)
        requires
            old(self).wf(),
        ensures
            final(self).sig@ == old(self).sig@,
            final(self).wf(),
            r is Ok <==> old(self).pos + count <= old(self).sig@.len(),
            r is Ok ==> final(self).pos == old(self).pos + count,
            r is Err ==> final(self).pos == old(self).pos && r == Err::<(), Error>(
                Error::SignatureExhausted,
            ),
    {
        if count > self.sig.len() - self.pos {
            return Err(Error::SignatureExhausted);
        }
        self.pos = self.pos + count;
        Ok(())
    }
}

} // verus!
