use vstd::prelude::*;
use vstd::relations::sorted_by;
use vstd::utf8::encode_utf8;
use crate::order::push_bytes;
use crate::tensor::{
    EntryV, TensorCollection, entry_leq_fn, lemma_entry_le_total_ordering, lemma_sorted_unique,
    lemma_wf_sorted,
};

verus! {

/// The hash input contributed by one entry: name bytes, then the textual
/// shape descriptor, then the dtype identifier, then the raw element bytes.
pub open spec fn canon_entry(e: EntryV) -> Seq<u8> {
    encode_utf8(e.name) + encode_utf8(e.shape) + encode_utf8(e.dtype) + e.data
}

/// The canonical encoding of a sequence of entries: the per-entry encodings
/// concatenated in sequence order.
pub open spec fn canon_seq(s: Seq<EntryV>) -> Seq<u8>
    decreases s.len(),
{
    if s.len() == 0 {
        Seq::empty()
    } else {
        canon_seq(s.drop_last()) + canon_entry(s.last())
    }
}

/// The SHA-512 digest of a byte sequence, named but not written out: the
/// trusted wrapper below ties it to the outside implementation.
pub uninterp spec fn sha512_of(input: Seq<u8>) -> Seq<u8>;

/// Relies on sha2::Sha512 through the Digest trait: the digest is 64 bytes
/// and a pure function of the input bytes.
#[verifier::external_body]
fn sha512(input: &[u8]) -> (r: [u8; 64])
    ensures
        r@ == sha512_of(input@),
{
    let d = <sha2::Sha512 as sha2::Digest>::digest(input);
    let mut out = [0u8; 64];
    out.copy_from_slice(&d);
    out
}

/// Lowercase hexadecimal digit for a value below 16.
pub open spec fn hex_digit(n: u8) -> char
    recommends
        n < 16,
{
    if n == 0 { '0' } else if n == 1 { '1' } else if n == 2 { '2' } else if n == 3 { '3' }
    else if n == 4 { '4' } else if n == 5 { '5' } else if n == 6 { '6' } else if n == 7 { '7' }
    else if n == 8 { '8' } else if n == 9 { '9' } else if n == 10 { 'a' } else if n == 11 { 'b' }
    else if n == 12 { 'c' } else if n == 13 { 'd' } else if n == 14 { 'e' } else { 'f' }
}

/// Lowercase hexadecimal rendering of a byte sequence, two digits per byte.
pub open spec fn hex_chars_of(b: Seq<u8>) -> Seq<char>
    decreases b.len(),
{
    if b.len() == 0 {
        Seq::empty()
    } else {
        hex_chars_of(b.drop_last()) + seq![hex_digit(b.last() / 16), hex_digit(b.last() % 16)]
    }
}

pub proof fn lemma_hex_chars_len(b: Seq<u8>)
    ensures
        hex_chars_of(b).len() == 2 * b.len(),
    decreases b.len(),
{
    if b.len() > 0 {
        lemma_hex_chars_len(b.drop_last());
    }
}

/// Relies on hex::encode: lowercase hexadecimal, two digits per byte, in
/// input order.
#[verifier::external_body]
pub(crate) fn hex_encode(input: &[u8]) -> (r: String)
    ensures
        r@ == hex_chars_of(input@),
{
    hex::encode(input)
}

/// The content digest of a collection: SHA-512 over the canonical encoding
/// of its entries in the canonical order. Sorting inside the definition
/// makes the digest independent of the order in which entries are listed.
pub open spec fn digest_of(s: Seq<EntryV>) -> Seq<u8> {
    sha512_of(canon_seq(s.sort_by(entry_leq_fn())))
}

/// Sorting a sequence that is already sorted in the entry order returns it
/// unchanged.
pub proof fn lemma_sort_of_sorted(s: Seq<EntryV>)
    requires
        sorted_by(s, entry_leq_fn()),
    ensures
        s.sort_by(entry_leq_fn()) == s,
{
    lemma_entry_le_total_ordering();
    s.lemma_sort_by_ensures(entry_leq_fn());
    lemma_sorted_unique(s.sort_by(entry_leq_fn()), s);
}

/// Order independence of the content digest: collections holding the same
/// multiset of (name, shape, dtype, bytes) entries hash to the same digest,
/// whatever order the entries were supplied in.
pub proof fn lemma_digest_order_independent(s1: Seq<EntryV>, s2: Seq<EntryV>)
    requires
        s1.to_multiset() == s2.to_multiset(),
    ensures
        digest_of(s1) == digest_of(s2),
{
    lemma_entry_le_total_ordering();
    s1.lemma_sort_by_ensures(entry_leq_fn());
    s2.lemma_sort_by_ensures(entry_leq_fn());
    lemma_sorted_unique(s1.sort_by(entry_leq_fn()), s2.sort_by(entry_leq_fn()));
}

/// Computes the content digest of a collection by feeding the canonical
/// encoding of its entries to SHA-512.
pub fn digest_entries(c: &TensorCollection) -> (r: [u8; 64])
    requires
        c.wf(),
    ensures
        r@ == digest_of(c.entry_seq()),
{
    let ghost s = c.entry_seq();
    let mut buf: Vec<u8> = Vec::new();
    let n = c.len();
    proof {
        assert(s.take(0) =~= Seq::<EntryV>::empty());
        assert(buf@ =~= Seq::<u8>::empty());
    }
    let mut i: usize = 0;
    while i < n
        invariant
            n == s.len(),
            i <= n,
            c.wf(),
            s == c.entry_seq(),
            buf@ == canon_seq(s.take(i as int)),
        decreases n - i,
    {
        let ghost before = buf@;
        let entry = c.entry_at(i);
        push_bytes(&mut buf, entry.0.as_str().as_bytes());
        push_bytes(&mut buf, entry.1.shape.as_str().as_bytes());
        push_bytes(&mut buf, entry.1.dtype.as_str().as_bytes());
        push_bytes(&mut buf, entry.1.data.as_slice());
        proof {
            let e = s[i as int];
            assert(buf@ =~= before + canon_entry(e));
            assert(s.take(i + 1).drop_last() =~= s.take(i as int));
            assert(s.take(i + 1).last() == e);
            assert(canon_seq(s.take(i + 1)) == canon_seq(s.take(i as int)) + canon_entry(e));
        }
        i = i + 1;
    }
    proof {
        assert(s.take(n as int) =~= s);
        lemma_wf_sorted(*c);
        lemma_sort_of_sorted(s);
    }
    sha512(buf.as_slice())
}

} // verus!
