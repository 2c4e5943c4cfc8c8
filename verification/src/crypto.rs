//! Key derivation and the XOR keystream.
//!
//! The key of an archive is the SHA-1 digest of its index region. A payload is masked by
//! XOR with the key, repeated; the position in the key is counted from the start of the
//! entry's own payload, never from the start of the archive.

use vstd::prelude::*;
use vstd::slice::slice_to_vec;
use sha1::{Digest, Sha1};

verus! {

/// The SHA-1 digest of a byte sequence.
pub uninterp spec fn sha1_digest(data: Seq<u8>) -> Seq<u8>;

/// Calls `Sha1::new`, `update` and `finalize` of the `sha1` crate on `data`. The result is
/// the SHA-1 digest of `data`, which is 20 bytes long.
#[verifier::external_body]
fn sha1(data: &[u8]) -> (digest: Vec<u8>)
    ensures
        digest@ == sha1_digest(data@),
        digest@.len() == 20,
{
    let mut hasher = Sha1::new();
    hasher.update(data);
    hasher.finalize().to_vec()
}

/// The bytes from which the key is derived: `index_size` bytes from offset 0x07 on, or as
/// many of them as the buffer holds.
pub open spec fn key_region(data: Seq<u8>, index_size: u32) -> Seq<u8> {
    let start = if data.len() < 7 {
        data.len() as int
    } else {
        7
    };
    let end = if 7 + index_size <= data.len() {
        7 + index_size
    } else {
        data.len() as int
    };
    data.subrange(start, end)
}

/// The key of an archive whose index region starts `data`.
pub open spec fn spec_key(data: Seq<u8>, index_size: u32) -> Seq<u8> {
    sha1_digest(key_region(data, index_size))
}

/// Derives the 20-byte key from the index region of `data`.
///
/// A buffer that ends before the declared end of the index is hashed as far as it goes.
pub fn generate_key(data: &[u8], index_size: u32) -> (key: Vec<u8>)
    ensures
        key@ == spec_key(data@, index_size),
        key@.len() == 20,
{
    let start: usize = if data.len() < 7 {
        data.len()
    } else {
        7
    };
    let end: usize = if data.len() as u64 >= 7 + index_size as u64 {
        7 + index_size as usize
    } else {
        data.len()
    };
    sha1(&data[start..end])
}

/// `data` masked with `key`, the key position of byte `i` being `offset + i`.
pub open spec fn spec_xor(data: Seq<u8>, key: Seq<u8>, offset: int) -> Seq<u8> {
    Seq::new(data.len(), |i: int| data[i] ^ key[(offset + i) % (key.len() as int)])
}

proof fn lemma_next_key_index(pos: int, n: int)
    requires
        0 <= pos,
        0 < n,
    ensures
        (pos + 1) % n == if pos % n + 1 == n {
            0
        } else {
            pos % n + 1
        },
        0 <= pos % n < n,
{
    assert((pos + 1) % n == if pos % n + 1 == n {
        0
    } else {
        pos % n + 1
    }) by (nonlinear_arith)
        requires
            0 <= pos,
            0 < n,
    ;
    assert(0 <= pos % n < n) by (nonlinear_arith)
        requires
            0 <= pos,
            0 < n,
    ;
}

/// Masks `data` in place. `local_offset` is the number of bytes of the same entry that
/// precede `data`.
pub fn encrypt(data: &mut Vec<u8>, key: &[u8], local_offset: usize)
    requires
        key.len() > 0,
    ensures
        final(data)@ == spec_xor(old(data)@, key@, local_offset as int),
{
    let n = data.len();
    let mut k: usize = local_offset % key.len();
    let mut i: usize = 0;
    while i < n
        invariant
            n == data.len(),
            n == old(data).len(),
            key.len() > 0,
            i <= n,
            k == (local_offset + i) % (key.len() as int),
            forall|j: int| 0 <= j < i ==> data[j] == old(data)[j] ^ key[(local_offset + j) % (
            key.len() as int)],
            forall|j: int| i <= j < n ==> data[j] == old(data)[j],
        decreases n - i,
    {
        proof {
            lemma_next_key_index(local_offset + i, key.len() as int);
        }
        let b = data[i] ^ key[k];
        data[i] = b;
        k = if k + 1 == key.len() {
            0
        } else {
            k + 1
        };
        i = i + 1;
    }
    assert(data@ =~= spec_xor(old(data)@, key@, local_offset as int));
}

/// Returns `data` unmasked. The operation is the same as [`encrypt`].
pub fn decrypt(data: &[u8], key: &[u8], local_offset: usize) -> (res: Vec<u8>)
    requires
        key.len() > 0,
    ensures
        res@ == spec_xor(data@, key@, local_offset as int),
{
    let mut res = slice_to_vec(data);
    encrypt(&mut res, key, local_offset);
    res
}

/// Masking twice with the same key and offset gives back the input.
pub proof fn lemma_xor_involution(data: Seq<u8>, key: Seq<u8>, offset: int)
    ensures
        spec_xor(spec_xor(data, key, offset), key, offset) == data,
{
    let once = spec_xor(data, key, offset);
    let twice = spec_xor(once, key, offset);
    assert forall|i: int| 0 <= i < data.len() implies twice[i] == data[i] by {
        let a = data[i];
        let b = key[(offset + i) % (key.len() as int)];
        assert((a ^ b) ^ b == a) by (bit_vector);
    }
    assert(twice =~= data);
}

/// Masking a payload in two pieces, the second at the offset where the first ended, gives
/// the same bytes as masking it in one piece.
pub proof fn lemma_xor_split(head: Seq<u8>, tail: Seq<u8>, key: Seq<u8>, offset: int)
    ensures
        spec_xor(head + tail, key, offset) == spec_xor(head, key, offset) + spec_xor(
            tail,
            key,
            offset + head.len(),
        ),
{
    let whole = spec_xor(head + tail, key, offset);
    let parts = spec_xor(head, key, offset) + spec_xor(tail, key, offset + head.len());
    assert forall|i: int| 0 <= i < whole.len() implies whole[i] == parts[i] by {
        if i >= head.len() {
            assert((head + tail)[i] == tail[i - head.len()]);
            assert(offset + i == offset + head.len() + (i - head.len()));
        }
    }
    assert(whole =~= parts);
}

/// The bytes of all chunks, one behind the other.
pub open spec fn concat_chunks(chunks: Seq<Seq<u8>>) -> Seq<u8>
    decreases chunks.len(),
{
    if chunks.len() == 0 {
        Seq::empty()
    } else {
        chunks[0] + concat_chunks(chunks.drop_first())
    }
}

/// The chunks masked one after the other, each at the offset where the one before ended.
pub open spec fn xor_chunks(chunks: Seq<Seq<u8>>, key: Seq<u8>, offset: int) -> Seq<u8>
    decreases chunks.len(),
{
    if chunks.len() == 0 {
        Seq::empty()
    } else {
        spec_xor(chunks[0], key, offset) + xor_chunks(
            chunks.drop_first(),
            key,
            offset + chunks[0].len(),
        )
    }
}

/// However a payload is cut into chunks, masking the chunks in order with the running
/// offset of the entry gives the same bytes as masking the whole payload at once.
pub proof fn lemma_xor_chunked(chunks: Seq<Seq<u8>>, key: Seq<u8>, offset: int)
    ensures
        xor_chunks(chunks, key, offset) == spec_xor(concat_chunks(chunks), key, offset),
    decreases chunks.len(),
{
    if chunks.len() == 0 {
        assert(spec_xor(Seq::<u8>::empty(), key, offset) =~= Seq::<u8>::empty());
    } else {
        lemma_xor_chunked(chunks.drop_first(), key, offset + chunks[0].len());
        lemma_xor_split(chunks[0], concat_chunks(chunks.drop_first()), key, offset);
    }
}

} // verus!
