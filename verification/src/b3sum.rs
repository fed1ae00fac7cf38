use vstd::prelude::*;

verus! {

/// The digest that the blake3 hash function assigns to a byte sequence.
/// A pure function of the bytes alone; its value is stated nowhere, so
/// nothing about concrete digests can be concluded without running it.
pub uninterp spec fn b3_digest(bytes: Seq<u8>) -> Seq<u8>;

/// The lowercase hexadecimal digit for a nibble.
pub open spec fn hex_digit(n: u8) -> char
    recommends
        n < 16,
{
    seq!['0', '1', '2', '3', '4', '5', '6', '7', '8', '9', 'a', 'b', 'c', 'd', 'e', 'f'][n as int]
}

/// Lowercase hexadecimal rendering: two digits per byte, high nibble first.
pub open spec fn hex_of(bytes: Seq<u8>) -> Seq<char>
    decreases bytes.len(),
{
    if bytes.len() == 0 {
        Seq::empty()
    } else {
        hex_of(bytes.drop_last()) + seq![
            hex_digit(bytes.last() / 16),
            hex_digit(bytes.last() % 16),
        ]
    }
}

/// The hexadecimal digest of a byte stream.
pub open spec fn digest_hex(bytes: Seq<u8>) -> Seq<char> {
    hex_of(b3_digest(bytes))
}

#[verifier::external_type_specification]
#[verifier::external_body]
pub struct ExBlake3Hasher(blake3::Hasher);

/// The bytes a blake3 hasher has been fed so far — the hasher's whole
/// observable state, since its digest depends on those bytes alone.
pub uninterp spec fn hasher_bytes(h: blake3::Hasher) -> Seq<u8>;

/// An incremental content hasher. The digest is a function of the bytes
/// fed alone, so feeding a file chunk by chunk hashes the whole file
/// without ever holding it in memory.
pub struct ContentHasher {
    pub inner: blake3::Hasher,
}

impl ContentHasher {
    /// The bytes fed so far.
    pub open spec fn bytes(&self) -> Seq<u8> {
        hasher_bytes(self.inner)
    }

    /// Relies on blake3::Hasher::new: a fresh hasher over no input.
    #[verifier::external_body]
    pub fn new() -> (h: ContentHasher)
        ensures
            hasher_bytes(h.inner) == Seq::<u8>::empty(),
    {
        ContentHasher { inner: blake3::Hasher::new() }
    }

    /// Relies on blake3::Hasher::update: appends `chunk` to the hashed
    /// stream.
    #[verifier::external_body]
    pub fn update(&mut self, chunk: &[u8])
        ensures
            hasher_bytes(final(self).inner) == hasher_bytes(old(self).inner) + chunk@,
    {
        self.inner.update(chunk);
    }

    /// Relies on blake3::Hasher::finalize and blake3::Hash::to_hex: the
    /// 32-byte digest of the bytes fed so far, rendered as lowercase
    /// hexadecimal, two digits per byte, high nibble first — hence 64
    /// characters.
    #[verifier::external_body]
    pub fn finalize_hex(&self) -> (r: String)
        ensures
            r@ == hex_of(b3_digest(hasher_bytes(self.inner))),
            r@.len() == 64,
    {
        let hash = self.inner.finalize();
        hash.to_hex().as_str().to_string()
    }
}

/// The concatenation of a sequence of chunks.
pub open spec fn concat_of(chunks: Seq<Seq<u8>>) -> Seq<u8>
    decreases chunks.len(),
{
    if chunks.len() == 0 {
        Seq::empty()
    } else {
        concat_of(chunks.drop_last()) + chunks.last()
    }
}

/// The hexadecimal digest of a byte stream given as chunks; the chunk
/// boundaries do not matter, only the concatenated bytes do.
pub fn hash_chunks(chunks: &Vec<Vec<u8>>) -> (r: String)
    ensures
        r@ == digest_hex(concat_of(chunks@.map_values(|c: Vec<u8>| c@))),
        r@.len() == 64,
{
    let ghost all = chunks@.map_values(|c: Vec<u8>| c@);
    let mut h = ContentHasher::new();
    let mut i: usize = 0;
    while i < chunks.len()
        invariant
            i <= chunks@.len(),
            all == chunks@.map_values(|c: Vec<u8>| c@),
            h.bytes() == concat_of(all.take(i as int)),
        decreases chunks@.len() - i,
    {
        proof {
            assert(all.take(i + 1).drop_last() =~= all.take(i as int));
            assert(all.take(i + 1).last() == chunks@[i as int]@);
        }
        h.update(chunks[i].as_slice());
        i += 1;
    }
    proof {
        assert(all.take(all.len() as int) =~= all);
    }
    h.finalize_hex()
}

} // verus!
