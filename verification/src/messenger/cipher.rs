use vstd::prelude::*;
use vstd::utf8::{decode_utf8, valid_utf8};

verus! {

/// The byte at position `i` of `data` combined with the key repeated along the data.
pub open spec fn xor_at(data: Seq<u8>, key: Seq<u8>, i: int) -> u8 {
    data[i] ^ key[i % key.len() as int]
}

/// `data` combined byte by byte, by exclusive or, with `key` repeated along it. The key
/// must not be empty.
pub fn encrypt_decrypt(data: &[u8], key: &[u8]) -> (r: Vec<u8>)
    requires
        key@.len() > 0,
    ensures
        r@.len() == data@.len(),
        forall|i: int| 0 <= i < data@.len() ==> #[trigger] r@[i] == xor_at(data@, key@, i),
{
    let mut r: Vec<u8> = Vec::new();
    let mut i: usize = 0;
    while i < data.len()
        invariant
            key@.len() > 0,
            i <= data@.len(),
            r@.len() == i,
            forall|j: int| 0 <= j < i ==> #[trigger] r@[j] == xor_at(data@, key@, j),
        decreases data@.len() - i,
    {
        r.push(data[i] ^ key[i % key.len()]);
        i = i + 1;
    }
    r
}

/// Combining with the same key twice gives the data back.
pub proof fn lemma_encrypt_decrypt_inverse(data: Seq<u8>, key: Seq<u8>, once: Seq<u8>, twice: Seq<u8>)
    requires
        key.len() > 0,
        once.len() == data.len(),
        twice.len() == data.len(),
        forall|i: int| 0 <= i < data.len() ==> #[trigger] once[i] == xor_at(data, key, i),
        forall|i: int| 0 <= i < data.len() ==> #[trigger] twice[i] == xor_at(once, key, i),
    ensures
        twice == data,
{
    assert forall|i: int| 0 <= i < data.len() implies twice[i] == data[i] by {
        let k = key[i % key.len() as int];
        let d = data[i];
        assert((d ^ k) ^ k == d) by (bit_vector);
        assert(once[i] == d ^ k);
    }
    assert(twice =~= data);
}

/// The text std's `String::from_utf8_lossy` makes of some bytes: invalid sequences
/// become the replacement character.
pub uninterp spec fn utf8_lossy(bytes: Seq<u8>) -> Seq<char>;

/// std's `String::from_utf8_lossy`. Trusted: the result is named `utf8_lossy` of the
/// bytes, and valid UTF-8 is decoded as it is; which replacement characters stand for
/// invalid sequences is not stated here.
#[verifier::external_body]
pub(crate) fn from_utf8_lossy(bytes: &[u8]) -> (s: String)
    ensures
        s@ == utf8_lossy(bytes@),
        valid_utf8(bytes@) ==> s@ == decode_utf8(bytes@),
{
    String::from_utf8_lossy(bytes).into_owned()
}

/// std's `str::from_utf8`. Trusted: it succeeds exactly on valid UTF-8 (as vstd's
/// `valid_utf8` describes it) and decodes it.
#[verifier::external_body]
pub(crate) fn from_utf8(bytes: &[u8]) -> (r: Option<String>)
    ensures
        r is Some <==> valid_utf8(bytes@),
        r matches Some(s) ==> s@ == decode_utf8(bytes@),
{
    match std::str::from_utf8(bytes) {
        Ok(s) => Some(s.to_string()),
        Err(_) => None,
    }
}

/// The text of a received message: the first `bytes_read` bytes of the buffer, after
/// combining the whole buffer with the key, read as UTF-8 with invalid sequences
/// replaced.
pub fn decode_message(buffer: &[u8], bytes_read: usize, key: &[u8]) -> (s: String)
    requires
        key@.len() > 0,
        bytes_read <= buffer@.len(),
    ensures
        s@ == utf8_lossy(Seq::new(bytes_read as nat, |i: int| xor_at(buffer@, key@, i))),
{
    let msg = encrypt_decrypt(buffer, key);
    let mut head: Vec<u8> = Vec::new();
    let mut i: usize = 0;
    while i < bytes_read
        invariant
            i <= bytes_read <= buffer@.len(),
            msg@.len() == buffer@.len(),
            forall|j: int| 0 <= j < buffer@.len() ==> #[trigger] msg@[j] == xor_at(buffer@, key@, j),
            head@ =~= Seq::new(i as nat, |j: int| xor_at(buffer@, key@, j)),
        decreases bytes_read - i,
    {
        head.push(msg[i]);
        i = i + 1;
    }
    from_utf8_lossy(&head)
}

} // verus!
