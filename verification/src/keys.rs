//! Demonstration key material: repeating-key XOR encryption and a keyed
//! deterministic tag. Not cryptographically secure; it shows the shape of a
//! searchable-encryption API.

use vstd::prelude::*;

verus! {

/// Fills `dest` with bytes from `rand::thread_rng()` through `rand::Rng::fill`.
/// The bytes are random: only the length is stated. (`thread_rng` panics if
/// the operating system's random source cannot seed it.)
#[verifier::external_body]
fn fill_random(dest: &mut Vec<u8>)
    ensures
        final(dest)@.len() == old(dest)@.len(),
{
    rand::Rng::fill(&mut rand::thread_rng(), &mut dest[..]);
}

/// `len` fresh random bytes.
pub fn random_bytes(len: usize) -> (r: Vec<u8>)
    ensures
        r@.len() == len,
{
    let mut v: Vec<u8> = Vec::new();
    let mut i: usize = 0;
    while i < len
        invariant
            i <= len,
            v@.len() == i,
        decreases len - i,
    {
        v.push(0u8);
        i = i + 1;
    }
    fill_random(&mut v);
    v
}

/// Repeating-key XOR of `data` with `key`.
pub open spec fn xor_with_key(data: Seq<u8>, key: Seq<u8>) -> Seq<u8> {
    Seq::new(data.len(), |i: int| data[i] ^ key[i % key.len() as int])
}

/// The byte that plaintext position `i` folds into the tag.
pub open spec fn tag_mix(data: Seq<u8>, key: Seq<u8>, i: int) -> u8 {
    data[i].wrapping_add(key[i % key.len() as int]).wrapping_add((i % 256) as u8)
}

/// The 32-byte tag after folding the first `n` plaintext bytes: byte `i`
/// is XORed into slot `i % 32`.
pub open spec fn tag_fold(data: Seq<u8>, key: Seq<u8>, n: nat) -> Seq<u8>
    decreases n,
{
    if n == 0 {
        Seq::new(32, |i: int| 0u8)
    } else {
        let t = tag_fold(data, key, (n - 1) as nat);
        let slot = (n - 1) % 32;
        t.update(slot, t[slot] ^ tag_mix(data, key, n - 1))
    }
}

/// Cascades `t[i] += t[i - 1]` (wrapping) for `i` in `1..n`, in order.
pub open spec fn tag_cascade(t: Seq<u8>, n: nat) -> Seq<u8>
    decreases n,
{
    if n <= 1 {
        t
    } else {
        let c = tag_cascade(t, (n - 1) as nat);
        c.update(n - 1, c[n - 1].wrapping_add(c[n - 2]))
    }
}

/// The deterministic tag of `data` under `key`.
pub open spec fn tag_of(key: Seq<u8>, data: Seq<u8>) -> Seq<u8> {
    tag_cascade(tag_fold(data, key, data.len()), 32)
}

/// A symmetric key for the demonstration encryption scheme.
#[derive(Debug, Clone)]
pub struct SecretKey {
    key_bytes: Vec<u8>,
}

/// Public key (placeholder for FHE schemes where the server needs it).
#[derive(Debug, Clone)]
pub struct PublicKey {
    key_bytes: Vec<u8>,
}

/// A key pair consisting of a public and secret key.
#[derive(Debug, Clone)]
pub struct KeyPair {
    pub public_key: PublicKey,
    pub secret_key: SecretKey,
}

impl View for SecretKey {
    type V = Seq<u8>;

    closed spec fn view(&self) -> Seq<u8> {
        self.key_bytes@
    }
}

impl View for PublicKey {
    type V = Seq<u8>;

    closed spec fn view(&self) -> Seq<u8> {
        self.key_bytes@
    }
}

impl KeyPair {
    /// Generate a new key pair: 32 random bytes of secret key, and a public
    /// key derived from it by hashing, the secret's deterministic tag of its
    /// own bytes (an identifier, with no asymmetric security property).
    pub fn generate() -> (r: Self)
        ensures
            r.secret_key@.len() == 32,
            r.public_key@ == tag_of(r.secret_key@, r.secret_key@),
            r.public_key@.len() == 32,
    {
        let secret_key = SecretKey { key_bytes: random_bytes(32) };
        let public_bytes = secret_key.deterministic_tag(secret_key.key_bytes.as_slice());
        proof { lemma_tag_length(secret_key@, secret_key@); }
        KeyPair { public_key: PublicKey { key_bytes: public_bytes }, secret_key }
    }
}

impl SecretKey {
    /// Create a secret key from raw bytes.
    pub fn from_bytes(bytes: Vec<u8>) -> (r: Self)
        ensures
            r@ == bytes@,
    {
        Self { key_bytes: bytes }
    }

    /// Get the raw key bytes.
    pub fn as_bytes(&self) -> (r: &[u8])
        ensures
            r@ == self@,
    {
        self.key_bytes.as_slice()
    }

    /// Encrypt plaintext bytes with repeating-key XOR. An empty key is only
    /// usable on empty input.
    pub fn encrypt_bytes(&self, plaintext: &[u8]) -> (r: Vec<u8>)
        requires
            plaintext@.len() > 0 ==> self@.len() > 0,
        ensures
            r@ == xor_with_key(plaintext@, self@),
    {
        let n = self.key_bytes.len();
        let mut out: Vec<u8> = Vec::new();
        let mut i: usize = 0;
        while i < plaintext.len()
            invariant
                i <= plaintext@.len(),
                n == self.key_bytes@.len(),
                plaintext@.len() > 0 ==> n > 0,
                out@ == xor_with_key(plaintext@, self.key_bytes@).take(i as int),
            decreases plaintext@.len() - i,
        {
            out.push(plaintext[i] ^ self.key_bytes[i % n]);
            i = i + 1;
            assert(out@ =~= xor_with_key(plaintext@, self.key_bytes@).take(i as int));
        }
        assert(out@ =~= xor_with_key(plaintext@, self.key_bytes@));
        out
    }

    /// Decrypt ciphertext bytes: XOR is its own inverse, so this is the same
    /// operation as encryption with the same key.
    pub fn decrypt_bytes(&self, ciphertext: &[u8]) -> (r: Vec<u8>)
        requires
            ciphertext@.len() > 0 ==> self@.len() > 0,
        ensures
            r@ == xor_with_key(ciphertext@, self@),
    {
        self.encrypt_bytes(ciphertext)
    }

    /// A deterministic 32-byte tag for `plaintext`: the same key and
    /// plaintext always give the same tag, so tags can be compared for
    /// equality without revealing the plaintext.
    pub fn deterministic_tag(&self, plaintext: &[u8]) -> (r: Vec<u8>)
        requires
            plaintext@.len() > 0 ==> self@.len() > 0,
        ensures
            r@ == tag_of(self@, plaintext@),
    {
        let n = self.key_bytes.len();
        let mut tag: Vec<u8> = Vec::new();
        let mut j: usize = 0;
        while j < 32
            invariant
                j <= 32,
                tag@.len() == j,
                forall|t: int| 0 <= t < j ==> tag@[t] == 0u8,
            decreases 32 - j,
        {
            tag.push(0u8);
            j = j + 1;
        }
        assert(tag@ =~= tag_fold(plaintext@, self.key_bytes@, 0));
        let mut i: usize = 0;
        while i < plaintext.len()
            invariant
                i <= plaintext@.len(),
                n == self.key_bytes@.len(),
                plaintext@.len() > 0 ==> n > 0,
                tag@ == tag_fold(plaintext@, self.key_bytes@, i as nat),
                tag@.len() == 32,
            decreases plaintext@.len() - i,
        {
            let key_byte = self.key_bytes[i % n];
            let mixed = plaintext[i].wrapping_add(key_byte).wrapping_add((i % 256) as u8);
            let slot = i % 32;
            let updated = tag[slot] ^ mixed;
            tag.set(slot, updated);
            i = i + 1;
        }
        let mut k: usize = 1;
        while k < 32
            invariant
                1 <= k <= 32,
                tag@ == tag_cascade(tag_fold(plaintext@, self.key_bytes@, plaintext@.len()), k as nat),
                tag@.len() == 32,
            decreases 32 - k,
        {
            let updated = tag[k].wrapping_add(tag[k - 1]);
            tag.set(k, updated);
            k = k + 1;
        }
        tag
    }
}

impl PublicKey {
    /// Create a public key from raw bytes.
    pub fn from_bytes(bytes: Vec<u8>) -> (r: Self)
        ensures
            r@ == bytes@,
    {
        Self { key_bytes: bytes }
    }

    /// Get the raw key bytes.
    pub fn as_bytes(&self) -> (r: &[u8])
        ensures
            r@ == self@,
    {
        self.key_bytes.as_slice()
    }
}

/// Decrypting what was encrypted with the same key gives the plaintext back.
pub proof fn lemma_xor_roundtrip(data: Seq<u8>, key: Seq<u8>)
    ensures
        xor_with_key(xor_with_key(data, key), key) == data,
{
    assert forall|i: int| 0 <= i < data.len() implies #[trigger] xor_with_key(xor_with_key(data, key), key)[i] == data[i] by {
        let a = data[i];
        let b = key[i % key.len() as int];
        assert((a ^ b) ^ b == a) by (bit_vector);
    }
    assert(xor_with_key(xor_with_key(data, key), key) =~= data);
}

/// Every tag is 32 bytes long, whatever the plaintext's length.
pub proof fn lemma_tag_length(key: Seq<u8>, data: Seq<u8>)
    ensures
        tag_of(key, data).len() == 32,
{
    lemma_tag_fold_length(data, key, data.len());
    lemma_tag_cascade_length(tag_fold(data, key, data.len()), 32);
}

proof fn lemma_tag_fold_length(data: Seq<u8>, key: Seq<u8>, n: nat)
    ensures
        tag_fold(data, key, n).len() == 32,
    decreases n,
{
    if n > 0 {
        lemma_tag_fold_length(data, key, (n - 1) as nat);
    }
}

proof fn lemma_tag_cascade_length(t: Seq<u8>, n: nat)
    requires
        n <= t.len(),
    ensures
        tag_cascade(t, n).len() == t.len(),
    decreases n,
{
    if n > 1 {
        lemma_tag_cascade_length(t, (n - 1) as nat);
    }
}


proof fn lemma_wrapping_add_cancel(x: u8, y: u8, p: u8)
    requires
        x.wrapping_add(p) == y.wrapping_add(p),
    ensures
        x == y,
{
}

/// Before any slot is folded twice (at most 32 bytes), slot `i` of the
/// fold holds the mix of plaintext byte `i`, or 0 past the bytes folded.
proof fn lemma_tag_fold_slots(data: Seq<u8>, key: Seq<u8>, n: nat)
    requires
        n <= 32,
        n <= data.len(),
    ensures
        tag_fold(data, key, n).len() == 32,
        forall|i: int| 0 <= i < 32 ==> #[trigger] tag_fold(data, key, n)[i] == if i < n {
            tag_mix(data, key, i)
        } else {
            0u8
        },
    decreases n,
{
    if n > 0 {
        lemma_tag_fold_slots(data, key, (n - 1) as nat);
        let m = tag_mix(data, key, n - 1);
        assert(0u8 ^ m == m) by (bit_vector);
    }
}

/// The running sums that the cascade leaves in a 32-byte tag.
pub open spec fn running_sum(t: Seq<u8>, i: int) -> u8
    decreases i,
{
    if i <= 0 {
        t[0]
    } else {
        t[i].wrapping_add(running_sum(t, i - 1))
    }
}

proof fn lemma_cascade_sums(t: Seq<u8>, n: nat)
    requires
        1 <= n <= t.len(),
    ensures
        tag_cascade(t, n).len() == t.len(),
        forall|i: int| 0 <= i < n ==> #[trigger] tag_cascade(t, n)[i] == running_sum(t, i),
        forall|i: int| n <= i < t.len() ==> #[trigger] tag_cascade(t, n)[i] == t[i],
    decreases n,
{
    if n > 1 {
        lemma_cascade_sums(t, (n - 1) as nat);
    }
}

proof fn lemma_running_sums_determine(t: Seq<u8>, u: Seq<u8>, i: int)
    requires
        0 <= i < t.len(),
        t.len() == u.len(),
        forall|j: int| 0 <= j <= i ==> #[trigger] running_sum(t, j) == running_sum(u, j),
    ensures
        forall|j: int| 0 <= j <= i ==> t[j] == u[j],
    decreases i,
{
    if i > 0 {
        lemma_running_sums_determine(t, u, i - 1);
        assert(running_sum(t, i) == running_sum(u, i));
        assert(running_sum(t, i - 1) == running_sum(u, i - 1));
        lemma_wrapping_add_cancel(t[i], u[i], running_sum(t, i - 1));
    } else {
        assert(running_sum(t, 0) == running_sum(u, 0));
    }
}

/// Tags tell plaintexts apart: under the same non-empty key, two different
/// plaintexts of the same length, at most 32 bytes, get different tags, as
/// every byte of the plaintext reaches the tag.
pub proof fn lemma_tag_separates(key: Seq<u8>, a: Seq<u8>, b: Seq<u8>)
    requires
        key.len() > 0,
        a.len() == b.len(),
        a.len() <= 32,
        a != b,
    ensures
        tag_of(key, a) != tag_of(key, b),
{
    let n = a.len();
    assert(exists|i: int| 0 <= i < n && a[i] != b[i]) by {
        if forall|i: int| 0 <= i < n ==> a[i] == b[i] {
            assert(a =~= b);
        }
    }
    let i = choose|i: int| 0 <= i < n && a[i] != b[i];
    let ta = tag_fold(a, key, n);
    let tb = tag_fold(b, key, n);
    lemma_tag_fold_slots(a, key, n);
    lemma_tag_fold_slots(b, key, n);
    lemma_cascade_sums(ta, 32);
    lemma_cascade_sums(tb, 32);
    assert(ta[i] == tag_mix(a, key, i));
    assert(tb[i] == tag_mix(b, key, i));
    if tag_of(key, a) == tag_of(key, b) {
        assert forall|j: int| 0 <= j <= 31 implies #[trigger] running_sum(ta, j) == running_sum(tb, j) by {
            assert(tag_of(key, a)[j] == tag_of(key, b)[j]);
        }
        lemma_running_sums_determine(ta, tb, 31);
        assert(ta[i] == tb[i]);
        let k = key[i % key.len() as int];
        let c = (i % 256) as u8;
        lemma_wrapping_add_cancel(a[i].wrapping_add(k), b[i].wrapping_add(k), c);
        lemma_wrapping_add_cancel(a[i], b[i], k);
    }
}


/// Tags depend on the key: a plaintext of at most 32 bytes gets different
/// tags under two keys of the same length whose bytes differ at a position
/// that some plaintext byte is mixed with.
pub proof fn lemma_tag_depends_on_key(k1: Seq<u8>, k2: Seq<u8>, data: Seq<u8>, i: int)
    requires
        k1.len() == k2.len(),
        k1.len() > 0,
        data.len() <= 32,
        0 <= i < data.len(),
        k1[i % k1.len() as int] != k2[i % k2.len() as int],
    ensures
        tag_of(k1, data) != tag_of(k2, data),
{
    let n = data.len();
    let ta = tag_fold(data, k1, n);
    let tb = tag_fold(data, k2, n);
    lemma_tag_fold_slots(data, k1, n);
    lemma_tag_fold_slots(data, k2, n);
    lemma_cascade_sums(ta, 32);
    lemma_cascade_sums(tb, 32);
    assert(ta[i] == tag_mix(data, k1, i));
    assert(tb[i] == tag_mix(data, k2, i));
    if tag_of(k1, data) == tag_of(k2, data) {
        assert forall|j: int| 0 <= j <= 31 implies #[trigger] running_sum(ta, j) == running_sum(tb, j) by {
            assert(tag_of(k1, data)[j] == tag_of(k2, data)[j]);
        }
        lemma_running_sums_determine(ta, tb, 31);
        let a = k1[i % k1.len() as int];
        let b = k2[i % k2.len() as int];
        let c = (i % 256) as u8;
        lemma_wrapping_add_cancel(data[i].wrapping_add(a), data[i].wrapping_add(b), c);
        lemma_wrapping_add_commutes(data[i], a);
        lemma_wrapping_add_commutes(data[i], b);
        lemma_wrapping_add_cancel(a, b, data[i]);
    }
}

proof fn lemma_wrapping_add_commutes(x: u8, y: u8)
    ensures
        x.wrapping_add(y) == y.wrapping_add(x),
{
}

} // verus!
