//! Encrypted values, labels and nodes. Labels carry a deterministic tag so
//! that equality can be checked without decryption, plus a randomized
//! encryption for confidentiality.

use vstd::prelude::*;
use vstd::utf8::{decode_utf8, encode_utf8, valid_utf8};

use crate::keys::{random_bytes, tag_of, xor_with_key, SecretKey, lemma_xor_roundtrip};
use crate::types::NodeId;

verus! {

/// Calls `String::from_utf8`. Per std's documentation it succeeds exactly when
/// the bytes are valid UTF-8, and the string then holds the decoded characters.
#[verifier::external_body]
fn string_from_utf8(bytes: Vec<u8>) -> (r: Option<String>)
    ensures
        r is Some <==> valid_utf8(bytes@),
        r matches Some(s) ==> s@ == decode_utf8(bytes@),
{
    String::from_utf8(bytes).ok()
}

/// Number of random nonce bytes mixed into every encryption.
pub const NONCE_LEN: usize = 16;

/// An encrypted string value (label or property value): the ciphertext of
/// `nonce ++ plaintext`, and the nonce.
#[derive(Debug, Clone)]
pub struct EncryptedValue {
    pub ciphertext: Vec<u8>,
    /// Random nonce mixed in before encryption for uniqueness,
    /// even when the same plaintext is encrypted multiple times.
    pub nonce: Vec<u8>,
}

/// What decryption recovers from `combined = nonce ++ plaintext`: everything
/// after the nonce, or nothing when there is nothing after it.
pub open spec fn strip_nonce(combined: Seq<u8>, nonce_len: nat) -> Seq<u8> {
    if combined.len() > nonce_len {
        combined.skip(nonce_len as int)
    } else {
        Seq::empty()
    }
}

impl EncryptedValue {
    /// `self` is `plaintext` encrypted under `key` with its nonce.
    pub open spec fn encrypts(self, key: Seq<u8>, plaintext: Seq<u8>) -> bool {
        self.ciphertext@ == xor_with_key(self.nonce@ + plaintext, key)
    }

    /// The plaintext that decryption with `key` yields.
    pub open spec fn plaintext_under(self, key: Seq<u8>) -> Seq<u8> {
        strip_nonce(xor_with_key(self.ciphertext@, key), self.nonce@.len())
    }

    /// Encrypt a plaintext byte slice with a random 16-byte nonce.
    pub fn encrypt(plaintext: &[u8], key: &SecretKey) -> (r: Self)
        requires
            key@.len() > 0,
        ensures
            r.nonce@.len() == NONCE_LEN,
            r.encrypts(key@, plaintext@),
    {
        let nonce = random_bytes(NONCE_LEN);
        Self::encrypt_with_nonce(plaintext, key, nonce)
    }

    /// Encrypt `plaintext` with the given nonce: the ciphertext is the key's
    /// encryption of `nonce ++ plaintext`.
    pub fn encrypt_with_nonce(plaintext: &[u8], key: &SecretKey, nonce: Vec<u8>) -> (r: Self)
        requires
            nonce@.len() + plaintext@.len() > 0 ==> key@.len() > 0,
        ensures
            r.nonce@ == nonce@,
            r.encrypts(key@, plaintext@),
    {
        let mut combined: Vec<u8> = Vec::new();
        let mut i: usize = 0;
        while i < nonce.len()
            invariant
                i <= nonce@.len(),
                combined@ == nonce@.take(i as int),
            decreases nonce@.len() - i,
        {
            combined.push(nonce[i]);
            i = i + 1;
            assert(combined@ =~= nonce@.take(i as int));
        }
        let mut j: usize = 0;
        while j < plaintext.len()
            invariant
                j <= plaintext@.len(),
                combined@ == nonce@ + plaintext@.take(j as int),
            decreases plaintext@.len() - j,
        {
            combined.push(plaintext[j]);
            j = j + 1;
            assert(combined@ =~= nonce@ + plaintext@.take(j as int));
        }
        assert(nonce@.take(nonce@.len() as int) =~= nonce@);
        assert(plaintext@.take(plaintext@.len() as int) =~= plaintext@);
        let ciphertext = key.encrypt_bytes(combined.as_slice());
        EncryptedValue { ciphertext, nonce }
    }

    /// Decrypt the value back to plaintext bytes (the bytes after the nonce).
    pub fn decrypt(&self, key: &SecretKey) -> (r: Vec<u8>)
        requires
            self.ciphertext@.len() > 0 ==> key@.len() > 0,
        ensures
            r@ == self.plaintext_under(key@),
    {
        let combined = key.decrypt_bytes(self.ciphertext.as_slice());
        let n = self.nonce.len();
        let mut out: Vec<u8> = Vec::new();
        if combined.len() > n {
            let mut i: usize = n;
            while i < combined.len()
                invariant
                    n <= i <= combined@.len(),
                    out@ == combined@.subrange(n as int, i as int),
                decreases combined@.len() - i,
            {
                out.push(combined[i]);
                i = i + 1;
                assert(out@ =~= combined@.subrange(n as int, i as int));
            }
        }
        assert(combined@.len() > n ==> out@ =~= combined@.skip(n as int));
        out
    }
}

/// An encrypted label that supports equality comparison under encryption.
#[derive(Debug, Clone)]
pub struct EncryptedLabel {
    /// Deterministic encryption of the label (allows equality checks).
    pub deterministic_tag: Vec<u8>,
    /// Randomized encryption of the label (for security and decryption).
    pub encrypted_value: EncryptedValue,
}

/// The text a label decrypts to from its plaintext bytes: their UTF-8
/// decoding, or the empty string when they are not valid UTF-8.
pub open spec fn text_of(bytes: Seq<u8>) -> Seq<char> {
    if valid_utf8(bytes) {
        decode_utf8(bytes)
    } else {
        Seq::empty()
    }
}

impl EncryptedLabel {
    /// `self` is the encryption of the text `label` under `key`.
    pub open spec fn encrypts(self, key: Seq<u8>, label: Seq<char>) -> bool {
        &&& self.deterministic_tag@ == tag_of(key, encode_utf8(label))
        &&& self.encrypted_value.encrypts(key, encode_utf8(label))
    }

    /// Create an encrypted label from a plaintext label string, with a random
    /// nonce for the randomized part.
    pub fn encrypt(label: &str, key: &SecretKey) -> (r: Self)
        requires
            key@.len() > 0,
        ensures
            r.encrypts(key@, label@),
            r.encrypted_value.nonce@.len() == NONCE_LEN,
    {
        let nonce = random_bytes(NONCE_LEN);
        Self::encrypt_with_nonce(label, key, nonce)
    }

    /// Create an encrypted label using the given nonce for the randomized part.
    pub fn encrypt_with_nonce(label: &str, key: &SecretKey, nonce: Vec<u8>) -> (r: Self)
        requires
            nonce@.len() + label@.len() > 0 ==> key@.len() > 0,
        ensures
            r.encrypts(key@, label@),
            r.encrypted_value.nonce@ == nonce@,
    {
        let bytes = label.as_bytes();
        proof {
            if label@.len() == 0 {
                assert(label@ =~= Seq::<char>::empty());
            }
        }
        let deterministic_tag = key.deterministic_tag(bytes);
        let encrypted_value = EncryptedValue::encrypt_with_nonce(bytes, key, nonce);
        EncryptedLabel { deterministic_tag, encrypted_value }
    }

    /// Check if two encrypted labels represent the same plaintext by
    /// comparing their deterministic tags.
    pub fn matches(&self, other: &EncryptedLabel) -> (r: bool)
        ensures
            r == (self.deterministic_tag@ == other.deterministic_tag@),
    {
        let n = self.deterministic_tag.len();
        if n != other.deterministic_tag.len() {
            return false;
        }
        let mut i: usize = 0;
        while i < n
            invariant
                i <= n,
                n == self.deterministic_tag@.len(),
                n == other.deterministic_tag@.len(),
                forall|j: int| 0 <= j < i ==> self.deterministic_tag@[j] == other.deterministic_tag@[j],
            decreases n - i,
        {
            if self.deterministic_tag[i] != other.deterministic_tag[i] {
                assert(self.deterministic_tag@[i as int] != other.deterministic_tag@[i as int]);
                return false;
            }
            i = i + 1;
        }
        assert(self.deterministic_tag@ =~= other.deterministic_tag@);
        true
    }

    /// Decrypt to recover the plaintext label string; bytes that are not
    /// valid UTF-8 give the empty string.
    pub fn decrypt(&self, key: &SecretKey) -> (r: String)
        requires
            self.encrypted_value.ciphertext@.len() > 0 ==> key@.len() > 0,
        ensures
            r@ == text_of(self.encrypted_value.plaintext_under(key@)),
    {
        let bytes = self.encrypted_value.decrypt(key);
        match string_from_utf8(bytes) {
            Some(s) => s,
            None => String::new(),
        }
    }
}

/// An encrypted node where labels and property values are encrypted; the
/// node ID remains in plaintext for indexing.
#[derive(Debug, Clone)]
pub struct EncryptedNode {
    /// Node ID remains unencrypted for graph structure operations.
    pub id: NodeId,
    /// Each label is individually encrypted, supporting per-label matching.
    pub encrypted_labels: Vec<EncryptedLabel>,
    /// All properties are encrypted as a single JSON blob.
    pub encrypted_properties: EncryptedValue,
}

/// The text the properties blob decrypts to: its UTF-8 decoding, or `{}`
/// when the bytes are not valid UTF-8.
pub open spec fn properties_text_of(bytes: Seq<u8>) -> Seq<char> {
    if valid_utf8(bytes) {
        decode_utf8(bytes)
    } else {
        seq!['{', '}']
    }
}

impl EncryptedNode {
    /// Some label of `self` carries the same tag as `query`.
    pub open spec fn has_label_tag(self, query: EncryptedLabel) -> bool {
        exists|i: int| 0 <= i < self.encrypted_labels@.len()
            && (#[trigger] self.encrypted_labels@[i]).deterministic_tag@ == query.deterministic_tag@
    }

    /// Every ciphertext of `self` can be decrypted with `key` (a key is
    /// needed for any non-empty ciphertext).
    pub open spec fn decryptable_with(self, key: Seq<u8>) -> bool {
        &&& (self.encrypted_properties.ciphertext@.len() > 0 ==> key.len() > 0)
        &&& forall|i: int| 0 <= i < self.encrypted_labels@.len()
            ==> ((#[trigger] self.encrypted_labels@[i]).encrypted_value.ciphertext@.len() > 0 ==> key.len() > 0)
    }

    /// Encrypt a node given as its id, labels and properties (as JSON text).
    /// Labels and properties are encrypted; the ID is preserved.
    pub fn from_parts(id: NodeId, labels: &Vec<String>, properties_json: &str, key: &SecretKey) -> (r: Self)
        requires
            key@.len() > 0,
        ensures
            r.id == id,
            r.encrypted_labels@.len() == labels@.len(),
            forall|i: int| 0 <= i < labels@.len() ==> (#[trigger] r.encrypted_labels@[i]).encrypts(key@, labels@[i]@),
            r.encrypted_properties.encrypts(key@, encode_utf8(properties_json@)),
            r.encrypted_properties.nonce@.len() == NONCE_LEN,
    {
        let mut encrypted_labels: Vec<EncryptedLabel> = Vec::new();
        let mut i: usize = 0;
        while i < labels.len()
            invariant
                i <= labels@.len(),
                key@.len() > 0,
                encrypted_labels@.len() == i,
                forall|j: int| 0 <= j < i ==> (#[trigger] encrypted_labels@[j]).encrypts(key@, labels@[j]@),
            decreases labels@.len() - i,
        {
            encrypted_labels.push(EncryptedLabel::encrypt(labels[i].as_str(), key));
            i = i + 1;
        }
        let encrypted_properties = EncryptedValue::encrypt(properties_json.as_bytes(), key);
        EncryptedNode { id, encrypted_labels, encrypted_properties }
    }

    /// Decrypt to the node's labels and its properties as JSON text.
    pub fn to_parts(&self, key: &SecretKey) -> (r: (Vec<String>, String))
        requires
            self.decryptable_with(key@),
        ensures
            r.0@.len() == self.encrypted_labels@.len(),
            forall|i: int| 0 <= i < r.0@.len() ==> (#[trigger] r.0@[i])@
                == text_of(self.encrypted_labels@[i].encrypted_value.plaintext_under(key@)),
            r.1@ == properties_text_of(self.encrypted_properties.plaintext_under(key@)),
    {
        let mut labels: Vec<String> = Vec::new();
        let mut i: usize = 0;
        while i < self.encrypted_labels.len()
            invariant
                i <= self.encrypted_labels@.len(),
                self.decryptable_with(key@),
                labels@.len() == i,
                forall|j: int| 0 <= j < i ==> (#[trigger] labels@[j])@
                    == text_of(self.encrypted_labels@[j].encrypted_value.plaintext_under(key@)),
            decreases self.encrypted_labels@.len() - i,
        {
            assert(self.encrypted_labels@[i as int].encrypted_value.ciphertext@.len() > 0 ==> key@.len() > 0);
            labels.push(self.encrypted_labels[i].decrypt(key));
            i = i + 1;
        }
        let bytes = self.encrypted_properties.decrypt(key);
        let properties = match string_from_utf8(bytes) {
            Some(s) => s,
            None => {
                proof { reveal_strlit("{}"); }
                String::from_str("{}")
            },
        };
        (labels, properties)
    }

    /// Check if this encrypted node has a label matching the given encrypted
    /// label, comparing tags only.
    pub fn has_encrypted_label(&self, query: &EncryptedLabel) -> (r: bool)
        ensures
            r == self.has_label_tag(*query),
    {
        let mut i: usize = 0;
        while i < self.encrypted_labels.len()
            invariant
                i <= self.encrypted_labels@.len(),
                forall|j: int| 0 <= j < i ==> (#[trigger] self.encrypted_labels@[j]).deterministic_tag@ != query.deterministic_tag@,
            decreases self.encrypted_labels@.len() - i,
        {
            if self.encrypted_labels[i].matches(query) {
                return true;
            }
            i = i + 1;
        }
        false
    }
}

/// Decrypting an encrypted value with the key it was encrypted under gives
/// the plaintext back, whatever the nonce.
pub proof fn lemma_value_roundtrip(v: EncryptedValue, key: Seq<u8>, plaintext: Seq<u8>)
    requires
        v.encrypts(key, plaintext),
    ensures
        v.plaintext_under(key) == plaintext,
{
    lemma_xor_roundtrip(v.nonce@ + plaintext, key);
    let combined = v.nonce@ + plaintext;
    if combined.len() > v.nonce@.len() {
        assert(combined.skip(v.nonce@.len() as int) =~= plaintext);
    } else {
        assert(plaintext =~= Seq::<u8>::empty());
    }
}

/// Decrypting an encrypted label with the key it was encrypted under gives
/// the label text back.
pub proof fn lemma_label_roundtrip(l: EncryptedLabel, key: Seq<u8>, label: Seq<char>)
    requires
        l.encrypts(key, label),
    ensures
        text_of(l.encrypted_value.plaintext_under(key)) == label,
{
    broadcast use vstd::utf8::encode_utf8_valid_utf8, vstd::utf8::encode_utf8_decode_utf8;
    lemma_value_roundtrip(l.encrypted_value, key, encode_utf8(label));
}

/// Two labels encrypted from the same text under the same key match, whatever
/// their nonces.
pub proof fn lemma_same_label_matches(a: EncryptedLabel, b: EncryptedLabel, key: Seq<u8>, label: Seq<char>)
    requires
        a.encrypts(key, label),
        b.encrypts(key, label),
    ensures
        a.deterministic_tag@ == b.deterministic_tag@,
{
}

} // verus!
