//! The MPQ cipher: a precomputed 1280-entry table, the string hash that keys
//! the directory and the files, and the word-wise stream cipher used for the
//! directory tables and for encrypted sectors.

use vstd::prelude::*;

verus! {

use vstd::bytes::{spec_u32_from_le_bytes, spec_u32_to_le_bytes, u32_from_le_bytes, u32_to_le_bytes};
use vstd::slice::slice_subrange;
use vstd::string::StringSliceAdditionalSpecFns;

/// The pseudorandom seed after `n` steps of the table recurrence
/// `s := (s * 125 + 3) mod 0x2AAAAB`, starting from 0x0010_0001.
pub open spec fn seed_at(n: nat) -> u32
    decreases n,
{
    if n == 0 {
        0x0010_0001u32
    } else {
        ((seed_at((n - 1) as nat) * 125 + 3) % 0x2AAAAB) as u32
    }
}

/// Entry `k` of the cipher table. The table is generated cell by cell in the
/// order `(i, j)` for `i` in 0..256 and `j` in 0..5, each cell `i + 0x100 * j`
/// packing two 16-bit halves drawn from consecutive seeds.
pub open spec fn table_entry(k: int) -> u32 {
    let i = k % 0x100;
    let j = k / 0x100;
    let n = 5 * i + j;
    let hi = seed_at((2 * n + 1) as nat);
    let lo = seed_at((2 * n + 2) as nat);
    ((hi & 0xFFFF) << 16) | (lo & 0xFFFF)
}

/// A filename byte as the hash sees it: forward slashes become backslashes
/// and lower-case ASCII letters become upper case.
pub open spec fn norm_byte(b: u8) -> u8 {
    if b == 0x2F {
        0x5C
    } else if 0x61 <= b && b <= 0x7A {
        (b - 0x20) as u8
    } else {
        b
    }
}

/// The two hash accumulators after folding the first `n` bytes of `name`,
/// starting from `(0x7FED7FED, 0xEEEEEEEE)`.
pub open spec fn hash_state(name: Seq<u8>, offset: u32, n: int) -> (u32, u32)
    decreases n,
{
    if n <= 0 {
        (0x7FED7FEDu32, 0xEEEEEEEEu32)
    } else {
        let (s1, s2) = hash_state(name, offset, n - 1);
        let b = norm_byte(name[n - 1]);
        let ns1 = table_entry(offset + b) ^ s1.wrapping_add(s2);
        let ns2 = (b as u32).wrapping_add(ns1).wrapping_add(s2).wrapping_add(s2 << 5).wrapping_add(
            3,
        );
        (ns1, ns2)
    }
}

/// The MPQ string hash of `name` under table segment `offset`.
pub open spec fn spec_hash_string(name: Seq<u8>, offset: u32) -> u32 {
    hash_state(name, offset, name.len() as int).0
}

proof fn lemma_hash_state_normalization(a: Seq<u8>, b: Seq<u8>, offset: u32, n: int)
    requires
        a.len() == b.len(),
        n <= a.len(),
        forall|i: int| 0 <= i < a.len() ==> norm_byte(a[i]) == norm_byte(b[i]),
    ensures
        hash_state(a, offset, n) == hash_state(b, offset, n),
    decreases n,
{
    if n > 0 {
        lemma_hash_state_normalization(a, b, offset, n - 1);
    }
}

/// The hash ignores letter case and the direction of slashes: two names whose
/// bytes normalize alike hash alike, under every table segment.
pub proof fn lemma_hash_string_normalization(a: Seq<u8>, b: Seq<u8>, offset: u32)
    requires
        a.len() == b.len(),
        forall|i: int| 0 <= i < a.len() ==> norm_byte(a[i]) == norm_byte(b[i]),
    ensures
        spec_hash_string(a, offset) == spec_hash_string(b, offset),
{
    lemma_hash_state_normalization(a, b, offset, a.len() as int);
}

/// The next cipher key in the decryption schedule.
pub open spec fn key_next(k: u32) -> u32 {
    ((!k) << 0x15).wrapping_add(0x11111111) | (k >> 0x0B)
}

/// The running seed after mixing in the table entry selected by the key.
pub open spec fn seed_mix(s2: u32, k: u32) -> u32 {
    s2.wrapping_add(table_entry(0x400 + (k & 0xFF)))
}

/// The next running seed, folded over the plaintext word `w`.
pub open spec fn seed_next(w: u32, s2: u32) -> u32 {
    w.wrapping_add(s2).wrapping_add(s2 << 5).wrapping_add(3)
}

/// Cipher state `(key, seed)` before word `n` when decrypting `words` with
/// `key`. The seed folds over plaintext, so the schedule is the same whether
/// the words pass through encryption or decryption.
pub open spec fn decrypt_state(words: Seq<u32>, key: u32, n: int) -> (u32, u32)
    decreases n,
{
    if n <= 0 {
        (key, 0xEEEEEEEEu32)
    } else {
        let (k, s2) = decrypt_state(words, key, n - 1);
        let s2b = seed_mix(s2, k);
        let plain = words[n - 1] ^ k.wrapping_add(s2b);
        (key_next(k), seed_next(plain, s2b))
    }
}

/// Word `i` of the decryption of `words` under `key`.
pub open spec fn decrypted_word(words: Seq<u32>, key: u32, i: int) -> u32 {
    let (k, s2) = decrypt_state(words, key, i);
    words[i] ^ k.wrapping_add(seed_mix(s2, k))
}

/// Cipher state `(key, seed)` before word `n` when encrypting the plaintext
/// `words` with `key`.
pub open spec fn encrypt_state(words: Seq<u32>, key: u32, n: int) -> (u32, u32)
    decreases n,
{
    if n <= 0 {
        (key, 0xEEEEEEEEu32)
    } else {
        let (k, s2) = encrypt_state(words, key, n - 1);
        let s2b = seed_mix(s2, k);
        (key_next(k), seed_next(words[n - 1], s2b))
    }
}

/// Word `i` of the encryption of the plaintext `words` under `key`.
pub open spec fn encrypted_word(words: Seq<u32>, key: u32, i: int) -> u32 {
    let (k, s2) = encrypt_state(words, key, i);
    words[i] ^ k.wrapping_add(seed_mix(s2, k))
}

/// The consecutive little-endian words of a byte buffer; trailing bytes that
/// do not fill a word are not part of it.
pub open spec fn words_of(data: Seq<u8>) -> Seq<u32> {
    Seq::new((data.len() / 4) as nat, |i: int| spec_u32_from_le_bytes(data.subrange(4 * i, 4 * i + 4)))
}

/// `data` decrypted with `key`: each whole little-endian word is replaced by
/// its decryption; trailing bytes are untouched.
pub open spec fn spec_decrypt(data: Seq<u8>, key: u32) -> Seq<u8> {
    Seq::new(
        data.len(),
        |j: int|
            if j < 4 * (data.len() as int / 4) {
                spec_u32_to_le_bytes(decrypted_word(words_of(data), key, j / 4))[j % 4]
            } else {
                data[j]
            },
    )
}

/// `data` encrypted with `key`: the inverse of [`spec_decrypt`].
pub open spec fn spec_encrypt(data: Seq<u8>, key: u32) -> Seq<u8> {
    Seq::new(
        data.len(),
        |j: int|
            if j < 4 * (data.len() as int / 4) {
                spec_u32_to_le_bytes(encrypted_word(words_of(data), key, j / 4))[j % 4]
            } else {
                data[j]
            },
    )
}

/// The decryption of every word of `words` under `key`.
pub open spec fn decrypted_words(words: Seq<u32>, key: u32) -> Seq<u32> {
    Seq::new(words.len(), |i: int| decrypted_word(words, key, i))
}

proof fn lemma_cipher_states_agree(words: Seq<u32>, key: u32, n: int)
    requires
        0 <= n <= words.len(),
    ensures
        encrypt_state(decrypted_words(words, key), key, n) == decrypt_state(words, key, n),
    decreases n,
{
    if n > 0 {
        lemma_cipher_states_agree(words, key, n - 1);
    }
}

proof fn lemma_word_roundtrip(words: Seq<u32>, key: u32, i: int)
    requires
        0 <= i < words.len(),
    ensures
        encrypted_word(decrypted_words(words, key), key, i) == words[i],
{
    lemma_cipher_states_agree(words, key, i);
    let (k, s2) = decrypt_state(words, key, i);
    let m = k.wrapping_add(seed_mix(s2, k));
    let w = words[i];
    assert((w ^ m) ^ m == w) by (bit_vector);
}

/// The cipher round-trips: decrypting a buffer with a key and re-encrypting
/// the result with the same key restores the original bytes.
pub proof fn lemma_decrypt_encrypt_roundtrip(data: Seq<u8>, key: u32)
    ensures
        spec_encrypt(spec_decrypt(data, key), key) == data,
{
    let dec = spec_decrypt(data, key);
    let words = words_of(data);
    vstd::bytes::lemma_auto_spec_u32_to_from_le_bytes();
    assert forall|i: int| 0 <= i < words.len() implies words_of(dec)[i] == decrypted_words(
        words,
        key,
    )[i] by {
        assert forall|t: int| 0 <= t < 4 implies dec.subrange(4 * i, 4 * i + 4)[t]
            == spec_u32_to_le_bytes(decrypted_word(words, key, i))[t] by {
            assert((4 * i + t) / 4 == i && (4 * i + t) % 4 == t);
        }
        assert(dec.subrange(4 * i, 4 * i + 4) =~= spec_u32_to_le_bytes(
            decrypted_word(words, key, i),
        ));
    }
    assert(words_of(dec) =~= decrypted_words(words, key));
    assert forall|j: int| 0 <= j < data.len() implies spec_encrypt(dec, key)[j] == data[j] by {
        if j < 4 * (data.len() as int / 4) {
            let i = j / 4;
            lemma_word_roundtrip(words, key, i);
            assert(spec_u32_to_le_bytes(words[i]) == data.subrange(4 * i, 4 * i + 4));
            assert(spec_encrypt(dec, key)[j] == spec_u32_to_le_bytes(words[i])[j % 4]);
            assert(data.subrange(4 * i, 4 * i + 4)[j % 4] == data[j]);
        }
    }
    assert(spec_encrypt(dec, key) =~= data);
}

/// The cipher table, computed once per archive and read-only afterwards.
pub struct CryptTable {
    table: Vec<u32>,
}

impl CryptTable {
    /// The table holds exactly the 0x500 entries of the MPQ recurrence.
    pub closed spec fn wf(&self) -> bool {
        &&& self.table@.len() == 0x500
        &&& forall|k: int| 0 <= k < 0x500 ==> self.table@[k] == table_entry(k)
    }

    pub fn new() -> (r: CryptTable)
        ensures
            r.wf(),
    {
        // Seeds first: seeds[m] == seed_at(m) for every step the table uses.
        let mut seeds: Vec<u32> = Vec::new();
        let mut s: u32 = 0x0010_0001;
        seeds.push(s);
        let mut m: usize = 0;
        while m < 2560
            invariant
                m <= 2560,
                seeds@.len() == m + 1,
                forall|q: int| 0 <= q <= m ==> seeds@[q] == seed_at(q as nat),
                s == seed_at(m as nat),
                s < 0x2AAAAB,
            decreases 2560 - m,
        {
            s = (s * 125 + 3) % 0x2AAAAB;
            seeds.push(s);
            m = m + 1;
        }

        let mut table: Vec<u32> = Vec::new();
        let mut k: usize = 0;
        while k < 0x500
            invariant
                k <= 0x500,
                seeds@.len() == 2561,
                forall|q: int| 0 <= q <= 2560 ==> seeds@[q] == seed_at(q as nat),
                table@.len() == k,
                forall|q: int| 0 <= q < k ==> table@[q] == table_entry(q),
            decreases 0x500 - k,
        {
            let i = k % 0x100;
            let j = k / 0x100;
            let n = 5 * i + j;
            let hi = seeds[2 * n + 1];
            let lo = seeds[2 * n + 2];
            table.push(((hi & 0xFFFF) << 16) | (lo & 0xFFFF));
            k = k + 1;
        }
        CryptTable { table }
    }

    /// Fold the bytes of a name into a 32-bit hash. `offset` selects the
    /// table segment: 0x000 for the slot hash, 0x100 and 0x200 for the check
    /// hashes, 0x300 for file keys.
    pub fn hash_bytes(&self, name: &[u8], offset: u32) -> (r: u32)
        requires
            self.wf(),
            offset <= 0x400,
        ensures
            r == spec_hash_string(name@, offset),
    {
        let mut s1: u32 = 0x7FED7FED;
        let mut s2: u32 = 0xEEEEEEEE;
        let mut i: usize = 0;
        while i < name.len()
            invariant
                self.wf(),
                offset <= 0x400,
                i <= name@.len(),
                (s1, s2) == hash_state(name@, offset, i as int),
            decreases name@.len() - i,
        {
            let mut b = name[i];
            if b == 0x2F {
                b = 0x5C;
            } else if 0x61 <= b && b <= 0x7A {
                b = b - 0x20;
            }
            assert(b == norm_byte(name@[i as int]));
            s1 = self.table[offset as usize + b as usize] ^ s1.wrapping_add(s2);
            s2 = (b as u32).wrapping_add(s1).wrapping_add(s2).wrapping_add(s2 << 5u32)
                .wrapping_add(3);
            i = i + 1;
        }
        s1
    }

    /// The hash of a filename given as a string slice.
    pub fn hash_string(&self, name: &str, offset: u32) -> (r: u32)
        requires
            self.wf(),
            offset <= 0x400,
        ensures
            r == spec_hash_string(name.spec_bytes(), offset),
    {
        self.hash_bytes(name.as_bytes(), offset)
    }

    /// Decrypt `data` in place with `key`, word by word; trailing bytes that
    /// do not fill a 32-bit word are left unmodified.
    pub fn decrypt(&self, data: &mut Vec<u8>, key: u32)
        requires
            self.wf(),
        ensures
            final(data)@ == spec_decrypt(old(data)@, key),
    {
        let ghost orig: Seq<u8> = data@;
        let nwords: usize = data.len() / 4;
        let mut k: u32 = key;
        let mut s2: u32 = 0xEEEEEEEE;
        let mut i: usize = 0;
        while i < nwords
            invariant
                self.wf(),
                orig.len() <= usize::MAX,
                nwords == orig.len() / 4,
                i <= nwords,
                data@.len() == orig.len(),
                (k, s2) == decrypt_state(words_of(orig), key, i as int),
                forall|j: int| 4 * i <= j < orig.len() ==> data@[j] == orig[j],
                forall|j: int| 0 <= j < 4 * i ==> data@[j] == spec_decrypt(orig, key)[j],
            decreases nwords - i,
        {
            assert(data@.subrange(4 * i as int, 4 * i as int + 4) =~= orig.subrange(
                4 * i as int,
                4 * i as int + 4,
            ));
            let w = u32_from_le_bytes(slice_subrange(data.as_slice(), 4 * i, 4 * i + 4));
            assert(w == words_of(orig)[i as int]);
            assert(k & 0xFF < 0x100) by (bit_vector);
            let s2b = s2.wrapping_add(self.table[0x400 + (k & 0xFF) as usize]);
            let plain = w ^ k.wrapping_add(s2b);
            assert(plain == decrypted_word(words_of(orig), key, i as int));
            let bytes = u32_to_le_bytes(plain);
            data[4 * i] = bytes[0];
            data[4 * i + 1] = bytes[1];
            data[4 * i + 2] = bytes[2];
            data[4 * i + 3] = bytes[3];
            k = ((!k) << 0x15u32).wrapping_add(0x11111111) | (k >> 0x0Bu32);
            s2 = plain.wrapping_add(s2b).wrapping_add(s2b << 5u32).wrapping_add(3);
            i = i + 1;
        }
        assert(data@ =~= spec_decrypt(orig, key));
    }

    /// Encrypt `data` in place with `key`: the inverse of [`Self::decrypt`].
    pub fn encrypt(&self, data: &mut Vec<u8>, key: u32)
        requires
            self.wf(),
        ensures
            final(data)@ == spec_encrypt(old(data)@, key),
    {
        let ghost orig: Seq<u8> = data@;
        let nwords: usize = data.len() / 4;
        let mut k: u32 = key;
        let mut s2: u32 = 0xEEEEEEEE;
        let mut i: usize = 0;
        while i < nwords
            invariant
                self.wf(),
                orig.len() <= usize::MAX,
                nwords == orig.len() / 4,
                i <= nwords,
                data@.len() == orig.len(),
                (k, s2) == encrypt_state(words_of(orig), key, i as int),
                forall|j: int| 4 * i <= j < orig.len() ==> data@[j] == orig[j],
                forall|j: int| 0 <= j < 4 * i ==> data@[j] == spec_encrypt(orig, key)[j],
            decreases nwords - i,
        {
            assert(data@.subrange(4 * i as int, 4 * i as int + 4) =~= orig.subrange(
                4 * i as int,
                4 * i as int + 4,
            ));
            let w = u32_from_le_bytes(slice_subrange(data.as_slice(), 4 * i, 4 * i + 4));
            assert(w == words_of(orig)[i as int]);
            assert(k & 0xFF < 0x100) by (bit_vector);
            let s2b = s2.wrapping_add(self.table[0x400 + (k & 0xFF) as usize]);
            let cipher = w ^ k.wrapping_add(s2b);
            assert(cipher == encrypted_word(words_of(orig), key, i as int));
            let bytes = u32_to_le_bytes(cipher);
            data[4 * i] = bytes[0];
            data[4 * i + 1] = bytes[1];
            data[4 * i + 2] = bytes[2];
            data[4 * i + 3] = bytes[3];
            k = ((!k) << 0x15u32).wrapping_add(0x11111111) | (k >> 0x0Bu32);
            s2 = w.wrapping_add(s2b).wrapping_add(s2b << 5u32).wrapping_add(3);
            i = i + 1;
        }
        assert(data@ =~= spec_encrypt(orig, key));
    }
}

} // verus!
