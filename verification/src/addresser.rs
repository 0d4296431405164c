//! Turning natural keys of one, two, or three strings into fixed-length
//! radix addresses and human-readable normalized keys.
//!
//! An address is `prefix + segment_1 + ... + segment_n`, exactly
//! [`ADDRESS_LENGTH`] characters long, where each segment is a truncated
//! hexadecimal SHA-512 digest of one key component. The segment lengths are
//! fixed at construction; every `compute` call re-checks that they and the
//! prefix sum to exactly [`ADDRESS_LENGTH`] and reports a configuration
//! error otherwise, rather than producing a malformed address.

use vstd::prelude::*;

use crate::error::SimpleStateError;
use crate::ADDRESS_LENGTH;

use crypto::digest::Digest;
use crypto::sha2::Sha512;

verus! {

/// True of the sixteen characters that lowercase hexadecimal strings are
/// made of.
pub open spec fn is_hex_char(c: char) -> bool {
    ('0' as u32) <= (c as u32) <= ('9' as u32) || ('a' as u32) <= (c as u32) <= ('f' as u32)
}

/// True when every character of `s` is a lowercase hexadecimal digit.
pub open spec fn is_hex_seq(s: Seq<char>) -> bool {
    forall|i: int| 0 <= i < s.len() ==> is_hex_char(#[trigger] s[i])
}

/// The 512-bit SHA-512 digest of the UTF-8 bytes of a string, written as
/// 128 lowercase hexadecimal characters.
pub uninterp spec fn sha512_hex_of(s: Seq<char>) -> Seq<char>;

/// Relies on crypto::sha2::Sha512 through crypto::digest::Digest (`input`
/// and `result_str`): the digest of the input bytes as a 64-byte value,
/// written as 128 lowercase hexadecimal characters; a function of the input
/// alone.
#[verifier::external_body]
pub(crate) fn sha512_hex(key: &str) -> (r: String)
    ensures
        r@ == sha512_hex_of(key@),
        r@.len() == 128,
        is_hex_seq(r@),
{
    let mut sha = Sha512::new();
    sha.input(key.as_bytes());
    sha.result_str()
}

/// The first `hash_length` characters of the hexadecimal SHA-512 digest of
/// `key`: one address segment.
pub fn hash(hash_length: usize, key: &str) -> (r: String)
    requires
        hash_length <= 128,
    ensures
        r@ == sha512_hex_of(key@).take(hash_length as int),
        r@.len() == hash_length,
        is_hex_seq(r@),
{
    let full = sha512_hex(key);
    let prefix = vstd::string::StrSliceExecFns::substring_char(full.as_str(), 0, hash_length);
    let r = prefix.to_owned();
    proof {
        assert(r@ =~= sha512_hex_of(key@).take(hash_length as int));
    }
    r
}

/// A strategy that turns a natural key of type `K` into a radix address and
/// a normalized key.
pub trait Addresser<K> {
    /// The namespace prefix this addresser stamps on every address.
    spec fn spec_prefix(&self) -> Seq<char>;

    /// The address `compute` returns for `keys`, or `None` when the
    /// configured prefix and segment lengths cannot fill an address of
    /// exactly [`ADDRESS_LENGTH`] characters.
    spec fn spec_compute(&self, keys: &K) -> Option<Seq<char>>;

    /// The normalized key `normalize` returns for `keys`.
    spec fn spec_normalize(&self, keys: &K) -> Seq<char>;

    /// Returns the radix address calculated from the given keys.
    ///
    /// Fails exactly when the configuration cannot produce an address of
    /// [`ADDRESS_LENGTH`] characters; the address returned otherwise starts
    /// with the prefix and continues with hexadecimal digest characters.
    fn compute(&self, keys: &K) -> (r: Result<String, SimpleStateError>)
        ensures
            match r {
                Ok(addr) => {
                    &&& self.spec_compute(keys) == Some(addr@)
                    &&& addr@.len() == ADDRESS_LENGTH as int
                    &&& self.spec_prefix().len() <= ADDRESS_LENGTH as int
                    &&& addr@.take(self.spec_prefix().len() as int) == self.spec_prefix()
                    &&& forall|i: int|
                        self.spec_prefix().len() <= i < addr@.len() ==> is_hex_char(
                            #[trigger] addr@[i],
                        )
                },
                Err(e) => {
                    &&& self.spec_compute(keys) is None
                    &&& e matches SimpleStateError::AddresserError(_)
                },
            },
    ;

    /// Returns a human readable string of the given keys.
    fn normalize(&self, keys: &K) -> (r: String)
        ensures
            r@ == self.spec_normalize(keys),
    ;
}

/// Addresses single-string keys: one digest segment fills everything after
/// the prefix.
pub struct KeyHashAddresser {
    pub prefix: String,
}

impl KeyHashAddresser {
    pub fn new(prefix: String) -> (r: KeyHashAddresser)
        ensures
            r.prefix@ == prefix@,
    {
        KeyHashAddresser { prefix }
    }

    /// The length of the single segment: the space the prefix leaves in an
    /// address. Negative when the configuration is broken.
    pub open spec fn spec_hash_length(&self) -> int {
        ADDRESS_LENGTH - self.prefix@.len()
    }

    /// Law: the prefix and the segment length of a single-key addresser
    /// always sum to exactly [`ADDRESS_LENGTH`], and an address is computed
    /// exactly when the segment gets a non-negative length out of an ASCII
    /// prefix; otherwise `compute` reports the configuration error.
    pub proof fn lemma_length_invariant(&self, keys: &String)
        ensures
            self.spec_prefix().len() + self.spec_hash_length() == ADDRESS_LENGTH as int,
            self.spec_compute(keys) is Some <==> (vstd::utf8::is_ascii_chars(self.prefix@)
                && self.spec_hash_length() >= 0),
    {
    }
}

impl Addresser<String> for KeyHashAddresser {
    open spec fn spec_prefix(&self) -> Seq<char> {
        self.prefix@
    }

    open spec fn spec_compute(&self, keys: &String) -> Option<Seq<char>> {
        if vstd::utf8::is_ascii_chars(self.prefix@) && self.prefix@.len() <= ADDRESS_LENGTH as int {
            Some(self.prefix@ + sha512_hex_of(keys@).take(ADDRESS_LENGTH - self.prefix@.len()))
        } else {
            None
        }
    }

    open spec fn spec_normalize(&self, keys: &String) -> Seq<char> {
        keys@
    }

    fn compute(&self, keys: &String) -> (r: Result<String, SimpleStateError>) {
        let p = self.prefix.as_str();
        if !p.is_ascii() || vstd::string::StrSliceExecFns::unicode_len(p) > ADDRESS_LENGTH {
            return Err(SimpleStateError::AddresserError("Incorrect hash length".to_owned()));
        }
        let hash_length = ADDRESS_LENGTH - vstd::string::StrSliceExecFns::unicode_len(p);
        let h = hash(hash_length, keys.as_str());
        let addr = vstd::string::StringExecFns::concat(self.prefix.clone(), h.as_str());
        proof {
            assert(addr@.take(self.prefix@.len() as int) =~= self.prefix@);
            assert(forall|i: int|
                self.prefix@.len() <= i < addr@.len() ==> is_hex_char(#[trigger] addr@[i])) by {
                assert(forall|i: int|
                    self.prefix@.len() <= i < addr@.len() ==> addr@[i] == h@[i - self.prefix@.len()]);
            }
        }
        Ok(addr)
    }

    fn normalize(&self, keys: &String) -> (r: String) {
        keys.clone()
    }
}

/// Half of `avail`, the space left for a segment whose length was not fixed
/// by the caller; an exhausted budget leaves zero.
pub open spec fn spec_half_remainder(avail: int) -> int {
    if avail >= 0 {
        avail / 2
    } else {
        0
    }
}

/// A third of `avail`, rounded down; an exhausted budget leaves zero.
pub open spec fn spec_third_remainder(avail: int) -> int {
    if avail >= 0 {
        avail / 3
    } else {
        0
    }
}

/// The first and second segment lengths of a triple-key addresser, as
/// [`calculate_hash_lengths`] fixes them from the optional overrides.
pub open spec fn spec_calculate_hash_lengths(
    prefix_length: int,
    first_length: Option<usize>,
    second_length: Option<usize>,
) -> (int, int) {
    match (first_length, second_length) {
        (Some(first), Some(second)) => (first as int, second as int),
        (None, Some(second)) => (
            spec_half_remainder(ADDRESS_LENGTH - prefix_length - second),
            second as int,
        ),
        (Some(first), None) => (
            first as int,
            spec_half_remainder(ADDRESS_LENGTH - prefix_length - first),
        ),
        (None, None) => (
            spec_third_remainder(ADDRESS_LENGTH - prefix_length),
            spec_third_remainder(ADDRESS_LENGTH - prefix_length),
        ),
    }
}

/// Calculates the lengths of the first two key hashes used to create an
/// address by the [`TripleKeyHashAddresser`]: a fixed override is kept as
/// given, an open first or second slot takes half of what remains after the
/// other override, and two open slots each take a third of the space after
/// the prefix. The third segment always absorbs the exact remainder at
/// `compute` time.
pub fn calculate_hash_lengths(
    prefix_length: usize,
    first_length: Option<usize>,
    second_length: Option<usize>,
) -> (r: (usize, usize))
    ensures
        (r.0 as int, r.1 as int) == spec_calculate_hash_lengths(
            prefix_length as int,
            first_length,
            second_length,
        ),
{
    match (first_length, second_length) {
        (Some(first), Some(second)) => (first, second),
        (None, Some(second)) => {
            let first = if prefix_length <= ADDRESS_LENGTH && second <= ADDRESS_LENGTH
                - prefix_length {
                (ADDRESS_LENGTH - prefix_length - second) / 2
            } else {
                0
            };
            (first, second)
        },
        (Some(first), None) => {
            let second = if prefix_length <= ADDRESS_LENGTH && first <= ADDRESS_LENGTH
                - prefix_length {
                (ADDRESS_LENGTH - prefix_length - first) / 2
            } else {
                0
            };
            (first, second)
        },
        (None, None) => {
            let each = if prefix_length <= ADDRESS_LENGTH {
                (ADDRESS_LENGTH - prefix_length) / 3
            } else {
                0
            };
            (each, each)
        },
    }
}

/// Addresses two-string keys: the first segment's length is fixed at
/// construction (or defaults to half the space after the prefix) and the
/// second segment absorbs the exact remainder.
pub struct DoubleKeyHashAddresser {
    pub prefix: String,
    pub first_hash_length: usize,
}

impl DoubleKeyHashAddresser {
    pub fn new(prefix: String, first_hash_length: Option<usize>) -> (r: DoubleKeyHashAddresser)
        ensures
            r.prefix@ == prefix@,
            r.first_hash_length as int == (match first_hash_length {
                Some(l) => l as int,
                None => spec_half_remainder(ADDRESS_LENGTH - prefix@.len()),
            }),
    {
        let plen = vstd::string::StrSliceExecFns::unicode_len(prefix.as_str());
        let first = match first_hash_length {
            Some(l) => l,
            None => if plen <= ADDRESS_LENGTH {
                (ADDRESS_LENGTH - plen) / 2
            } else {
                0
            },
        };
        DoubleKeyHashAddresser { prefix, first_hash_length: first }
    }

    /// The length of the second segment: the space the prefix and the first
    /// segment leave in an address. Negative when the configuration is
    /// broken.
    pub open spec fn spec_second_hash_length(&self) -> int {
        ADDRESS_LENGTH - self.prefix@.len() - self.first_hash_length
    }

    /// Law: the prefix and the two segment lengths of a double-key
    /// addresser always sum to exactly [`ADDRESS_LENGTH`], and an address
    /// is computed exactly when each segment gets a non-negative length out
    /// of an ASCII prefix; otherwise `compute` reports the configuration
    /// error.
    pub proof fn lemma_length_invariant(&self, keys: &(String, String))
        ensures
            self.spec_prefix().len() + self.first_hash_length + self.spec_second_hash_length()
                == ADDRESS_LENGTH as int,
            self.spec_compute(keys) is Some <==> (vstd::utf8::is_ascii_chars(self.prefix@)
                && self.spec_second_hash_length() >= 0),
    {
    }
}

impl Addresser<(String, String)> for DoubleKeyHashAddresser {
    open spec fn spec_prefix(&self) -> Seq<char> {
        self.prefix@
    }

    open spec fn spec_compute(&self, keys: &(String, String)) -> Option<Seq<char>> {
        let p = self.prefix@.len() as int;
        let f = self.first_hash_length as int;
        if vstd::utf8::is_ascii_chars(self.prefix@) && p + f <= ADDRESS_LENGTH as int {
            Some(
                self.prefix@ + sha512_hex_of(keys.0@).take(f) + sha512_hex_of(keys.1@).take(
                    ADDRESS_LENGTH - p - f,
                ),
            )
        } else {
            None
        }
    }

    open spec fn spec_normalize(&self, keys: &(String, String)) -> Seq<char> {
        keys.0@ + "_"@ + keys.1@
    }

    fn compute(&self, keys: &(String, String)) -> (r: Result<String, SimpleStateError>) {
        let p = self.prefix.as_str();
        let plen = vstd::string::StrSliceExecFns::unicode_len(p);
        if !p.is_ascii() || plen > ADDRESS_LENGTH {
            return Err(SimpleStateError::AddresserError("Incorrect hash length".to_owned()));
        }
        let hash_length = ADDRESS_LENGTH - plen;
        if self.first_hash_length > hash_length {
            return Err(SimpleStateError::AddresserError("Incorrect hash length".to_owned()));
        }
        let second_hash_length = hash_length - self.first_hash_length;
        let first_hash = hash(self.first_hash_length, keys.0.as_str());
        let second_hash = hash(second_hash_length, keys.1.as_str());
        let addr = vstd::string::StringExecFns::concat(
            vstd::string::StringExecFns::concat(self.prefix.clone(), first_hash.as_str()),
            second_hash.as_str(),
        );
        proof {
            let pl = self.prefix@.len() as int;
            let f = self.first_hash_length as int;
            assert(addr@ =~= self.prefix@ + sha512_hex_of(keys.0@).take(f) + sha512_hex_of(
                keys.1@,
            ).take(ADDRESS_LENGTH - pl - f));
            assert(addr@.take(pl) =~= self.prefix@);
            assert forall|i: int| pl <= i < addr@.len() implies is_hex_char(addr@[i]) by {
                if i < pl + f {
                    assert(addr@[i] == first_hash@[i - pl]);
                } else {
                    assert(addr@[i] == second_hash@[i - pl - f]);
                }
            }
        }
        Ok(addr)
    }

    fn normalize(&self, keys: &(String, String)) -> (r: String) {
        vstd::string::StringExecFns::concat(
            vstd::string::StringExecFns::concat(keys.0.clone(), "_"),
            keys.1.as_str(),
        )
    }
}

/// Addresses three-string keys: the first two segment lengths are fixed at
/// construction (see [`calculate_hash_lengths`]) and the third segment
/// absorbs the exact remainder.
pub struct TripleKeyHashAddresser {
    pub prefix: String,
    pub first_hash_length: usize,
    pub second_hash_length: usize,
}

impl TripleKeyHashAddresser {
    pub fn new(
        prefix: String,
        first_hash_length: Option<usize>,
        second_hash_length: Option<usize>,
    ) -> (r: TripleKeyHashAddresser)
        ensures
            r.prefix@ == prefix@,
            (r.first_hash_length as int, r.second_hash_length as int)
                == spec_calculate_hash_lengths(
                prefix@.len() as int,
                first_hash_length,
                second_hash_length,
            ),
    {
        let plen = vstd::string::StrSliceExecFns::unicode_len(prefix.as_str());
        let (first, second) = calculate_hash_lengths(plen, first_hash_length, second_hash_length);
        TripleKeyHashAddresser { prefix, first_hash_length: first, second_hash_length: second }
    }

    /// The length of the third segment: the space the prefix and the first
    /// two segments leave in an address. Negative when the configuration is
    /// broken.
    pub open spec fn spec_last_hash_length(&self) -> int {
        ADDRESS_LENGTH - self.prefix@.len() - self.first_hash_length - self.second_hash_length
    }

    /// Law: the prefix and the three segment lengths of a triple-key
    /// addresser always sum to exactly [`ADDRESS_LENGTH`], and an address
    /// is computed exactly when each segment gets a non-negative length out
    /// of an ASCII prefix; otherwise `compute` reports the configuration
    /// error.
    pub proof fn lemma_length_invariant(&self, keys: &(String, String, String))
        ensures
            self.spec_prefix().len() + self.first_hash_length + self.second_hash_length
                + self.spec_last_hash_length() == ADDRESS_LENGTH as int,
            self.spec_compute(keys) is Some <==> (vstd::utf8::is_ascii_chars(self.prefix@)
                && self.spec_last_hash_length() >= 0),
    {
    }
}

impl Addresser<(String, String, String)> for TripleKeyHashAddresser {
    open spec fn spec_prefix(&self) -> Seq<char> {
        self.prefix@
    }

    open spec fn spec_compute(&self, keys: &(String, String, String)) -> Option<Seq<char>> {
        let p = self.prefix@.len() as int;
        let f = self.first_hash_length as int;
        let s = self.second_hash_length as int;
        if vstd::utf8::is_ascii_chars(self.prefix@) && p + f + s <= ADDRESS_LENGTH as int {
            Some(
                self.prefix@ + sha512_hex_of(keys.0@).take(f) + sha512_hex_of(keys.1@).take(s)
                    + sha512_hex_of(keys.2@).take(ADDRESS_LENGTH - p - f - s),
            )
        } else {
            None
        }
    }

    open spec fn spec_normalize(&self, keys: &(String, String, String)) -> Seq<char> {
        keys.0@ + "_"@ + keys.1@ + "_"@ + keys.2@
    }

    fn compute(&self, keys: &(String, String, String)) -> (r: Result<String, SimpleStateError>) {
        let p = self.prefix.as_str();
        let plen = vstd::string::StrSliceExecFns::unicode_len(p);
        if !p.is_ascii() || plen > ADDRESS_LENGTH {
            return Err(SimpleStateError::AddresserError("Incorrect hash length".to_owned()));
        }
        let hash_length = ADDRESS_LENGTH - plen;
        if self.first_hash_length > hash_length || self.second_hash_length > hash_length
            - self.first_hash_length {
            return Err(SimpleStateError::AddresserError("Incorrect hash length".to_owned()));
        }
        let last_hash_length = hash_length - self.first_hash_length - self.second_hash_length;
        let first_hash = hash(self.first_hash_length, keys.0.as_str());
        let second_hash = hash(self.second_hash_length, keys.1.as_str());
        let third_hash = hash(last_hash_length, keys.2.as_str());
        let addr = vstd::string::StringExecFns::concat(
            vstd::string::StringExecFns::concat(
                vstd::string::StringExecFns::concat(self.prefix.clone(), first_hash.as_str()),
                second_hash.as_str(),
            ),
            third_hash.as_str(),
        );
        proof {
            let pl = self.prefix@.len() as int;
            let f = self.first_hash_length as int;
            let s = self.second_hash_length as int;
            assert(addr@ =~= self.prefix@ + sha512_hex_of(keys.0@).take(f) + sha512_hex_of(
                keys.1@,
            ).take(s) + sha512_hex_of(keys.2@).take(ADDRESS_LENGTH - pl - f - s));
            assert(addr@.take(pl) =~= self.prefix@);
            assert forall|i: int| pl <= i < addr@.len() implies is_hex_char(addr@[i]) by {
                if i < pl + f {
                    assert(addr@[i] == first_hash@[i - pl]);
                } else if i < pl + f + s {
                    assert(addr@[i] == second_hash@[i - pl - f]);
                } else {
                    assert(addr@[i] == third_hash@[i - pl - f - s]);
                }
            }
        }
        Ok(addr)
    }

    fn normalize(&self, keys: &(String, String, String)) -> (r: String) {
        vstd::string::StringExecFns::concat(
            vstd::string::StringExecFns::concat(
                vstd::string::StringExecFns::concat(
                    vstd::string::StringExecFns::concat(keys.0.clone(), "_"),
                    keys.1.as_str(),
                ),
                "_",
            ),
            keys.2.as_str(),
        )
    }
}

/// Law: address computation is deterministic. One addresser configuration
/// and one natural key admit a single address: any two successful
/// computations of the same addresser on the same keys return it.
pub proof fn lemma_compute_deterministic<K, A: Addresser<K>>(
    a: &A,
    keys: &K,
    addr1: Seq<char>,
    addr2: Seq<char>,
)
    requires
        a.spec_compute(keys) == Some(addr1),
        a.spec_compute(keys) == Some(addr2),
    ensures
        addr1 == addr2,
{
}

/// Law: every address a successful `compute` returns is made of hexadecimal
/// characters alone whenever the configured prefix is. `compute`'s ensures
/// already gives the address's length, its prefix, and that everything
/// after the prefix is hexadecimal; this closes the prefix part.
pub proof fn lemma_address_is_hex(prefix: Seq<char>, addr: Seq<char>)
    requires
        is_hex_seq(prefix),
        prefix.len() <= addr.len(),
        addr.take(prefix.len() as int) == prefix,
        forall|i: int| prefix.len() <= i < addr.len() ==> is_hex_char(#[trigger] addr[i]),
    ensures
        is_hex_seq(addr),
{
    assert forall|i: int| 0 <= i < addr.len() implies is_hex_char(addr[i]) by {
        if i < prefix.len() {
            assert(addr[i] == addr.take(prefix.len() as int)[i]);
        }
    }
}

} // verus!
