//! An integer-map smart contract: named `u32` counters packed into a
//! hexadecimal CBOR-style map, stored under addresses derived from the
//! `intkey` namespace, and a transaction that multiplies two counters into
//! a third.
//!
//! The map's wire form is a hex string: `A`, the entry count as one hex
//! digit, then for each entry a string marker (`61`..`74`, carrying the
//! name's byte length), the name's bytes in hex, and the value either as
//! two hex digits (values up to 23) or as a width marker (`18`, `19`,
//! `1A`) followed by 2, 4 or 8 hex digits. A value whose shortest even hex
//! form needs six digits cannot be written in this format and is rejected.

use vstd::prelude::*;

use vstd::utf8::{decode_utf8, encode_utf8, valid_utf8};

verus! {

/// The numeric value of one hexadecimal digit, either case.
pub open spec fn spec_hex_val(c: char) -> Option<u32> {
    if ('0' as u32) <= (c as u32) <= ('9' as u32) {
        Some(((c as u32) - ('0' as u32)) as u32)
    } else if ('a' as u32) <= (c as u32) <= ('f' as u32) {
        Some(((c as u32) - ('a' as u32) + 10) as u32)
    } else if ('A' as u32) <= (c as u32) <= ('F' as u32) {
        Some(((c as u32) - ('A' as u32) + 10) as u32)
    } else {
        None
    }
}

/// Sixteen to the given power.
pub open spec fn pow16(i: nat) -> nat
    decreases i,
{
    if i == 0 {
        1
    } else {
        16 * pow16((i - 1) as nat)
    }
}

proof fn lemma_pow16_le(i: nat, j: nat)
    requires
        i <= j,
    ensures
        pow16(i) <= pow16(j),
    decreases j,
{
    if i < j {
        lemma_pow16_le(i, (j - 1) as nat);
        assert(pow16(j) == 16 * pow16((j - 1) as nat));
    }
}

/// The number a run of hexadecimal digits spells, continuing from `acc`.
pub open spec fn spec_parse_hex_acc(s: Seq<char>, acc: nat) -> Option<nat>
    decreases s.len(),
{
    if s.len() == 0 {
        Some(acc)
    } else {
        match spec_hex_val(s[0]) {
            None => None,
            Some(d) => spec_parse_hex_acc(s.drop_first(), (acc * 16 + d) as nat),
        }
    }
}

/// The number a non-empty run of hexadecimal digits spells.
pub open spec fn spec_parse_hex(s: Seq<char>) -> Option<nat> {
    if s.len() == 0 {
        None
    } else {
        spec_parse_hex_acc(s, 0)
    }
}

/// A parse from `acc` is bounded by the digits it can still read.
proof fn lemma_parse_hex_acc_bound(s: Seq<char>, acc: nat)
    ensures
        spec_parse_hex_acc(s, acc) matches Some(v) ==> v < (acc + 1) * pow16(s.len()),
    decreases s.len(),
{
    if s.len() == 0 {
        assert(pow16(s.len()) == 1);
        assert(spec_parse_hex_acc(s, acc) == Some(acc));
        assert(acc < (acc + 1) * pow16(s.len()));
    } else {
        if spec_hex_val(s[0]) is Some {
            let d = spec_hex_val(s[0])->Some_0;
            lemma_parse_hex_acc_bound(s.drop_first(), (acc * 16 + d) as nat);
            assert(d <= 15);
            assert(pow16(s.len()) == 16 * pow16((s.len() - 1) as nat));
            let p = pow16((s.len() - 1) as nat);
            assert((acc * 16 + d + 1) * p <= (acc + 1) * (16 * p)) by (nonlinear_arith)
                requires
                    d <= 15,
                    p >= 0,
            ;
            if spec_parse_hex_acc(s, acc) is Some {
                let v = spec_parse_hex_acc(s, acc)->Some_0;
                assert(spec_parse_hex_acc(s.drop_first(), (acc * 16 + d) as nat) == Some(v));
                assert(v < (acc * 16 + d + 1) * p);
                assert((acc + 1) * pow16(s.len()) == (acc + 1) * (16 * p)) by (nonlinear_arith)
                    requires
                        pow16(s.len()) == 16 * p,
                ;
                assert(v < (acc + 1) * pow16(s.len()));
            }
        }
    }
}

/// The bytes an even run of hexadecimal digits spells, two digits a byte;
/// nothing when a digit is not hexadecimal or the run's length is odd.
pub open spec fn spec_hex_decode(s: Seq<char>) -> Option<Seq<u8>>
    decreases s.len(),
{
    if s.len() == 0 {
        Some(Seq::empty())
    } else if s.len() == 1 {
        None
    } else {
        match (spec_hex_val(s[0]), spec_hex_val(s[1])) {
            (Some(h), Some(l)) => match spec_hex_decode(s.skip(2)) {
                None => None,
                Some(rest) => Some(seq![(h * 16 + l) as u8] + rest),
            },
            _ => None,
        }
    }
}

/// The ASCII code of one uppercase hexadecimal digit.
pub open spec fn spec_hex_digit(n: nat) -> u8 {
    if n < 10 {
        (0x30 + n) as u8
    } else if n < 16 {
        (0x41 + (n - 10)) as u8
    } else {
        0
    }
}

/// A byte run written as uppercase hexadecimal ASCII, two digits a byte.
pub open spec fn spec_hex_upper_bytes(b: Seq<u8>) -> Seq<u8>
    decreases b.len(),
{
    if b.len() == 0 {
        Seq::empty()
    } else {
        seq![spec_hex_digit((b[0] / 16) as nat), spec_hex_digit((b[0] % 16) as nat)]
            + spec_hex_upper_bytes(b.drop_first())
    }
}

/// The characters an ASCII byte run spells.
pub open spec fn ascii_chars(b: Seq<u8>) -> Seq<char> {
    Seq::new(b.len(), |i: int| b[i] as char)
}

/// Relies on hex::decode: it succeeds exactly on even-length hexadecimal
/// input (either case) and returns the bytes the digit pairs spell.
#[verifier::external_body]
pub(crate) fn hex_decode(s: &str) -> (r: Option<Vec<u8>>)
    ensures
        match r {
            Some(v) => spec_hex_decode(s@) == Some(v@),
            None => spec_hex_decode(s@) is None,
        },
{
    hex::decode(s).ok()
}

/// Relies on hex::encode_upper: two uppercase hexadecimal digits for each
/// input byte, here handed back as ASCII bytes.
#[verifier::external_body]
pub(crate) fn hex_encode_upper(b: &[u8]) -> (r: Vec<u8>)
    ensures
        r@ == spec_hex_upper_bytes(b@),
{
    hex::encode_upper(b).into_bytes()
}

/// Uppercase hexadecimal is ASCII.
proof fn lemma_hex_upper_ascii(b: Seq<u8>)
    ensures
        forall|i: int| 0 <= i < spec_hex_upper_bytes(b).len() ==> spec_hex_upper_bytes(b)[i] < 128,
    decreases b.len(),
{
    if b.len() > 0 {
        lemma_hex_upper_ascii(b.drop_first());
        assert(forall|i: int|
            2 <= i < spec_hex_upper_bytes(b).len() ==> spec_hex_upper_bytes(b)[i]
                == spec_hex_upper_bytes(b.drop_first())[i - 2]);
    }
}

/// Turns ASCII bytes into the string they spell.
pub(crate) fn ascii_to_string(bytes: Vec<u8>) -> (r: String)
    requires
        forall|i: int| 0 <= i < bytes@.len() ==> bytes@[i] < 128,
    ensures
        r@ == ascii_chars(bytes@),
{
    let ghost target = ascii_chars(bytes@);
    proof {
        assert(vstd::utf8::is_ascii_chars(target));
        vstd::utf8::is_ascii_chars_encode_utf8(target);
        assert(encode_utf8(target) =~= bytes@);
        vstd::utf8::encode_utf8_valid_utf8(target);
        vstd::utf8::encode_utf8_decode_utf8(target);
    }
    match crate::codec::string_from_utf8(bytes) {
        Some(s) => {
            proof {
                vstd::utf8::encode_utf8_decode_utf8(s@);
                assert(s@ == target);
            }
            s
        },
        None => vstd::pervasive::unreached(),
    }
}

/// Reads `len` hexadecimal characters of `s` starting at character `start`.
fn parse_hex(s: &str, start: usize, len: usize) -> (r: Option<u32>)
    requires
        start + len <= s@.len(),
        s@.len() <= usize::MAX,
        1 <= len <= 8,
    ensures
        match r {
            Some(v) => spec_parse_hex(s@.subrange(start as int, start + len)) == Some(v as nat),
            None => spec_parse_hex(s@.subrange(start as int, start + len)) is None,
        },
{
    let ghost sub = s@.subrange(start as int, start + len);
    let mut acc: u64 = 0;
    let mut i: usize = 0;
    proof {
        assert(sub.skip(0) =~= sub);
    }
    while i < len
        invariant
            i <= len,
            len <= 8,
            start + len <= s@.len(),
            s@.len() <= usize::MAX,
            sub == s@.subrange(start as int, start + len),
            (acc as nat) < pow16(i as nat),
            spec_parse_hex_acc(sub, 0) == spec_parse_hex_acc(sub.skip(i as int), acc as nat),
        decreases len - i,
    {
        let c = vstd::string::StrSliceExecFns::get_char(s, start + i);
        proof {
            assert(sub.skip(i as int)[0] == s@[start + i]);
            assert(sub.skip(i as int).drop_first() =~= sub.skip(i as int + 1));
            assert(pow16((i + 1) as nat) == 16 * pow16(i as nat));
            lemma_pow16_le((i + 1) as nat, 8);
            assert(pow16(8) == 0x1_0000_0000) by {
                assert(pow16(0) == 1);
                assert(pow16(1) == 16);
                assert(pow16(2) == 256);
                assert(pow16(3) == 4096);
                assert(pow16(4) == 0x1_0000);
                assert(pow16(5) == 0x10_0000);
                assert(pow16(6) == 0x100_0000);
                assert(pow16(7) == 0x1000_0000);
            }
        }
        let d: u64 = if '0' <= c && c <= '9' {
            (c as u32 - '0' as u32) as u64
        } else if 'a' <= c && c <= 'f' {
            (c as u32 - 'a' as u32 + 10) as u64
        } else if 'A' <= c && c <= 'F' {
            (c as u32 - 'A' as u32 + 10) as u64
        } else {
            return None;
        };
        acc = acc * 16 + d;
        i += 1;
    }
    proof {
        assert(sub.skip(len as int) =~= Seq::<char>::empty());
        lemma_pow16_le(len as nat, 8);
        assert(pow16(8) == 0x1_0000_0000) by {
            assert(pow16(0) == 1);
            assert(pow16(1) == 16);
            assert(pow16(2) == 256);
            assert(pow16(3) == 4096);
            assert(pow16(4) == 0x1_0000);
            assert(pow16(5) == 0x10_0000);
            assert(pow16(6) == 0x100_0000);
            assert(pow16(7) == 0x1000_0000);
        }
        assert(sub.len() > 0);
    }
    Some(acc as u32)
}


/// Every failure the intkey contract can surface.
#[derive(Debug)]
pub enum ApplyError {
    InvalidTransaction(String),
    InternalError(String),
}

/// Whether the integer map holds the given name.
pub open spec fn spec_map_has(m: Seq<(Seq<char>, u32)>, k: Seq<char>) -> bool {
    exists|i: int| 0 <= i < m.len() && (#[trigger] m[i]).0 == k
}

/// The value the integer map holds under the given name: the value of the
/// first pair under it.
pub open spec fn spec_map_get(m: Seq<(Seq<char>, u32)>, k: Seq<char>) -> Option<u32>
    decreases m.len(),
{
    if m.len() == 0 {
        None
    } else if m[0].0 == k {
        Some(m[0].1)
    } else {
        spec_map_get(m.drop_first(), k)
    }
}

/// The integer map with one name set: an existing pair under the name is
/// replaced in place, a new name goes to the end.
pub open spec fn spec_map_insert(m: Seq<(Seq<char>, u32)>, k: Seq<char>, v: u32) -> Seq<
    (Seq<char>, u32),
>
    decreases m.len(),
{
    if m.len() == 0 {
        seq![(k, v)]
    } else if m[0].0 == k {
        seq![(k, v)] + m.drop_first()
    } else {
        seq![m[0]] + spec_map_insert(m.drop_first(), k, v)
    }
}

/// One parsed entry of the wire form: its name and value, and the position
/// of the character after it.
pub open spec fn spec_parse_intkey_entry(s: Seq<char>, pos: int) -> Option<
    ((Seq<char>, u32), int),
> {
    if pos < 0 || pos + 2 > s.len() {
        None
    } else {
        match spec_parse_hex(s.subrange(pos, pos + 2)) {
            None => None,
            Some(st) => if !(97 <= st <= 116) {
                None
            } else {
                let namelen = (st - 96) * 2;
                if pos + 2 + namelen > s.len() {
                    None
                } else {
                    match spec_hex_decode(s.subrange(pos + 2, pos + 2 + namelen)) {
                        None => None,
                        Some(bytes) => if !valid_utf8(bytes) {
                            None
                        } else {
                            let name = decode_utf8(bytes);
                            let p2 = pos + 2 + namelen;
                            if p2 + 2 > s.len() {
                                None
                            } else {
                                match spec_parse_hex(s.subrange(p2, p2 + 2)) {
                                    None => None,
                                    Some(nt) => if nt > 23 {
                                        let digits: int = if nt == 24 {
                                            2
                                        } else if nt == 25 {
                                            4
                                        } else if nt == 26 {
                                            8
                                        } else {
                                            0
                                        };
                                        if digits == 0 || p2 + 2 + digits > s.len() {
                                            None
                                        } else {
                                            match spec_parse_hex(
                                                s.subrange(p2 + 2, p2 + 2 + digits),
                                            ) {
                                                None => None,
                                                Some(v) => Some(
                                                    ((name, v as u32), p2 + 2 + digits),
                                                ),
                                            }
                                        }
                                    } else {
                                        Some(((name, nt as u32), p2 + 2))
                                    },
                                }
                            }
                        },
                    }
                }
            },
        }
    }
}

/// The map `n` further entries spell, starting at `pos` with `acc` already
/// read.
pub open spec fn spec_decode_intkey_entries(
    s: Seq<char>,
    pos: int,
    n: nat,
    acc: Seq<(Seq<char>, u32)>,
) -> Option<Seq<(Seq<char>, u32)>>
    decreases n,
{
    if n == 0 {
        Some(acc)
    } else {
        match spec_parse_intkey_entry(s, pos) {
            None => None,
            Some(((k, v), p2)) => spec_decode_intkey_entries(
                s,
                p2,
                (n - 1) as nat,
                spec_map_insert(acc, k, v),
            ),
        }
    }
}

/// The integer map a wire-form string spells, or nothing when it is
/// malformed.
pub open spec fn spec_decode_intkey(s: Seq<char>) -> Option<Seq<(Seq<char>, u32)>> {
    if s.len() < 2 || s[0] != 'A' {
        None
    } else {
        match spec_parse_hex(s.subrange(1, 2)) {
            None => None,
            Some(n) => spec_decode_intkey_entries(s, 2, n, Seq::empty()),
        }
    }
}

/// The shortest uppercase hexadecimal digits of a number, most significant
/// first.
pub open spec fn spec_hex_digits(n: nat) -> Seq<u8>
    decreases n,
{
    if n < 16 {
        seq![spec_hex_digit(n)]
    } else {
        spec_hex_digits(n / 16) + seq![spec_hex_digit(n % 16)]
    }
}

/// A number's uppercase hexadecimal digits padded to even length with one
/// leading zero.
pub open spec fn spec_even_hex(n: nat) -> Seq<u8> {
    let d = spec_hex_digits(n);
    if d.len() % 2 == 1 {
        seq![0x30u8] + d
    } else {
        d
    }
}

/// One entry of the wire form: the name's length marker and hexadecimal
/// bytes, then its value; nothing when the name's byte length is out of
/// range or the value's hexadecimal form does not fit a width marker.
pub open spec fn spec_intkey_entry_bytes(k: Seq<char>, v: u32) -> Option<Seq<u8>> {
    let klen = encode_utf8(k).len();
    if klen < 1 || klen > 20 {
        None
    } else {
        let head = spec_hex_digits((96 + klen) as nat) + spec_hex_upper_bytes(encode_utf8(k));
        if v > 23 {
            let d = spec_even_hex(v as nat);
            if d.len() == 2 {
                Some(head + seq![0x31u8, 0x38u8] + d)
            } else if d.len() == 4 {
                Some(head + seq![0x31u8, 0x39u8] + d)
            } else if d.len() == 8 {
                Some(head + seq![0x31u8, 0x41u8] + d)
            } else {
                None
            }
        } else {
            Some(head + spec_even_hex(v as nat))
        }
    }
}

/// The wire-form bytes of every entry of the map, in map order.
pub open spec fn spec_intkey_body(m: Seq<(Seq<char>, u32)>) -> Option<Seq<u8>>
    decreases m.len(),
{
    if m.len() == 0 {
        Some(Seq::empty())
    } else {
        match spec_intkey_body(m.drop_last()) {
            None => None,
            Some(init) => match spec_intkey_entry_bytes(m.last().0, m.last().1) {
                None => None,
                Some(e) => Some(init + e),
            },
        }
    }
}

/// The wire form of an integer map, as ASCII bytes: `A`, the entry count's
/// hexadecimal digits, then the entries.
pub open spec fn spec_encode_intkey(m: Seq<(Seq<char>, u32)>) -> Option<Seq<u8>> {
    match spec_intkey_body(m) {
        None => None,
        Some(body) => Some(seq![0x41u8] + spec_hex_digits(m.len() as nat) + body),
    }
}

/// Appends a number's uppercase hexadecimal digits.
fn push_hex_digits(out: &mut Vec<u8>, n: u32)
    ensures
        final (out)@ == old(out)@ + spec_hex_digits(n as nat),
    decreases n,
{
    if n < 16 {
        let d: u8 = if n < 10 {
            (0x30 + n) as u8
        } else {
            (0x41 + (n - 10)) as u8
        };
        out.push(d);
        proof {
            assert(out@ =~= old(out)@ + spec_hex_digits(n as nat));
        }
    } else {
        push_hex_digits(out, n / 16);
        let r = n % 16;
        let d: u8 = if r < 10 {
            (0x30 + r) as u8
        } else {
            (0x41 + (r - 10)) as u8
        };
        out.push(d);
        proof {
            assert(out@ =~= old(out)@ + spec_hex_digits(n as nat));
        }
    }
}

/// A number's uppercase hexadecimal digits padded to even length.
fn even_hex(n: u32) -> (r: Vec<u8>)
    ensures
        r@ == spec_even_hex(n as nat),
{
    let mut digits: Vec<u8> = Vec::new();
    push_hex_digits(&mut digits, n);
    if digits.len() % 2 == 1 {
        let mut padded: Vec<u8> = Vec::new();
        padded.push(0x30u8);
        let mut i: usize = 0;
        while i < digits.len()
            invariant
                i <= digits@.len(),
                padded@ == seq![0x30u8] + digits@.take(i as int),
            decreases digits@.len() - i,
        {
            padded.push(digits[i]);
            proof {
                assert(padded@ =~= seq![0x30u8] + digits@.take(i as int + 1));
            }
            i += 1;
        }
        proof {
            assert(digits@.take(digits@.len() as int) =~= digits@);
        }
        padded
    } else {
        digits
    }
}

/// Serializes an integer map into its wire-form hex string. Fails when a
/// name's byte length is outside 1 to 20, or a value's hexadecimal form
/// needs six digits and so fits no width marker.
pub fn encode_intkey(map: Vec<(String, u32)>) -> (r: Result<String, ApplyError>)
    requires
        map@.len() <= u32::MAX,
    ensures
        match r {
            Ok(s) => spec_encode_intkey(map.deep_view()) matches Some(b) && s@ == ascii_chars(b),
            Err(e) => {
                &&& spec_encode_intkey(map.deep_view()) is None
                &&& e matches ApplyError::InvalidTransaction(_)
            },
        },
{
    let mut out: Vec<u8> = Vec::new();
    out.push(0x41u8);
    push_hex_digits(&mut out, map.len() as u32);
    let ghost header = seq![0x41u8] + spec_hex_digits(map@.len() as nat);
    proof {
        assert(out@ =~= header);
        assert(spec_intkey_body(map.deep_view().take(0)) =~= Some(Seq::<u8>::empty()));
        assert(out@ =~= header + spec_intkey_body(map.deep_view().take(0))->Some_0);
    }
    let mut i: usize = 0;
    while i < map.len()
        invariant
            i <= map@.len(),
            map.deep_view().len() == map@.len(),
            spec_intkey_body(map.deep_view().take(i as int)) is Some,
            out@ == header + spec_intkey_body(map.deep_view().take(i as int))->Some_0,
        decreases map@.len() - i,
    {
        let ghost prefix = map.deep_view().take(i as int);
        let ghost longer = map.deep_view().take(i as int + 1);
        proof {
            assert(longer.drop_last() =~= prefix);
            assert(longer.last() == map.deep_view()[i as int]);
            assert(map.deep_view()[i as int] == (map@[i as int].0@, map@[i as int].1));
        }
        let key = &map[i].0;
        let value = map[i].1;
        let key_bytes = vstd::string::StrSliceExecFns::as_bytes_vec(key.as_str());
        let key_length = key_bytes.len();
        if key_length < 1 || key_length > 20 {
            proof {
                assert(spec_intkey_entry_bytes(
                    map.deep_view()[i as int].0,
                    map.deep_view()[i as int].1,
                ) is None);
                lemma_body_none(map.deep_view(), i as int);
            }
            return Err(
                ApplyError::InvalidTransaction(
                    "Key must be at least 1 character and no more than 20".to_owned(),
                ),
            );
        }
        push_hex_digits(&mut out, 96 + key_length as u32);
        let mut key_hex = hex_encode_upper(key_bytes.as_slice());
        out.append(&mut key_hex);
        if value > 23 {
            let mut d = even_hex(value);
            let marker: (u8, u8) = if d.len() == 2 {
                (0x31u8, 0x38u8)
            } else if d.len() == 4 {
                (0x31u8, 0x39u8)
            } else if d.len() == 8 {
                (0x31u8, 0x41u8)
            } else {
                proof {
                    assert(spec_intkey_entry_bytes(
                        map.deep_view()[i as int].0,
                        map.deep_view()[i as int].1,
                    ) is None);
                    lemma_body_none(map.deep_view(), i as int);
                }
                return Err(ApplyError::InvalidTransaction("Value is too large".to_owned()));
            };
            out.push(marker.0);
            out.push(marker.1);
            out.append(&mut d);
        } else {
            let mut d = even_hex(value);
            out.append(&mut d);
        }
        proof {
            assert(spec_intkey_entry_bytes(longer.last().0, longer.last().1) is Some);
            assert(out@ =~= header + spec_intkey_body(longer)->Some_0);
        }
        i += 1;
    }
    proof {
        assert(map.deep_view().take(map@.len() as int) =~= map.deep_view());
        lemma_hex_digits_ascii(map@.len() as nat);
        lemma_body_ascii(map.deep_view());
    }
    let s = ascii_to_string(out);
    Ok(s)
}

/// A map with one unencodable entry has no wire form.
proof fn lemma_body_none(m: Seq<(Seq<char>, u32)>, i: int)
    requires
        0 <= i < m.len(),
        spec_intkey_entry_bytes(m[i].0, m[i].1) is None,
    ensures
        spec_intkey_body(m) is None,
    decreases m.len(),
{
    if i < m.len() - 1 {
        assert(m.drop_last()[i] == m[i]);
        lemma_body_none(m.drop_last(), i);
    }
}

/// Hexadecimal digit bytes are ASCII.
proof fn lemma_hex_digits_ascii(n: nat)
    ensures
        forall|i: int| 0 <= i < spec_hex_digits(n).len() ==> spec_hex_digits(n)[i] < 128,
    decreases n,
{
    if n >= 16 {
        lemma_hex_digits_ascii(n / 16);
        assert(forall|i: int|
            0 <= i < spec_hex_digits(n / 16).len() ==> spec_hex_digits(n)[i] == spec_hex_digits(
                n / 16,
            )[i]);
    }
}

/// The wire form of a map is ASCII.
proof fn lemma_body_ascii(m: Seq<(Seq<char>, u32)>)
    ensures
        spec_intkey_body(m) matches Some(b) ==> forall|i: int| 0 <= i < b.len() ==> b[i] < 128,
    decreases m.len(),
{
    if m.len() > 0 && spec_intkey_body(m) is Some {
        lemma_body_ascii(m.drop_last());
        let init = spec_intkey_body(m.drop_last())->Some_0;
        let e = spec_intkey_entry_bytes(m.last().0, m.last().1)->Some_0;
        assert(spec_intkey_body(m)->Some_0 == init + e);
        let k = m.last().0;
        let v = m.last().1;
        let klen = encode_utf8(k).len();
        lemma_hex_digits_ascii((96 + klen) as nat);
        lemma_hex_upper_ascii(encode_utf8(k));
        lemma_hex_digits_ascii(v as nat);
        assert(forall|i: int| 0 <= i < e.len() ==> e[i] < 128) by {
            let head = spec_hex_digits((96 + klen) as nat) + spec_hex_upper_bytes(encode_utf8(k));
            assert(forall|i: int| 0 <= i < head.len() ==> head[i] < 128);
            let d = spec_even_hex(v as nat);
            assert(forall|i: int| 0 <= i < d.len() ==> d[i] < 128);
        }
        assert(forall|i: int|
            0 <= i < (init + e).len() ==> #[trigger] (init + e)[i] < 128);
    }
}



/// The first pair under a name determines `spec_map_get`.
proof fn lemma_map_get_first(m: Seq<(Seq<char>, u32)>, k: Seq<char>, i: int)
    requires
        0 <= i < m.len(),
        m[i].0 == k,
        forall|j: int| 0 <= j < i ==> (#[trigger] m[j]).0 != k,
    ensures
        spec_map_get(m, k) == Some(m[i].1),
    decreases i,
{
    if i > 0 {
        assert(forall|j: int| 0 <= j < i - 1 ==> (#[trigger] m.drop_first()[j]).0 != k);
        assert(m.drop_first()[i - 1] == m[i]);
        lemma_map_get_first(m.drop_first(), k, i - 1);
    }
}

/// Replacing the first pair under a name in place is `spec_map_insert`.
proof fn lemma_map_insert_update(m: Seq<(Seq<char>, u32)>, i: int, k: Seq<char>, v: u32)
    requires
        0 <= i < m.len(),
        m[i].0 == k,
        forall|j: int| 0 <= j < i ==> (#[trigger] m[j]).0 != k,
    ensures
        spec_map_insert(m, k, v) == m.update(i, (k, v)),
    decreases i,
{
    if i == 0 {
        assert(spec_map_insert(m, k, v) =~= m.update(0, (k, v)));
    } else {
        assert(forall|j: int| 0 <= j < i - 1 ==> (#[trigger] m.drop_first()[j]).0 != k);
        assert(m.drop_first()[i - 1] == m[i]);
        lemma_map_insert_update(m.drop_first(), i - 1, k, v);
        assert(spec_map_insert(m, k, v) =~= m.update(i, (k, v)));
    }
}

/// Appending a fresh name is `spec_map_insert`.
proof fn lemma_map_insert_push(m: Seq<(Seq<char>, u32)>, k: Seq<char>, v: u32)
    requires
        forall|j: int| 0 <= j < m.len() ==> (#[trigger] m[j]).0 != k,
    ensures
        spec_map_insert(m, k, v) == m.push((k, v)),
    decreases m.len(),
{
    if m.len() == 0 {
        assert(spec_map_insert(m, k, v) =~= m.push((k, v)));
    } else {
        assert(forall|j: int| 0 <= j < m.len() - 1 ==> (#[trigger] m.drop_first()[j]).0 != k);
        lemma_map_insert_push(m.drop_first(), k, v);
        assert(spec_map_insert(m, k, v) =~= m.push((k, v)));
    }
}

/// Whether two string slices spell the same characters.
fn str_eq(a: &str, b: &str) -> (r: bool)
    ensures
        r == (a@ == b@),
{
    let la = vstd::string::StrSliceExecFns::unicode_len(a);
    let lb = vstd::string::StrSliceExecFns::unicode_len(b);
    if la != lb {
        return false;
    }
    let mut i: usize = 0;
    while i < la
        invariant
            i <= la,
            la == a@.len(),
            la == b@.len(),
            forall|j: int| 0 <= j < i ==> a@[j] == b@[j],
        decreases la - i,
    {
        let ca = vstd::string::StrSliceExecFns::get_char(a, i);
        let cb = vstd::string::StrSliceExecFns::get_char(b, i);
        if ca != cb {
            return false;
        }
        i += 1;
    }
    proof {
        assert(a@ =~= b@);
    }
    true
}

/// The value stored under a name, if the map holds one.
pub fn map_get(m: &Vec<(String, u32)>, k: &str) -> (r: Option<u32>)
    ensures
        r == spec_map_get(m.deep_view(), k@),
{
    let mut i: usize = 0;
    while i < m.len()
        invariant
            i <= m.len(),
            m.deep_view().len() == m@.len(),
            m@.len() == m.len(),
            forall|j: int| 0 <= j < i ==> (#[trigger] m.deep_view()[j]).0 != k@,
        decreases m.len() - i,
    {
        if str_eq(m[i].0.as_str(), k) {
            proof {
                assert(m.deep_view()[i as int] == (m@[i as int].0@, m@[i as int].1));
                lemma_map_get_first(m.deep_view(), k@, i as int);
            }
            return Some(m[i].1);
        }
        proof {
            assert(m.deep_view()[i as int] == (m@[i as int].0@, m@[i as int].1));
        }
        i += 1;
    }
    proof {
        if spec_map_get(m.deep_view(), k@) is Some {
            lemma_map_get_none(m.deep_view(), k@);
        }
    }
    None
}

/// A map with no pair under a name yields nothing for it.
proof fn lemma_map_get_none(m: Seq<(Seq<char>, u32)>, k: Seq<char>)
    requires
        forall|j: int| 0 <= j < m.len() ==> (#[trigger] m[j]).0 != k,
    ensures
        spec_map_get(m, k) is None,
    decreases m.len(),
{
    if m.len() > 0 {
        assert(forall|j: int| 0 <= j < m.len() - 1 ==> (#[trigger] m.drop_first()[j]).0 != k);
        lemma_map_get_none(m.drop_first(), k);
    }
}

/// Sets a name to a value: an existing pair under the name is replaced in
/// place, a new name goes to the end.
pub fn intkey_insert(m: &mut Vec<(String, u32)>, k: String, v: u32)
    ensures
        final (m).deep_view() == spec_map_insert(old(m).deep_view(), k@, v),
{
    let mut i: usize = 0;
    while i < m.len()
        invariant
            i <= m.len(),
            *m == *old(m),
            m.deep_view().len() == m@.len(),
            m@.len() == m.len(),
            forall|j: int| 0 <= j < i ==> (#[trigger] m.deep_view()[j]).0 != k@,
        decreases m.len() - i,
    {
        let matches_here = m[i].0 == k;
        proof {
            assert(m.deep_view()[i as int] == (m@[i as int].0@, m@[i as int].1));
        }
        if matches_here {
            proof {
                assert((m.deep_view()[i as int]).0 == k@);
                lemma_map_insert_update(m.deep_view(), i as int, k@, v);
            }
            let ghost before = m.deep_view();
            m[i] = (k, v);
            proof {
                assert(m.deep_view() =~= before.update(i as int, (k@, v)));
            }
            return ;
        }
        i += 1;
    }
    proof {
        lemma_map_insert_push(m.deep_view(), k@, v);
    }
    let ghost before = m.deep_view();
    m.push((k, v));
    proof {
        assert(m.deep_view() =~= before.push((k@, v)));
    }
}

/// Reads one entry of the wire form starting at character `pos`.
fn parse_intkey_entry(s: &str, pos: usize) -> (r: Option<((String, u32), usize)>)
    requires
        pos <= s@.len(),
        s@.len() <= usize::MAX,
    ensures
        match r {
            Some(v) => {
                &&& spec_parse_intkey_entry(s@, pos as int) == Some(
                    (((v.0).0@, (v.0).1), v.1 as int),
                )
                &&& pos < v.1 <= s@.len()
            },
            None => spec_parse_intkey_entry(s@, pos as int) is None,
        },
{
    let total = vstd::string::StrSliceExecFns::unicode_len(s);
    if total - pos < 2 {
        return None;
    }
    let st = match parse_hex(s, pos, 2) {
        Some(v) => v,
        None => {
            return None;
        },
    };
    if !(97 <= st && st <= 116) {
        return None;
    }
    let namelen = ((st - 96) * 2) as usize;
    if total - (pos + 2) < namelen {
        return None;
    }
    let name_hex = vstd::string::StrSliceExecFns::substring_char(s, pos + 2, pos + 2 + namelen);
    let bytes = match hex_decode(name_hex) {
        Some(b) => b,
        None => {
            return None;
        },
    };
    let ghost bytesv = bytes@;
    let name = match crate::codec::string_from_utf8(bytes) {
        Some(nm) => nm,
        None => {
            return None;
        },
    };
    proof {
        vstd::utf8::encode_utf8_valid_utf8(name@);
        vstd::utf8::encode_utf8_decode_utf8(name@);
        assert(name@ == decode_utf8(bytesv));
    }
    let p2 = pos + 2 + namelen;
    if total - p2 < 2 {
        return None;
    }
    let nt = match parse_hex(s, p2, 2) {
        Some(v) => v,
        None => {
            return None;
        },
    };
    if nt > 23 {
        let digits: usize = if nt == 24 {
            2
        } else if nt == 25 {
            4
        } else if nt == 26 {
            8
        } else {
            return None;
        };
        if total - (p2 + 2) < digits {
            return None;
        }
        let v = match parse_hex(s, p2 + 2, digits) {
            Some(v) => v,
            None => {
                return None;
            },
        };
        Some(((name, v), p2 + 2 + digits))
    } else {
        Some(((name, nt), p2 + 2))
    }
}

/// Deserializes a wire-form hex string back into the integer map it
/// spells; fails exactly on malformed input.
pub fn decode_intkey(hex_string: String) -> (r: Result<Vec<(String, u32)>, ApplyError>)
    ensures
        match r {
            Ok(m) => spec_decode_intkey(hex_string@) == Some(m.deep_view()),
            Err(e) => {
                &&& spec_decode_intkey(hex_string@) is None
                &&& e matches ApplyError::InvalidTransaction(_)
            },
        },
{
    let err_msg = "Unable to decode cbor";
    let s = hex_string.as_str();
    let total = vstd::string::StrSliceExecFns::unicode_len(s);
    if total < 2 {
        return Err(ApplyError::InvalidTransaction(err_msg.to_owned()));
    }
    let c0 = vstd::string::StrSliceExecFns::get_char(s, 0);
    if c0 != 'A' {
        proof {
            vstd::string::axiom_str_literal_len("A");
            vstd::string::axiom_str_literal_get_char("A", 0);
            reveal_strlit("A");
            assert(s@[0] != 'A');
        }
        return Err(ApplyError::InvalidTransaction(err_msg.to_owned()));
    }
    let n = match parse_hex(s, 1, 1) {
        Some(v) => v,
        None => {
            return Err(ApplyError::InvalidTransaction(err_msg.to_owned()));
        },
    };
    proof {
        reveal_strlit("A");
        assert(s@[0] == 'A');
    }
    let mut acc: Vec<(String, u32)> = Vec::new();
    let mut pos: usize = 2;
    let mut rem: u32 = n;
    proof {
        assert(acc.deep_view() =~= Seq::<(Seq<char>, u32)>::empty());
        assert(spec_decode_intkey(hex_string@) == spec_decode_intkey_entries(
            s@,
            2,
            n as nat,
            Seq::<(Seq<char>, u32)>::empty(),
        ));
    }
    while rem > 0
        invariant
            pos <= s@.len(),
            s@.len() <= usize::MAX,
            s@ == hex_string@,
            spec_decode_intkey(hex_string@) == spec_decode_intkey_entries(
                s@,
                pos as int,
                rem as nat,
                acc.deep_view(),
            ),
        decreases rem,
    {
        let ghost pos0 = pos;
        let ghost rem0 = rem;
        let ghost acc0 = acc.deep_view();
        match parse_intkey_entry(s, pos) {
            None => {
                proof {
                    assert(spec_decode_intkey(hex_string@) is None);
                }
                return Err(ApplyError::InvalidTransaction(err_msg.to_owned()));
            },
            Some(((name, value), p2)) => {
                let ghost namev = name@;
                intkey_insert(&mut acc, name, value);
                pos = p2;
                rem = rem - 1;
                proof {
                    assert(acc.deep_view() == spec_map_insert(acc0, namev, value));
                    assert(spec_decode_intkey_entries(s@, pos0 as int, rem0 as nat, acc0)
                        == spec_decode_intkey_entries(
                        s@,
                        pos as int,
                        rem as nat,
                        acc.deep_view(),
                    ));
                }
            },
        }
    }
    proof {
        assert(spec_decode_intkey_entries(s@, pos as int, 0, acc.deep_view()) == Some(
            acc.deep_view(),
        ));
    }
    Ok(acc)
}



/// The character count before the first comma, or the whole length when no
/// comma follows.
pub open spec fn first_comma(s: Seq<char>) -> int
    decreases s.len(),
{
    if s.len() == 0 {
        0
    } else if s[0] == ',' {
        0
    } else {
        1 + first_comma(s.drop_first())
    }
}

proof fn lemma_first_comma_range(s: Seq<char>)
    ensures
        0 <= first_comma(s) <= s.len(),
        first_comma(s) < s.len() ==> s[first_comma(s)] == ',',
        forall|j: int| 0 <= j < first_comma(s) ==> s[j] != ',',
    decreases s.len(),
{
    if s.len() > 0 && s[0] != ',' {
        lemma_first_comma_range(s.drop_first());
        assert(forall|j: int| 0 <= j < s.len() - 1 ==> s.drop_first()[j] == #[trigger] s[j + 1]);
        assert forall|j: int| 0 <= j < first_comma(s) implies s[j] != ',' by {
            if j > 0 {
                assert(s.drop_first()[j - 1] == s[j]);
                assert(s.drop_first()[j - 1] != ',');
            }
        }
    }
}

/// Finds the first comma at or after character `start`.
fn find_comma(s: &str, start: usize) -> (r: usize)
    requires
        start <= s@.len(),
        s@.len() <= usize::MAX,
    ensures
        r == start + first_comma(s@.skip(start as int)),
        start <= r <= s@.len(),
{
    let total = vstd::string::StrSliceExecFns::unicode_len(s);
    let mut i: usize = start;
    while i < total
        invariant
            start <= i <= total,
            total == s@.len(),
            first_comma(s@.skip(start as int)) == (i - start) + first_comma(s@.skip(i as int)),
        decreases total - i,
    {
        let c = vstd::string::StrSliceExecFns::get_char(s, i);
        proof {
            assert(s@.skip(i as int)[0] == s@[i as int]);
            assert(s@.skip(i as int).drop_first() =~= s@.skip(i as int + 1));
        }
        if c == ',' {
            return i;
        }
        i += 1;
    }
    proof {
        assert(s@.skip(total as int) =~= Seq::<char>::empty());
    }
    i
}

/// The three comma-separated fields of a multiply payload, when its bytes
/// are UTF-8 and hold at least three fields.
pub open spec fn spec_parse_payload(bytes: Seq<u8>) -> Option<(Seq<char>, Seq<char>, Seq<char>)> {
    if !valid_utf8(bytes) {
        None
    } else {
        let s = decode_utf8(bytes);
        let c1 = first_comma(s);
        if c1 >= s.len() {
            None
        } else {
            let a = s.take(c1);
            let rest = s.skip(c1 + 1);
            let c2 = first_comma(rest);
            if c2 >= rest.len() {
                None
            } else {
                let b = rest.take(c2);
                let rest2 = rest.skip(c2 + 1);
                let c3 = first_comma(rest2);
                Some((a, b, rest2.take(c3)))
            }
        }
    }
}

/// A multiply payload: the name to create and the two names whose values
/// are multiplied.
pub struct IntkeyPayload {
    pub name_a: String,
    pub name_b: String,
    pub name_c: String,
}

impl IntkeyPayload {
    /// Parses `name_a,name_b,name_c` out of the payload bytes: the name to
    /// start, then the two existing names to multiply. Fails when the
    /// bytes are not UTF-8, fewer than three fields arrive, or a name runs
    /// over twenty bytes.
    #[verifier::rlimit(100)]
    pub fn new(payload_data: &[u8]) -> (r: Result<Option<IntkeyPayload>, ApplyError>)
        ensures
            match r {
                Ok(opt) => opt matches Some(p) && spec_parse_payload(payload_data@) matches Some(
                    f,
                ) && p.name_a@ == f.0 && p.name_b@ == f.1 && p.name_c@ == f.2 && encode_utf8(
                    f.0,
                ).len() <= 20 && encode_utf8(f.1).len() <= 20 && encode_utf8(f.2).len() <= 20,
                Err(e) => {
                    &&& e matches ApplyError::InvalidTransaction(_)
                    &&& match spec_parse_payload(payload_data@) {
                        None => true,
                        Some(f) => encode_utf8(f.0).len() > 20 || encode_utf8(f.1).len() > 20
                            || encode_utf8(f.2).len() > 20,
                    }
                },
            },
    {
        let bytes = vstd::slice::slice_to_vec(payload_data);
        let payload = match crate::codec::string_from_utf8(bytes) {
            Some(p) => p,
            None => {
                return Err(
                    ApplyError::InvalidTransaction("invalid utf-8 sequence".to_owned()),
                );
            },
        };
        proof {
            vstd::utf8::encode_utf8_valid_utf8(payload@);
            vstd::utf8::encode_utf8_decode_utf8(payload@);
        }
        let s = payload.as_str();
        let total = vstd::string::StrSliceExecFns::unicode_len(s);
        proof {
            assert(s@.skip(0) =~= s@);
            lemma_first_comma_range(s@);
        }
        let c1 = find_comma(s, 0);
        if c1 >= total {
            return Err(ApplyError::InvalidTransaction("Name B must be a string".to_owned()));
        }
        let name_a = vstd::string::StrSliceExecFns::substring_char(s, 0, c1).to_owned();
        if vstd::string::StrSliceExecFns::as_bytes_vec(name_a.as_str()).len() > 20 {
            proof {
                assert(name_a@ =~= s@.take(c1 as int));
            }
            return Err(
                ApplyError::InvalidTransaction(
                    "Name A must be equal to or less than 20 characters".to_owned(),
                ),
            );
        }
        let c2 = find_comma(s, c1 + 1);
        proof {
            assert(s@.skip(c1 as int + 1).len() == s@.len() - c1 - 1);
            lemma_first_comma_range(s@.skip(c1 as int + 1));
        }
        if c2 >= total {
            proof {
                assert(first_comma(s@.skip(c1 as int + 1)) >= s@.skip(c1 as int + 1).len());
            }
            return Err(ApplyError::InvalidTransaction("Name C must be a string".to_owned()));
        }
        let name_b = vstd::string::StrSliceExecFns::substring_char(s, c1 + 1, c2).to_owned();
        proof {
            assert(name_b@ =~= s@.skip(c1 as int + 1).take(
                first_comma(s@.skip(c1 as int + 1)),
            ));
        }
        if vstd::string::StrSliceExecFns::as_bytes_vec(name_b.as_str()).len() > 20 {
            return Err(
                ApplyError::InvalidTransaction(
                    "Name B must be equal to or less than 20 characters".to_owned(),
                ),
            );
        }
        let c3 = find_comma(s, c2 + 1);
        proof {
            assert(s@.skip(c1 as int + 1).skip(first_comma(s@.skip(c1 as int + 1)) + 1)
                =~= s@.skip(c2 as int + 1));
            lemma_first_comma_range(s@.skip(c2 as int + 1));
        }
        let name_c = vstd::string::StrSliceExecFns::substring_char(s, c2 + 1, c3).to_owned();
        proof {
            assert(name_c@ =~= s@.skip(c2 as int + 1).take(
                first_comma(s@.skip(c2 as int + 1)),
            ));
        }
        if vstd::string::StrSliceExecFns::as_bytes_vec(name_c.as_str()).len() > 20 {
            return Err(
                ApplyError::InvalidTransaction(
                    "Name C must be equal to or less than 20 characters".to_owned(),
                ),
            );
        }
        proof {
            let sv = s@;
            assert(sv.skip(0) =~= sv);
            let fc1 = first_comma(sv);
            assert(c1 == fc1);
            assert(name_a@ =~= sv.take(fc1));
            let rest = sv.skip(fc1 + 1);
            let fc2 = first_comma(rest);
            assert(c2 == c1 + 1 + fc2);
            assert(name_b@ =~= rest.take(fc2));
            let rest2 = rest.skip(fc2 + 1);
            assert(rest2 =~= sv.skip(c2 as int + 1));
            let fc3 = first_comma(rest2);
            assert(first_comma(sv.skip(c2 as int + 1)) == fc3);
            assert(c3 == c2 + 1 + fc3);
            assert(name_c@ =~= rest2.take(fc3));
            assert(valid_utf8(payload_data@));
            assert(decode_utf8(payload_data@) == sv);
            assert(fc1 < sv.len());
            assert(fc2 < rest.len());
            assert(spec_parse_payload(payload_data@) == Some(
                (sv.take(fc1), rest.take(fc2), rest2.take(fc3)),
            ));
        }
        Ok(Some(IntkeyPayload { name_a, name_b, name_c }))
    }

    /// The name the multiplied value is stored under.
    pub fn get_name_a(&self) -> (r: &String)
        ensures
            r@ == self.name_a@,
    {
        &self.name_a
    }

    /// The first existing name to multiply.
    pub fn get_name_b(&self) -> (r: &String)
        ensures
            r@ == self.name_b@,
    {
        &self.name_b
    }

    /// The second existing name to multiply.
    pub fn get_name_c(&self) -> (r: &String)
        ensures
            r@ == self.name_c@,
    {
        &self.name_c
    }
}



/// The decimal digits of a number as ASCII bytes, most significant first.
pub open spec fn spec_dec_ascii(n: nat) -> Seq<u8>
    decreases n,
{
    if n < 10 {
        seq![(0x30 + n) as u8]
    } else {
        spec_dec_ascii(n / 10) + seq![(0x30 + n % 10) as u8]
    }
}

/// Decimal digit bytes are ASCII.
proof fn lemma_dec_ascii(n: nat)
    ensures
        forall|i: int| 0 <= i < spec_dec_ascii(n).len() ==> spec_dec_ascii(n)[i] < 128,
    decreases n,
{
    if n >= 10 {
        lemma_dec_ascii(n / 10);
        assert(forall|i: int|
            0 <= i < spec_dec_ascii(n / 10).len() ==> spec_dec_ascii(n)[i] == spec_dec_ascii(
                n / 10,
            )[i]);
    }
}

/// Appends a number's decimal digits.
fn push_dec_digits(out: &mut Vec<u8>, n: u64)
    ensures
        final (out)@ == old(out)@ + spec_dec_ascii(n as nat),
    decreases n,
{
    if n < 10 {
        out.push((0x30 + n) as u8);
        proof {
            assert(out@ =~= old(out)@ + spec_dec_ascii(n as nat));
        }
    } else {
        push_dec_digits(out, n / 10);
        out.push((0x30 + n % 10) as u8);
        proof {
            assert(out@ =~= old(out)@ + spec_dec_ascii(n as nat));
        }
    }
}

/// The first six hexadecimal characters of the digest of `intkey`: the
/// namespace every counter lives under.
pub open spec fn spec_intkey_prefix() -> Seq<char> {
    crate::addresser::sha512_hex_of("intkey"@).take(6)
}

/// The address one counter name maps to: the namespace prefix, then the
/// last 64 hexadecimal characters of the name's digest.
pub open spec fn spec_intkey_address(name: Seq<char>) -> Seq<char> {
    spec_intkey_prefix() + crate::addresser::sha512_hex_of(name).skip(64)
}

/// Returns the intkey namespace prefix.
pub fn get_intkey_prefix() -> (r: String)
    ensures
        r@ == spec_intkey_prefix(),
{
    crate::addresser::hash(6, "intkey")
}

/// Returns the address the given counter name maps to.
pub fn calculate_address(name: &str) -> (r: String)
    ensures
        r@ == spec_intkey_address(name@),
{
    let full = crate::addresser::sha512_hex(name);
    let suffix = vstd::string::StrSliceExecFns::substring_char(full.as_str(), 64, 128);
    proof {
        assert(suffix@ =~= crate::addresser::sha512_hex_of(name@).skip(64));
    }
    vstd::string::StringExecFns::concat(get_intkey_prefix(), suffix)
}

/// What a read of one counter name finds in the store: nothing at an
/// absent address, the map's value for the name otherwise, and an error
/// when the stored bytes do not spell a map.
pub open spec fn spec_intkey_get(store: Map<Seq<char>, Seq<u8>>, name: Seq<char>) -> Result<
    Option<u32>,
    (),
> {
    let addr = spec_intkey_address(name);
    if !store.contains_key(addr) {
        Ok(None)
    } else {
        match spec_decode_intkey(ascii_chars(spec_hex_upper_bytes(store[addr]))) {
            None => Err(()),
            Some(m) => Ok(spec_map_get(m, name)),
        }
    }
}

/// The most recent map cached for an address.
pub open spec fn spec_cache_get(
    c: Seq<(Seq<char>, Seq<(Seq<char>, u32)>)>,
    k: Seq<char>,
) -> Option<Seq<(Seq<char>, u32)>>
    decreases c.len(),
{
    if c.len() == 0 {
        None
    } else if c.last().0 == k {
        Some(c.last().1)
    } else {
        spec_cache_get(c.drop_last(), k)
    }
}

/// The cache after a read of one name: the fetched map is remembered under
/// its address when the address was present.
pub open spec fn cache_after_get(
    cache: Seq<(Seq<char>, Seq<(Seq<char>, u32)>)>,
    store: Map<Seq<char>, Seq<u8>>,
    name: Seq<char>,
) -> Seq<(Seq<char>, Seq<(Seq<char>, u32)>)> {
    let addr = spec_intkey_address(name);
    if store.contains_key(addr) {
        cache.push(
            (addr, spec_decode_intkey(ascii_chars(spec_hex_upper_bytes(store[addr])))->Some_0),
        )
    } else {
        cache
    }
}

/// A copy of an integer map that spells the same values.
fn clone_intkey_map(m: &Vec<(String, u32)>) -> (r: Vec<(String, u32)>)
    ensures
        r.deep_view() == m.deep_view(),
{
    let mut out: Vec<(String, u32)> = Vec::new();
    let mut i: usize = 0;
    proof {
        assert(out.deep_view() =~= m.deep_view().take(0));
    }
    while i < m.len()
        invariant
            i <= m.len(),
            m.deep_view().len() == m@.len(),
            m@.len() == m.len(),
            out.deep_view() == m.deep_view().take(i as int),
        decreases m.len() - i,
    {
        out.push((m[i].0.clone(), m[i].1));
        proof {
            let longer = m.deep_view().take(i as int + 1);
            assert(longer.drop_last() =~= m.deep_view().take(i as int));
            assert(longer.last() == m.deep_view()[i as int]);
            assert(m.deep_view()[i as int] == (m@[i as int].0@, m@[i as int].1));
            assert(out.deep_view() =~= m.deep_view().take(i as int).push(
                m.deep_view()[i as int],
            ));
            assert(longer =~= m.deep_view().take(i as int).push(m.deep_view()[i as int]));
        }
        i += 1;
    }
    proof {
        assert(m.deep_view().take(m@.len() as int) =~= m.deep_view());
    }
    out
}

/// The counter store one executing intkey transaction sees: reads are
/// remembered so that a following write starts from the freshest fetched
/// map.
pub struct IntkeyState<C> {
    pub context: C,
    pub get_cache: Vec<(String, Vec<(String, u32)>)>,
}

impl<C: crate::store::TransactionContext> IntkeyState<C> {
    /// A state over the given raw context, with nothing cached.
    pub fn new(context: C) -> (r: IntkeyState<C>)
        ensures
            r.context == context,
            r.get_cache.deep_view() =~= Seq::<(Seq<char>, Seq<(Seq<char>, u32)>)>::empty(),
    {
        IntkeyState { context, get_cache: Vec::new() }
    }

    /// The raw store as this state sees it.
    pub open spec fn store(&self) -> Map<Seq<char>, Seq<u8>> {
        self.context.store()
    }

    /// Reads one counter: the value stored under the name at its address,
    /// or `None` when no map or no entry is there. A fetched map is
    /// remembered for the following write.
    pub fn get(&mut self, name: &str) -> (r: Result<Option<u32>, ApplyError>)
        ensures
            final (self).context == old(self).context,
            match r {
                Ok(opt) => {
                    &&& spec_intkey_get(old(self).store(), name@) == Ok::<Option<u32>, ()>(opt)
                    &&& final (self).get_cache.deep_view() == cache_after_get(
                        old(self).get_cache.deep_view(),
                        old(self).store(),
                        name@,
                    )
                },
                Err(e) => match e {
                    ApplyError::InvalidTransaction(_) => spec_intkey_get(
                        old(self).store(),
                        name@,
                    ) is Err && final (self).get_cache == old(self).get_cache,
                    ApplyError::InternalError(_) => final (self).get_cache == old(
                        self,
                    ).get_cache,
                },
            },
    {
        let address = calculate_address(name);
        let addrs = vec![address.clone()];
        let pairs = match self.context.get_state_entries(&addrs) {
            Ok(p) => p,
            Err(_) => {
                return Err(
                    ApplyError::InternalError("Unable to get state entry".to_owned()),
                );
            },
        };
        proof {
            assert(addrs.deep_view() =~= seq![address@]);
            assert(addrs.deep_view().drop_last() =~= Seq::<Seq<char>>::empty());
            assert(addrs.deep_view().last() == address@);
            assert(crate::store::filter_present(self.store(), Seq::<Seq<char>>::empty())
                =~= Seq::<(Seq<char>, Seq<u8>)>::empty());
        }
        if pairs.is_empty() {
            proof {
                assert(pairs.deep_view().len() == 0);
                assert(!self.store().contains_key(address@));
            }
            return Ok(None);
        }
        proof {
            assert(pairs.deep_view().len() > 0);
            assert(self.store().contains_key(address@));
            assert(pairs.deep_view()[0] == (address@, self.store()[address@]));
            assert(pairs.deep_view()[0] == pairs@[0].deep_view());
            assert(pairs@[0].1.deep_view() =~= pairs@[0].1@);
            assert(self.store()[address@] == pairs@[0].1@);
        }
        let hex_bytes = hex_encode_upper(pairs[0].1.as_slice());
        proof {
            lemma_hex_upper_ascii(pairs@[0].1@);
        }
        let hex_str = ascii_to_string(hex_bytes);
        let map = match decode_intkey(hex_str) {
            Ok(m) => m,
            Err(e) => {
                return Err(e);
            },
        };
        let status = map_get(&map, name);
        let ghost mapv = map.deep_view();
        let ghost cache_before = self.get_cache.deep_view();
        self.get_cache.push((address, map));
        proof {
            assert(self.get_cache.deep_view() =~= cache_before.push((address@, mapv)));
        }
        Ok(status)
    }

    /// The freshest map fetched for an address, if one is cached.
    fn cache_lookup<'a>(
        cache: &'a Vec<(String, Vec<(String, u32)>)>,
        addr: &String,
    ) -> (r: Option<&'a Vec<(String, u32)>>)
        ensures
            match r {
                Some(m) => spec_cache_get(cache.deep_view(), addr@) == Some(m.deep_view()),
                None => spec_cache_get(cache.deep_view(), addr@) is None,
            },
    {
        let mut i: usize = cache.len();
        proof {
            assert(cache.deep_view().skip(0) =~= cache.deep_view());
            assert(cache.deep_view().take(cache@.len() as int) =~= cache.deep_view());
        }
        while i > 0
            invariant
                i <= cache@.len(),
                cache.deep_view().len() == cache@.len(),
                spec_cache_get(cache.deep_view(), addr@) == spec_cache_get(
                    cache.deep_view().take(i as int),
                    addr@,
                ),
            decreases i,
        {
            i = i - 1;
            let ghost prefix = cache.deep_view().take(i as int + 1);
            proof {
                assert(prefix.drop_last() =~= cache.deep_view().take(i as int));
                assert(prefix.last() == cache.deep_view()[i as int]);
                assert(cache.deep_view()[i as int] == (
                cache@[i as int].0@,
                cache@[i as int].1.deep_view(),
                ));
            }
            if cache[i].0 == *addr {
                return Some(&cache[i].1);
            }
        }
        proof {
            assert(cache.deep_view().take(0) =~= Seq::<
                (Seq<char>, Seq<(Seq<char>, u32)>),
            >::empty());
        }
        None
    }

    /// Writes one counter: the freshest map fetched for its address (or an
    /// empty one) gets the name set to the value, and the whole map is
    /// written back at the address.
    pub fn set(&mut self, name: &str, value: u32) -> (r: Result<(), ApplyError>)
        ensures
            final (self).get_cache == old(self).get_cache,
            ({
                let addr = spec_intkey_address(name@);
                let base = match spec_cache_get(old(self).get_cache.deep_view(), addr) {
                    Some(m) => m,
                    None => Seq::<(Seq<char>, u32)>::empty(),
                };
                let m2 = spec_map_insert(base, name@, value);
                &&& (m2.len() <= u32::MAX && spec_encode_intkey(m2) is None) ==> (r matches Err(
                    ApplyError::InvalidTransaction(_),
                ) && final (self).store() == old(self).store())
                &&& ({
                    &&& m2.len() <= u32::MAX
                    &&& spec_encode_intkey(m2) matches Some(enc) && spec_hex_decode(
                        ascii_chars(enc),
                    ) is None
                }) ==> (r matches Err(ApplyError::InvalidTransaction(_)) && final (self).store()
                    == old(self).store())
            }),
            ({
                let addr = spec_intkey_address(name@);
                let base = match spec_cache_get(old(self).get_cache.deep_view(), addr) {
                    Some(m) => m,
                    None => Seq::<(Seq<char>, u32)>::empty(),
                };
                let m2 = spec_map_insert(base, name@, value);
                match r {
                    Ok(_) => {
                        &&& spec_encode_intkey(m2) matches Some(enc)
                        &&& spec_hex_decode(ascii_chars(enc)) matches Some(packed)
                        &&& final (self).store() == old(self).store().insert(addr, packed)
                    },
                    Err(e) => match e {
                        ApplyError::InvalidTransaction(_) => (spec_encode_intkey(m2) is None || {
                            &&& spec_encode_intkey(m2) matches Some(enc)
                            &&& spec_hex_decode(ascii_chars(enc)) is None
                        }) && final (self).store() == old(self).store(),
                        ApplyError::InternalError(_) => true,
                    },
                }
            }),
    {
        let address = calculate_address(name);
        let mut map: Vec<(String, u32)> = match Self::cache_lookup(&self.get_cache, &address) {
            Some(cached) => clone_intkey_map(cached),
            None => {
                let empty_map: Vec<(String, u32)> = Vec::new();
                proof {
                    assert(empty_map.deep_view() =~= Seq::<(Seq<char>, u32)>::empty());
                }
                empty_map
            },
        };
        intkey_insert(&mut map, name.to_owned(), value);
        if map.len() > 0xFFFF_FFFFusize {
            return Err(ApplyError::InternalError("Map is too large".to_owned()));
        }
        let encoded = match encode_intkey(map) {
            Ok(s) => s,
            Err(e) => {
                return Err(e);
            },
        };
        let packed = match hex_decode(encoded.as_str()) {
            Some(p) => p,
            None => {
                return Err(
                    ApplyError::InvalidTransaction("invalid hex encoding".to_owned()),
                );
            },
        };
        let ghost addrv = address@;
        let ghost packedv = packed@;
        let updates = vec![(address, packed)];
        let ghost store_before = self.store();
        match self.context.set_state_entries(updates) {
            Ok(_) => {},
            Err(_) => {
                return Err(
                    ApplyError::InternalError("Unable to set state entry".to_owned()),
                );
            },
        }
        proof {
            let dv = updates.deep_view();
            assert(updates@[0].1.deep_view() =~= packedv);
            assert(dv[0] == (addrv, packedv));
            assert(dv =~= seq![(addrv, packedv)]);
            assert(dv.drop_last() =~= Seq::<(Seq<char>, Seq<u8>)>::empty());
            assert(dv.last() == (addrv, packedv));
            assert(crate::store::update_all(store_before, Seq::<(Seq<char>, Seq<u8>)>::empty())
                == store_before);
            assert(self.store() == store_before.insert(addrv, packedv));
        }
        Ok(())
    }
}



/// Whether a multiply transaction can go through on the given store: its
/// payload parses into three short names, the first is unset, the other two
/// are set, their product fits, and the updated map has a wire form.
pub open spec fn spec_apply_ok(store: Map<Seq<char>, Seq<u8>>, payload: Seq<u8>) -> bool {
    &&& spec_parse_payload(payload) matches Some(f)
    &&& encode_utf8(spec_parse_payload(payload)->Some_0.0).len() <= 20
    &&& encode_utf8(spec_parse_payload(payload)->Some_0.1).len() <= 20
    &&& encode_utf8(spec_parse_payload(payload)->Some_0.2).len() <= 20
    &&& spec_intkey_get(store, spec_parse_payload(payload)->Some_0.0) == Ok::<Option<u32>, ()>(
        None::<u32>,
    )
    &&& spec_intkey_get(store, spec_parse_payload(payload)->Some_0.1) matches Ok(Some(vb))
    &&& spec_intkey_get(store, spec_parse_payload(payload)->Some_0.2) matches Ok(Some(vc))
    &&& (spec_intkey_get(store, spec_parse_payload(payload)->Some_0.1)->Ok_0->Some_0 as u64)
        * (spec_intkey_get(store, spec_parse_payload(payload)->Some_0.2)->Ok_0->Some_0 as u64)
        <= u32::MAX
}

/// The handler of the `intkey_multiply` transaction family: it reads two
/// counters, multiplies them, and stores the product under a fresh name.
pub struct IntkeyMultiplyTransactionHandler {
    pub family_name: String,
    pub family_versions: Vec<String>,
    pub namespaces: Vec<String>,
}

impl IntkeyMultiplyTransactionHandler {
    pub fn new() -> (r: IntkeyMultiplyTransactionHandler)
        ensures
            r.family_name@ == "intkey_multiply"@,
            r.family_versions.deep_view() =~= seq!["1.0"@],
            r.namespaces.deep_view() =~= seq![spec_intkey_prefix()],
    {
        let mut versions: Vec<String> = Vec::new();
        versions.push("1.0".to_owned());
        let mut namespaces: Vec<String> = Vec::new();
        namespaces.push(get_intkey_prefix());
        IntkeyMultiplyTransactionHandler {
            family_name: "intkey_multiply".to_owned(),
            family_versions: versions,
            namespaces,
        }
    }

    pub fn family_name(&self) -> (r: String)
        ensures
            r@ == self.family_name@,
    {
        self.family_name.clone()
    }

    /// Applies one multiply transaction: parses `a,b,c` out of the payload,
    /// requires `a` unset and `b`, `c` set, stores `b * c` under `a`, and
    /// returns the event data `b,c,product` in decimal.
    pub fn apply<C: crate::store::TransactionContext>(
        &self,
        payload_data: &[u8],
        state: &mut IntkeyState<C>,
    ) -> (r: Result<String, ApplyError>)
        ensures
            (spec_parse_payload(payload_data@) is None || ({
                let f = spec_parse_payload(payload_data@)->Some_0;
                encode_utf8(f.0).len() > 20 || encode_utf8(f.1).len() > 20 || encode_utf8(
                    f.2,
                ).len() > 20
            })) ==> (r matches Err(ApplyError::InvalidTransaction(_)) && final (state).store()
                == old(state).store() && final (state).get_cache == old(state).get_cache),
            match r {
                Ok(event) => ({
                    let f = spec_parse_payload(payload_data@)->Some_0;
                    let vb = spec_intkey_get(old(state).store(), f.1)->Ok_0->Some_0;
                    let vc = spec_intkey_get(old(state).store(), f.2)->Ok_0->Some_0;
                    let prod = (vb * vc) as u64;
                    let cache3 = cache_after_get(
                        cache_after_get(
                            cache_after_get(
                                old(state).get_cache.deep_view(),
                                old(state).store(),
                                f.0,
                            ),
                            old(state).store(),
                            f.1,
                        ),
                        old(state).store(),
                        f.2,
                    );
                    let base = match spec_cache_get(cache3, spec_intkey_address(f.0)) {
                        Some(m) => m,
                        None => Seq::<(Seq<char>, u32)>::empty(),
                    };
                    let m2 = spec_map_insert(base, f.0, prod as u32);
                    &&& spec_apply_ok(old(state).store(), payload_data@)
                    &&& spec_encode_intkey(m2) matches Some(enc)
                    &&& spec_hex_decode(ascii_chars(enc)) matches Some(packed)
                    &&& final (state).store() == old(state).store().insert(
                        spec_intkey_address(f.0),
                        packed,
                    )
                    &&& event@ == ascii_chars(
                        spec_dec_ascii(vb as nat) + seq![0x2Cu8] + spec_dec_ascii(vc as nat)
                            + seq![0x2Cu8] + spec_dec_ascii(prod as nat),
                    )
                }),
                Err(e) => match e {
                    ApplyError::InvalidTransaction(_) => !spec_apply_ok(
                        old(state).store(),
                        payload_data@,
                    ) || ({
                        let f = spec_parse_payload(payload_data@)->Some_0;
                        let cache3 = cache_after_get(
                            cache_after_get(
                                cache_after_get(
                                    old(state).get_cache.deep_view(),
                                    old(state).store(),
                                    f.0,
                                ),
                                old(state).store(),
                                f.1,
                            ),
                            old(state).store(),
                            f.2,
                        );
                        let base = match spec_cache_get(cache3, spec_intkey_address(f.0)) {
                            Some(m) => m,
                            None => Seq::<(Seq<char>, u32)>::empty(),
                        };
                        let vb = spec_intkey_get(old(state).store(), f.1)->Ok_0->Some_0;
                        let vc = spec_intkey_get(old(state).store(), f.2)->Ok_0->Some_0;
                        let m2 = spec_map_insert(base, f.0, ((vb * vc) as u64) as u32);
                        spec_encode_intkey(m2) is None || spec_hex_decode(
                            ascii_chars(spec_encode_intkey(m2)->Some_0),
                        ) is None
                    }),
                    ApplyError::InternalError(_) => true,
                },
            },
    {
        let payload = match IntkeyPayload::new(payload_data) {
            Ok(p) => p,
            Err(e) => {
                return Err(e);
            },
        };
        let payload = match payload {
            Some(x) => x,
            None => {
                return Err(
                    ApplyError::InvalidTransaction("Request must contain a payload".to_owned()),
                );
            },
        };
        match state.get(payload.get_name_a().as_str()) {
            Ok(None) => {},
            Ok(Some(_)) => {
                return Err(
                    ApplyError::InvalidTransaction(
                        vstd::string::StringExecFns::concat(
                            payload.get_name_a().clone(),
                            " is already set",
                        ),
                    ),
                );
            },
            Err(err) => {
                return Err(err);
            },
        }
        let orig_value_b: u64 = match state.get(payload.get_name_b().as_str()) {
            Ok(Some(v)) => v as u64,
            Ok(None) => {
                return Err(
                    ApplyError::InvalidTransaction(
                        "Multiply requires a set value for name_b".to_owned(),
                    ),
                );
            },
            Err(err) => {
                return Err(err);
            },
        };
        let orig_value_c: u64 = match state.get(payload.get_name_c().as_str()) {
            Ok(Some(v)) => v as u64,
            Ok(None) => {
                return Err(
                    ApplyError::InvalidTransaction(
                        "Multiply requires a set value for name_c".to_owned(),
                    ),
                );
            },
            Err(err) => {
                return Err(err);
            },
        };
        proof {
            assert(orig_value_b * orig_value_c <= 0xFFFF_FFFFu64 * 0xFFFF_FFFFu64)
                by (nonlinear_arith)
                requires
                    orig_value_b <= 0xFFFF_FFFFu64,
                    orig_value_c <= 0xFFFF_FFFFu64,
            ;
        }
        let new_value = orig_value_b * orig_value_c;
        if new_value > (u32::MAX as u64) {
            return Err(
                ApplyError::InvalidTransaction(
                    "Multiplied value is larger then max allowed".to_owned(),
                ),
            );
        }
        match state.set(payload.get_name_a().as_str(), new_value as u32) {
            Ok(_) => {},
            Err(err) => {
                return Err(err);
            },
        }
        let mut ev: Vec<u8> = Vec::new();
        push_dec_digits(&mut ev, orig_value_b);
        ev.push(0x2Cu8);
        push_dec_digits(&mut ev, orig_value_c);
        ev.push(0x2Cu8);
        push_dec_digits(&mut ev, new_value);
        proof {
            lemma_dec_ascii(orig_value_b as nat);
            lemma_dec_ascii(orig_value_c as nat);
            lemma_dec_ascii(new_value as nat);
            assert(ev@ =~= spec_dec_ascii(orig_value_b as nat) + seq![0x2Cu8] + spec_dec_ascii(
                orig_value_c as nat,
            ) + seq![0x2Cu8] + spec_dec_ascii(new_value as nat));
        }
        let event = ascii_to_string(ev);
        Ok(event)
    }
}


} // verus!
