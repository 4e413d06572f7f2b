//! Cache keys: 32-byte digests, written as 64 lowercase hex digits.

use vstd::prelude::*;
use vstd::utf8::{encode_utf8, is_ascii_chars, is_ascii_chars_encode_utf8, is_char_boundary};
use vstd::string::StringSliceAdditionalSpecFns;
use crate::error::Error;
use crate::text::{decimal_string, decimal_text};

verus! {

/// The sixteen lowercase hex digits, in order.
pub open spec fn hex_alphabet() -> Seq<char> {
    seq!['0', '1', '2', '3', '4', '5', '6', '7', '8', '9', 'a', 'b', 'c', 'd', 'e', 'f']
}

/// The two lowercase hex digits of one byte, high nibble first.
pub open spec fn byte_hex(b: u8) -> Seq<char> {
    seq![hex_alphabet()[(b / 16) as int], hex_alphabet()[(b % 16) as int]]
}

/// The lowercase hex text of a byte sequence: two digits per byte, in order.
pub open spec fn hex_text(bytes: Seq<u8>) -> Seq<char>
    decreases bytes.len(),
{
    if bytes.len() == 0 {
        Seq::empty()
    } else {
        hex_text(bytes.drop_last()) + byte_hex(bytes.last())
    }
}


/// The value of one hex digit byte (`0-9`, `a-f`, `A-F`), or `None`.
pub open spec fn hex_value(c: u8) -> Option<u8> {
    if 48 <= c <= 57 {
        Some((c - 48) as u8)
    } else if 97 <= c <= 102 {
        Some((c - 87) as u8)
    } else if 65 <= c <= 70 {
        Some((c - 55) as u8)
    } else {
        None
    }
}

/// The byte that a two-byte hex field denotes, read as an unsigned base-16
/// number: two hex digits, or a `+` sign followed by one hex digit.
pub open spec fn pair_value(hi: u8, lo: u8) -> Option<u8> {
    if hi == 43 {
        hex_value(lo)
    } else {
        match (hex_value(hi), hex_value(lo)) {
            (Some(h), Some(l)) => Some((16 * h + l) as u8),
            _ => None,
        }
    }
}

/// The value of the `i`-th two-byte field of `bytes`.
pub open spec fn pair_at(bytes: Seq<u8>, i: int) -> Option<u8> {
    pair_value(bytes[2 * i], bytes[2 * i + 1])
}

/// Every two-byte field before field `n` denotes a byte.
pub open spec fn pairs_valid_before(bytes: Seq<u8>, n: int) -> bool {
    forall|j: int| 0 <= j < n ==> (#[trigger] pair_at(bytes, j)) is Some
}

/// `bytes` are 64 bytes whose 32 fields all denote a byte.
pub open spec fn hex_decodes(bytes: Seq<u8>) -> bool {
    bytes.len() == 64 && pairs_valid_before(bytes, 32)
}

/// The 32 bytes that the fields of `bytes` denote.
pub open spec fn hex_decoded(bytes: Seq<u8>) -> Seq<u8> {
    Seq::new(32, |i: int| pair_at(bytes, i).unwrap())
}

/// Reading `bytes` field by field as text slices stops at a field that
/// denotes no byte and whose slice does not lie on character boundaries.
pub open spec fn hex_slicing_panics(bytes: Seq<u8>) -> bool {
    &&& bytes.len() == 64
    &&& exists|i: int|
        0 <= i < 32 && pairs_valid_before(bytes, i) && (#[trigger] pair_at(bytes, i)) is None
            && !(is_char_boundary(bytes, 2 * i) && is_char_boundary(bytes, 2 * i + 2))
}

/// The description of a malformed hex key of `bytes`.
pub open spec fn hex_error_text(bytes: Seq<u8>) -> Seq<char> {
    if bytes.len() != 64 {
        "hex string must be 64 chars, got "@ + decimal_text(bytes.len())
    } else {
        "invalid hex: invalid digit found in string"@
    }
}

/// The value of one hex digit byte.
fn hex_value_of(c: u8) -> (v: Option<u8>)
    ensures
        v == hex_value(c),
{
    if 48 <= c && c <= 57 {
        Some(c - 48)
    } else if 97 <= c && c <= 102 {
        Some(c - 87)
    } else if 65 <= c && c <= 70 {
        Some(c - 55)
    } else {
        None
    }
}

/// The byte that a two-byte hex field denotes.
fn pair_value_of(hi: u8, lo: u8) -> (v: Option<u8>)
    ensures
        v == pair_value(hi, lo),
{
    if hi == 43 {
        hex_value_of(lo)
    } else {
        match (hex_value_of(hi), hex_value_of(lo)) {
            (Some(h), Some(l)) => Some(16 * h + l),
            _ => None,
        }
    }
}


/// The hex text of `bytes` has two digits per byte: the high nibble's at
/// even positions, the low nibble's after it.
pub proof fn lemma_hex_text_layout(bytes: Seq<u8>)
    ensures
        hex_text(bytes).len() == 2 * bytes.len(),
        forall|i: int|
            0 <= i < bytes.len() ==> hex_text(bytes)[2 * i] == hex_alphabet()[(bytes[i] / 16) as int]
                && hex_text(bytes)[2 * i + 1] == hex_alphabet()[(bytes[i] % 16) as int],
    decreases bytes.len(),
{
    if bytes.len() > 0 {
        let init = bytes.drop_last();
        lemma_hex_text_layout(init);
        let t = hex_text(bytes);
        assert(t == hex_text(init) + byte_hex(bytes.last()));
        assert forall|i: int| 0 <= i < bytes.len() implies #[trigger] t[2 * i] == hex_alphabet()[(
        bytes[i] / 16) as int] && t[2 * i + 1] == hex_alphabet()[(bytes[i] % 16) as int] by {
            if i < init.len() {
                assert(init[i] == bytes[i]);
            }
        }
    }
}

/// Reading a hex digit back gives its value.
proof fn lemma_hex_digit_value(d: int)
    requires
        0 <= d < 16,
    ensures
        hex_value(hex_alphabet()[d] as u8) == Some(d as u8),
        '\0' <= hex_alphabet()[d] <= '\u{7f}',
{
}

/// Every key's hex text reads back as that key: its 64 bytes decode field
/// by field to the key's bytes, and reading it never slices a character
/// apart.
pub proof fn hex_round_trip(k: CacheKey)
    ensures
        hex_decodes(encode_utf8(hex_text(k.bytes()))),
        hex_decoded(encode_utf8(hex_text(k.bytes()))) == k.bytes(),
        !hex_slicing_panics(encode_utf8(hex_text(k.bytes()))),
{
    let b = k.bytes();
    let t = hex_text(b);
    lemma_hex_text_layout(b);
    assert forall|i: int| 0 <= i < t.len() implies '\0' <= #[trigger] t[i] <= '\u{7f}' by {
        let j = i / 2;
        assert(i == 2 * j || i == 2 * j + 1);
        lemma_hex_digit_value((b[j] / 16) as int);
        lemma_hex_digit_value((b[j] % 16) as int);
    }
    assert(is_ascii_chars(t));
    is_ascii_chars_encode_utf8(t);
    let e = encode_utf8(t);
    assert forall|j: int| 0 <= j < 32 implies (#[trigger] pair_at(e, j)) == Some(b[j]) by {
        lemma_hex_digit_value((b[j] / 16) as int);
        lemma_hex_digit_value((b[j] % 16) as int);
        assert(e[2 * j] == t[2 * j] as u8);
        assert(e[2 * j + 1] == t[2 * j + 1] as u8);
        assert(hex_alphabet()[(b[j] / 16) as int] as u8 != 43) by {
            lemma_hex_digit_value((b[j] / 16) as int);
        }
    }
    assert(hex_decoded(e) =~= b);
}

/// A hex digit character: `0-9`, `a-f` or `A-F`.
pub open spec fn is_hex_digit(c: char) -> bool {
    ('0' <= c <= '9') || ('a' <= c <= 'f') || ('A' <= c <= 'F')
}

/// The character in lower case where it is an ASCII capital letter;
/// other characters unchanged.
pub open spec fn ascii_lower(c: char) -> char {
    if 'A' <= c <= 'Z' {
        ((c as u32) + 32) as char
    } else {
        c
    }
}

/// A hex digit character is ASCII, is no `+`, and its value's lowercase
/// digit is the character in lower case.
proof fn lemma_hex_digit_lower(c: char)
    requires
        is_hex_digit(c),
    ensures
        '\0' <= c <= '\u{7f}',
        c as u8 != 43,
        hex_value(c as u8) is Some,
        hex_value(c as u8).unwrap() < 16,
        hex_alphabet()[hex_value(c as u8).unwrap() as int] == ascii_lower(c),
{
    let n = c as u32;
    if n == 48 {
        assert(hex_alphabet()[0] == '0');
    } else if n == 49 {
        assert(hex_alphabet()[1] == '1');
    } else if n == 50 {
        assert(hex_alphabet()[2] == '2');
    } else if n == 51 {
        assert(hex_alphabet()[3] == '3');
    } else if n == 52 {
        assert(hex_alphabet()[4] == '4');
    } else if n == 53 {
        assert(hex_alphabet()[5] == '5');
    } else if n == 54 {
        assert(hex_alphabet()[6] == '6');
    } else if n == 55 {
        assert(hex_alphabet()[7] == '7');
    } else if n == 56 {
        assert(hex_alphabet()[8] == '8');
    } else if n == 57 {
        assert(hex_alphabet()[9] == '9');
    } else if n == 97 {
        assert(hex_alphabet()[10] == 'a');
    } else if n == 98 {
        assert(hex_alphabet()[11] == 'b');
    } else if n == 99 {
        assert(hex_alphabet()[12] == 'c');
    } else if n == 100 {
        assert(hex_alphabet()[13] == 'd');
    } else if n == 101 {
        assert(hex_alphabet()[14] == 'e');
    } else if n == 102 {
        assert(hex_alphabet()[15] == 'f');
    } else if n == 65 {
        assert(hex_alphabet()[10] == 'a');
    } else if n == 66 {
        assert(hex_alphabet()[11] == 'b');
    } else if n == 67 {
        assert(hex_alphabet()[12] == 'c');
    } else if n == 68 {
        assert(hex_alphabet()[13] == 'd');
    } else if n == 69 {
        assert(hex_alphabet()[14] == 'e');
    } else if n == 70 {
        assert(hex_alphabet()[15] == 'f');
    }
}

/// Reading a text of 64 hex digits as a key and writing the key back gives
/// the text in lower case; reading it never slices a character apart.
pub proof fn hex_reads_back_lowercase(s: Seq<char>)
    requires
        s.len() == 64,
        forall|i: int| 0 <= i < 64 ==> is_hex_digit(#[trigger] s[i]),
    ensures
        hex_decodes(encode_utf8(s)),
        !hex_slicing_panics(encode_utf8(s)),
        hex_text(hex_decoded(encode_utf8(s))) == s.map_values(|c: char| ascii_lower(c)),
{
    assert forall|i: int| 0 <= i < s.len() implies '\0' <= #[trigger] s[i] <= '\u{7f}' by {
        lemma_hex_digit_lower(s[i]);
    }
    assert(is_ascii_chars(s));
    is_ascii_chars_encode_utf8(s);
    let e = encode_utf8(s);
    assert forall|j: int| 0 <= j < 32 implies (#[trigger] pair_at(e, j)) is Some by {
        lemma_hex_digit_lower(s[2 * j]);
        lemma_hex_digit_lower(s[2 * j + 1]);
        assert(e[2 * j] == s[2 * j] as u8);
        assert(e[2 * j + 1] == s[2 * j + 1] as u8);
    }
    let d = hex_decoded(e);
    lemma_hex_text_layout(d);
    let t = hex_text(d);
    let l = s.map_values(|c: char| ascii_lower(c));
    assert forall|i: int| 0 <= i < 64 implies #[trigger] t[i] == l[i] by {
        let j = i / 2;
        lemma_hex_digit_lower(s[2 * j]);
        lemma_hex_digit_lower(s[2 * j + 1]);
        assert(e[2 * j] == s[2 * j] as u8);
        assert(e[2 * j + 1] == s[2 * j + 1] as u8);
        let h = hex_value(s[2 * j] as u8).unwrap();
        let lo = hex_value(s[2 * j + 1] as u8).unwrap();
        assert(d[j] == (16 * h + lo) as u8);
        assert(d[j] / 16 == h && d[j] % 16 == lo);
        assert(i == 2 * j || i == 2 * j + 1);
    }
    assert(t =~= l);
}

/// A 32-byte content digest identifying one cached build.
#[derive(Clone, Copy, Debug, Eq, Hash)]
pub struct CacheKey(pub [u8; 32]);

impl CacheKey {
    /// The key's 32 bytes.
    pub open spec fn bytes(self) -> Seq<u8> {
        self.0@
    }

    /// Wraps a 32-byte digest.
    pub fn new(hash: [u8; 32]) -> (key: Self)
        ensures
            key.0 == hash,
    {
        CacheKey(hash)
    }

    /// The key's bytes.
    pub fn as_bytes(&self) -> (bytes: &[u8; 32])
        ensures
            *bytes == self.0,
    {
        &self.0
    }

    /// Whether two keys are the same.
    pub fn same(&self, other: &Self) -> (eq: bool)
        ensures
            eq == (*self == *other),
    {
        let mut i: usize = 0;
        while i < 32
            invariant
                i <= 32,
                forall|j: int| 0 <= j < i ==> self.0[j] == other.0[j],
            decreases 32 - i,
        {
            if self.0[i] != other.0[i] {
                return false;
            }
            i = i + 1;
        }
        proof {
            broadcast use vstd::array::group_array_axioms;
            assert(self.0 =~= other.0);
        }
        true
    }

    /// The key as 64 lowercase hex digits, high nibble first.
    pub fn to_hex(&self) -> (text: String)
        ensures
            text@ == hex_text(self.bytes()),
            text@.len() == 64,
    {
        let digits: &str = "0123456789abcdef";
        proof {
            reveal_strlit("0123456789abcdef");
        }
        assert(digits@ == hex_alphabet());
        let mut buf = String::new();
        let mut i: usize = 0;
        while i < 32
            invariant
                i <= 32,
                digits@ == hex_alphabet(),
                buf@ == hex_text(self.0@.take(i as int)),
                buf@.len() == 2 * i,
            decreases 32 - i,
        {
            let b = self.0[i];
            let hi = (b / 16) as usize;
            let lo = (b % 16) as usize;
            buf.append(digits.substring_ascii(hi, hi + 1));
            buf.append(digits.substring_ascii(lo, lo + 1));
            assert(self.0@.take(i + 1).drop_last() == self.0@.take(i as int));
            i = i + 1;
        }
        assert(self.0@.take(32) == self.0@);
        buf
    }

    /// Reads a key back from its hex text: 64 bytes, each pair of them one
    /// byte written in base 16 (either case, or as `+` and one digit).
    pub fn from_hex(s: &str) -> (key: Result<Self, Error>)
        requires
            !hex_slicing_panics(s.spec_bytes()),
        ensures
            key is Ok <==> hex_decodes(s.spec_bytes()),
            key matches Ok(k) ==> k.bytes() == hex_decoded(s.spec_bytes()),
            key matches Err(e) ==> e matches Error::Corrupt(d) && d@ == hex_error_text(s.spec_bytes()),
    {
        let b = s.as_bytes();
        if b.len() != 64 {
            let mut d = String::from_str("hex string must be 64 chars, got ");
            let n = decimal_string(b.len());
            d.append(n.as_str());
            return Err(Error::Corrupt(d));
        }
        let mut hash = [0u8; 32];
        let mut i: usize = 0;
        while i < 32
            invariant
                i <= 32,
                b@ == s.spec_bytes(),
                b@.len() == 64,
                pairs_valid_before(b@, i as int),
                forall|j: int| 0 <= j < i ==> hash@[j] == (#[trigger] pair_at(b@, j)).unwrap(),
            decreases 32 - i,
        {
            match pair_value_of(b[2 * i], b[2 * i + 1]) {
                Some(v) => {
                    hash[i] = v;
                },
                None => {
                    assert(pair_at(b@, i as int) is None);
                    return Err(Error::Corrupt(String::from_str("invalid hex: invalid digit found in string")));
                },
            }
            assert(pair_at(b@, i as int) is Some);
            i = i + 1;
        }
        assert(hash@ =~= hex_decoded(b@));
        Ok(CacheKey(hash))
    }

    /// Whether `from_hex` can read `s` field by field without slicing a
    /// character apart.
    pub fn hex_slices_cleanly(s: &str) -> (clean: bool)
        ensures
            clean == !hex_slicing_panics(s.spec_bytes()),
    {
        let b = s.as_bytes();
        if b.len() != 64 {
            return true;
        }
        let mut i: usize = 0;
        while i < 32
            invariant
                i <= 32,
                b@ == s.spec_bytes(),
                b@.len() == 64,
                pairs_valid_before(b@, i as int),
            decreases 32 - i,
        {
            if pair_value_of(b[2 * i], b[2 * i + 1]).is_none() {
                let clean = s.is_char_boundary(2 * i) && s.is_char_boundary(2 * i + 2);
                proof {
                    if !clean {
                        assert(pair_at(b@, i as int) is None);
                    } else {
                        assert forall|k: int|
                            0 <= k < 32 && pairs_valid_before(b@, k) && (#[trigger] pair_at(b@, k)) is None
                            implies is_char_boundary(b@, 2 * k) && is_char_boundary(b@, 2 * k + 2) by {
                            if k < i {
                            } else if k > i {
                                assert(pair_at(b@, i as int) is Some);
                            }
                        }
                    }
                }
                return clean;
            }
            i = i + 1;
        }
        true
    }
}

impl PartialEq for CacheKey {
    fn eq(&self, other: &Self) -> (eq: bool) {
        self.same(other)
    }
}

impl vstd::std_specs::cmp::PartialEqSpecImpl for CacheKey {
    open spec fn obeys_eq_spec() -> bool {
        true
    }

    open spec fn eq_spec(&self, other: &Self) -> bool {
        *self == *other
    }
}

} // verus!
