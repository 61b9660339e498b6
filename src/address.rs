use vstd::prelude::*;
use vstd::string::*;

use crate::error::IPError;
use crate::text::{
    all_digits, lemma_decimal, lemma_parse_decimal_byte, lemma_split_append_plain,
    lemma_split_append_sep, lemma_split_plain, decimal, push_decimal, parse_byte, parse_byte_chars, split_chars, split_on, unsigned_body};

verus! {

/// An IPv4 address: a 32-bit value whose first octet is its most
/// significant byte. Equality and order are those of the value.
#[derive(Debug, Clone, Copy, PartialEq, Eq, Structural, PartialOrd, Ord, Hash)]
pub struct Address(pub u32);

impl View for Address {
    type V = u32;

    open spec fn view(&self) -> u32 {
        self.0
    }
}

/// The value of four octets, the first in the most significant byte.
pub open spec fn pack(a: u8, b: u8, c: u8, d: u8) -> u32 {
    ((a as u32) << 24u32) | ((b as u32) << 16u32) | ((c as u32) << 8u32) | (d as u32)
}

/// Octet `k` of `v`, counted from the most significant one (`k < 4`).
pub open spec fn octet(v: u32, k: u32) -> u8 {
    ((v >> (24u32 - 8u32 * k) as u32) & 0xffu32) as u8
}

/// The address that dotted-quad text denotes: four pieces between dots,
/// each an unsigned decimal number up to 255.
pub open spec fn parse_address(s: Seq<char>) -> Option<u32> {
    let parts = split_on(s, '.');
    if parts.len() == 4 && parse_byte(parts[0]) is Some && parse_byte(parts[1]) is Some
        && parse_byte(parts[2]) is Some && parse_byte(parts[3]) is Some {
        Some(
            pack(
                parse_byte(parts[0])->0,
                parse_byte(parts[1])->0,
                parse_byte(parts[2])->0,
                parse_byte(parts[3])->0,
            ),
        )
    } else {
        None
    }
}

/// Dotted-quad text of four octets, each written in shortest decimal.
pub open spec fn dotted(a: u8, b: u8, c: u8, d: u8) -> Seq<char> {
    decimal(a as nat) + seq!['.'] + decimal(b as nat) + seq!['.'] + decimal(c as nat) + seq!['.']
        + decimal(d as nat)
}

/// The dotted-quad text of the address `v`.
pub open spec fn to_text(v: u32) -> Seq<char> {
    dotted(octet(v, 0), octet(v, 1), octet(v, 2), octet(v, 3))
}

/// Whether bit `i` of `v` is set, counting from the most significant bit
/// (`i < 32`).
pub open spec fn bit_at(v: u32, i: u32) -> bool {
    (v >> (31u32 - i) as u32) & 1u32 == 1u32
}

/// The 32 characters `0` and `1` of `v`, most significant bit first.
pub open spec fn bits_of(v: u32) -> Seq<char> {
    Seq::new(32, |i: int| if bit_at(v, i as u32) { '1' } else { '0' })
}

pub open spec fn is_binary_digit(c: char) -> bool {
    c == '0' || c == '1'
}

/// The value of a string of binary digits, most significant first.
pub open spec fn binary_value(s: Seq<char>) -> nat
    decreases s.len(),
{
    if s.len() == 0 {
        0
    } else {
        binary_value(s.drop_last()) * 2 + if s.last() == '1' { 1nat } else { 0nat }
    }
}

/// A binary number that fits in 32 bits: an optional `+`, then one binary
/// digit or more.
pub open spec fn parse_binary(s: Seq<char>) -> Option<u32> {
    let t = unsigned_body(s);
    if t.len() > 0 && (forall|i: int| 0 <= i < t.len() ==> is_binary_digit(#[trigger] t[i]))
        && binary_value(t) <= u32::MAX {
        Some(binary_value(t) as u32)
    } else {
        None
    }
}

proof fn lemma_binary_prefix_le(s: Seq<char>, i: int)
    requires
        0 <= i <= s.len(),
    ensures
        binary_value(s.take(i)) <= binary_value(s),
    decreases s.len(),
{
    if i < s.len() {
        assert(s.drop_last().take(i) =~= s.take(i));
        lemma_binary_prefix_le(s.drop_last(), i);
    } else {
        assert(s.take(i) =~= s);
    }
}

impl Address {
    /// Reads dotted-quad text such as `192.168.1.10`.
    pub fn new(ip: &str) -> (r: Result<Self, IPError>)
        ensures
            r == (match parse_address(ip@) {
                Some(v) => Ok::<Address, IPError>(Address(v)),
                None => Err(IPError::InvalidAddress),
            }),
    {
        let parts = split_chars(ip, '.');
        let ghost pieces = parts@.map_values(|p: Vec<char>| p@);
        if parts.len() != 4 {
            return Err(IPError::InvalidAddress);
        }
        assert(pieces[0] == parts@[0]@);
        assert(pieces[1] == parts@[1]@);
        assert(pieces[2] == parts@[2]@);
        assert(pieces[3] == parts@[3]@);
        let a = match parse_byte_chars(&parts[0]) {
            Some(x) => x,
            None => return Err(IPError::InvalidAddress),
        };
        let b = match parse_byte_chars(&parts[1]) {
            Some(x) => x,
            None => return Err(IPError::InvalidAddress),
        };
        let c = match parse_byte_chars(&parts[2]) {
            Some(x) => x,
            None => return Err(IPError::InvalidAddress),
        };
        let d = match parse_byte_chars(&parts[3]) {
            Some(x) => x,
            None => return Err(IPError::InvalidAddress),
        };
        let v: u32 = ((a as u32) << 24u32) | ((b as u32) << 16u32) | ((c as u32) << 8u32) | (d as u32);
        Ok(Address(v))
    }

    /// The address whose value is `address`.
    pub fn from(address: u32) -> (r: Self)
        ensures
            r@ == address,
    {
        Address(address)
    }

    /// The address that binary text denotes (an optional `+`, then the
    /// digits `0` and `1`, most significant first), or the address 0 where
    /// the text is no such number or does not fit in 32 bits.
    pub fn from_radix(radix: String) -> (r: Self)
        ensures
            r@ == (match parse_binary(radix@) {
                Some(v) => v,
                None => 0,
            }),
    {
        let s: &str = radix.as_str();
        let n = s.unicode_len();
        let mut start: usize = 0;
        if n > 0 && s.get_char(0) == '+' {
            start = 1;
        }
        let ghost t = unsigned_body(s@);
        assert(t =~= s@.subrange(start as int, n as int));
        if start == n {
            return Address(0);
        }
        let mut value: u64 = 0;
        let mut i: usize = start;
        while i < n
            invariant
                start <= i <= n,
                n == s@.len(),
                s@ == radix@,
                t =~= s@.subrange(start as int, n as int),
                t == unsigned_body(radix@),
                forall|k: int| 0 <= k < i - start ==> is_binary_digit(#[trigger] t[k]),
                value as nat == binary_value(t.take(i - start)),
                value <= u32::MAX,
            decreases n - i,
        {
            let c = s.get_char(i);
            assert(t[i - start] == c);
            if c != '0' && c != '1' {
                return Address(0);
            }
            let ghost next = t.take(i + 1 - start);
            assert(next.drop_last() =~= t.take(i - start));
            value = value * 2 + if c == '1' { 1u64 } else { 0u64 };
            if value > 0xffff_ffffu64 {
                proof {
                    lemma_binary_prefix_le(t, i + 1 - start);
                    assert(t.take(t.len() as int) =~= t);
                }
                return Address(0);
            }
            i = i + 1;
        }
        assert(t.take(i - start) =~= t);
        Address(value as u32)
    }

    /// The dotted-quad text of the address, such as `192.168.1.10`.
    pub fn as_str(&self) -> (r: String)
        ensures
            r@ == to_text(self@),
    {
        let v = self.0;
        let dot = ".";
        proof {
            reveal_strlit(".");
        }
        let mut out = String::new();
        push_decimal(&mut out, ((v >> 24u32) & 0xffu32) as u8);
        out.append(dot);
        push_decimal(&mut out, ((v >> 16u32) & 0xffu32) as u8);
        out.append(dot);
        push_decimal(&mut out, ((v >> 8u32) & 0xffu32) as u8);
        out.append(dot);
        push_decimal(&mut out, (v & 0xffu32) as u8);
        assert(v >> 0u32 == v) by (bit_vector);
        assert(out@ =~= to_text(v));
        out
    }

    /// The 32 characters `0` and `1` of the address, most significant bit
    /// first.
    pub fn bits(&self) -> (r: String)
        ensures
            r@ == bits_of(self@),
            r@.len() == 32,
    {
        let v = self.0;
        let mut out = String::new();
        let mut i: u32 = 0;
        while i < 32
            invariant
                i <= 32,
                out@ =~= bits_of(v).take(i as int),
            decreases 32 - i,
        {
            proof {
                reveal_strlit("0");
                reveal_strlit("1");
            }
            let set = (v >> (31 - i)) & 1u32 == 1u32;
            assert(set == bit_at(v, i));
            assert(bits_of(v)[i as int] == if set { '1' } else { '0' });
            if set {
                out.append("1");
            } else {
                out.append("0");
            }
            assert(out@ =~= bits_of(v).take(i + 1));
            i = i + 1;
        }
        assert(bits_of(v).take(32) =~= bits_of(v));
        out
    }
}

proof fn lemma_octets_of_pack(a: u8, b: u8, c: u8, d: u8)
    ensures
        octet(pack(a, b, c, d), 0) == a,
        octet(pack(a, b, c, d), 1) == b,
        octet(pack(a, b, c, d), 2) == c,
        octet(pack(a, b, c, d), 3) == d,
{
    let v = pack(a, b, c, d);
    assert((((((a as u32) << 24u32) | ((b as u32) << 16u32) | ((c as u32) << 8u32) | (d as u32))
        >> 24u32) & 0xffu32) as u8 == a) by (bit_vector);
    assert((((((a as u32) << 24u32) | ((b as u32) << 16u32) | ((c as u32) << 8u32) | (d as u32))
        >> 16u32) & 0xffu32) as u8 == b) by (bit_vector);
    assert((((((a as u32) << 24u32) | ((b as u32) << 16u32) | ((c as u32) << 8u32) | (d as u32))
        >> 8u32) & 0xffu32) as u8 == c) by (bit_vector);
    assert((((((a as u32) << 24u32) | ((b as u32) << 16u32) | ((c as u32) << 8u32) | (d as u32))
        >> 0u32) & 0xffu32) as u8 == d) by (bit_vector);
}

proof fn lemma_no_dot(n: u8)
    ensures
        forall|i: int| 0 <= i < decimal(n as nat).len() ==> decimal(n as nat)[i] != '.',
{
    lemma_decimal(n as nat);
    let s = decimal(n as nat);
    assert forall|i: int| 0 <= i < s.len() implies s[i] != '.' by {
        assert(all_digits(s));
        assert(crate::text::is_digit(s[i]));
    }
}

/// Dotted-quad text with each octet in shortest decimal reads as the address
/// of those octets, and the text of that address is the same text again.
pub proof fn lemma_text_round_trip(a: u8, b: u8, c: u8, d: u8)
    ensures
        parse_address(dotted(a, b, c, d)) == Some(pack(a, b, c, d)),
        to_text(pack(a, b, c, d)) == dotted(a, b, c, d),
{
    let da = decimal(a as nat);
    let db = decimal(b as nat);
    let dc = decimal(c as nat);
    let dd = decimal(d as nat);
    let dot = seq!['.'];
    lemma_no_dot(a);
    lemma_no_dot(b);
    lemma_no_dot(c);
    lemma_no_dot(d);
    lemma_split_plain(da, '.');
    lemma_split_append_sep(da, '.');
    lemma_split_append_plain(da + dot, db, '.');
    assert(split_on(da + dot + db, '.') =~= seq![da, db]);
    lemma_split_append_sep(da + dot + db, '.');
    lemma_split_append_plain(da + dot + db + dot, dc, '.');
    assert(split_on(da + dot + db + dot + dc, '.') =~= seq![da, db, dc]);
    lemma_split_append_sep(da + dot + db + dot + dc, '.');
    lemma_split_append_plain(da + dot + db + dot + dc + dot, dd, '.');
    assert(split_on(dotted(a, b, c, d), '.') =~= seq![da, db, dc, dd]);
    lemma_parse_decimal_byte(a);
    lemma_parse_decimal_byte(b);
    lemma_parse_decimal_byte(c);
    lemma_parse_decimal_byte(d);
    lemma_octets_of_pack(a, b, c, d);
}

} // verus!
