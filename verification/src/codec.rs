//! The address codec: dotted-decimal text to a 32-bit value and back.
//!
//! A valid address is four dot-separated decimal octets, each a non-empty
//! digit string reading at most 255. The decoded value places the octets in
//! dotted order from the most significant byte to the least: the big-endian
//! concatenation of the four 8-bit groups.

use vstd::prelude::*;
use vstd::arithmetic::div_mod::{lemma_div_denominator, lemma_fundamental_div_mod, lemma_mod_mod};
use crate::text::{
    all_digits, chars_to_string, dec_val, digit_val, find_char, find_char_from, is_digit,
    lemma_find_char_is, lemma_find_char_none, parse_u32_digits, str_to_chars, subvec,
};

verus! {

/// Failure of the codec, for text that is not a dotted-decimal address.
#[derive(Clone, Copy, Debug, PartialEq, Eq)]
pub enum CodecError {
    MalformedAddress,
}

/// The dot-separated segments of `s`, starting at index `i`.
pub open spec fn split_dots_from(s: Seq<char>, i: int) -> Seq<Seq<char>>
    decreases s.len() - i,
{
    match find_char(s, '.', i) {
        None => seq![s.subrange(i, s.len() as int)],
        Some(j) => if i <= j < s.len() {
            seq![s.subrange(i, j)] + split_dots_from(s, j + 1)
        } else {
            // unreachable: a found occurrence lies within the text
            Seq::empty()
        },
    }
}

pub open spec fn split_dots(s: Seq<char>) -> Seq<Seq<char>> {
    split_dots_from(s, 0)
}

/// A segment that reads as one octet: digits only, value at most 255.
pub open spec fn valid_octet(t: Seq<char>) -> bool {
    t.len() > 0 && all_digits(t) && dec_val(t) <= 255
}

/// Four dot-separated octets and nothing else.
pub open spec fn valid_ip(s: Seq<char>) -> bool {
    &&& split_dots(s).len() == 4
    &&& forall|k: int| 0 <= k < 4 ==> valid_octet(#[trigger] split_dots(s)[k])
}

/// The 32-bit value of a valid address: octets in dotted order occupy the
/// bytes from the most significant down to the least.
pub open spec fn ip_value(s: Seq<char>) -> u32
    recommends
        valid_ip(s),
{
    (dec_val(split_dots(s)[0]) * 0x1000000 + dec_val(split_dots(s)[1]) * 0x10000 + dec_val(
        split_dots(s)[2],
    ) * 0x100 + dec_val(split_dots(s)[3])) as u32
}

/// Whether `t` holds one valid octet, and its value when it does.
fn check_octet(t: &Vec<char>) -> (r: Option<u32>)
    ensures
        match r {
            Some(v) => valid_octet(t@) && v == dec_val(t@) && v <= 255,
            None => !valid_octet(t@),
        },
{
    if t.len() == 0 {
        return None;
    }
    let mut i: usize = 0;
    while i < t.len()
        invariant
            i <= t@.len(),
            forall|k: int| 0 <= k < i ==> is_digit(#[trigger] t@[k]),
        decreases t@.len() - i,
    {
        let c = t[i] as u32;
        if c < 48 || c > 57 {
            return None;
        }
        i = i + 1;
    }
    match parse_u32_digits(t) {
        None => None,
        Some(v) => if v <= 255 {
            Some(v)
        } else {
            None
        },
    }
}

/// Split on the dot separators, keeping every segment.
fn split_dots_exec(s: &Vec<char>) -> (parts: Vec<Vec<char>>)
    ensures
        parts@.map_values(|v: Vec<char>| v@) == split_dots(s@),
{
    let n = s.len();
    let mut parts: Vec<Vec<char>> = Vec::new();
    let mut pos: usize = 0;
    loop
        invariant
            n == s@.len(),
            pos <= s@.len(),
            split_dots(s@) == parts@.map_values(|v: Vec<char>| v@) + split_dots_from(
                s@,
                pos as int,
            ),
        decreases s@.len() - pos,
    {
        let ghost done = parts@.map_values(|v: Vec<char>| v@);
        match find_char_from(s, '.', pos) {
            None => {
                let tail = subvec(s, pos, s.len());
                parts.push(tail);
                proof {
                    assert(parts@.map_values(|v: Vec<char>| v@) =~= done.push(tail@));
                    assert(done.push(tail@) =~= done + split_dots_from(s@, pos as int));
                }
                return parts;
            },
            Some(j) => {
                proof {
                    assert(j < n);
                }
                let piece = subvec(s, pos, j);
                parts.push(piece);
                pos = j + 1;
                proof {
                    assert(parts@.map_values(|v: Vec<char>| v@) =~= done.push(piece@));
                    assert(done + (seq![piece@] + split_dots_from(s@, pos as int)) =~= done.push(
                        piece@,
                    ) + split_dots_from(s@, pos as int));
                }
            },
        }
    }
}

/// Decode a dotted-decimal address held in a vector of characters.
pub(crate) fn ip_from_chars(s: &Vec<char>) -> (r: Option<u32>)
    ensures
        match r {
            Some(v) => valid_ip(s@) && v == ip_value(s@),
            None => !valid_ip(s@),
        },
{
    let parts = split_dots_exec(s);
    if parts.len() != 4 {
        return None;
    }
    proof {
        assert(split_dots(s@)[0] == parts@.map_values(|v: Vec<char>| v@)[0]);
        assert(split_dots(s@)[1] == parts@.map_values(|v: Vec<char>| v@)[1]);
        assert(split_dots(s@)[2] == parts@.map_values(|v: Vec<char>| v@)[2]);
        assert(split_dots(s@)[3] == parts@.map_values(|v: Vec<char>| v@)[3]);
        assert(split_dots(s@)[0] == parts@[0]@);
        assert(split_dots(s@)[1] == parts@[1]@);
        assert(split_dots(s@)[2] == parts@[2]@);
        assert(split_dots(s@)[3] == parts@[3]@);
    }
    let o0 = match check_octet(&parts[0]) {
        Some(v) => v,
        None => {
            return None;
        },
    };
    let o1 = match check_octet(&parts[1]) {
        Some(v) => v,
        None => {
            return None;
        },
    };
    let o2 = match check_octet(&parts[2]) {
        Some(v) => v,
        None => {
            return None;
        },
    };
    let o3 = match check_octet(&parts[3]) {
        Some(v) => v,
        None => {
            return None;
        },
    };
    Some(o0 * 0x1000000 + o1 * 0x10000 + o2 * 0x100 + o3)
}

/// The character of a decimal digit value.
pub open spec fn digit_char(d: nat) -> char {
    if d == 0 {
        '0'
    } else if d == 1 {
        '1'
    } else if d == 2 {
        '2'
    } else if d == 3 {
        '3'
    } else if d == 4 {
        '4'
    } else if d == 5 {
        '5'
    } else if d == 6 {
        '6'
    } else if d == 7 {
        '7'
    } else if d == 8 {
        '8'
    } else {
        '9'
    }
}

/// Shortest decimal rendering of one octet value.
pub open spec fn octet_chars(n: nat) -> Seq<char>
    recommends
        n <= 255,
{
    if n < 10 {
        seq![digit_char(n)]
    } else if n < 100 {
        seq![digit_char(n / 10), digit_char(n % 10)]
    } else {
        seq![digit_char(n / 100), digit_char((n / 10) % 10), digit_char(n % 10)]
    }
}

/// Canonical dotted-decimal rendering of a 32-bit value: the four 8-bit groups
/// in big-endian order, each in shortest decimal form.
pub open spec fn spec_encode(v: u32) -> Seq<char> {
    octet_chars((v as nat) / 0x1000000) + seq!['.'] + octet_chars(
        ((v as nat) % 0x1000000) / 0x10000,
    ) + seq!['.'] + octet_chars(((v as nat) % 0x10000) / 0x100) + seq!['.'] + octet_chars(
        (v as nat) % 0x100,
    )
}

proof fn lemma_dec_val_single(c: char)
    ensures
        dec_val(seq![c]) == digit_val(c),
{
    assert(seq![c].drop_last() =~= Seq::<char>::empty());
    assert(dec_val(Seq::<char>::empty()) == 0);
}

proof fn lemma_dec_val_pair(a: char, b: char)
    ensures
        dec_val(seq![a, b]) == digit_val(a) * 10 + digit_val(b),
{
    assert(seq![a, b].drop_last() =~= seq![a]);
    lemma_dec_val_single(a);
}

proof fn lemma_digit_char(d: nat)
    requires
        d < 10,
    ensures
        is_digit(digit_char(d)),
        digit_val(digit_char(d)) == d,
        digit_char(d) != '.',
{
}

/// An octet rendering reads back as the octet, uses only digits, and has
/// between one and three characters.
proof fn lemma_octet_chars(n: nat)
    requires
        n <= 255,
    ensures
        valid_octet(octet_chars(n)),
        dec_val(octet_chars(n)) == n,
        1 <= octet_chars(n).len() <= 3,
        forall|k: int| 0 <= k < octet_chars(n).len() ==> octet_chars(n)[k] != '.',
{
    let t = octet_chars(n);
    lemma_fundamental_div_mod(n as int, 10);
    if n < 10 {
        lemma_digit_char(n);
        lemma_dec_val_single(digit_char(n));
    } else if n < 100 {
        lemma_digit_char(n / 10);
        lemma_digit_char(n % 10);
        lemma_dec_val_pair(digit_char(n / 10), digit_char(n % 10));
        assert(dec_val(t) == (n / 10) * 10 + n % 10);
    } else {
        lemma_fundamental_div_mod((n as int) / 10, 10);
        lemma_div_denominator(n as int, 10, 10);
        assert(n / 100 < 10 && n / 100 >= 1) by (nonlinear_arith)
            requires
                100 <= n <= 255,
        ;
        lemma_digit_char(n / 100);
        lemma_digit_char((n / 10) % 10);
        lemma_digit_char(n % 10);
        assert(t.drop_last() =~= seq![digit_char(n / 100), digit_char((n / 10) % 10)]);
        lemma_dec_val_pair(digit_char(n / 100), digit_char((n / 10) % 10));
        assert(dec_val(t) == ((n / 100) * 10 + (n / 10) % 10) * 10 + n % 10);
        assert((n as int) / 100 == ((n as int) / 10) / 10);
    }
}

/// The canonical rendering splits back into exactly its four octet groups.
proof fn lemma_split_encode(v: u32)
    ensures
        split_dots(spec_encode(v)) =~= seq![
            octet_chars((v as nat) / 0x1000000),
            octet_chars(((v as nat) % 0x1000000) / 0x10000),
            octet_chars(((v as nat) % 0x10000) / 0x100),
            octet_chars((v as nat) % 0x100),
        ],
{
    let n = v as nat;
    let a = octet_chars(n / 0x1000000);
    let b = octet_chars((n % 0x1000000) / 0x10000);
    let c = octet_chars((n % 0x10000) / 0x100);
    let e = octet_chars(n % 0x100);
    let s = spec_encode(v);
    assert(n / 0x1000000 <= 255) by (nonlinear_arith)
        requires
            n < 0x100000000,
    ;
    assert((n % 0x1000000) / 0x10000 <= 255) by (nonlinear_arith);
    assert((n % 0x10000) / 0x100 <= 255) by (nonlinear_arith);
    lemma_octet_chars(n / 0x1000000);
    lemma_octet_chars((n % 0x1000000) / 0x10000);
    lemma_octet_chars((n % 0x10000) / 0x100);
    lemma_octet_chars(n % 0x100);
    let p1 = a.len() as int;
    let p2 = p1 + 1 + b.len() as int;
    let p3 = p2 + 1 + c.len() as int;
    assert(s.len() == p3 + 1 + e.len());
    assert(s[p1] == '.' && s[p2] == '.' && s[p3] == '.');
    assert(forall|k: int| 0 <= k < p1 ==> s[k] == a[k]);
    assert(forall|k: int| p1 < k < p2 ==> s[k] == b[k - p1 - 1]);
    assert(forall|k: int| p2 < k < p3 ==> s[k] == c[k - p2 - 1]);
    assert(forall|k: int| p3 < k < s.len() ==> s[k] == e[k - p3 - 1]);
    lemma_find_char_is(s, '.', 0, p1);
    lemma_find_char_is(s, '.', p1 + 1, p2);
    lemma_find_char_is(s, '.', p2 + 1, p3);
    lemma_find_char_none(s, '.', p3 + 1);
    assert(s.subrange(0, p1) =~= a);
    assert(s.subrange(p1 + 1, p2) =~= b);
    assert(s.subrange(p2 + 1, p3) =~= c);
    assert(s.subrange(p3 + 1, s.len() as int) =~= e);
    assert(split_dots_from(s, p3 + 1) =~= seq![e]);
    assert(split_dots_from(s, p2 + 1) =~= seq![c] + split_dots_from(s, p3 + 1));
    assert(split_dots_from(s, p1 + 1) =~= seq![b] + split_dots_from(s, p2 + 1));
    assert(split_dots_from(s, 0) =~= seq![a] + split_dots_from(s, p1 + 1));
}

/// The canonical rendering of any 32-bit value is a valid address text and
/// decodes back to that value.
proof fn lemma_encode_valid(v: u32)
    ensures
        valid_ip(spec_encode(v)),
        ip_value(spec_encode(v)) == v,
{
    let n = v as nat;
    lemma_split_encode(v);
    assert(n / 0x1000000 <= 255) by (nonlinear_arith)
        requires
            n < 0x100000000,
    ;
    assert((n % 0x1000000) / 0x10000 <= 255) by (nonlinear_arith);
    assert((n % 0x10000) / 0x100 <= 255) by (nonlinear_arith);
    lemma_octet_chars(n / 0x1000000);
    lemma_octet_chars((n % 0x1000000) / 0x10000);
    lemma_octet_chars((n % 0x10000) / 0x100);
    lemma_octet_chars(n % 0x100);
    // the four groups recompose to the original value
    lemma_fundamental_div_mod(n as int, 0x1000000);
    lemma_fundamental_div_mod((n as int) % 0x1000000, 0x10000);
    lemma_mod_mod(n as int, 0x10000, 0x100);
    lemma_fundamental_div_mod((n as int) % 0x10000, 0x100);
    lemma_mod_mod(n as int, 0x100, 0x100);
    assert(0x10000 * 0x100 == 0x1000000 && 0x100 * 0x100 == 0x10000);
    assert(n as int == 0x1000000 * ((n as int) / 0x1000000) + 0x10000 * (((n as int) % 0x1000000)
        / 0x10000) + 0x100 * (((n as int) % 0x10000) / 0x100) + (n as int) % 0x100);
    assert(ip_value(spec_encode(v)) == v);
}

/// Codec round trip: decoding a valid dotted-decimal string, rendering the
/// value back to text, and decoding again reproduces the same 32-bit value.
pub proof fn lemma_codec_round_trip(s: Seq<char>)
    requires
        valid_ip(s),
    ensures
        valid_ip(spec_encode(ip_value(s))),
        ip_value(spec_encode(ip_value(s))) == ip_value(s),
{
    lemma_encode_valid(ip_value(s));
}

fn digit_char_exec(d: u32) -> (r: char)
    requires
        d < 10,
    ensures
        r == digit_char(d as nat),
{
    if d == 0 {
        '0'
    } else if d == 1 {
        '1'
    } else if d == 2 {
        '2'
    } else if d == 3 {
        '3'
    } else if d == 4 {
        '4'
    } else if d == 5 {
        '5'
    } else if d == 6 {
        '6'
    } else if d == 7 {
        '7'
    } else if d == 8 {
        '8'
    } else {
        '9'
    }
}

fn push_octet(out: &mut Vec<char>, o: u32)
    requires
        o <= 255,
    ensures
        final(out)@ == old(out)@ + octet_chars(o as nat),
{
    if o >= 100 {
        out.push(digit_char_exec(o / 100));
        out.push(digit_char_exec((o / 10) % 10));
        out.push(digit_char_exec(o % 10));
        proof {
            assert(out@ =~= old(out)@ + octet_chars(o as nat));
        }
    } else if o >= 10 {
        out.push(digit_char_exec(o / 10));
        out.push(digit_char_exec(o % 10));
        proof {
            assert(out@ =~= old(out)@ + octet_chars(o as nat));
        }
    } else {
        out.push(digit_char_exec(o));
        proof {
            assert(out@ =~= old(out)@ + octet_chars(o as nat));
        }
    }
}

/// Render a 32-bit value as dotted-decimal text. The result is a valid
/// address string and decodes back to the given value.
pub fn ip_to_string(v: u32) -> (r: String)
    ensures
        r@ == spec_encode(v),
        valid_ip(r@),
        ip_value(r@) == v,
{
    let o0 = v / 0x1000000;
    let r0 = v % 0x1000000;
    let o1 = r0 / 0x10000;
    let r1 = r0 % 0x10000;
    let o2 = r1 / 0x100;
    let o3 = r1 % 0x100;
    let mut out: Vec<char> = Vec::new();
    push_octet(&mut out, o0);
    out.push('.');
    push_octet(&mut out, o1);
    out.push('.');
    push_octet(&mut out, o2);
    out.push('.');
    push_octet(&mut out, o3);
    proof {
        lemma_mod_mod(v as int, 0x10000, 0x100);
        lemma_mod_mod(v as int, 0x100, 0x100);
        assert(0x10000 * 0x100 == 0x1000000 && 0x100 * 0x100 == 0x10000);
        assert(r1 as int == (v as int) % 0x10000);
        assert(out@ =~= spec_encode(v));
        lemma_encode_valid(v);
    }
    chars_to_string(&out)
}

/// Decode a dotted-decimal address. Exactly the valid strings decode; every
/// other string is reported as malformed.
pub fn string_to_ip(ip: String) -> (r: Result<u32, CodecError>)
    ensures
        valid_ip(ip@) ==> r == Ok::<u32, CodecError>(ip_value(ip@)),
        !valid_ip(ip@) ==> r == Err::<u32, CodecError>(CodecError::MalformedAddress),
{
    let chars = str_to_chars(ip.as_str());
    match ip_from_chars(&chars) {
        Some(v) => Ok(v),
        None => Err(CodecError::MalformedAddress),
    }
}

} // verus!
