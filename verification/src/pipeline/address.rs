//! Network addresses: their order and their text.

use vstd::arithmetic::div_mod::lemma_div_denominator;
use vstd::prelude::*;

use crate::text::decimal;
use crate::text::is_digit;
use crate::text::is_free_of;
use crate::text::law_cut_at_char;
use crate::text::law_decimal_round_trip;
use crate::text::law_split_last;
use crate::text::lemma_decimal;
use crate::text::number;
use crate::text::push_decimal;
use crate::text::split;
use crate::text::split_once;

verus! {

/// An IPv4 address. The first octet is the most significant.
#[derive(Debug, Clone, Copy, PartialEq, Eq, PartialOrd, Ord, Hash, Structural)]
pub struct Ipv4Addr {
    pub bits: u32,
}

/// An IPv6 address. The first segment is the most significant.
#[derive(Debug, Clone, Copy, PartialEq, Eq, PartialOrd, Ord, Hash, Structural)]
pub struct Ipv6Addr {
    pub bits: u128,
}

/// An IP address, version 4 or 6.
#[derive(Debug, Clone, Copy, PartialEq, Eq, PartialOrd, Ord, Hash, Structural)]
pub enum IpAddr {
    V4(Ipv4Addr),
    V6(Ipv6Addr),
}

impl Ipv4Addr {
    /// The address `a.b.c.d`.
    pub fn new(a: u8, b: u8, c: u8, d: u8) -> (r: Ipv4Addr)
        ensures
            r.octet(0) == a,
            r.octet(1) == b,
            r.octet(2) == c,
            r.octet(3) == d,
    {
        let bits: u32 = ((a as u32) << 24) | ((b as u32) << 16) | ((c as u32) << 8) | (d as u32);
        proof {
            assert(bits / 0x100_0000 == a && bits / 0x1_0000 % 256 == b && bits / 0x100 % 256 == c
                && bits % 256 == d) by (bit_vector)
                requires
                    bits == ((a as u32) << 24) | ((b as u32) << 16) | ((c as u32) << 8) | (
                    d as u32),
            ;
        }
        Ipv4Addr { bits }
    }

    /// Octet `i`, counted from the most significant.
    pub open spec fn octet(self, i: int) -> int {
        if i == 0 {
            self.bits as int / 0x100_0000
        } else if i == 1 {
            self.bits as int / 0x1_0000 % 256
        } else if i == 2 {
            self.bits as int / 0x100 % 256
        } else {
            self.bits as int % 256
        }
    }

    /// Dotted decimal notation.
    pub open spec fn text(self) -> Seq<char> {
        decimal(self.octet(0) as nat) + "."@ + decimal(self.octet(1) as nat) + "."@ + decimal(
            self.octet(2) as nat,
        ) + "."@ + decimal(self.octet(3) as nat)
    }

    fn push_text(&self, out: &mut String)
        ensures
            final(out)@ == old(out)@ + self.text(),
    {
        push_decimal(out, (self.bits / 0x100_0000) as u64);
        out.append(".");
        push_decimal(out, (self.bits / 0x1_0000 % 256) as u64);
        out.append(".");
        push_decimal(out, (self.bits / 0x100 % 256) as u64);
        out.append(".");
        push_decimal(out, (self.bits % 256) as u64);
        assert(out@ =~= old(out)@ + self.text());
    }
}

/// The hexadecimal digit for a number below sixteen.
pub open spec fn hex_digit(n: nat) -> char {
    if n < 10 {
        ('0' as u32 + n) as char
    } else {
        ('a' as u32 + (n - 10)) as char
    }
}

/// The hexadecimal notation of `n`, in lower case.
pub open spec fn hex(n: nat) -> Seq<char>
    decreases n,
{
    if n < 16 {
        seq![hex_digit(n)]
    } else {
        hex(n / 16).push(hex_digit(n % 16))
    }
}

/// Segments in hexadecimal, with colons between them.
pub open spec fn joined(segments: Seq<u16>) -> Seq<char>
    decreases segments.len(),
{
    if segments.len() == 0 {
        Seq::empty()
    } else if segments.len() == 1 {
        hex(segments[0] as nat)
    } else {
        joined(segments.drop_last()) + ":"@ + hex(segments.last() as nat)
    }
}

/// How many segments in a row are zero, from position `i` on.
pub open spec fn zeros_from(segments: Seq<u16>, i: int) -> nat
    decreases segments.len() - i,
{
    if 0 <= i < segments.len() && segments[i] == 0 {
        1 + zeros_from(segments, i + 1)
    } else {
        0
    }
}

/// The longest run of zero segments begins at `a`; no run as long begins before it.
pub open spec fn is_longest_run(segments: Seq<u16>, a: int) -> bool {
    &&& 0 <= a < segments.len()
    &&& forall|b: int|
        0 <= b < segments.len() ==> {
            ||| #[trigger] zeros_from(segments, b) < zeros_from(segments, a)
            ||| zeros_from(segments, b) == zeros_from(segments, a) && a <= b
        }
}

/// Where the longest run of zero segments begins.
pub open spec fn longest_run(segments: Seq<u16>) -> int {
    choose|a: int| is_longest_run(segments, a)
}

fn push_hex(out: &mut String, n: u16)
    ensures
        final(out)@ == old(out)@ + hex(n as nat),
    decreases n,
{
    if n >= 16 {
        push_hex(out, n / 16);
    }
    let d: u16 = n % 16;
    let c: char = if d == 0 {
        '0'
    } else if d == 1 {
        '1'
    } else if d == 2 {
        '2'
    } else if d == 3 {
        '3'
    } else if d == 4 {
        '4'
    } else if d == 5 {
        '5'
    } else if d == 6 {
        '6'
    } else if d == 7 {
        '7'
    } else if d == 8 {
        '8'
    } else if d == 9 {
        '9'
    } else if d == 10 {
        'a'
    } else if d == 11 {
        'b'
    } else if d == 12 {
        'c'
    } else if d == 13 {
        'd'
    } else if d == 14 {
        'e'
    } else {
        'f'
    };
    assert(c == hex_digit(d as nat));
    out.push(c);
    assert(out@ =~= old(out)@ + hex(n as nat));
}

fn push_joined(out: &mut String, segments: &[u16], from: usize, to: usize)
    requires
        from <= to <= segments@.len(),
    ensures
        final(out)@ == old(out)@ + joined(segments@.subrange(from as int, to as int)),
    decreases to - from,
{
    let ghost part = segments@.subrange(from as int, to as int);
    if from < to {
        if to - from > 1 {
            push_joined(out, segments, from, to - 1);
            out.append(":");
        }
        push_hex(out, segments[to - 1]);
        assert(part.drop_last() =~= segments@.subrange(from as int, to - 1));
        assert(part.last() == segments@[to - 1]);
    }
    assert(out@ =~= old(out)@ + joined(part));
}

fn count_zeros(segments: &[u16], from: usize) -> (n: usize)
    requires
        from <= segments@.len(),
    ensures
        n == zeros_from(segments@, from as int),
        from + n <= segments@.len(),
    decreases segments@.len() - from,
{
    if from < segments.len() && segments[from] == 0 {
        1 + count_zeros(segments, from + 1)
    } else {
        0
    }
}

impl Ipv6Addr {
    /// The eight segments.
    pub open spec fn segments(self) -> Seq<u16> {
        seq![
            (self.bits / 0x1_0000_0000_0000_0000_0000_0000_0000) as u16,
            (self.bits / 0x1_0000_0000_0000_0000_0000_0000 % 0x1_0000) as u16,
            (self.bits / 0x1_0000_0000_0000_0000_0000 % 0x1_0000) as u16,
            (self.bits / 0x1_0000_0000_0000_0000 % 0x1_0000) as u16,
            (self.bits / 0x1_0000_0000_0000 % 0x1_0000) as u16,
            (self.bits / 0x1_0000_0000 % 0x1_0000) as u16,
            (self.bits / 0x1_0000 % 0x1_0000) as u16,
            (self.bits % 0x1_0000) as u16,
        ]
    }

    /// The address with the given segments.
    pub fn new(a: u16, b: u16, c: u16, d: u16, e: u16, f: u16, g: u16, h: u16) -> (r: Ipv6Addr)
        ensures
            r.segments() == seq![a, b, c, d, e, f, g, h],
    {
        let bits: u128 = ((a as u128) << 112) | ((b as u128) << 96) | ((c as u128) << 80) | ((
        d as u128) << 64) | ((e as u128) << 48) | ((f as u128) << 32) | ((g as u128) << 16) | (
        h as u128);
        proof {
            assert((bits / 0x1_0000_0000_0000_0000_0000_0000_0000) as u16 == a && (bits
                / 0x1_0000_0000_0000_0000_0000_0000 % 0x1_0000) as u16 == b && (bits
                / 0x1_0000_0000_0000_0000_0000 % 0x1_0000) as u16 == c && (bits
                / 0x1_0000_0000_0000_0000 % 0x1_0000) as u16 == d && (bits / 0x1_0000_0000_0000
                % 0x1_0000) as u16 == e && (bits / 0x1_0000_0000 % 0x1_0000) as u16 == f && (bits
                / 0x1_0000 % 0x1_0000) as u16 == g && (bits % 0x1_0000) as u16 == h)
                by (bit_vector)
                requires
                    bits == ((a as u128) << 112) | ((b as u128) << 96) | ((c as u128) << 80) | ((
                    d as u128) << 64) | ((e as u128) << 48) | ((f as u128) << 32) | ((g as u128)
                        << 16) | (h as u128),
            ;
        }
        Ipv6Addr { bits }
    }

    /// The notation of the address: hexadecimal segments with the longest run of two or
    /// more zero segments cut out, or `::ffff:` and an IPv4 address where it stands for one.
    pub open spec fn text(self) -> Seq<char> {
        let s = self.segments();
        let a = longest_run(s);
        let n = zeros_from(s, a);
        if self.bits / 0x1_0000_0000 == 0xFFFF {
            "::ffff:"@ + (Ipv4Addr { bits: (self.bits % 0x1_0000_0000) as u32 }).text()
        } else if n >= 2 {
            joined(s.take(a)) + "::"@ + joined(s.skip(a + n))
        } else {
            joined(s)
        }
    }

    fn push_text(&self, out: &mut String)
        ensures
            final(out)@ == old(out)@ + self.text(),
    {
        if self.bits / 0x1_0000_0000 == 0xFFFF {
            out.append("::ffff:");
            let v4 = Ipv4Addr { bits: (self.bits % 0x1_0000_0000) as u32 };
            v4.push_text(out);
            assert(out@ =~= old(out)@ + self.text());
            return ;
        }
        let s: [u16; 8] = [
            (self.bits / 0x1_0000_0000_0000_0000_0000_0000_0000) as u16,
            (self.bits / 0x1_0000_0000_0000_0000_0000_0000 % 0x1_0000) as u16,
            (self.bits / 0x1_0000_0000_0000_0000_0000 % 0x1_0000) as u16,
            (self.bits / 0x1_0000_0000_0000_0000 % 0x1_0000) as u16,
            (self.bits / 0x1_0000_0000_0000 % 0x1_0000) as u16,
            (self.bits / 0x1_0000_0000 % 0x1_0000) as u16,
            (self.bits / 0x1_0000 % 0x1_0000) as u16,
            (self.bits % 0x1_0000) as u16,
        ];
        assert(s@ =~= self.segments());
        let mut start: usize = 0;
        let mut len: usize = count_zeros(&s, 0);
        let mut i: usize = 1;
        while i < 8
            invariant
                1 <= i <= 8,
                start < i,
                s@.len() == 8,
                start + len <= 8,
                len == zeros_from(s@, start as int),
                forall|b: int|
                    0 <= b < i ==> {
                        ||| #[trigger] zeros_from(s@, b) < len
                        ||| zeros_from(s@, b) == len && start <= b
                    },
            decreases 8 - i,
        {
            let n: usize = count_zeros(&s, i);
            if n > len {
                start = i;
                len = n;
            }
            i += 1;
        }
        proof {
            assert(is_longest_run(s@, start as int));
            let a = longest_run(s@);
            assert(is_longest_run(s@, a));
            assert(zeros_from(s@, a) == zeros_from(s@, start as int));
            assert(a == start);
        }
        if len >= 2 {
            push_joined(out, &s, 0, start);
            out.append("::");
            push_joined(out, &s, start + len, 8);
            assert(s@.subrange(0, start as int) =~= s@.take(start as int));
            assert(s@.subrange(start + len, 8) =~= s@.skip(start + len));
        } else {
            push_joined(out, &s, 0, 8);
            assert(s@.subrange(0, 8) =~= s@);
        }
        assert(out@ =~= old(out)@ + self.text());
    }
}

impl IpAddr {
    /// The notation of the address.
    pub open spec fn text(self) -> Seq<char> {
        match self {
            IpAddr::V4(v4) => v4.text(),
            IpAddr::V6(v6) => v6.text(),
        }
    }

    /// The place of the address in the order of addresses: IPv4 before IPv6, each by value.
    pub open spec fn order(self) -> int {
        match self {
            IpAddr::V4(v4) => v4.bits as int,
            IpAddr::V6(v6) => 0x1_0000_0000 + v6.bits,
        }
    }

    /// The notation of the address, appended to `out`.
    pub fn push_text(&self, out: &mut String)
        ensures
            final(out)@ == old(out)@ + self.text(),
    {
        match self {
            IpAddr::V4(v4) => v4.push_text(out),
            IpAddr::V6(v6) => v6.push_text(out),
        }
    }

    /// The notation of the address.
    pub fn to_text(&self) -> (r: String)
        ensures
            r@ == self.text(),
    {
        let mut out: String = String::new();
        self.push_text(&mut out);
        assert(out@ =~= self.text());
        out
    }

    /// Whether the address comes before `other` in the order of addresses.
    pub fn precedes(&self, other: &IpAddr) -> (r: bool)
        ensures
            r == (self.order() < other.order()),
    {
        match (self, other) {
            (IpAddr::V4(a), IpAddr::V4(b)) => a.bits < b.bits,
            (IpAddr::V4(_), IpAddr::V6(_)) => true,
            (IpAddr::V6(_), IpAddr::V4(_)) => false,
            (IpAddr::V6(a), IpAddr::V6(b)) => a.bits < b.bits,
        }
    }
}

/// Different addresses have different places in the order.
pub proof fn law_order_is_strict(a: IpAddr, b: IpAddr)
    ensures
        a.order() == b.order() ==> a == b,
{
}

/// A character of an address: a digit, a hexadecimal digit in lower case, a dot or a colon.
pub open spec fn is_address_char(c: char) -> bool {
    is_digit(c) || ('a' <= c && c <= 'f') || c == '.' || c == ':'
}

/// A text of such characters.
pub open spec fn is_address_text(s: Seq<char>) -> bool {
    forall|i: int| 0 <= i < s.len() ==> is_address_char(#[trigger] s[i])
}

proof fn lemma_address_concat(a: Seq<char>, b: Seq<char>)
    requires
        is_address_text(a),
        is_address_text(b),
    ensures
        is_address_text(a + b),
{
    assert forall|i: int| 0 <= i < (a + b).len() implies is_address_char(#[trigger] (a + b)[i]) by {
        if i < a.len() {
            assert(is_address_char(a[i]));
        } else {
            assert(is_address_char(b[i - a.len()]));
        }
    }
}

proof fn lemma_decimal_chars(n: nat)
    ensures
        is_address_text(decimal(n)),
{
    lemma_decimal(n);
    assert forall|i: int| 0 <= i < decimal(n).len() implies is_address_char(
        #[trigger] decimal(n)[i],
    ) by {
        assert(is_digit(decimal(n)[i]));
    }
}

proof fn lemma_hex_chars(n: nat)
    ensures
        is_address_text(hex(n)),
        hex(n).len() > 0,
    decreases n,
{
    let d = n % 16;
    assert(is_address_char(hex_digit(d))) by {
        if d < 10 {
            assert(hex_digit(d) as u32 == 48 + d);
        } else {
            assert(hex_digit(d) as u32 == 97 + (d - 10));
        }
    }
    if n >= 16 {
        lemma_hex_chars(n / 16);
        lemma_address_concat(hex(n / 16), seq![hex_digit(d)]);
        assert(hex(n) =~= hex(n / 16) + seq![hex_digit(d)]);
    }
}

proof fn lemma_joined_chars(segments: Seq<u16>)
    ensures
        is_address_text(joined(segments)),
    decreases segments.len(),
{
    if segments.len() == 1 {
        lemma_hex_chars(segments[0] as nat);
    } else if segments.len() > 1 {
        reveal_strlit(":");
        lemma_joined_chars(segments.drop_last());
        lemma_hex_chars(segments.last() as nat);
        lemma_address_concat(joined(segments.drop_last()), ":"@);
        lemma_address_concat(
            joined(segments.drop_last()) + ":"@,
            hex(segments.last() as nat),
        );
    }
}

proof fn lemma_ipv4_chars(a: Ipv4Addr)
    ensures
        is_address_text(a.text()),
{
    reveal_strlit(".");
    let (p, q, r, s) = (
        decimal(a.octet(0) as nat),
        decimal(a.octet(1) as nat),
        decimal(a.octet(2) as nat),
        decimal(a.octet(3) as nat),
    );
    lemma_decimal_chars(a.octet(0) as nat);
    lemma_decimal_chars(a.octet(1) as nat);
    lemma_decimal_chars(a.octet(2) as nat);
    lemma_decimal_chars(a.octet(3) as nat);
    lemma_address_concat(p, "."@);
    lemma_address_concat(p + "."@, q);
    lemma_address_concat(p + "."@ + q, "."@);
    lemma_address_concat(p + "."@ + q + "."@, r);
    lemma_address_concat(p + "."@ + q + "."@ + r, "."@);
    lemma_address_concat(p + "."@ + q + "."@ + r + "."@, s);
}

/// The notation of an address is made of digits, `a` to `f`, dots and colons.
pub proof fn law_address_chars(a: IpAddr)
    ensures
        is_address_text(a.text()),
{
    match a {
        IpAddr::V4(v4) => {
            lemma_ipv4_chars(v4);
        },
        IpAddr::V6(v6) => {
            reveal_strlit("::ffff:");
            reveal_strlit("::");
            let s = v6.segments();
            let k = longest_run(s);
            let n = zeros_from(s, k);
            let v4 = Ipv4Addr { bits: (v6.bits % 0x1_0000_0000) as u32 };
            lemma_ipv4_chars(v4);
            lemma_address_concat("::ffff:"@, v4.text());
            lemma_joined_chars(s);
            lemma_joined_chars(s.take(k));
            lemma_joined_chars(s.skip(k + n));
            lemma_address_concat(joined(s.take(k)), "::"@);
            lemma_address_concat(joined(s.take(k)) + "::"@, joined(s.skip(k + n)));
        },
    }
}

/// No slash stands in the notation of an address, so that it can stand in a URL.
pub proof fn law_text_has_no_slash(a: IpAddr)
    ensures
        is_free_of(a.text(), '/'),
{
    law_address_chars(a);
    assert forall|i: int| 0 <= i < a.text().len() implies #[trigger] a.text()[i] != '/' by {
        assert(is_address_char(a.text()[i]));
    }
}

/// The text, cut at its first three dots, is these four numbers.
pub open spec fn is_dotted(t: Seq<char>, a: nat, b: nat, c: nat, d: nat) -> bool {
    split_once(t, '.') matches Some((w, t1)) && number(w, 255) == Some(a) && (split_once(
        t1,
        '.',
    ) matches Some((x, t2)) && number(x, 255) == Some(b) && (split_once(t2, '.') matches Some(
        (y, z),
    ) && number(y, 255) == Some(c) && number(z, 255) == Some(d)))
}

proof fn lemma_dotted(a: nat, b: nat, c: nat, d: nat)
    requires
        a < 256,
        b < 256,
        c < 256,
        d < 256,
    ensures
        is_dotted(
            decimal(a) + "."@ + decimal(b) + "."@ + decimal(c) + "."@ + decimal(d),
            a,
            b,
            c,
            d,
        ),
{
    reveal_strlit(".");
    let (w, x, y, z) = (decimal(a), decimal(b), decimal(c), decimal(d));
    let t2 = y + seq!['.'] + z;
    let t1 = x + seq!['.'] + t2;
    let t = w + seq!['.'] + t1;
    assert(w + "."@ + x + "."@ + y + "."@ + z =~= t);
    lemma_no_dot(a);
    lemma_no_dot(b);
    lemma_no_dot(c);
    law_cut_at_char(w, '.', t1);
    law_cut_at_char(x, '.', t2);
    law_cut_at_char(y, '.', z);
    law_decimal_round_trip(a, 255);
    law_decimal_round_trip(b, 255);
    law_decimal_round_trip(c, 255);
    law_decimal_round_trip(d, 255);
}

proof fn lemma_octets(a: int, b: int, c: int, d: int, bits: int)
    requires
        0 <= a < 256,
        0 <= b < 256,
        0 <= c < 256,
        0 <= d < 256,
        bits == a * 0x100_0000 + b * 0x1_0000 + c * 0x100 + d,
    ensures
        bits / 0x100_0000 == a,
        bits / 0x1_0000 % 256 == b,
        bits / 0x100 % 256 == c,
        bits % 256 == d,
{
    assert(bits / 0x1_0000 == a * 256 + b);
    assert(bits / 0x100 == a * 0x1_0000 + b * 256 + c);
}

/// The notation of an IPv4 address is its four octets in decimal, the first one first, with
/// dots between them: cut at its dots it gives them back.
pub proof fn law_ipv4_text(a: u8, b: u8, c: u8, d: u8, ip: Ipv4Addr)
    requires
        ip.bits == a * 0x100_0000 + b * 0x1_0000 + c * 0x100 + d,
    ensures
        is_dotted(ip.text(), a as nat, b as nat, c as nat, d as nat),
{
    lemma_octets(a as int, b as int, c as int, d as int, ip.bits as int);
    lemma_dotted(a as nat, b as nat, c as nat, d as nat);
}

proof fn lemma_no_dot(n: nat)
    ensures
        is_free_of(decimal(n), '.'),
{
    lemma_decimal(n);
    assert forall|i: int| 0 <= i < decimal(n).len() implies #[trigger] decimal(n)[i] != '.' by {
        assert(is_digit(decimal(n)[i]));
    }
}

/// Different IPv4 addresses have different notations.
pub proof fn law_ipv4_text_is_unique(p: Ipv4Addr, q: Ipv4Addr)
    requires
        p.text() == q.text(),
    ensures
        p == q,
{
    lemma_ipv4_parts(p);
    lemma_ipv4_parts(q);
}

/// The octets of an address make it up, and its notation tells them.
proof fn lemma_ipv4_parts(p: Ipv4Addr)
    ensures
        ({
            let (a, b, c, d) = (p.octet(0), p.octet(1), p.octet(2), p.octet(3));
            &&& p.bits == a * 0x100_0000 + b * 0x1_0000 + c * 0x100 + d
            &&& is_dotted(p.text(), a as nat, b as nat, c as nat, d as nat)
            &&& 0 <= a && 0 <= b && 0 <= c && 0 <= d
        }),
{
    let (a, b, c, d) = (p.octet(0), p.octet(1), p.octet(2), p.octet(3));
    assert(0 <= a < 256 && 0 <= b < 256 && 0 <= c < 256 && 0 <= d < 256);
    lemma_octet_sum(p.bits as int);
    lemma_dotted(a as nat, b as nat, c as nat, d as nat);
}

proof fn lemma_octet_sum(bits: int)
    requires
        0 <= bits,
    ensures
        bits == bits / 0x100_0000 * 0x100_0000 + bits / 0x1_0000 % 256 * 0x1_0000 + bits / 0x100
            % 256 * 0x100 + bits % 256,
{
    assert(bits / 0x1_0000 / 256 == bits / 0x100_0000);
    assert(bits / 0x100 / 256 == bits / 0x1_0000);
}

/// IPv4 addresses come before IPv6 addresses, and each kind is ordered by value.
pub proof fn law_order_of_addresses(a: u32, b: u32, c: u128, d: u128)
    ensures
        IpAddr::V4(Ipv4Addr { bits: a }).order() < IpAddr::V6(Ipv6Addr { bits: c }).order(),
        IpAddr::V4(Ipv4Addr { bits: a }).order() < IpAddr::V4(Ipv4Addr { bits: b }).order()
            <==> a < b,
        IpAddr::V6(Ipv6Addr { bits: c }).order() < IpAddr::V6(Ipv6Addr { bits: d }).order()
            <==> c < d,
{
}

/// The value of a hexadecimal digit.
pub open spec fn hex_digit_value(c: char) -> int {
    let u = c as u32;
    if 48 <= u <= 57 {
        u - 48
    } else {
        u - 87
    }
}

/// The number that hexadecimal digits stand for.
pub open spec fn hex_value(s: Seq<char>) -> int
    decreases s.len(),
{
    if s.len() == 0 {
        0
    } else {
        hex_value(s.drop_last()) * 16 + hex_digit_value(s.last())
    }
}

/// A number is read back from its hexadecimal notation, which has no zero in front, but for
/// that of zero itself.
pub proof fn law_hex_round_trip(n: nat)
    ensures
        hex_value(hex(n)) == n,
        n > 0 ==> hex(n)[0] != '0',
        n < 16 ==> hex(n).len() == 1,
    decreases n,
{
    let d = n % 16;
    assert(hex_digit_value(hex_digit(d)) == d) by {
        if d < 10 {
            assert(hex_digit(d) as u32 == 48 + d);
        } else {
            assert(hex_digit(d) as u32 == 97 + (d - 10));
        }
    }
    if n < 16 {
        assert(hex(n).drop_last() =~= Seq::<char>::empty());
        assert(hex_value(Seq::<char>::empty()) == 0);
        if n > 0 && n < 10 {
            assert(hex_digit(n) as u32 == 48 + n);
        } else if n >= 10 {
            assert(hex_digit(n) as u32 == 97 + (n - 10));
        }
    } else {
        law_hex_round_trip(n / 16);
        lemma_hex_chars(n / 16);
        assert(hex(n).drop_last() =~= hex(n / 16));
        assert(hex(n)[0] == hex(n / 16)[0]);
    }
}

proof fn lemma_hex_has_no_colon(n: nat)
    ensures
        is_free_of(hex(n), ':'),
    decreases n,
{
    let d = n % 16;
    assert(hex_digit(d) != ':') by {
        if d < 10 {
            assert(hex_digit(d) as u32 == 48 + d);
        } else {
            assert(hex_digit(d) as u32 == 97 + (d - 10));
        }
    }
    if n >= 16 {
        lemma_hex_has_no_colon(n / 16);
        assert forall|i: int| 0 <= i < hex(n).len() implies #[trigger] hex(n)[i] != ':' by {
            if i < hex(n / 16).len() {
                assert(hex(n)[i] == hex(n / 16)[i]);
            }
        }
    }
}

/// Segments that were joined are read back, in their order: cut at its colons the text gives
/// as many numbers as there were, and each is its segment.
pub proof fn law_joined_is_read(segments: Seq<u16>)
    requires
        segments.len() > 0,
    ensures
        split(joined(segments), seq![':']).len() == segments.len(),
        forall|i: int|
            0 <= i < segments.len() ==> hex_value(#[trigger] split(joined(segments), seq![':'])[i])
                == segments[i],
        joined(Seq::empty()) == Seq::<char>::empty(),
    decreases segments.len(),
{
    reveal_strlit(":");
    let last = segments.last();
    let part = hex(last as nat);
    law_hex_round_trip(last as nat);
    lemma_hex_has_no_colon(last as nat);
    if segments.len() == 1 {
        law_split_last(Seq::empty(), ':', part);
        assert(joined(segments) == part);
    } else {
        let rest = segments.drop_last();
        law_joined_is_read(rest);
        law_split_last(joined(rest), ':', part);
        assert(":"@ =~= seq![':']);
        let all = split(joined(segments), seq![':']);
        let some = split(joined(rest), seq![':']);
        assert(all == some.push(part));
        assert forall|i: int| 0 <= i < segments.len() implies hex_value(#[trigger] all[i])
            == segments[i] by {
            if i < rest.len() {
                assert(all[i] == some[i]);
                assert(hex_value(some[i]) == rest[i]);
            }
        }
    }
}

/// Every segment from `a` up to `b` is zero.
pub open spec fn is_zero_run(segments: Seq<u16>, a: int, b: int) -> bool {
    &&& 0 <= a <= b <= segments.len()
    &&& forall|i: int| a <= i < b ==> #[trigger] segments[i] == 0
}

/// The run from `a` up to `b` is one of zeros, no other is longer, and of those as long it is
/// the first.
pub open spec fn is_cut(segments: Seq<u16>, a: int, b: int) -> bool {
    &&& is_zero_run(segments, a, b)
    &&& forall|c: int, d: int| #[trigger]
        is_zero_run(segments, c, d) ==> d - c < b - a || (d - c == b - a && a <= c)
}

/// How many segments in a row are zero.
proof fn lemma_zeros(segments: Seq<u16>, i: int)
    requires
        0 <= i <= segments.len(),
    ensures
        is_zero_run(segments, i, i + zeros_from(segments, i)),
        forall|d: int| #[trigger]
            is_zero_run(segments, i, d) ==> d <= i + zeros_from(segments, i),
    decreases segments.len() - i,
{
    if i < segments.len() && segments[i] == 0 {
        lemma_zeros(segments, i + 1);
        let n = zeros_from(segments, i + 1);
        assert(is_zero_run(segments, i, i + 1 + n));
        assert forall|d: int| #[trigger] is_zero_run(segments, i, d) implies d <= i + 1 + n by {
            if d > i {
                assert(is_zero_run(segments, i + 1, d));
            }
        }
    } else {
        assert forall|d: int| #[trigger] is_zero_run(segments, i, d) implies d <= i by {
            if d > i {
                assert(segments[i] == 0);
            }
        }
    }
}

/// There is a longest run.
proof fn lemma_longest_run(segments: Seq<u16>, k: int) -> (a: int)
    requires
        0 < k <= segments.len(),
    ensures
        0 <= a < k,
        forall|b: int|
            0 <= b < k ==> {
                ||| #[trigger] zeros_from(segments, b) < zeros_from(segments, a)
                ||| zeros_from(segments, b) == zeros_from(segments, a) && a <= b
            },
    decreases k,
{
    if k == 1 {
        0
    } else {
        let a = lemma_longest_run(segments, k - 1);
        if zeros_from(segments, k - 1) > zeros_from(segments, a) {
            k - 1
        } else {
            a
        }
    }
}

/// The notation of an IPv6 address: its eight segments in hexadecimal with colons between
/// them, and in place of the first of the longest runs of zeros, if it has two or more, two
/// colons. An address that stands for an IPv4 address ends in the notation of that.
pub proof fn law_ipv6_text(ip: Ipv6Addr)
    ensures
        ip.bits / 0x1_0000_0000 == 0xFFFF ==> ip.text() == "::ffff:"@ + (Ipv4Addr {
            bits: (ip.bits % 0x1_0000_0000) as u32,
        }).text(),
        ip.bits / 0x1_0000_0000 != 0xFFFF ==> exists|a: int, b: int| #[trigger]
            is_cut(ip.segments(), a, b) && ip.text() == (if b - a >= 2 {
                joined(ip.segments().take(a)) + "::"@ + joined(ip.segments().skip(b))
            } else {
                joined(ip.segments())
            }),
{
    let s = ip.segments();
    let w = lemma_longest_run(s, 8);
    assert(is_longest_run(s, w));
    let a = longest_run(s);
    assert(is_longest_run(s, a));
    let b = a + zeros_from(s, a);
    lemma_zeros(s, a);
    assert(is_cut(s, a, b)) by {
        assert forall|c: int, d: int| #[trigger] is_zero_run(s, c, d) implies d - c < b - a || (d
            - c == b - a && a <= c) by {
            lemma_zeros(s, c);
            if c < 8 {
                assert(zeros_from(s, c) < zeros_from(s, a) || (zeros_from(s, c) == zeros_from(s, a)
                    && a <= c));
            }
        }
    }
}

/// The segments of an IPv6 address make it up, the first one first.
pub proof fn law_ipv6_segments(ip: Ipv6Addr)
    ensures
        ip.segments().len() == 8,
        ip.bits == ip.segments()[0] * 0x1_0000_0000_0000_0000_0000_0000_0000 + ip.segments()[1]
            * 0x1_0000_0000_0000_0000_0000_0000 + ip.segments()[2] * 0x1_0000_0000_0000_0000_0000
            + ip.segments()[3] * 0x1_0000_0000_0000_0000 + ip.segments()[4] * 0x1_0000_0000_0000
            + ip.segments()[5] * 0x1_0000_0000 + ip.segments()[6] * 0x1_0000 + ip.segments()[7],
{
    let n = ip.bits as int;
    let p1 = n / 0x1_0000;
    let p2 = p1 / 0x1_0000;
    let p3 = p2 / 0x1_0000;
    let p4 = p3 / 0x1_0000;
    let p5 = p4 / 0x1_0000;
    let p6 = p5 / 0x1_0000;
    let p7 = p6 / 0x1_0000;
    lemma_div_denominator(n, 0x1_0000, 0x1_0000);
    lemma_div_denominator(n, 0x1_0000_0000, 0x1_0000);
    lemma_div_denominator(n, 0x1_0000_0000_0000, 0x1_0000);
    lemma_div_denominator(n, 0x1_0000_0000_0000_0000, 0x1_0000);
    lemma_div_denominator(n, 0x1_0000_0000_0000_0000_0000, 0x1_0000);
    lemma_div_denominator(n, 0x1_0000_0000_0000_0000_0000_0000, 0x1_0000);
    assert(p2 == n / 0x1_0000_0000);
    assert(p3 == n / 0x1_0000_0000_0000);
    assert(p4 == n / 0x1_0000_0000_0000_0000);
    assert(p5 == n / 0x1_0000_0000_0000_0000_0000);
    assert(p6 == n / 0x1_0000_0000_0000_0000_0000_0000);
    assert(p7 == n / 0x1_0000_0000_0000_0000_0000_0000_0000);
    lemma_segment_sum(n, p1, p2, p3, p4, p5, p6, p7);
}

proof fn lemma_segment_sum(
    n: int,
    p1: int,
    p2: int,
    p3: int,
    p4: int,
    p5: int,
    p6: int,
    p7: int,
)
    requires
        0 <= n < 0x1_0000_0000_0000_0000_0000_0000_0000_0000,
        p1 == n / 0x1_0000,
        p2 == p1 / 0x1_0000,
        p3 == p2 / 0x1_0000,
        p4 == p3 / 0x1_0000,
        p5 == p4 / 0x1_0000,
        p6 == p5 / 0x1_0000,
        p7 == p6 / 0x1_0000,
    ensures
        0 <= p7 < 0x1_0000,
        n == p7 * 0x1_0000_0000_0000_0000_0000_0000_0000 + p6 % 0x1_0000
            * 0x1_0000_0000_0000_0000_0000_0000 + p5 % 0x1_0000 * 0x1_0000_0000_0000_0000_0000 + p4
            % 0x1_0000 * 0x1_0000_0000_0000_0000 + p3 % 0x1_0000 * 0x1_0000_0000_0000 + p2
            % 0x1_0000 * 0x1_0000_0000 + p1 % 0x1_0000 * 0x1_0000 + n % 0x1_0000,
{
}

} // verus!
