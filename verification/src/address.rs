//! Addresses in their usual notation.

use vstd::prelude::*;
use vstd::slice::slice_subrange;

use crate::observation::IpAddr;
use crate::text;
use crate::text::{decimal, join, strings};

verus! {

/// The last `count` digits of a number to the given base, the most significant
/// first.
pub open spec fn digits(n: nat, base: nat, count: nat) -> Seq<nat>
    decreases count,
{
    if count == 0 {
        Seq::empty()
    } else {
        digits(n / base, base, (count - 1) as nat).push(n % base)
    }
}

/// The hexadecimal digit that stands for `d`.
pub open spec fn hex_char(d: nat) -> char {
    if d < 10 {
        ('0' as u32 + d) as char
    } else {
        ('a' as u32 + (d - 10)) as char
    }
}

/// `n` in hexadecimal, without leading zeros.
pub open spec fn hex(n: nat) -> Seq<char>
    decreases n,
{
    if n < 16 {
        seq![hex_char(n)]
    } else {
        hex(n / 16).push(hex_char(n % 16))
    }
}

/// An IPv4 address: its four octets in decimal, with dots between them.
pub open spec fn v4_text(n: u32) -> Seq<char> {
    join(digits(n as nat, 256, 4).map_values(|d: nat| decimal(d)), seq!['.'])
}

/// How many zeros there are from `i` on.
pub open spec fn zeros_at(segments: Seq<nat>, i: int) -> nat
    decreases segments.len() - i,
{
    if i >= segments.len() || segments[i] != 0 {
        0
    } else {
        1 + zeros_at(segments, i + 1)
    }
}

/// Where the longest run of zeros begins among the first `n` places, the first of
/// equals.
pub open spec fn longest_zeros(segments: Seq<nat>, n: int) -> int
    decreases n,
{
    if n <= 1 {
        0
    } else {
        let before = longest_zeros(segments, n - 1);
        if zeros_at(segments, n - 1) > zeros_at(segments, before) {
            n - 1
        } else {
            before
        }
    }
}

/// Segments in hexadecimal, with colons between them.
pub open spec fn segments_text(segments: Seq<nat>) -> Seq<char> {
    join(segments.map_values(|s: nat| hex(s)), seq![':'])
}

/// An IPv6 address: its eight segments in hexadecimal with colons between them, of
/// which the longest run of two or more zeros is left out. One that holds an IPv4
/// address shows it.
pub open spec fn v6_text(n: u128) -> Seq<char> {
    let segments = digits(n as nat, 65536, 8);
    let start = longest_zeros(segments, 8);
    let len = zeros_at(segments, start) as int;
    if n / 0x1_0000_0000 == 0xffff {
        "::ffff:"@ + v4_text((n % 0x1_0000_0000) as u32)
    } else if len > 1 {
        segments_text(segments.take(start)) + "::"@ + segments_text(segments.skip(start + len))
    } else {
        segments_text(segments)
    }
}

/// An address in its usual notation.
pub open spec fn addr_text(addr: IpAddr) -> Seq<char> {
    match addr {
        IpAddr::V4(n) => v4_text(n),
        IpAddr::V6(n) => v6_text(n),
    }
}

pub open spec fn numbers(list: Seq<u16>) -> Seq<nat> {
    list.map_values(|n: u16| n as nat)
}

fn hex_string(n: u16) -> (r: Vec<char>)
    ensures
        r@ == hex(n as nat),
    decreases n,
{
    let d: u8 = (n % 16) as u8;
    let c: char = if d < 10 {
        (48u8 + d) as char
    } else {
        (87u8 + d) as char
    };
    let mut out: Vec<char> = if n < 16 {
        Vec::new()
    } else {
        hex_string(n / 16)
    };
    out.push(c);
    proof {
        if n < 16 {
            assert(out@ =~= hex(n as nat));
        }
    }
    out
}

fn digits_of(n: u128, base: u128, count: usize) -> (r: Vec<u16>)
    requires
        0 < base <= 65536,
    ensures
        numbers(r@) == digits(n as nat, base as nat, count as nat),
        r@.len() == count,
    decreases count,
{
    if count == 0 {
        let none: Vec<u16> = Vec::new();
        assert(numbers(none@) =~= Seq::empty());
        return none;
    }
    assert(n as nat / base as nat == (n / base) as nat);
    assert(0 <= n % base < base) by (nonlinear_arith)
        requires
            base > 0,
    ;
    let mut out = digits_of(n / base, base, count - 1);
    let ghost before = numbers(out@);
    out.push((n % base) as u16);
    assert(numbers(out@) =~= before.push((n % base) as nat));
    out
}

fn v4_string(n: u32) -> (r: String)
    ensures
        r@ == v4_text(n),
{
    let octets = digits_of(n as u128, 256, 4);
    let ghost all = digits(n as nat, 256, 4);
    let ghost wanted = all.map_values(|d: nat| decimal(d));
    let mut pieces: Vec<String> = Vec::new();
    let mut i: usize = 0;
    assert(strings(pieces@) =~= wanted.take(0));
    while i < octets.len()
        invariant
            i <= octets@.len(),
            numbers(octets@) == all,
            wanted == all.map_values(|d: nat| decimal(d)),
            strings(pieces@) == wanted.take(i as int),
        decreases octets@.len() - i,
    {
        let ghost before = strings(pieces@);
        let piece = text::decimal_string(octets[i] as u64);
        assert(all[i as int] == octets@[i as int] as nat);
        pieces.push(piece);
        assert(strings(pieces@) =~= before.push(piece@));
        assert(strings(pieces@) =~= wanted.take(i + 1));
        i = i + 1;
    }
    assert(wanted.take(i as int) =~= wanted);
    text::joined(&pieces, '.')
}

fn segments_string(segments: &[u16]) -> (r: String)
    ensures
        r@ == segments_text(numbers(segments@)),
{
    let ghost all = numbers(segments@);
    let ghost wanted = all.map_values(|s: nat| hex(s));
    let mut pieces: Vec<String> = Vec::new();
    let mut i: usize = 0;
    assert(strings(pieces@) =~= wanted.take(0));
    while i < segments.len()
        invariant
            i <= segments@.len(),
            all == numbers(segments@),
            wanted == all.map_values(|s: nat| hex(s)),
            strings(pieces@) == wanted.take(i as int),
        decreases segments@.len() - i,
    {
        let ghost before = strings(pieces@);
        let chars = hex_string(segments[i]);
        let piece = text::string_of(chars.as_slice());
        assert(all[i as int] == segments@[i as int] as nat);
        pieces.push(piece);
        assert(strings(pieces@) =~= before.push(piece@));
        assert(strings(pieces@) =~= wanted.take(i + 1));
        i = i + 1;
    }
    assert(wanted.take(i as int) =~= wanted);
    text::joined(&pieces, ':')
}

fn count_zeros(segments: &Vec<u16>, i: usize) -> (r: usize)
    requires
        i <= segments@.len(),
    ensures
        r == zeros_at(numbers(segments@), i as int),
        i + r <= segments@.len(),
    decreases segments@.len() - i,
{
    assert(numbers(segments@).len() == segments@.len());
    if i >= segments.len() {
        return 0;
    }
    assert(numbers(segments@)[i as int] == segments@[i as int] as nat);
    if segments[i] != 0 {
        return 0;
    }
    1 + count_zeros(segments, i + 1)
}

fn find_longest_zeros(segments: &Vec<u16>) -> (r: usize)
    requires
        segments@.len() >= 1,
    ensures
        r == longest_zeros(numbers(segments@), segments@.len() as int),
        r < segments@.len(),
{
    let mut best: usize = 0;
    let mut i: usize = 1;
    while i < segments.len()
        invariant
            1 <= i <= segments@.len(),
            best < segments@.len(),
            best == longest_zeros(numbers(segments@), i as int),
        decreases segments@.len() - i,
    {
        if count_zeros(segments, i) > count_zeros(segments, best) {
            best = i;
        }
        i = i + 1;
    }
    best
}

fn v6_string(n: u128) -> (r: String)
    ensures
        r@ == v6_text(n),
{
    if n / 0x1_0000_0000 == 0xffff {
        let mut out = text::copy_of("::ffff:");
        let low = v4_string((n % 0x1_0000_0000) as u32);
        out.append(low.as_str());
        return out;
    }
    let segments = digits_of(n, 65536, 8);
    let ghost all = numbers(segments@);
    let start = find_longest_zeros(&segments);
    let len = count_zeros(&segments, start);
    if len > 1 {
        let front = slice_subrange(segments.as_slice(), 0, start);
        let back = slice_subrange(segments.as_slice(), start + len, segments.len());
        proof {
            assert(numbers(front@) =~= all.take(start as int));
            assert(numbers(back@) =~= all.skip(start + len));
        }
        let mut out = segments_string(front);
        out.append("::");
        let tail = segments_string(back);
        out.append(tail.as_str());
        out
    } else {
        segments_string(segments.as_slice())
    }
}

/// Writes an address in its usual notation.
pub fn addr_string(addr: IpAddr) -> (r: String)
    ensures
        r@ == addr_text(addr),
{
    match addr {
        IpAddr::V4(n) => v4_string(n),
        IpAddr::V6(n) => v6_string(n),
    }
}

/// The last digit of a number is what is over when the base is taken away as often as
/// can be, and the digits before it are those of how often that is.
pub proof fn digits_weigh_by_place(high: nat, low: nat, base: nat, count: nat)
    requires
        low < base,
    ensures
        digits(high * base + low, base, count + 1) == digits(high, base, count).push(low),
        digits(high, base, 0).len() == 0,
{
    let n = high * base + low;
    vstd::arithmetic::div_mod::lemma_fundamental_div_mod_converse(
        n as int,
        base as int,
        high as int,
        low as int,
    );
}

/// A number is written in hexadecimal with the digits from `0` to `f`, the one of the
/// highest weight first, and without leading zeros.
pub proof fn hexadecimal_weighs_by_place(high: nat, low: nat)
    requires
        low < 16,
    ensures
        ({
            let signs = seq![
                '0',
                '1',
                '2',
                '3',
                '4',
                '5',
                '6',
                '7',
                '8',
                '9',
                'a',
                'b',
                'c',
                'd',
                'e',
                'f',
            ];
            &&& hex(low) == seq![signs[low as int]]
            &&& high > 0 ==> hex(high * 16 + low) == hex(high).push(signs[low as int])
        }),
{
    assert((high * 16 + low) / 16 == high);
    assert((high * 16 + low) % 16 == low);
}

/// An IPv4 address is told by its four octets in decimal, the first one the one that
/// weighs most.
pub proof fn v4_addresses_are_dotted(a: u8, b: u8, c: u8, d: u8, n: u32)
    requires
        n == a * 0x100_0000 + b * 0x1_0000 + c * 0x100 + d,
    ensures
        v4_text(n) == decimal(a as nat) + seq!['.'] + decimal(b as nat) + seq!['.'] + decimal(
            c as nat,
        ) + seq!['.'] + decimal(d as nat),
        addr_text(IpAddr::V4(n)) == v4_text(n),
{
    let (a, b, c, d) = (a as nat, b as nat, c as nat, d as nat);
    let none = Seq::<nat>::empty();
    assert(digits(0, 256, 0) =~= none);
    digits_weigh_by_place(0, a, 256, 0);
    digits_weigh_by_place(a, b, 256, 1);
    digits_weigh_by_place(a * 256 + b, c, 256, 2);
    digits_weigh_by_place((a * 256 + b) * 256 + c, d, 256, 3);
    let octets = digits(n as nat, 256, 4);
    assert(octets =~= seq![a, b, c, d]);
    let dot = seq!['.'];
    let pieces = octets.map_values(|o: nat| decimal(o));
    assert(pieces =~= seq![decimal(a), decimal(b), decimal(c), decimal(d)]);
    text::joining_goes_piece_by_piece(seq![decimal(a)], decimal(b), dot);
    text::joining_goes_piece_by_piece(seq![decimal(a)], decimal(a), dot);
    assert(seq![decimal(a)].push(decimal(b)) =~= seq![decimal(a), decimal(b)]);
    text::joining_goes_piece_by_piece(seq![decimal(a), decimal(b)], decimal(c), dot);
    assert(seq![decimal(a), decimal(b)].push(decimal(c)) =~= seq![
        decimal(a),
        decimal(b),
        decimal(c),
    ]);
    text::joining_goes_piece_by_piece(
        seq![decimal(a), decimal(b), decimal(c)],
        decimal(d),
        dot,
    );
    assert(seq![decimal(a), decimal(b), decimal(c)].push(decimal(d)) =~= pieces);
}

/// A run of zeros holds zeros only, and reaches as far as they do.
pub proof fn runs_hold_zeros(segments: Seq<nat>, i: int)
    requires
        0 <= i <= segments.len(),
    ensures
        ({
            let end = i + zeros_at(segments, i);
            &&& end <= segments.len()
            &&& forall|j: int| i <= j < end ==> #[trigger] segments[j] == 0
            &&& end < segments.len() ==> segments[end] != 0
        }),
    decreases segments.len() - i,
{
    if i < segments.len() && segments[i] == 0 {
        runs_hold_zeros(segments, i + 1);
    }
}

/// No run of zeros is longer than the one that is left out, and none before it as long.
pub proof fn the_longest_run_is_left_out(segments: Seq<nat>, n: int, i: int)
    requires
        0 <= i < n,
    ensures
        0 <= longest_zeros(segments, n) < n,
        zeros_at(segments, i) <= zeros_at(segments, longest_zeros(segments, n)),
        i < longest_zeros(segments, n) ==> zeros_at(segments, i) < zeros_at(
            segments,
            longest_zeros(segments, n),
        ),
    decreases n,
{
    if n > 1 {
        the_longest_run_is_left_out(
            segments,
            n - 1,
            if i < n - 1 {
                i
            } else {
                0
            },
        );
    }
}

/// The segments of an IPv6 address are its eight parts of sixteen bits, the first one the
/// one that weighs most.
pub proof fn segments_weigh_by_place(s: Seq<u16>, n: u128)
    requires
        s.len() == 8,
        n == ((((((s[0] * 0x1_0000 + s[1]) * 0x1_0000 + s[2]) * 0x1_0000 + s[3]) * 0x1_0000 + s[4])
            * 0x1_0000 + s[5]) * 0x1_0000 + s[6]) * 0x1_0000 + s[7],
    ensures
        digits(n as nat, 65536, 8) == numbers(s),
{
    let base = 0x1_0000nat;
    let a1 = s[0] as nat;
    let a2 = a1 * base + s[1] as nat;
    let a3 = a2 * base + s[2] as nat;
    let a4 = a3 * base + s[3] as nat;
    let a5 = a4 * base + s[4] as nat;
    let a6 = a5 * base + s[5] as nat;
    let a7 = a6 * base + s[6] as nat;
    digits_weigh_by_place(0, a1, base, 0);
    digits_weigh_by_place(a1, s[1] as nat, base, 1);
    digits_weigh_by_place(a2, s[2] as nat, base, 2);
    digits_weigh_by_place(a3, s[3] as nat, base, 3);
    digits_weigh_by_place(a4, s[4] as nat, base, 4);
    digits_weigh_by_place(a5, s[5] as nat, base, 5);
    digits_weigh_by_place(a6, s[6] as nat, base, 6);
    digits_weigh_by_place(a7, s[7] as nat, base, 7);
    assert(digits(n as nat, 65536, 8) =~= numbers(s));
}

/// An IPv6 address is told by its segments in hexadecimal, with colons between them. In
/// place of the first of its longest runs of two or more zeros two colons stand; one zero
/// is written. One that holds an IPv4 address ends with it.
pub proof fn v6_addresses_leave_zeros_out(s: Seq<u16>, n: u128, start: int, len: int, low: u32)
    requires
        s.len() == 8,
        n == ((((((s[0] * 0x1_0000 + s[1]) * 0x1_0000 + s[2]) * 0x1_0000 + s[3]) * 0x1_0000 + s[4])
            * 0x1_0000 + s[5]) * 0x1_0000 + s[6]) * 0x1_0000 + s[7],
        n / 0x1_0000_0000 != 0xffff,
        0 <= start <= start + len <= 8,
        0 < len,
        forall|j: int| start <= j < start + len ==> #[trigger] s[j] == 0,
        start + len < 8 ==> s[start + len] != 0,
        forall|i: int|
            0 <= i < 8 ==> #[trigger] zeros_at(numbers(s), i) <= len && (i < start ==> zeros_at(
                numbers(s),
                i,
            ) < len),
    ensures
        len > 1 ==> v6_text(n) == segments_text(numbers(s).take(start)) + seq![':', ':']
            + segments_text(numbers(s).skip(start + len)),
        len == 1 ==> v6_text(n) == segments_text(numbers(s)),
        addr_text(IpAddr::V6(n)) == v6_text(n),
        addr_text(IpAddr::V6((0xffff_0000_0000 + low) as u128)) == seq![
            ':',
            ':',
            'f',
            'f',
            'f',
            'f',
            ':',
        ] + v4_text(low),
{
    reveal_strlit("::");
    reveal_strlit("::ffff:");
    segments_weigh_by_place(s, n);
    let segments = numbers(s);
    let found = longest_zeros(segments, 8);
    runs_hold_zeros(segments, start);
    assert(segments[start] == s[start]);
    let run = zeros_at(segments, start) as int;
    assert(run == len) by {
        if run < len {
            assert(segments[start + run] == s[start + run]);
        } else if run > len {
            assert(segments[start + len] == s[start + len]);
        }
    }
    the_longest_run_is_left_out(segments, 8, start);
    the_longest_run_is_left_out(segments, 8, if found < start { found } else { start });
    assert(zeros_at(segments, found) <= len);
    assert(found == start);
    let mapped: u128 = (0xffff_0000_0000 + low) as u128;
    assert(mapped / 0x1_0000_0000 == 0xffff && mapped % 0x1_0000_0000 == low);
    assert("::ffff:"@ =~= seq![':', ':', 'f', 'f', 'f', 'f', ':']);
    assert("::"@ =~= seq![':', ':']);
}

/// Segments are told one by one, with a colon between them.
pub proof fn segments_are_told_in_hexadecimal(segments: Seq<nat>, segment: nat)
    ensures
        segments_text(seq![segment]) == hex(segment),
        segments.len() > 0 ==> segments_text(segments.push(segment)) == segments_text(segments)
            + seq![':'] + hex(segment),
        segments_text(Seq::empty()).len() == 0,
{
    let told = |s: nat| hex(s);
    text::joining_goes_piece_by_piece(segments.map_values(told), hex(segment), seq![':']);
    assert(seq![segment].map_values(told) =~= seq![hex(segment)]);
    assert(segments.push(segment).map_values(told) =~= segments.map_values(told).push(
        hex(segment),
    ));
    assert(Seq::<nat>::empty().map_values(told) =~= Seq::empty());
}

} // verus!
