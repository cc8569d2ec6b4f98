//! Reading an IP address from text.
//!
//! An IPv4 address is four decimal numbers from 0 to 255 separated by dots,
//! none written with a leading zero. An IPv6 address is eight groups of one to
//! four hexadecimal digits separated by colons, where one run of zero groups
//! may be written as `::`; its last two groups may be written as a dotted
//! IPv4 address. The address is returned as its octets, most significant
//! first.
use vstd::prelude::*;
use vstd::string::StrSliceExecFns;

verus! {

/// The pieces of `s` between the occurrences of `sep`. There is always one
/// piece more than there are separators.
pub open spec fn split_on(s: Seq<char>, sep: char) -> Seq<Seq<char>>
    decreases s.len(),
{
    if s.len() == 0 {
        seq![Seq::<char>::empty()]
    } else {
        let rest = split_on(s.drop_last(), sep);
        if s.last() == sep {
            rest.push(Seq::<char>::empty())
        } else {
            rest.drop_last().push(rest.last().push(s.last()))
        }
    }
}

/// The character sequences held by a list of character vectors.
pub open spec fn pieces(v: Seq<Vec<char>>) -> Seq<Seq<char>> {
    v.map_values(|p: Vec<char>| p@)
}

/// The value of a hexadecimal digit, if `c` is one.
pub open spec fn hex_digit(c: char) -> Option<nat> {
    if '0' <= c <= '9' {
        Some((c as nat - '0' as nat) as nat)
    } else if 'a' <= c <= 'f' {
        Some((c as nat - 'a' as nat + 10) as nat)
    } else if 'A' <= c <= 'F' {
        Some((c as nat - 'A' as nat + 10) as nat)
    } else {
        None
    }
}

/// Whether `c` is a digit of the given base (10 or 16).
pub open spec fn is_digit(c: char, base: nat) -> bool {
    hex_digit(c).is_some() && hex_digit(c).unwrap() < base
}

/// Whether every character is a digit of the given base (10 or 16).
pub open spec fn all_digits(p: Seq<char>, base: nat) -> bool {
    forall|i: int| 0 <= i < p.len() ==> is_digit(#[trigger] p[i], base)
}

/// The number that the digits spell in the given base.
pub open spec fn number(p: Seq<char>, base: nat) -> nat
    decreases p.len(),
{
    if p.len() == 0 {
        0
    } else {
        number(p.drop_last(), base) * base + hex_digit(p.last()).unwrap_or(0)
    }
}

/// One part of a dotted IPv4 address: one to three decimal digits, no leading
/// zero unless the part is `0` itself, and a value of at most 255.
pub open spec fn dec_octet(p: Seq<char>) -> Option<nat> {
    if 1 <= p.len() <= 3 && all_digits(p, 10) && (p.len() > 1 ==> p[0] != '0') && number(p, 10)
        <= 255 {
        Some(number(p, 10))
    } else {
        None
    }
}

/// One group of an IPv6 address: one to four hexadecimal digits.
pub open spec fn hex_group(p: Seq<char>) -> Option<nat> {
    if 1 <= p.len() <= 4 && all_digits(p, 16) {
        Some(number(p, 16))
    } else {
        None
    }
}

/// The octets of a dotted IPv4 address.
pub open spec fn ipv4_octets(s: Seq<char>) -> Option<Seq<u8>> {
    let parts = split_on(s, '.');
    if parts.len() == 4 && forall|i: int| 0 <= i < 4 ==> (#[trigger] dec_octet(parts[i])).is_some() {
        Some(Seq::new(4, |i: int| dec_octet(parts[i]).unwrap() as u8))
    } else {
        None
    }
}

/// Whether every part is a hexadecimal group.
pub open spec fn all_groups(parts: Seq<Seq<char>>) -> bool {
    forall|i: int| 0 <= i < parts.len() ==> (#[trigger] hex_group(parts[i])).is_some()
}

/// The index of the first empty part, or the number of parts if none is empty.
pub open spec fn first_empty(parts: Seq<Seq<char>>) -> int
    decreases parts.len(),
{
    if parts.len() == 0 {
        0
    } else if parts[0].len() == 0 {
        0
    } else {
        1 + first_empty(parts.drop_first())
    }
}

/// The two octets of each group, in order.
pub open spec fn group_octets(parts: Seq<Seq<char>>) -> Seq<u8> {
    Seq::new(
        2 * parts.len(),
        |i: int|
            if i % 2 == 0 {
                (hex_group(parts[i / 2]).unwrap() / 256) as u8
            } else {
                (hex_group(parts[i / 2]).unwrap() % 256) as u8
            },
    )
}

/// The sixteen octets of an IPv6 address written in colon-separated groups.
///
/// Between the colons the text has parts. A leading or trailing `::` shows as
/// an empty first or last part, which is set aside; among the parts that are
/// left, the one empty part (if any) is the run of zero groups.
pub open spec fn ipv6_octets(s: Seq<char>) -> Option<Seq<u8>> {
    let parts = split_on(s, ':');
    let lo: int = if parts[0].len() == 0 {
        1
    } else {
        0
    };
    let hi: int = if parts.last().len() == 0 {
        parts.len() - 1
    } else {
        parts.len() as int
    };
    if lo > hi {
        None
    } else {
        let mid = parts.subrange(lo, hi);
        let g = first_empty(mid);
        if g == mid.len() {
            if lo == 0 && hi == parts.len() && mid.len() == 8 && all_groups(mid) {
                Some(group_octets(mid))
            } else {
                None
            }
        } else {
            let before = mid.subrange(0, g);
            let after = mid.subrange(g + 1, mid.len() as int);
            if all_groups(before) && all_groups(after) && before.len() + after.len() <= 7 && (lo
                == 1 ==> g == 0) && (hi < parts.len() ==> g == mid.len() - 1) {
                Some(
                    group_octets(before) + Seq::new(
                        (16 - 2 * (before.len() + after.len())) as nat,
                        |i: int| 0u8,
                    ) + group_octets(after),
                )
            } else {
                None
            }
        }
    }
}

/// The sixteen octets of an IPv6 address whose last two groups are written
/// as a dotted IPv4 address, such as `::ffff:10.0.0.1`.
///
/// The last part between the colons is the dotted address. Before it stand
/// six groups, or fewer with one empty part for the run of zero groups; a
/// leading `::` shows as an empty first part, which is set aside.
pub open spec fn ipv6_dotted_octets(s: Seq<char>) -> Option<Seq<u8>> {
    let parts = split_on(s, ':');
    if parts.len() < 2 {
        None
    } else {
        match ipv4_octets(parts.last()) {
            None => None,
            Some(tail) => {
                let lo: int = if parts[0].len() == 0 {
                    1
                } else {
                    0
                };
                let hi: int = parts.len() - 1;
                if lo > hi {
                    None
                } else {
                    let mid = parts.subrange(lo, hi);
                    let g = first_empty(mid);
                    if g == mid.len() {
                        if lo == 0 && mid.len() == 6 && all_groups(mid) {
                            Some(group_octets(mid) + tail)
                        } else {
                            None
                        }
                    } else {
                        let before = mid.subrange(0, g);
                        let after = mid.subrange(g + 1, mid.len() as int);
                        if all_groups(before) && all_groups(after) && before.len() + after.len()
                            <= 5 && (lo == 1 ==> g == 0) {
                            Some(
                                group_octets(before) + Seq::new(
                                    (12 - 2 * (before.len() + after.len())) as nat,
                                    |i: int| 0u8,
                                ) + group_octets(after) + tail,
                            )
                        } else {
                            None
                        }
                    }
                }
            },
        }
    }
}

/// The octets of an address in any notation: four for IPv4, sixteen for
/// IPv6, with or without a dotted tail.
pub open spec fn ip_octets(s: Seq<char>) -> Option<Seq<u8>> {
    match ipv4_octets(s) {
        Some(o) => Some(o),
        None => match ipv6_octets(s) {
            Some(o) => Some(o),
            None => ipv6_dotted_octets(s),
        },
    }
}

/// Bit `i` of an address, counted from the most significant bit of its first octet.
pub open spec fn addr_bit(octets: Seq<u8>, i: int) -> bool {
    octets[i / 8] & (1u8 << ((7 - i % 8) as u8)) != 0
}

/// The characters of a text.
fn chars_of(s: &str) -> (r: Vec<char>)
    ensures
        r@ == s@,
{
    let n = s.unicode_len();
    let mut out: Vec<char> = Vec::new();
    let mut i: usize = 0;
    while i < n
        invariant
            i <= n,
            n == s@.len(),
            out@ == s@.take(i as int),
        decreases n - i,
    {
        out.push(s.get_char(i));
        assert(out@ =~= s@.take(i as int + 1));
        i += 1;
    }
    assert(s@.take(n as int) =~= s@);
    out
}

/// Splits the characters at every occurrence of `sep`.
fn split_chars(s: &Vec<char>, sep: char) -> (r: Vec<Vec<char>>)
    ensures
        pieces(r@) == split_on(s@, sep),
{
    let n = s.len();
    let mut done: Vec<Vec<char>> = Vec::new();
    let mut cur: Vec<char> = Vec::new();
    let mut i: usize = 0;
    assert(s@.take(0) =~= Seq::<char>::empty());
    assert(pieces(done@).push(cur@) =~= seq![Seq::<char>::empty()]);
    while i < n
        invariant
            i <= n,
            n == s@.len(),
            pieces(done@).push(cur@) == split_on(s@.take(i as int), sep),
        decreases n - i,
    {
        let c = s[i];
        proof {
            let t = s@.take(i as int + 1);
            assert(t.drop_last() =~= s@.take(i as int));
            assert(t.last() == c);
            let rest = split_on(s@.take(i as int), sep);
            assert(rest.last() == cur@);
            assert(rest.drop_last() =~= pieces(done@));
        }
        if c == sep {
            let ghost before = pieces(done@).push(cur@);
            done.push(cur);
            cur = Vec::new();
            assert(pieces(done@) =~= before);
        } else {
            cur.push(c);
        }
        i += 1;
    }
    assert(s@.take(n as int) =~= s@);
    let ghost whole = pieces(done@).push(cur@);
    done.push(cur);
    assert(pieces(done@) =~= whole);
    done
}

/// Splits `s` at every occurrence of `sep`.
pub fn split_text(s: &str, sep: char) -> (r: Vec<Vec<char>>)
    ensures
        pieces(r@) == split_on(s@, sep),
{
    let chars = chars_of(s);
    split_chars(&chars, sep)
}

/// The value of a hexadecimal digit.
fn digit_value(c: char) -> (r: Option<u8>)
    ensures
        match r {
            Some(d) => hex_digit(c) == Some(d as nat) && d < 16,
            None => hex_digit(c).is_none(),
        },
{
    if '0' <= c && c <= '9' {
        Some((c as u32 - '0' as u32) as u8)
    } else if 'a' <= c && c <= 'f' {
        Some((c as u32 - 'a' as u32 + 10) as u8)
    } else if 'A' <= c && c <= 'F' {
        Some((c as u32 - 'A' as u32 + 10) as u8)
    } else {
        None
    }
}

/// Reads up to four digits of the given base; `None` when the part is empty,
/// longer than `max_len`, or holds a character that is no such digit.
fn read_number(p: &Vec<char>, base: u8, max_len: usize) -> (r: Option<u32>)
    requires
        base == 10 || base == 16,
        max_len <= 4,
    ensures
        match r {
            Some(v) => 1 <= p.len() <= max_len && all_digits(p@, base as nat) && v == number(
                p@,
                base as nat,
            ) && v < 65536,
            None => !(1 <= p.len() <= max_len && all_digits(p@, base as nat)),
        },
{
    if p.len() == 0 || p.len() > max_len {
        return None;
    }
    let mut v: u32 = 0;
    let mut i: usize = 0;
    assert(p@.take(0) =~= Seq::<char>::empty());
    while i < p.len()
        invariant
            i <= p.len() <= 4,
            base == 10 || base == 16,
            all_digits(p@.take(i as int), base as nat),
            v == number(p@.take(i as int), base as nat),
            i == 0 ==> v == 0,
            i == 1 ==> v < 16,
            i == 2 ==> v < 256,
            i == 3 ==> v < 4096,
            i == 4 ==> v < 65536,
        decreases p.len() - i,
    {
        let d = digit_value(p[i]);
        match d {
            Some(d) => {
                if d >= base {
                    assert(hex_digit(p@[i as int]) == Some(d as nat));
                    return None;
                }
                proof {
                    let t = p@.take(i as int + 1);
                    assert(t.drop_last() =~= p@.take(i as int));
                    assert(t.last() == p@[i as int]);
                    assert forall|j: int| 0 <= j < t.len() implies is_digit(
                        #[trigger] t[j],
                        base as nat,
                    ) by {
                        if j < i {
                            assert(t[j] == p@.take(i as int)[j]);
                        }
                    }
                }
                if base == 10 {
                    v = v * 10 + d as u32;
                } else {
                    v = v * 16 + d as u32;
                }
            },
            None => {
                assert(hex_digit(p@[i as int]).is_none());
                return None;
            },
        }
        i += 1;
    }
    assert(p@.take(p.len() as int) =~= p@);
    Some(v)
}

/// Reads one part of a dotted IPv4 address.
fn read_dec_octet(p: &Vec<char>) -> (r: Option<u8>)
    ensures
        match r {
            Some(v) => dec_octet(p@) == Some(v as nat),
            None => dec_octet(p@).is_none(),
        },
{
    match read_number(p, 10, 3) {
        Some(v) => {
            if (p.len() > 1 && p[0] == '0') || v > 255 {
                None
            } else {
                Some(v as u8)
            }
        },
        None => None,
    }
}

/// Reads a dotted IPv4 address from its characters.
fn read_ipv4(ip: &Vec<char>) -> (r: Option<Vec<u8>>)
    ensures
        match r {
            Some(o) => ipv4_octets(ip@) == Some(o@) && o.len() == 4,
            None => ipv4_octets(ip@).is_none(),
        },
{
    let parts = split_chars(ip, '.');
    if parts.len() != 4 {
        return None;
    }
    let mut out: Vec<u8> = Vec::new();
    let mut i: usize = 0;
    while i < 4
        invariant
            i <= 4,
            parts.len() == 4,
            pieces(parts@) == split_on(ip@, '.'),
            out.len() == i,
            forall|j: int|
                0 <= j < i ==> (#[trigger] dec_octet(pieces(parts@)[j])) == Some(out[j] as nat),
        decreases 4 - i,
    {
        match read_dec_octet(&parts[i]) {
            Some(v) => {
                out.push(v);
            },
            None => {
                assert(dec_octet(pieces(parts@)[i as int]).is_none());
                return None;
            },
        }
        i += 1;
    }
    assert(out@ =~= ipv4_octets(ip@).unwrap());
    Some(out)
}

/// Reads a dotted IPv4 address.
pub fn parse_ipv4(ip: &str) -> (r: Option<Vec<u8>>)
    ensures
        match r {
            Some(o) => ipv4_octets(ip@) == Some(o@),
            None => ipv4_octets(ip@).is_none(),
        },
{
    let chars = chars_of(ip);
    read_ipv4(&chars)
}

/// Reads the groups `parts[from..to]` and appends their octets to `out`;
/// `false` when one of them is no hexadecimal group.
fn read_groups(parts: &Vec<Vec<char>>, from: usize, to: usize, out: &mut Vec<u8>) -> (ok: bool)
    requires
        from <= to <= parts.len(),
    ensures
        ok == all_groups(pieces(parts@).subrange(from as int, to as int)),
        ok ==> final(out)@ == old(out)@ + group_octets(
            pieces(parts@).subrange(from as int, to as int),
        ),
{
    let ghost start = out@;
    let ghost sub = pieces(parts@).subrange(from as int, to as int);
    let mut i: usize = from;
    assert(group_octets(sub.take(0)) =~= Seq::<u8>::empty());
    while i < to
        invariant
            from <= i <= to <= parts.len(),
            sub == pieces(parts@).subrange(from as int, to as int),
            all_groups(sub.take(i - from)),
            out@ == start + group_octets(sub.take(i - from)),
        decreases to - i,
    {
        match read_number(&parts[i], 16, 4) {
            Some(v) => {
                proof {
                    assert(sub[i - from] == parts[i as int]@);
                    assert(hex_group(sub[i - from]) == Some(v as nat));
                    let a = sub.take(i - from);
                    let b = sub.take(i - from + 1);
                    assert forall|j: int| 0 <= j < b.len() implies (#[trigger] hex_group(
                        b[j],
                    )).is_some() by {
                        if j < a.len() {
                            assert(b[j] == a[j]);
                        }
                    }
                    assert(v < 65536);
                    assert(group_octets(b) =~= group_octets(a).push((v / 256) as u8).push(
                        (v % 256) as u8,
                    )) by {
                        assert forall|k: int| 0 <= k < 2 * a.len() implies group_octets(b)[k]
                            == group_octets(a)[k] by {
                            assert(b[k / 2] == a[k / 2]);
                        }
                    }
                }
                out.push((v / 256) as u8);
                out.push((v % 256) as u8);
            },
            None => {
                assert(sub[i - from] == parts[i as int]@);
                assert(hex_group(sub[i - from]).is_none());
                return false;
            },
        }
        i += 1;
    }
    assert(sub.take(to - from) =~= sub);
    true
}

/// The index of the first empty part in `parts[from..to]`, relative to `from`.
fn find_gap(parts: &Vec<Vec<char>>, from: usize, to: usize) -> (g: usize)
    requires
        from <= to <= parts.len(),
    ensures
        g == first_empty(pieces(parts@).subrange(from as int, to as int)),
        g <= to - from,
        g < to - from ==> parts[from + g]@.len() == 0,
    decreases to - from,
{
    let ghost sub = pieces(parts@).subrange(from as int, to as int);
    if from == to {
        0
    } else if parts[from].len() == 0 {
        assert(sub[0] == parts[from as int]@);
        0
    } else {
        assert(sub[0] == parts[from as int]@);
        assert(sub.drop_first() =~= pieces(parts@).subrange(from as int + 1, to as int));
        1 + find_gap(parts, from + 1, to)
    }
}

/// Reads an IPv6 address written in colon-separated groups.
pub fn parse_ipv6(ip: &str) -> (r: Option<Vec<u8>>)
    ensures
        match r {
            Some(o) => ipv6_octets(ip@) == Some(o@),
            None => ipv6_octets(ip@).is_none(),
        },
{
    let parts = split_text(ip, ':');
    proof {
        lemma_split_nonempty(ip@, ':');
    }
    let k = parts.len();
    let lo: usize = if parts[0].len() == 0 {
        1
    } else {
        0
    };
    let hi: usize = if parts[k - 1].len() == 0 {
        k - 1
    } else {
        k
    };
    if lo > hi {
        return None;
    }
    let ghost mid = pieces(parts@).subrange(lo as int, hi as int);
    let g = find_gap(&parts, lo, hi);
    let mut out: Vec<u8> = Vec::new();
    if g == hi - lo {
        if lo == 0 && hi == k && hi - lo == 8 && read_groups(&parts, lo, hi, &mut out) {
            Some(out)
        } else {
            None
        }
    } else {
        let n_before = g;
        let n_after = hi - lo - g - 1;
        if n_before + n_after > 7 || (lo == 1 && g != 0) || (hi < k && g != hi - lo - 1) {
            return None;
        }
        proof {
            assert(mid.subrange(0, g as int) =~= pieces(parts@).subrange(
                lo as int,
                lo as int + g as int,
            ));
            assert(mid.subrange(g as int + 1, mid.len() as int) =~= pieces(parts@).subrange(
                lo as int + g as int + 1,
                hi as int,
            ));
        }
        if !read_groups(&parts, lo, lo + g, &mut out) {
            return None;
        }
        let zeros = 16 - 2 * (n_before + n_after);
        let ghost head = out@;
        let mut z: usize = 0;
        while z < zeros
            invariant
                z <= zeros,
                out@ == head + Seq::new(z as nat, |i: int| 0u8),
            decreases zeros - z,
        {
            out.push(0u8);
            z += 1;
            assert(out@ =~= head + Seq::new(z as nat, |i: int| 0u8));
        }
        if !read_groups(&parts, lo + g + 1, hi, &mut out) {
            return None;
        }
        Some(out)
    }
}

/// Reads an IPv6 address whose last two groups are written as a dotted
/// IPv4 address.
pub fn parse_ipv6_dotted(ip: &str) -> (r: Option<Vec<u8>>)
    ensures
        match r {
            Some(o) => ipv6_dotted_octets(ip@) == Some(o@),
            None => ipv6_dotted_octets(ip@).is_none(),
        },
{
    let parts = split_text(ip, ':');
    let k = parts.len();
    if k < 2 {
        return None;
    }
    assert(pieces(parts@).last() == parts[k - 1]@);
    let mut tail = match read_ipv4(&parts[k - 1]) {
        Some(t) => t,
        None => {
            return None;
        },
    };
    let ghost tail_octets = tail@;
    let lo: usize = if parts[0].len() == 0 {
        1
    } else {
        0
    };
    let hi: usize = k - 1;
    if lo > hi {
        return None;
    }
    let ghost mid = pieces(parts@).subrange(lo as int, hi as int);
    let g = find_gap(&parts, lo, hi);
    let mut out: Vec<u8> = Vec::new();
    if g == hi - lo {
        if lo == 0 && hi - lo == 6 && read_groups(&parts, lo, hi, &mut out) {
            out.append(&mut tail);
            Some(out)
        } else {
            None
        }
    } else {
        let n_before = g;
        let n_after = hi - lo - g - 1;
        if n_before + n_after > 5 || (lo == 1 && g != 0) {
            return None;
        }
        proof {
            assert(mid.subrange(0, g as int) =~= pieces(parts@).subrange(
                lo as int,
                lo as int + g as int,
            ));
            assert(mid.subrange(g as int + 1, mid.len() as int) =~= pieces(parts@).subrange(
                lo as int + g as int + 1,
                hi as int,
            ));
        }
        if !read_groups(&parts, lo, lo + g, &mut out) {
            return None;
        }
        let zeros = 12 - 2 * (n_before + n_after);
        let ghost head = out@;
        let mut z: usize = 0;
        while z < zeros
            invariant
                z <= zeros,
                out@ == head + Seq::new(z as nat, |i: int| 0u8),
            decreases zeros - z,
        {
            out.push(0u8);
            z += 1;
            assert(out@ =~= head + Seq::new(z as nat, |i: int| 0u8));
        }
        if !read_groups(&parts, lo + g + 1, hi, &mut out) {
            return None;
        }
        out.append(&mut tail);
        Some(out)
    }
}

/// Reads an address in any notation.
pub fn parse_ip(ip: &str) -> (r: Option<Vec<u8>>)
    ensures
        match r {
            Some(o) => ip_octets(ip@) == Some(o@),
            None => ip_octets(ip@).is_none(),
        },
{
    match parse_ipv4(ip) {
        Some(o) => Some(o),
        None => match parse_ipv6(ip) {
            Some(o) => Some(o),
            None => parse_ipv6_dotted(ip),
        },
    }
}

/// Bit `i` of an address, counted from the most significant bit of its first octet.
pub fn address_bit(octets: &Vec<u8>, i: usize) -> (r: bool)
    requires
        i < 8 * octets.len(),
    ensures
        r == addr_bit(octets@, i as int),
{
    let shift: u8 = (7 - i % 8) as u8;
    octets[i / 8] & (1u8 << shift) != 0
}

/// A text always splits into at least one piece.
pub proof fn lemma_split_nonempty(s: Seq<char>, sep: char)
    ensures
        split_on(s, sep).len() >= 1,
    decreases s.len(),
{
    if s.len() > 0 {
        lemma_split_nonempty(s.drop_last(), sep);
    }
}

} // verus!
