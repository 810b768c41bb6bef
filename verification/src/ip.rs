//! IP addresses and their textual notation.

use vstd::prelude::*;
use vstd::string::*;

use crate::text;

verus! {

/// An IP address, held as the number that its bits denote.
#[derive(Clone, Copy, PartialEq, Eq, Structural, Debug)]
pub enum IpAddr {
    V4(u32),
    V6(u128),
}

// ---------------------------------------------------------------------------
// Notation of IPv4 addresses
// ---------------------------------------------------------------------------

/// One octet of a dotted address: one to three digits without a leading zero.
pub open spec fn octet_value(s: Seq<char>) -> Option<int> {
    if text::all_digits(s) && s.len() <= 3 && (s.len() == 1 || s[0] != '0') && text::digits_value(s) <= 255 {
        Some(text::digits_value(s) as int)
    } else {
        None
    }
}

/// The address that four dotted octets denote.
pub open spec fn ipv4_value(s: Seq<char>) -> Option<int> {
    let p = text::split_on(s, '.');
    if p.len() == 4 && octet_value(p[0]) is Some && octet_value(p[1]) is Some && octet_value(
        p[2],
    ) is Some && octet_value(p[3]) is Some {
        Some(
            octet_value(p[0])->0 * 0x100_0000 + octet_value(p[1])->0 * 0x1_0000 + octet_value(
                p[2],
            )->0 * 0x100 + octet_value(p[3])->0,
        )
    } else {
        None
    }
}

/// The dotted notation of an IPv4 address.
pub open spec fn ipv4_text(n: int) -> Seq<char> {
    text::decimal((n / 0x100_0000) as nat).push('.') + text::decimal(((n / 0x1_0000) % 0x100) as nat).push('.')
        + text::decimal(((n / 0x100) % 0x100) as nat).push('.') + text::decimal((n % 0x100) as nat)
}

fn parse_octet(v: &Vec<char>) -> (r: Option<u32>)
    ensures
        match r {
            Some(n) => octet_value(v@) == Some(n as int) && n <= 255,
            None => octet_value(v@) is None,
        },
{
    if v.len() == 0 || v.len() > 3 {
        return None;
    }
    if v.len() > 1 && v[0] == '0' {
        return None;
    }
    let mut acc: u32 = 0;
    let mut i: usize = 0;
    assert(v@.take(0) =~= Seq::<char>::empty());
    while i < v.len()
        invariant
            i <= v@.len() <= 3,
            forall|j: int| 0 <= j < i ==> text::is_digit(#[trigger] v@[j]),
            text::digits_value(v@.take(i as int)) == acc,
            i == 0 ==> acc == 0,
            i == 1 ==> acc < 10,
            i == 2 ==> acc < 100,
            i == 3 ==> acc < 1000,
        decreases v@.len() - i,
    {
        let c = v[i];
        if !('0' <= c && c <= '9') {
            assert(!text::is_digit(v@[i as int]));
            return None;
        }
        let ghost step = v@.take(i + 1);
        assert(step.drop_last() =~= v@.take(i as int));
        assert(step.last() == c);
        acc = acc * 10 + (((c as u8) - ('0' as u8)) as u32);
        i = i + 1;
    }
    assert(v@.take(i as int) =~= v@);
    if acc <= 255 {
        Some(acc)
    } else {
        None
    }
}

fn parse_ipv4_chars(v: &Vec<char>) -> (r: Option<u32>)
    ensures
        match r {
            Some(n) => ipv4_value(v@) == Some(n as int),
            None => ipv4_value(v@) is None,
        },
{
    let p = text::split_chars(v, '.');
    if p.len() != 4 {
        return None;
    }
    assert(forall|i: int| 0 <= i < 4 ==> text::split_on(v@, '.')[i] == (#[trigger] p@[i])@);
    match (parse_octet(&p[0]), parse_octet(&p[1]), parse_octet(&p[2]), parse_octet(&p[3])) {
        (Some(a), Some(b), Some(c), Some(d)) => Some(
            a * 0x100_0000 + b * 0x1_0000 + c * 0x100 + d,
        ),
        _ => None,
    }
}

fn ipv4_to_text(n: u32) -> (r: String)
    ensures
        r@ == ipv4_text(n as int),
{
    let mut s = text::decimal_text((n / 0x100_0000) as u64);
    s.push('.');
    let b = text::decimal_text(((n / 0x1_0000) % 0x100) as u64);
    s.append(b.as_str());
    s.push('.');
    let c = text::decimal_text(((n / 0x100) % 0x100) as u64);
    s.append(c.as_str());
    s.push('.');
    let d = text::decimal_text((n % 0x100) as u64);
    s.append(d.as_str());
    assert(s@ =~= ipv4_text(n as int));
    s
}

// ---------------------------------------------------------------------------
// Notation of IPv6 addresses
// ---------------------------------------------------------------------------

/// One group of an IPv6 address: one to four hexadecimal digits.
pub open spec fn group_value(s: Seq<char>) -> Option<int> {
    if 1 <= s.len() <= 4 && forall|i: int| 0 <= i < s.len() ==> text::is_hex_digit(#[trigger] s[i]) {
        Some(text::hex_digits_value(s) as int)
    } else {
        None
    }
}

/// Every piece is a group.
pub open spec fn all_groups(p: Seq<Seq<char>>) -> bool {
    forall|i: int| 0 <= i < p.len() ==> group_value(#[trigger] p[i]) is Some
}

/// The values of the pieces.
pub open spec fn group_values(p: Seq<Seq<char>>) -> Seq<int> {
    p.map_values(|s: Seq<char>| group_value(s)->0)
}

/// The groups of a list separated by colons; an empty text is the empty list.
/// Where `dotted` holds, the last piece may be a dotted IPv4 address, which
/// stands for two groups.
pub open spec fn group_list(s: Seq<char>, dotted: bool) -> Option<Seq<int>> {
    let p = text::split_on(s, ':');
    if s.len() == 0 {
        Some(Seq::<int>::empty())
    } else if all_groups(p) {
        Some(group_values(p))
    } else if dotted && all_groups(p.drop_last()) && ipv4_value(p.last()) is Some {
        Some(
            group_values(p.drop_last()).push(ipv4_value(p.last())->0 / 0x1_0000).push(
                ipv4_value(p.last())->0 % 0x1_0000,
            ),
        )
    } else {
        None
    }
}

/// `pattern` stands in `s` first at position `i`.
pub open spec fn first_at(s: Seq<char>, pattern: Seq<char>, i: int) -> bool {
    text::occurs_at(s, pattern, i) && forall|j: int| 0 <= j < i ==> !text::occurs_at(s, pattern, j)
}

/// The eight groups that an IPv6 notation denotes. The first `::` stands for
/// one or more groups of zeros.
pub open spec fn ipv6_groups(s: Seq<char>) -> Option<Seq<int>> {
    if text::has_text(s, "::"@) {
        let i = choose|i: int| first_at(s, "::"@, i);
        let head = group_list(s.take(i), false);
        let tail = group_list(s.skip(i + 2), true);
        if head is Some && tail is Some && head->0.len() + tail->0.len() <= 7 {
            Some(
                head->0 + Seq::new((8 - head->0.len() - tail->0.len()) as nat, |k: int| 0int)
                    + tail->0,
            )
        } else {
            None
        }
    } else {
        let all = group_list(s, true);
        if all is Some && all->0.len() == 8 {
            all
        } else {
            None
        }
    }
}

/// The weight of the group at position `i` of an IPv6 address.
pub open spec fn group_weight(i: int) -> int {
    if i == 0 {
        0x1_0000_0000_0000_0000_0000_0000_0000
    } else if i == 1 {
        0x1_0000_0000_0000_0000_0000_0000
    } else if i == 2 {
        0x1_0000_0000_0000_0000_0000
    } else if i == 3 {
        0x1_0000_0000_0000_0000
    } else if i == 4 {
        0x1_0000_0000_0000
    } else if i == 5 {
        0x1_0000_0000
    } else if i == 6 {
        0x1_0000
    } else {
        1
    }
}

/// The number that eight groups denote.
pub open spec fn groups_number(g: Seq<int>) -> int {
    g[0] * 0x1_0000_0000_0000_0000_0000_0000_0000 + g[1] * 0x1_0000_0000_0000_0000_0000_0000 + g[2]
        * 0x1_0000_0000_0000_0000_0000 + g[3] * 0x1_0000_0000_0000_0000 + g[4] * 0x1_0000_0000_0000
        + g[5] * 0x1_0000_0000 + g[6] * 0x1_0000 + g[7]
}

/// The eight groups of an IPv6 address.
pub open spec fn groups_of(n: int) -> Seq<int> {
    Seq::new(8, |i: int| (n / group_weight(i)) % 0x1_0000)
}

/// The lower-case hexadecimal notation of a number, without leading zeros.
pub open spec fn hex_number(n: nat) -> Seq<char>
    decreases n,
{
    if n < 16 {
        seq![text::hex_digit(n as int)]
    } else {
        hex_number(n / 16).push(text::hex_digit(n as int % 16))
    }
}

/// Groups in hexadecimal notation, separated by colons.
pub open spec fn groups_text(g: Seq<int>) -> Seq<char>
    decreases g.len(),
{
    if g.len() == 0 {
        Seq::<char>::empty()
    } else if g.len() == 1 {
        hex_number(g[0] as nat)
    } else {
        groups_text(g.drop_last()).push(':') + hex_number(g.last() as nat)
    }
}

/// How many groups of zeros stand in `g` from position `i` on without a gap.
pub open spec fn zero_run(g: Seq<int>, i: int) -> int
    decreases g.len() - i,
{
    if 0 <= i < g.len() && g[i] == 0 {
        1 + zero_run(g, i + 1)
    } else {
        0
    }
}

/// The first position, from `i` on, at which the run of zeros is longest.
pub open spec fn longest_run_at(g: Seq<int>, i: int) -> int
    decreases g.len() - i,
{
    if i + 1 >= g.len() {
        i
    } else {
        let rest = longest_run_at(g, i + 1);
        if zero_run(g, i) >= zero_run(g, rest) {
            i
        } else {
            rest
        }
    }
}

/// The notation of an IPv6 address: an IPv4-mapped address shows its dotted
/// part, and of any other the first longest run of two or more groups of zeros
/// is written `::`.
pub open spec fn ipv6_text(n: int) -> Seq<char> {
    let g = groups_of(n);
    if n / 0x1_0000_0000 == 0xffff {
        "::ffff:"@ + ipv4_text(n % 0x1_0000_0000)
    } else {
        let at = longest_run_at(g, 0);
        let run = zero_run(g, at);
        if run > 1 {
            groups_text(g.take(at)) + "::"@ + groups_text(g.skip(at + run))
        } else {
            groups_text(g)
        }
    }
}

/// The address that a notation denotes.
pub open spec fn ip_value(s: Seq<char>) -> Option<IpAddr> {
    if ipv4_value(s) is Some {
        Some(IpAddr::V4(ipv4_value(s)->0 as u32))
    } else if ipv6_groups(s) is Some {
        Some(IpAddr::V6(groups_number(ipv6_groups(s)->0) as u128))
    } else {
        None
    }
}

/// The notation of an address.
pub open spec fn ip_text(ip: IpAddr) -> Seq<char> {
    match ip {
        IpAddr::V4(n) => ipv4_text(n as int),
        IpAddr::V6(n) => ipv6_text(n as int),
    }
}

/// Vectors of groups as sequences of numbers.
pub open spec fn as_ints(v: Seq<u16>) -> Seq<int> {
    v.map_values(|x: u16| x as int)
}

fn parse_group(v: &Vec<char>) -> (r: Option<u16>)
    ensures
        match r {
            Some(n) => group_value(v@) == Some(n as int),
            None => group_value(v@) is None,
        },
{
    if v.len() == 0 || v.len() > 4 {
        return None;
    }
    let mut acc: u32 = 0;
    let mut i: usize = 0;
    assert(v@.take(0) =~= Seq::<char>::empty());
    while i < v.len()
        invariant
            i <= v@.len() <= 4,
            forall|j: int| 0 <= j < i ==> text::is_hex_digit(#[trigger] v@[j]),
            text::hex_digits_value(v@.take(i as int)) == acc,
            i == 0 ==> acc == 0,
            i == 1 ==> acc < 0x10,
            i == 2 ==> acc < 0x100,
            i == 3 ==> acc < 0x1000,
            i == 4 ==> acc < 0x1_0000,
        decreases v@.len() - i,
    {
        let ghost step = v@.take(i + 1);
        assert(step.drop_last() =~= v@.take(i as int));
        assert(step.last() == v@[i as int]);
        match text::char_hex_value(v[i]) {
            Some(x) => {
                acc = acc * 16 + (x as u32);
            },
            None => {
                assert(!text::is_hex_digit(v@[i as int]));
                return None;
            },
        }
        i = i + 1;
    }
    assert(v@.take(i as int) =~= v@);
    Some(acc as u16)
}

/// The groups of the pieces before position `to`.
fn parse_groups(p: &Vec<Vec<char>>, to: usize) -> (r: Option<Vec<u16>>)
    requires
        to <= p@.len(),
    ensures
        match r {
            Some(g) => all_groups(text::pieces(p@).take(to as int)) && as_ints(g@) == group_values(
                text::pieces(p@).take(to as int),
            ),
            None => !all_groups(text::pieces(p@).take(to as int)),
        },
{
    let ghost all = text::pieces(p@).take(to as int);
    let mut g: Vec<u16> = Vec::new();
    let mut i: usize = 0;
    while i < to
        invariant
            i <= to <= p@.len(),
            all == text::pieces(p@).take(to as int),
            g@.len() == i,
            forall|j: int| 0 <= j < i ==> group_value(#[trigger] all[j]) == Some(g@[j] as int),
        decreases to - i,
    {
        assert(all[i as int] == p@[i as int]@);
        match parse_group(&p[i]) {
            Some(x) => {
                g.push(x);
            },
            None => {
                return None;
            },
        }
        i = i + 1;
    }
    assert(as_ints(g@) =~= group_values(all));
    Some(g)
}

fn parse_group_list(v: &Vec<char>, dotted: bool) -> (r: Option<Vec<u16>>)
    ensures
        match r {
            Some(g) => group_list(v@, dotted) == Some(as_ints(g@)),
            None => group_list(v@, dotted) is None,
        },
{
    if v.len() == 0 {
        let g: Vec<u16> = Vec::new();
        assert(as_ints(g@) =~= Seq::<int>::empty());
        return Some(g);
    }
    let p = text::split_chars(v, ':');
    let ghost all = text::pieces(p@);
    let n: usize = p.len();
    assert(all.take(n as int) =~= all);
    match parse_groups(&p, n) {
        Some(g) => {
            return Some(g);
        },
        None => {},
    }
    if !dotted {
        return None;
    }
    assert(all.take(n - 1) =~= all.drop_last());
    assert(all.last() == p@[n - 1]@);
    match (parse_groups(&p, n - 1), parse_ipv4_chars(&p[n - 1])) {
        (Some(g), Some(a)) => {
            let mut g = g;
            let ghost front = as_ints(g@);
            g.push((a / 0x1_0000) as u16);
            g.push((a % 0x1_0000) as u16);
            assert(as_ints(g@) =~= front.push(a as int / 0x1_0000).push(a as int % 0x1_0000));
            Some(g)
        },
        _ => None,
    }
}

/// The characters from `from` up to, not including, `to`.
fn chars_between(v: &Vec<char>, from: usize, to: usize) -> (r: Vec<char>)
    requires
        from <= to <= v@.len(),
    ensures
        r@ == v@.subrange(from as int, to as int),
{
    let mut out: Vec<char> = Vec::new();
    let mut i: usize = from;
    while i < to
        invariant
            from <= i <= to <= v@.len(),
            out@ == v@.subrange(from as int, i as int),
        decreases to - i,
    {
        out.push(v[i]);
        i = i + 1;
    }
    out
}

fn parse_ipv6_chars(v: &Vec<char>) -> (r: Option<Vec<u16>>)
    ensures
        match r {
            Some(g) => ipv6_groups(v@) == Some(as_ints(g@)) && g@.len() == 8,
            None => ipv6_groups(v@) is None,
        },
{
    let n: usize = v.len();
    match text::find_chars(v, "::") {
        Some(i) => {
            proof {
                reveal_strlit("::");
                assert(first_at(v@, "::"@, i as int));
                let k = choose|k: int| first_at(v@, "::"@, k);
                assert(first_at(v@, "::"@, k));
                assert(k == i);
            }
            let head_chars = chars_between(v, 0, i);
            let tail_chars = chars_between(v, i + 2, n);
            assert(head_chars@ =~= v@.take(i as int));
            assert(tail_chars@ =~= v@.skip(i + 2));
            match (parse_group_list(&head_chars, false), parse_group_list(&tail_chars, true)) {
                (Some(head), Some(tail)) => {
                    if head.len() > 7 || tail.len() > 7 - head.len() {
                        return None;
                    }
                    let mut out: Vec<u16> = Vec::new();
                    let zeros: usize = 8 - head.len() - tail.len();
                    let ghost want = as_ints(head@) + Seq::new(
                        (8 - head@.len() - tail@.len()) as nat,
                        |k: int| 0int,
                    ) + as_ints(tail@);
                    let mut j: usize = 0;
                    while j < 8
                        invariant
                            j <= 8,
                            out@.len() == j,
                            head@.len() + zeros + tail@.len() == 8,
                            want == as_ints(head@) + Seq::new(
                                (8 - head@.len() - tail@.len()) as nat,
                                |k: int| 0int,
                            ) + as_ints(tail@),
                            forall|k: int| 0 <= k < j ==> want[k] == #[trigger] out@[k],
                        decreases 8 - j,
                    {
                        if j < head.len() {
                            out.push(head[j]);
                        } else if j < head.len() + zeros {
                            out.push(0);
                        } else {
                            out.push(tail[j - head.len() - zeros]);
                        }
                        j = j + 1;
                    }
                    assert(as_ints(out@) =~= want);
                    Some(out)
                },
                _ => None,
            }
        },
        None => {
            match parse_group_list(v, true) {
                Some(g) => {
                    if g.len() == 8 {
                        Some(g)
                    } else {
                        None
                    }
                },
                None => None,
            }
        },
    }
}

/// The address that the notation `v` denotes, if it is one.
pub fn parse_ip_chars(v: &Vec<char>) -> (r: Option<IpAddr>)
    ensures
        r == ip_value(v@),
{
    match parse_ipv4_chars(v) {
        Some(n) => {
            return Some(IpAddr::V4(n));
        },
        None => {},
    }
    match parse_ipv6_chars(v) {
        Some(g) => {
            let ghost gs = as_ints(g@);
            assert(forall|i: int| 0 <= i < 8 ==> gs[i] == #[trigger] g@[i] as int);
            let n: u128 = (g[0] as u128) * 0x1_0000_0000_0000_0000_0000_0000_0000 + (g[1] as u128)
                * 0x1_0000_0000_0000_0000_0000_0000 + (g[2] as u128)
                * 0x1_0000_0000_0000_0000_0000 + (g[3] as u128) * 0x1_0000_0000_0000_0000 + (
            g[4] as u128) * 0x1_0000_0000_0000 + (g[5] as u128) * 0x1_0000_0000 + (g[6] as u128)
                * 0x1_0000 + (g[7] as u128);
            assert(n == groups_number(gs));
            Some(IpAddr::V6(n))
        },
        None => None,
    }
}

/// The address that the notation `s` denotes, if it is one.
pub fn parse_ip(s: &str) -> (r: Option<IpAddr>)
    ensures
        r == ip_value(s@),
{
    let v = text::chars_of(s);
    parse_ip_chars(&v)
}

fn hex_number_text(n: u16) -> (r: String)
    ensures
        r@ == hex_number(n as nat),
    decreases n,
{
    if n < 16 {
        let mut s = String::new();
        s.push(text::char_hex_digit(n as u8));
        assert(s@ =~= hex_number(n as nat));
        s
    } else {
        let mut s = hex_number_text(n / 16);
        s.push(text::char_hex_digit((n % 16) as u8));
        s
    }
}

/// The groups from `from` up to, not including, `to`, separated by colons.
fn groups_to_text(g: &Vec<u16>, from: usize, to: usize) -> (r: String)
    requires
        from <= to <= g@.len(),
    ensures
        r@ == groups_text(as_ints(g@).subrange(from as int, to as int)),
{
    let ghost all = as_ints(g@);
    let mut s = String::new();
    let mut i: usize = from;
    assert(all.subrange(from as int, from as int) =~= Seq::<int>::empty());
    while i < to
        invariant
            from <= i <= to <= g@.len(),
            all == as_ints(g@),
            s@ == groups_text(all.subrange(from as int, i as int)),
        decreases to - i,
    {
        let ghost step = all.subrange(from as int, i + 1);
        assert(step.drop_last() =~= all.subrange(from as int, i as int));
        assert(step.last() == g@[i as int] as int);
        if i > from {
            s.push(':');
        }
        let h = hex_number_text(g[i]);
        s.append(h.as_str());
        assert(s@ =~= groups_text(step));
        i = i + 1;
    }
    s
}

fn ipv6_to_text(n: u128) -> (r: String)
    ensures
        r@ == ipv6_text(n as int),
{
    if n / 0x1_0000_0000 == 0xffff {
        let mut s = String::new();
        s.append("::ffff:");
        let d = ipv4_to_text((n % 0x1_0000_0000) as u32);
        s.append(d.as_str());
        assert(s@ =~= ipv6_text(n as int));
        return s;
    }
    let mut g: Vec<u16> = Vec::new();
    g.push(((n / 0x1_0000_0000_0000_0000_0000_0000_0000) % 0x1_0000) as u16);
    g.push(((n / 0x1_0000_0000_0000_0000_0000_0000) % 0x1_0000) as u16);
    g.push(((n / 0x1_0000_0000_0000_0000_0000) % 0x1_0000) as u16);
    g.push(((n / 0x1_0000_0000_0000_0000) % 0x1_0000) as u16);
    g.push(((n / 0x1_0000_0000_0000) % 0x1_0000) as u16);
    g.push(((n / 0x1_0000_0000) % 0x1_0000) as u16);
    g.push(((n / 0x1_0000) % 0x1_0000) as u16);
    g.push((n % 0x1_0000) as u16);
    let ghost gs = as_ints(g@);
    assert(gs =~= groups_of(n as int));
    let mut at: usize = 7;
    let mut run: usize = if g[7] == 0 {
        1
    } else {
        0
    };
    let mut here: usize = run;
    let mut i: usize = 7;
    assert(zero_run(gs, 8) == 0);
    assert(zero_run(gs, 7) == run);
    assert(longest_run_at(gs, 7) == 7);
    while i > 0
        invariant
            i <= 7,
            gs == as_ints(g@),
            g@.len() == 8,
            i <= at < 8,
            at == longest_run_at(gs, i as int),
            run == zero_run(gs, at as int),
            here == zero_run(gs, i as int),
            here <= 8 - i,
            at + run <= 8,
        decreases i,
    {
        i = i - 1;
        if g[i] == 0 {
            here = here + 1;
        } else {
            here = 0;
        }
        assert(here == zero_run(gs, i as int));
        if here >= run {
            run = here;
            at = i;
        }
    }
    if run > 1 {
        let mut s = groups_to_text(&g, 0, at);
        assert(gs.subrange(0, at as int) =~= gs.take(at as int));
        s.append("::");
        let t = groups_to_text(&g, at + run, 8);
        assert(gs.subrange(at + run, 8) =~= gs.skip(at + run));
        s.append(t.as_str());
        s
    } else {
        assert(gs.subrange(0, 8) =~= gs);
        groups_to_text(&g, 0, 8)
    }
}

impl IpAddr {
    /// The notation of the address.
    pub fn to_text(&self) -> (r: String)
        ensures
            r@ == ip_text(*self),
    {
        match *self {
            IpAddr::V4(n) => ipv4_to_text(n),
            IpAddr::V6(n) => ipv6_to_text(n),
        }
    }
}

// ---------------------------------------------------------------------------
// What the notations promise
// ---------------------------------------------------------------------------

/// An empty text is no address.
pub proof fn lemma_no_empty_address()
    ensures
        ip_value(Seq::<char>::empty()) is None,
{
    let e = Seq::<char>::empty();
    assert(text::split_on(e, '.').len() == 1);
    reveal_strlit("::");
    assert(!text::has_text(e, "::"@)) by {
        assert("::"@.len() == 2);
        if text::has_text(e, "::"@) {
            let i = choose|i: int| text::occurs_at(e, "::"@, i);
            assert(i + 2 <= 0);
        }
    }
}

proof fn lemma_decimal_octet(n: nat)
    requires
        n < 256,
    ensures
        octet_value(text::decimal(n)) == Some(n as int),
        !text::decimal(n).contains('.'),
        !text::decimal(n).contains(':'),
{
    let d = text::decimal(n);
    text::lemma_decimal_digits(n);
    assert(forall|i: int| 0 <= i < d.len() ==> text::is_digit(#[trigger] d[i]));
    if n < 10 {
        assert(d.len() == 1);
    } else if n < 100 {
        assert(text::decimal(n / 10).len() == 1);
        assert(d.len() == 2);
        assert(d[0] == text::decimal(n / 10)[0]);
        assert(d[0] as int == '0' as int + n / 10);
    } else {
        assert((n / 10) / 10 == n / 100);
        assert(text::decimal(n / 100).len() == 1);
        assert(text::decimal(n / 10).len() == 2);
        assert(d.len() == 3);
        assert(d[0] == text::decimal(n / 10)[0]);
        assert(text::decimal(n / 10)[0] == text::decimal(n / 100)[0]);
        assert(d[0] as int == '0' as int + n / 100);
    }
}

proof fn lemma_ipv4_value(s: Seq<char>, p: Seq<Seq<char>>, x: Seq<int>)
    requires
        text::split_on(s, '.') == p,
        p.len() == 4,
        x.len() == 4,
        octet_value(p[0]) == Some(x[0]),
        octet_value(p[1]) == Some(x[1]),
        octet_value(p[2]) == Some(x[2]),
        octet_value(p[3]) == Some(x[3]),
    ensures
        ipv4_value(s) == Some(x[0] * 0x100_0000 + x[1] * 0x1_0000 + x[2] * 0x100 + x[3]),
{
}

proof fn lemma_ipv4_bytes(n: int)
    requires
        0 <= n < 0x1_0000_0000,
    ensures
        (n / 0x100_0000) * 0x100_0000 + (n / 0x1_0000 % 0x100) * 0x1_0000 + (n / 0x100 % 0x100)
            * 0x100 + n % 0x100 == n,
{
}

proof fn lemma_ipv4_reads_back(n: int)
    requires
        0 <= n < 0x1_0000_0000,
    ensures
        ipv4_value(ipv4_text(n)) == Some(n),
{
    lemma_ipv4_pieces(n);
    lemma_ipv4_bytes(n);
    let p = seq![
        text::decimal((n / 0x100_0000) as nat),
        text::decimal((n / 0x1_0000 % 0x100) as nat),
        text::decimal((n / 0x100 % 0x100) as nat),
        text::decimal((n % 0x100) as nat),
    ];
    let x = seq![n / 0x100_0000, n / 0x1_0000 % 0x100, n / 0x100 % 0x100, n % 0x100];
    lemma_ipv4_value(ipv4_text(n), p, x);
}

/// The dotted notation of an IPv4 address denotes that address, and shows its four
/// bytes in decimal, the highest first.
pub proof fn lemma_ipv4_round_trip(n: u32)
    ensures
        ip_value(ip_text(IpAddr::V4(n))) == Some(IpAddr::V4(n)),
        text::split_on(ip_text(IpAddr::V4(n)), '.') == seq![
            text::decimal((n as int / 0x100_0000) as nat),
            text::decimal((n as int / 0x1_0000 % 0x100) as nat),
            text::decimal((n as int / 0x100 % 0x100) as nat),
            text::decimal((n as int % 0x100) as nat),
        ],
{
    lemma_ipv4_reads_back(n as int);
    lemma_ipv4_pieces(n as int);
}

proof fn lemma_ipv4_pieces(n: int)
    requires
        0 <= n < 0x1_0000_0000,
    ensures
        text::split_on(ipv4_text(n), '.') == seq![
            text::decimal((n / 0x100_0000) as nat),
            text::decimal((n / 0x1_0000 % 0x100) as nat),
            text::decimal((n / 0x100 % 0x100) as nat),
            text::decimal((n % 0x100) as nat),
        ],
        !ipv4_text(n).contains(':'),
        octet_value(text::decimal((n / 0x100_0000) as nat)) == Some(n / 0x100_0000),
        octet_value(text::decimal((n / 0x1_0000 % 0x100) as nat)) == Some(n / 0x1_0000 % 0x100),
        octet_value(text::decimal((n / 0x100 % 0x100) as nat)) == Some(n / 0x100 % 0x100),
        octet_value(text::decimal((n % 0x100) as nat)) == Some(n % 0x100),
{
    let a = text::decimal((n / 0x100_0000) as nat);
    let b = text::decimal((n / 0x1_0000 % 0x100) as nat);
    let c = text::decimal((n / 0x100 % 0x100) as nat);
    let d = text::decimal((n % 0x100) as nat);
    lemma_decimal_octet((n / 0x100_0000) as nat);
    lemma_decimal_octet((n / 0x1_0000 % 0x100) as nat);
    lemma_decimal_octet((n / 0x100 % 0x100) as nat);
    lemma_decimal_octet((n % 0x100) as nat);
    let dot = seq!['.'];
    text::lemma_split_one(a, '.');
    text::lemma_split_append(a, b, '.');
    text::lemma_split_append(a + dot + b, c, '.');
    text::lemma_split_append(a + dot + b + dot + c, d, '.');
    let s = ipv4_text(n);
    assert(s =~= a + dot + b + dot + c + dot + d);
    assert(text::split_on(s, '.') =~= seq![a, b, c, d]);
    if s.contains(':') {
        let k = choose|k: int| 0 <= k < s.len() && s[k] == ':';
        let (x, y, z) = (a.len() as int, (a + dot + b).len() as int, (a + dot + b + dot + c).len() as int);
        if k < x {
            assert(a[k] == ':');
        } else if x < k < y {
            assert(b[k - x - 1] == ':');
        } else if y < k < z {
            assert(c[k - y - 1] == ':');
        } else if k > z {
            assert(d[k - z - 1] == ':');
        }
    }
}

proof fn lemma_hex_group(n: nat)
    requires
        n < 0x1_0000,
    ensures
        group_value(hex_number(n)) == Some(n as int),
        forall|i: int|
            0 <= i < hex_number(n).len() ==> text::is_hex_digit(#[trigger] hex_number(n)[i]),
        n < 0x10 ==> hex_number(n).len() == 1,
        0x10 <= n < 0x100 ==> hex_number(n).len() == 2,
        0x100 <= n < 0x1000 ==> hex_number(n).len() == 3,
        0x1000 <= n ==> hex_number(n).len() == 4,
        text::hex_digits_value(hex_number(n)) == n,
    decreases n,
{
    let h = hex_number(n);
    text::lemma_hex_digit(n as int % 16);
    if n < 16 {
        assert(h.drop_last() =~= Seq::<char>::empty());
        assert(text::hex_digits_value(h.drop_last()) == 0);
    } else {
        lemma_hex_group(n / 16);
        assert(h.drop_last() =~= hex_number(n / 16));
        assert(h.last() == text::hex_digit(n as int % 16));
    }
}

/// A text that is not empty, does not begin or end with a colon, has no two colons
/// in a row, and no dot.
spec fn is_group_text(s: Seq<char>) -> bool {
    &&& s.len() > 0
    &&& s[0] != ':'
    &&& s.last() != ':'
    &&& forall|i: int| 0 <= i < s.len() - 1 ==> !(#[trigger] s[i] == ':' && s[i + 1] == ':')
    &&& !s.contains('.')
}

spec fn hex_groups(g: Seq<int>) -> Seq<Seq<char>> {
    g.map_values(|x: int| hex_number(x as nat))
}

proof fn lemma_hex_group_text(n: nat)
    requires
        n < 0x1_0000,
    ensures
        is_group_text(hex_number(n)),
        !hex_number(n).contains(':'),
{
    lemma_hex_group(n);
    let h = hex_number(n);
    assert(!text::is_hex_digit(':') && !text::is_hex_digit('.'));
    assert forall|i: int| 0 <= i < h.len() implies h[i] != ':' && h[i] != '.' by {
        assert(text::is_hex_digit(h[i]));
    }
}

proof fn lemma_groups_text(g: Seq<int>)
    requires
        g.len() > 0,
        forall|i: int| 0 <= i < g.len() ==> 0 <= #[trigger] g[i] < 0x1_0000,
    ensures
        is_group_text(groups_text(g)),
        text::split_on(groups_text(g), ':') == hex_groups(g),
    decreases g.len(),
{
    let h = hex_number(g.last() as nat);
    assert(0 <= g[g.len() - 1] < 0x1_0000);
    lemma_hex_group_text(g.last() as nat);
    if g.len() == 1 {
        text::lemma_split_one(h, ':');
        assert(hex_groups(g) =~= seq![h]);
    } else {
        let init = g.drop_last();
        assert forall|i: int| 0 <= i < init.len() implies 0 <= #[trigger] init[i] < 0x1_0000 by {
            assert(init[i] == g[i]);
        }
        lemma_groups_text(init);
        let t = groups_text(init);
        let s = groups_text(g);
        assert(s =~= t + seq![':'] + h);
        text::lemma_split_append(t, h, ':');
        assert(hex_groups(g) =~= hex_groups(init).push(h));
        let n = t.len() as int;
        assert forall|i: int| 0 <= i < s.len() - 1 implies !(#[trigger] s[i] == ':' && s[i + 1]
            == ':') by {
            if i < n - 1 {
                assert(s[i] == t[i] && s[i + 1] == t[i + 1]);
            } else if i == n - 1 {
                assert(s[i] == t.last());
            } else if i == n {
                assert(s[i + 1] == h[0]);
            } else {
                assert(s[i] == h[i - n - 1]);
            }
        }
        assert(s[0] == t[0]);
        assert(s.last() == h.last());
        if s.contains('.') {
            let k = choose|k: int| 0 <= k < s.len() && s[k] == '.';
            if k < n {
                assert(t[k] == '.');
            } else if k > n {
                assert(h[k - n - 1] == '.');
            }
        }
    }
}

proof fn lemma_group_list_of_text(g: Seq<int>, dotted: bool)
    requires
        forall|i: int| 0 <= i < g.len() ==> 0 <= #[trigger] g[i] < 0x1_0000,
    ensures
        group_list(groups_text(g), dotted) == Some(g),
{
    if g.len() == 0 {
        assert(g =~= Seq::<int>::empty());
    } else {
        lemma_groups_text(g);
        let p = hex_groups(g);
        assert forall|i: int| 0 <= i < p.len() implies group_value(#[trigger] p[i]) == Some(g[i]) by {
            assert(0 <= g[i] < 0x1_0000);
            lemma_hex_group(g[i] as nat);
        }
        assert(all_groups(p));
        assert(group_values(p) =~= g);
    }
}

proof fn lemma_zero_run(g: Seq<int>, i: int)
    requires
        0 <= i <= g.len(),
    ensures
        0 <= zero_run(g, i) <= g.len() - i,
        forall|k: int| i <= k < i + zero_run(g, i) ==> g[k] == 0,
    decreases g.len() - i,
{
    if i < g.len() && g[i] == 0 {
        lemma_zero_run(g, i + 1);
    }
}

proof fn lemma_longest_run_at(g: Seq<int>, i: int)
    requires
        0 <= i < g.len(),
    ensures
        i <= longest_run_at(g, i) < g.len(),
        forall|k: int|
            i <= k < g.len() ==> #[trigger] zero_run(g, k) <= zero_run(g, longest_run_at(g, i)),
        forall|k: int|
            i <= k < longest_run_at(g, i) ==> #[trigger] zero_run(g, k) < zero_run(
                g,
                longest_run_at(g, i),
            ),
    decreases g.len() - i,
{
    if i + 1 < g.len() {
        lemma_longest_run_at(g, i + 1);
    }
}

proof fn lemma_groups_number(n: u128)
    ensures
        groups_number(groups_of(n as int)) == n,
        forall|i: int| 0 <= i < 8 ==> 0 <= #[trigger] groups_of(n as int)[i] < 0x1_0000,
{
    let g = groups_of(n as int);
    let m = n as int;
    let q1 = m / 0x1_0000;
    let q2 = m / 0x1_0000_0000;
    let q3 = m / 0x1_0000_0000_0000;
    let q4 = m / 0x1_0000_0000_0000_0000;
    let q5 = m / 0x1_0000_0000_0000_0000_0000;
    let q6 = m / 0x1_0000_0000_0000_0000_0000_0000;
    let q7 = m / 0x1_0000_0000_0000_0000_0000_0000_0000;
    assert(g[7] == m % 0x1_0000);
    assert(g[6] == q1 % 0x1_0000);
    assert(g[5] == q2 % 0x1_0000);
    assert(g[4] == q3 % 0x1_0000);
    assert(g[3] == q4 % 0x1_0000);
    assert(g[2] == q5 % 0x1_0000);
    assert(g[1] == q6 % 0x1_0000);
    assert(g[0] == q7 % 0x1_0000);
    assert(q2 == q1 / 0x1_0000);
    assert(q3 == q2 / 0x1_0000);
    assert(q4 == q3 / 0x1_0000);
    assert(q5 == q4 / 0x1_0000);
    assert(q6 == q5 / 0x1_0000);
    assert(q7 == q6 / 0x1_0000);
    assert(q7 < 0x1_0000);
}

proof fn lemma_first_double_colon(a: Seq<char>, b: Seq<char>)
    requires
        a.len() == 0 || is_group_text(a),
    ensures
        ({
            let s = a + "::"@ + b;
            &&& text::has_text(s, "::"@)
            &&& (choose|k: int| first_at(s, "::"@, k)) == a.len()
            &&& s.take(a.len() as int) == a
            &&& s.skip(a.len() as int + 2) == b
        }),
{
    reveal_strlit("::");
    assert("::"@ =~= seq![':', ':']);
    let s = a + "::"@ + b;
    let i = a.len() as int;
    assert(s.subrange(i, i + 2) =~= "::"@);
    assert(text::occurs_at(s, "::"@, i));
    assert forall|j: int| 0 <= j < i implies !text::occurs_at(s, "::"@, j) by {
        if text::occurs_at(s, "::"@, j) {
            assert(s.subrange(j, j + 2)[0] == s[j]);
            assert(s.subrange(j, j + 2)[1] == s[j + 1]);
            assert(s[j] == a[j]);
            if j < i - 1 {
                assert(s[j + 1] == a[j + 1]);
            } else {
                assert(a[j] == a.last());
            }
        }
    }
    assert(first_at(s, "::"@, i));
    let k = choose|k: int| first_at(s, "::"@, k);
    assert(k == i) by {
        assert(first_at(s, "::"@, k));
        if k < i {
            assert(!text::occurs_at(s, "::"@, k));
        }
        if i < k {
            assert(!text::occurs_at(s, "::"@, i));
        }
    }
    assert(s.take(i) =~= a);
    assert(s.skip(i + 2) =~= b);
}

proof fn lemma_double_colon_value(a: Seq<char>, b: Seq<char>, head: Seq<int>, tail: Seq<int>)
    requires
        a.len() == 0 || is_group_text(a),
        group_list(a, false) == Some(head),
        group_list(b, true) == Some(tail),
        head.len() + tail.len() <= 7,
    ensures
        ipv6_groups(a + "::"@ + b) == Some(
            head + Seq::new((8 - head.len() - tail.len()) as nat, |k: int| 0int) + tail,
        ),
{
    lemma_first_double_colon(a, b);
}

proof fn lemma_compressed(head: Seq<int>, tail: Seq<int>)
    requires
        head.len() + tail.len() <= 7,
        forall|i: int| 0 <= i < head.len() ==> 0 <= #[trigger] head[i] < 0x1_0000,
        forall|i: int| 0 <= i < tail.len() ==> 0 <= #[trigger] tail[i] < 0x1_0000,
    ensures
        ipv6_groups(groups_text(head) + "::"@ + groups_text(tail)) == Some(
            head + Seq::new((8 - head.len() - tail.len()) as nat, |k: int| 0int) + tail,
        ),
        ipv4_value(groups_text(head) + "::"@ + groups_text(tail)) is None,
{
    let a = groups_text(head);
    let b = groups_text(tail);
    lemma_group_list_of_text(head, false);
    lemma_group_list_of_text(tail, true);
    if head.len() > 0 {
        lemma_groups_text(head);
    }
    if tail.len() > 0 {
        lemma_groups_text(tail);
    }
    lemma_double_colon_value(a, b, head, tail);
    lemma_join_has_no_dot(a, b);
    lemma_not_dotted(a + "::"@ + b);
}

proof fn lemma_join_has_no_dot(a: Seq<char>, b: Seq<char>)
    requires
        !a.contains('.'),
        !b.contains('.'),
    ensures
        !(a + "::"@ + b).contains('.'),
{
    reveal_strlit("::");
    assert("::"@ =~= seq![':', ':']);
    let s = a + "::"@ + b;
    let i = a.len() as int;
    if s.contains('.') {
        let m = choose|m: int| 0 <= m < s.len() && s[m] == '.';
        if m < i {
            assert(a[m] == '.');
        } else if m >= i + 2 {
            assert(b[m - i - 2] == '.');
        } else {
            assert(s[m] == "::"@[m - i]);
        }
    }
}

proof fn lemma_not_dotted(s: Seq<char>)
    requires
        !s.contains('.'),
    ensures
        ipv4_value(s) is None,
{
    text::lemma_split_one(s, '.');
}

proof fn lemma_ffff()
    ensures
        group_value(seq!['f', 'f', 'f', 'f']) == Some(0xffffint),
        text::split_on(seq!['f', 'f', 'f', 'f'], ':') == seq![seq!['f', 'f', 'f', 'f']],
{
    let f = seq!['f', 'f', 'f', 'f'];
    text::lemma_split_one(f, ':');
    assert(f.drop_last() =~= seq!['f', 'f', 'f']);
    assert(f.drop_last().drop_last() =~= seq!['f', 'f']);
    assert(f.drop_last().drop_last().drop_last() =~= seq!['f']);
    assert(f.drop_last().drop_last().drop_last().drop_last() =~= Seq::<char>::empty());
    reveal_with_fuel(text::hex_digits_value, 5);
}

proof fn lemma_mapped_tail(n: int)
    requires
        0 <= n < 0x1_0000_0000,
    ensures
        group_list(seq!['f', 'f', 'f', 'f'] + seq![':'] + ipv4_text(n), true) == Some(
            seq![0xffffint, n / 0x1_0000, n % 0x1_0000],
        ),
{
    let f = seq!['f', 'f', 'f', 'f'];
    let d = ipv4_text(n);
    let t = f + seq![':'] + d;
    lemma_ffff();
    lemma_ipv4_reads_back(n);
    assert(!d.contains(':')) by {
        lemma_ipv4_pieces(n);
    }
    text::lemma_split_append(f, d, ':');
    let q = text::split_on(t, ':');
    assert(q =~= seq![f, d]);
    assert(q.drop_last() =~= seq![f]);
    assert(group_value(d) is None) by {
        let a = text::decimal((n / 0x100_0000) as nat);
        assert(d[a.len() as int] == '.');
        assert(!text::is_hex_digit(d[a.len() as int]));
    }
    assert(!all_groups(q)) by {
        assert(group_value(q[1]) is None);
    }
    assert(all_groups(q.drop_last()));
    assert(group_values(q.drop_last()) =~= seq![0xffffint]);
    assert(group_list(t, true)->0 =~= seq![0xffffint, n / 0x1_0000, n % 0x1_0000]);
}

proof fn lemma_mapped(n: int)
    requires
        0 <= n < 0x1_0000_0000,
    ensures
        ip_value("::ffff:"@ + ipv4_text(n)) == Some(IpAddr::V6((0xffff_0000_0000 + n) as u128)),
{
    let e = Seq::<char>::empty();
    let d = ipv4_text(n);
    let s = "::ffff:"@ + d;
    let t = seq!['f', 'f', 'f', 'f'] + seq![':'] + d;
    assert(s =~= e + "::"@ + t && s[0] == ':') by {
        reveal_strlit("::ffff:");
        reveal_strlit("::");
        assert("::ffff:"@ =~= seq![':', ':', 'f', 'f', 'f', 'f', ':']);
        assert("::"@ =~= seq![':', ':']);
    }
    text::lemma_first_piece(s, '.');
    assert(ipv4_value(s) is None) by {
        let first = text::split_on(s, '.')[0];
        if octet_value(first) is Some {
            assert(text::is_digit(first[0]));
        }
    }
    lemma_mapped_tail(n);
    let tail = seq![0xffffint, n / 0x1_0000, n % 0x1_0000];
    lemma_double_colon_value(e, t, Seq::<int>::empty(), tail);
    let all = Seq::<int>::empty() + Seq::new(5, |k: int| 0int) + tail;
    assert(ipv6_groups(s)->0 =~= all);
    assert(all[0] == 0 && all[1] == 0 && all[2] == 0 && all[3] == 0 && all[4] == 0 && all[5]
        == 0xffff && all[6] == n / 0x1_0000 && all[7] == n % 0x1_0000);
    assert(groups_number(all) == 0xffff_0000_0000 + n);
}

/// The notation of an IPv6 address denotes that address.
pub proof fn lemma_ipv6_round_trip(n: u128)
    ensures
        ip_value(ip_text(IpAddr::V6(n))) == Some(IpAddr::V6(n)),
{
    let m = n as int;
    let g = groups_of(m);
    let s = ipv6_text(m);
    lemma_groups_number(n);
    if m / 0x1_0000_0000 == 0xffff {
        lemma_mapped(m % 0x1_0000_0000);
        assert(0xffff_0000_0000 + m % 0x1_0000_0000 == m);
    } else {
        let at = longest_run_at(g, 0);
        let run = zero_run(g, at);
        lemma_longest_run_at(g, 0);
        lemma_zero_run(g, at);
        if run > 1 {
            let head = g.take(at);
            let tail = g.skip(at + run);
            assert forall|i: int| 0 <= i < head.len() implies 0 <= #[trigger] head[i] < 0x1_0000 by {
                assert(head[i] == g[i]);
            }
            assert forall|i: int| 0 <= i < tail.len() implies 0 <= #[trigger] tail[i] < 0x1_0000 by {
                assert(tail[i] == g[at + run + i]);
            }
            lemma_compressed(head, tail);
            let back = head + Seq::new((8 - head.len() - tail.len()) as nat, |k: int| 0int) + tail;
            assert(back =~= g);
        } else {
            lemma_groups_text(g);
            lemma_group_list_of_text(g, true);
            lemma_not_dotted(s);
            reveal_strlit("::");
            assert("::"@ =~= seq![':', ':']);
            assert(!text::has_text(s, "::"@)) by {
                if text::has_text(s, "::"@) {
                    let i = choose|i: int| text::occurs_at(s, "::"@, i);
                    assert(s.subrange(i, i + 2)[0] == s[i]);
                    assert(s.subrange(i, i + 2)[1] == s[i + 1]);
                }
            }
        }
    }
}

/// Different addresses have different notations.
pub proof fn lemma_notations_differ(a: IpAddr, b: IpAddr)
    ensures
        ip_text(a) == ip_text(b) ==> a == b,
{
    match a {
        IpAddr::V4(n) => lemma_ipv4_round_trip(n),
        IpAddr::V6(n) => lemma_ipv6_round_trip(n),
    }
    match b {
        IpAddr::V4(n) => lemma_ipv4_round_trip(n),
        IpAddr::V6(n) => lemma_ipv6_round_trip(n),
    }
}

/// An IPv6 address that holds an IPv4 address shows it dotted. Of any other the
/// longest run of zero groups, the first of several, is what a double colon stands
/// for, if it has two groups or more; the groups are written without zeros before
/// them.
pub proof fn lemma_ipv6_notation(n: u128)
    ensures
        ({
            let g = groups_of(n as int);
            let at = longest_run_at(g, 0);
            let run = zero_run(g, at);
            let s = ip_text(IpAddr::V6(n));
            &&& 0 <= at < 8 && at + run <= 8
            &&& forall|k: int| at <= k < at + run ==> g[k] == 0
            &&& forall|k: int| 0 <= k < at ==> #[trigger] zero_run(g, k) < run
            &&& forall|k: int| at <= k < 8 ==> #[trigger] zero_run(g, k) <= run
            &&& n / 0x1_0000_0000 == 0xffff ==> s == "::ffff:"@ + ip_text(
                IpAddr::V4((n % 0x1_0000_0000) as u32),
            )
            &&& n / 0x1_0000_0000 != 0xffff && run >= 2 ==> s == groups_text(g.take(at)) + seq![
                ':',
                ':',
            ] + groups_text(g.skip(at + run))
            &&& n / 0x1_0000_0000 != 0xffff && run < 2 ==> s == groups_text(g)
        }),
{
    let g = groups_of(n as int);
    lemma_longest_run_at(g, 0);
    lemma_zero_run(g, longest_run_at(g, 0));
    reveal_strlit("::");
    assert("::"@ =~= seq![':', ':']);
}

/// An IPv4 address has one notation: nothing but that denotes it as such.
pub proof fn lemma_ipv4_notation_is_unique(s: Seq<char>, n: u32)
    requires
        ip_value(s) == Some(IpAddr::V4(n)),
    ensures
        s == ip_text(IpAddr::V4(n)),
{
    let p = text::split_on(s, '.');
    let x = seq![
        octet_value(p[0])->0,
        octet_value(p[1])->0,
        octet_value(p[2])->0,
        octet_value(p[3])->0,
    ];
    text::lemma_digits_are_decimal(p[0]);
    text::lemma_digits_are_decimal(p[1]);
    text::lemma_digits_are_decimal(p[2]);
    text::lemma_digits_are_decimal(p[3]);
    lemma_four_bytes(x[0], x[1], x[2], x[3]);
    let m = x[0] * 0x100_0000 + x[1] * 0x1_0000 + x[2] * 0x100 + x[3];
    assert(m == n);
    text::lemma_split(s, '.');
    let dot = seq!['.'];
    assert(p.drop_last() =~= seq![p[0], p[1], p[2]]);
    assert(p.drop_last().drop_last() =~= seq![p[0], p[1]]);
    assert(p.drop_last().drop_last().drop_last() =~= seq![p[0]]);
    reveal_with_fuel(text::joined, 4);
    assert(s == p[0] + dot + p[1] + dot + p[2] + dot + p[3]);
    assert(s =~= ipv4_text(m));
}

proof fn lemma_four_bytes(a: int, b: int, c: int, d: int)
    requires
        0 <= a < 256,
        0 <= b < 256,
        0 <= c < 256,
        0 <= d < 256,
    ensures
        ({
            let m = a * 0x100_0000 + b * 0x1_0000 + c * 0x100 + d;
            &&& 0 <= m < 0x1_0000_0000
            &&& m / 0x100_0000 == a
            &&& m / 0x1_0000 % 0x100 == b
            &&& m / 0x100 % 0x100 == c
            &&& m % 0x100 == d
        }),
{
}

} // verus!
