//! The address reported for a client: the trusted override header where a
//! proxy set it, else the transport peer's address.
use vstd::prelude::*;
use vstd::string::*;
use crate::text::{
    ascii_lower, ascii_lower_seq, chars_of, eq_ignore_ascii_case, find, first_at, lemma_split_once_at,
    lemma_split_once_none, split_once, string_of, trim, trim_bounds,
};

verus! {

/// An IP address as its octets or its 16-bit groups.
#[derive(Debug, Clone, Copy)]
pub enum IpAddress {
    V4([u8; 4]),
    V6([u16; 8]),
}

/// A request header: its name and its value.
pub type Header = (String, String);

/// The headers, as sequences of characters.
pub open spec fn headers_view(hs: Seq<Header>) -> Seq<(Seq<char>, Seq<char>)> {
    hs.map_values(|h: Header| (h.0@, h.1@))
}

/// Header `i` is the first whose name equals `name` up to ASCII case.
pub open spec fn first_header_at(hs: Seq<(Seq<char>, Seq<char>)>, name: Seq<char>, i: int) -> bool {
    0 <= i < hs.len() && ascii_lower_seq(hs[i].0) == ascii_lower_seq(name) && forall|j: int|
        0 <= j < i ==> ascii_lower_seq(#[trigger] hs[j].0) != ascii_lower_seq(name)
}

/// The value of the first header named `name`, up to ASCII case.
pub open spec fn header_lookup(hs: Seq<(Seq<char>, Seq<char>)>, name: Seq<char>) -> Option<
    Seq<char>,
> {
    if exists|i: int| first_header_at(hs, name, i) {
        Some(hs[choose|i: int| first_header_at(hs, name, i)].1)
    } else {
        None
    }
}

/// The name of the header that a trusted proxy sets to the client's address.
pub open spec fn override_header() -> Seq<char> {
    "x-real-ip"@
}

/// The address that an override header's value gives: its first
/// comma-separated element, trimmed of whitespace.
pub open spec fn override_address(v: Seq<char>) -> Seq<char> {
    match split_once(v, seq![',']) {
        Some((first, _)) => trim(first),
        None => trim(v),
    }
}

pub open spec fn decimal_digit(d: int) -> char {
    seq!['0', '1', '2', '3', '4', '5', '6', '7', '8', '9'][d]
}

pub open spec fn hex_digit(d: int) -> char {
    seq!['0', '1', '2', '3', '4', '5', '6', '7', '8', '9', 'a', 'b', 'c', 'd', 'e', 'f'][d]
}

/// `n` in decimal, without leading zeros.
pub open spec fn decimal(n: nat) -> Seq<char>
    decreases n,
{
    if n < 10 {
        seq![decimal_digit(n as int)]
    } else {
        decimal(n / 10).push(decimal_digit((n % 10) as int))
    }
}

/// `n` in lower-case hexadecimal, without leading zeros.
pub open spec fn hex(n: nat) -> Seq<char>
    decreases n,
{
    if n < 16 {
        seq![hex_digit(n as int)]
    } else {
        hex(n / 16).push(hex_digit((n % 16) as int))
    }
}

/// Four octets in dotted-decimal notation.
pub open spec fn dotted(o: Seq<u8>) -> Seq<char> {
    decimal(o[0] as nat) + seq!['.'] + decimal(o[1] as nat) + seq!['.'] + decimal(o[2] as nat)
        + seq!['.'] + decimal(o[3] as nat)
}

/// The groups in hexadecimal, separated by colons.
pub open spec fn groups_text(g: Seq<u16>) -> Seq<char>
    decreases g.len(),
{
    if g.len() == 0 {
        Seq::empty()
    } else if g.len() == 1 {
        hex(g[0] as nat)
    } else {
        groups_text(g.drop_last()) + seq![':'] + hex(g.last() as nat)
    }
}

/// How many zero groups end at index `i`.
pub open spec fn zeros_ending_at(g: Seq<u16>, i: int) -> nat
    decreases i + 1,
{
    if i < 0 || i >= g.len() || g[i] != 0 {
        0
    } else {
        zeros_ending_at(g, i - 1) + 1
    }
}

/// The start and the length of the longest run of zero groups among the first
/// `n` groups; the first such run where several are as long.
pub open spec fn longest_zero_run(g: Seq<u16>, n: int) -> (int, int)
    decreases n,
{
    if n <= 0 {
        (0, 0)
    } else {
        let (s, l) = longest_zero_run(g, n - 1);
        let c = zeros_ending_at(g, n - 1) as int;
        if c > l {
            (n - c, c)
        } else {
            (s, l)
        }
    }
}

/// Eight groups in IPv6 text: hexadecimal groups separated by colons, with
/// the longest run of two or more zero groups written as `::`.
pub open spec fn ipv6_text(g: Seq<u16>) -> Seq<char> {
    let (s, l) = longest_zero_run(g, 8);
    if l > 1 {
        groups_text(g.take(s)) + seq![':', ':'] + groups_text(g.skip(s + l))
    } else {
        groups_text(g)
    }
}

/// The groups are those of an IPv4 address mapped into IPv6: five zero groups,
/// then a group of all ones.
pub open spec fn is_v4_mapped(g: Seq<u16>) -> bool {
    g[0] == 0 && g[1] == 0 && g[2] == 0 && g[3] == 0 && g[4] == 0 && g[5] == 0xffff
}

/// The IPv4 address carried in the last two groups.
pub open spec fn mapped_octets(g: Seq<u16>) -> Seq<u8> {
    seq![(g[6] / 256) as u8, (g[6] % 256) as u8, (g[7] / 256) as u8, (g[7] % 256) as u8]
}

/// The text of a peer address: dotted decimal for IPv4 and for IPv4-mapped
/// IPv6, IPv6 text otherwise.
pub open spec fn address_text(a: IpAddress) -> Seq<char> {
    match a {
        IpAddress::V4(o) => dotted(o@),
        IpAddress::V6(g) => if is_v4_mapped(g@) {
            dotted(mapped_octets(g@))
        } else {
            ipv6_text(g@)
        },
    }
}

/// The address to report for a request with these headers from this peer.
pub open spec fn resolve_spec(hs: Seq<(Seq<char>, Seq<char>)>, peer: IpAddress) -> Seq<char> {
    match header_lookup(hs, override_header()) {
        Some(v) => override_address(v),
        None => address_text(peer),
    }
}

proof fn lemma_first_header_unique(hs: Seq<(Seq<char>, Seq<char>)>, name: Seq<char>, i: int)
    requires
        first_header_at(hs, name, i),
    ensures
        header_lookup(hs, name) == Some(hs[i].1),
{
    let k = choose|k: int| first_header_at(hs, name, k);
    assert(first_header_at(hs, name, k));
    if k < i {
        assert(ascii_lower_seq(hs[k].0) != ascii_lower_seq(name));
    } else if i < k {
        assert(ascii_lower_seq(hs[i].0) != ascii_lower_seq(name));
    }
}

/// The value of the first header called `name`, the case of ASCII letters
/// aside.
pub fn header_value(headers: &Vec<Header>, name: &str) -> (r: Option<String>)
    ensures
        match r {
            Some(v) => header_lookup(headers_view(headers@), name@) == Some(v@),
            None => header_lookup(headers_view(headers@), name@) is None,
        },
{
    let ghost hs = headers_view(headers@);
    let target = chars_of(name);
    let mut i: usize = 0;
    while i < headers.len()
        invariant
            i <= headers.len(),
            hs == headers_view(headers@),
            target@ == name@,
            forall|j: int| 0 <= j < i ==> ascii_lower_seq(#[trigger] hs[j].0) != ascii_lower_seq(name@),
        decreases headers.len() - i,
    {
        let field = chars_of(headers[i].0.as_str());
        if eq_ignore_ascii_case(&field, &target) {
            proof {
                lemma_first_header_unique(hs, name@, i as int);
            }
            return Some(headers[i].1.clone());
        }
        i = i + 1;
    }
    assert forall|k: int| !first_header_at(hs, name@, k) by {
        if 0 <= k < hs.len() {
            assert(ascii_lower_seq(hs[k].0) != ascii_lower_seq(name@));
        }
    }
    None
}

/// The first comma-separated element of `value`, trimmed.
pub fn first_address(value: &str) -> (r: String)
    ensures
        r@ == override_address(value@),
{
    let v = chars_of(value);
    let comma = vec![','];
    assert(comma@ =~= seq![',']);
    let found = find(&v, &comma);
    let end = match found {
        Some(i) => {
            assert(first_at(v@, comma@, i as int));
            proof {
                lemma_split_once_at(v@, comma@, i as int);
            }
            assert(v@.take(i as int) =~= v@.subrange(0, i as int));
            i
        },
        None => {
            proof {
                lemma_split_once_none(v@, comma@);
            }
            assert(v@ =~= v@.subrange(0, v.len() as int));
            v.len()
        },
    };
    let (lo, hi) = trim_bounds(&v, 0, end);
    string_of(&v, lo, hi)
}

fn push_decimal(out: &mut String, n: u8)
    ensures
        final(out)@ == old(out)@ + decimal(n as nat),
    decreases n,
{
    let digits = ['0', '1', '2', '3', '4', '5', '6', '7', '8', '9'];
    assert(digits@ =~= seq!['0', '1', '2', '3', '4', '5', '6', '7', '8', '9']);
    if n >= 10 {
        push_decimal(out, n / 10);
    }
    out.push(digits[(n % 10) as usize]);
    assert(final(out)@ =~= old(out)@ + decimal(n as nat));
}

fn push_hex(out: &mut String, n: u16)
    ensures
        final(out)@ == old(out)@ + hex(n as nat),
    decreases n,
{
    let digits = ['0', '1', '2', '3', '4', '5', '6', '7', '8', '9', 'a', 'b', 'c', 'd', 'e', 'f'];
    assert(digits@ =~= seq!['0', '1', '2', '3', '4', '5', '6', '7', '8', '9', 'a', 'b', 'c', 'd', 'e', 'f']);
    if n >= 16 {
        push_hex(out, n / 16);
    }
    out.push(digits[(n % 16) as usize]);
    assert(final(out)@ =~= old(out)@ + hex(n as nat));
}

/// Four octets in dotted-decimal notation.
pub fn dotted_text(o: [u8; 4]) -> (r: String)
    ensures
        r@ == dotted(o@),
{
    let mut r = String::new();
    push_decimal(&mut r, o[0]);
    r.push('.');
    push_decimal(&mut r, o[1]);
    r.push('.');
    push_decimal(&mut r, o[2]);
    r.push('.');
    push_decimal(&mut r, o[3]);
    assert(r@ =~= dotted(o@));
    r
}

/// Appends `g[lo..hi]` in hexadecimal, separated by colons.
fn push_groups(out: &mut String, g: &[u16; 8], lo: usize, hi: usize)
    requires
        lo <= hi <= 8,
    ensures
        final(out)@ == old(out)@ + groups_text(g@.subrange(lo as int, hi as int)),
{
    let ghost start = old(out)@;
    let mut i: usize = lo;
    while i < hi
        invariant
            lo <= i <= hi <= 8,
            out@ == start + groups_text(g@.subrange(lo as int, i as int)),
        decreases hi - i,
    {
        let ghost before = out@;
        if i > lo {
            out.push(':');
        }
        push_hex(out, g[i]);
        proof {
            let s = g@.subrange(lo as int, i + 1);
            assert(s.drop_last() =~= g@.subrange(lo as int, i as int));
            if i == lo {
                assert(g@.subrange(lo as int, i as int) =~= Seq::<u16>::empty());
            }
        }
        i = i + 1;
        assert(out@ =~= start + groups_text(g@.subrange(lo as int, i as int)));
    }
}

/// Eight groups in IPv6 text.
pub fn ipv6_address_text(g: [u16; 8]) -> (r: String)
    ensures
        r@ == ipv6_text(g@),
{
    let mut best_start: usize = 0;
    let mut best_len: usize = 0;
    let mut cur: usize = 0;
    let mut i: usize = 0;
    while i < 8
        invariant
            i <= 8,
            cur <= i,
            best_start + best_len <= 8,
            cur as int == zeros_ending_at(g@, i - 1),
            (best_start as int, best_len as int) == longest_zero_run(g@, i as int),
        decreases 8 - i,
    {
        if g[i] == 0 {
            cur = cur + 1;
        } else {
            cur = 0;
        }
        if cur > best_len {
            best_len = cur;
            best_start = i + 1 - cur;
        }
        i = i + 1;
    }
    proof {
        lemma_longest_zero_run_bounds(g@, 8);
    }
    let mut r = String::new();
    if best_len > 1 {
        push_groups(&mut r, &g, 0, best_start);
        r.push(':');
        r.push(':');
        push_groups(&mut r, &g, best_start + best_len, 8);
        assert(g@.subrange(0, best_start as int) =~= g@.take(best_start as int));
        assert(g@.subrange(best_start + best_len, 8) =~= g@.skip(best_start + best_len));
        assert(r@ =~= ipv6_text(g@));
    } else {
        push_groups(&mut r, &g, 0, 8);
        assert(g@.subrange(0, 8) =~= g@);
    }
    r
}

proof fn lemma_zeros_ending_at_bound(g: Seq<u16>, i: int)
    requires
        i >= -1,
    ensures
        zeros_ending_at(g, i) <= i + 1,
    decreases i + 1,
{
    if i >= 0 && i < g.len() && g[i] == 0 {
        lemma_zeros_ending_at_bound(g, i - 1);
    }
}

proof fn lemma_longest_zero_run_bounds(g: Seq<u16>, n: int)
    requires
        n <= g.len(),
    ensures
        ({
            let (s, l) = longest_zero_run(g, n);
            0 <= s && 0 <= l && (n > 0 ==> s + l <= n) && (n <= 0 ==> l == 0)
        }),
    decreases n,
{
    if n > 0 {
        lemma_longest_zero_run_bounds(g, n - 1);
        lemma_zeros_ending_at_bound(g, n - 1);
    }
}

/// The text of a peer address: dotted decimal for IPv4 and IPv4-mapped IPv6
/// addresses, IPv6 text for the others.
pub fn format_ip(ip: &IpAddress) -> (r: String)
    ensures
        r@ == address_text(*ip),
{
    match ip {
        IpAddress::V4(o) => dotted_text(*o),
        IpAddress::V6(g) => {
            if g[0] == 0 && g[1] == 0 && g[2] == 0 && g[3] == 0 && g[4] == 0 && g[5] == 0xffff {
                let o: [u8; 4] = [
                    (g[6] / 256) as u8,
                    (g[6] % 256) as u8,
                    (g[7] / 256) as u8,
                    (g[7] % 256) as u8,
                ];
                assert(o@ =~= mapped_octets(g@));
                dotted_text(o)
            } else {
                ipv6_address_text(*g)
            }
        },
    }
}

/// The address to report: the first element of the override header, trimmed,
/// where the request has that header; the peer's address otherwise.
pub fn real_ip(headers: &Vec<Header>, conn_ip: &IpAddress) -> (r: String)
    ensures
        r@ == resolve_spec(headers_view(headers@), *conn_ip),
{
    let name = "x-real-ip";
    match header_value(headers, name) {
        Some(v) => first_address(v.as_str()),
        None => format_ip(conn_ip),
    }
}

/// A header that the diagnostic endpoint reports: neither the override header
/// nor one whose name starts with `x-forwarded-`, the case of ASCII letters
/// aside.
pub open spec fn is_reported(name: Seq<char>) -> bool {
    let n = ascii_lower_seq(name);
    n != override_header() && !(n.len() >= 12 && n.take(12) == "x-forwarded-"@)
}

/// The reported headers, in the order of the request.
pub open spec fn reported_spec(hs: Seq<(Seq<char>, Seq<char>)>) -> Seq<(Seq<char>, Seq<char>)> {
    hs.filter(|h: (Seq<char>, Seq<char>)| is_reported(h.0))
}

fn lower_vec(v: &Vec<char>) -> (r: Vec<char>)
    ensures
        r@ == ascii_lower_seq(v@),
{
    let mut r: Vec<char> = Vec::new();
    let mut i: usize = 0;
    while i < v.len()
        invariant
            i <= v.len(),
            r@ == ascii_lower_seq(v@.take(i as int)),
        decreases v.len() - i,
    {
        let c = v[i];
        let l = if 'A' <= c && c <= 'Z' {
            ((c as u8) + 32) as char
        } else {
            c
        };
        assert(l == ascii_lower(c));
        r.push(l);
        i = i + 1;
        assert(r@ =~= ascii_lower_seq(v@.take(i as int)));
    }
    assert(v@.take(v.len() as int) =~= v@);
    r
}

/// Whether the diagnostic endpoint reports a header of this name.
pub fn reported(name: &str) -> (r: bool)
    ensures
        r == is_reported(name@),
{
    let n = lower_vec(&chars_of(name));
    let override_name = chars_of("x-real-ip");
    let prefix = chars_of("x-forwarded-");
    proof {
        reveal_strlit("x-forwarded-");
    }
    if crate::media_type::vec_eq(&n, &override_name) {
        return false;
    }
    if n.len() < 12 {
        return true;
    }
    assert(prefix@.len() == 12);
    let mut i: usize = 0;
    while i < 12
        invariant
            i <= 12 <= n.len(),
            prefix@ == "x-forwarded-"@,
            prefix@.len() == 12,
            n@ == ascii_lower_seq(name@),
            n@ != override_header(),
            forall|k: int| 0 <= k < i ==> n@[k] == prefix@[k],
        decreases 12 - i,
    {
        if n[i] != prefix[i] {
            assert(n@.take(12)[i as int] != prefix@[i as int]);
            return true;
        }
        i = i + 1;
    }
    assert(n@.take(12) =~= prefix@);
    false
}

/// The headers that the diagnostic endpoint reports, in the order of the
/// request.
pub fn reported_headers(headers: &Vec<Header>) -> (r: Vec<Header>)
    ensures
        headers_view(r@) == reported_spec(headers_view(headers@)),
{
    let ghost hs = headers_view(headers@);
    let mut r: Vec<Header> = Vec::new();
    let mut i: usize = 0;
    while i < headers.len()
        invariant
            i <= headers.len(),
            hs == headers_view(headers@),
            headers_view(r@) == reported_spec(hs.take(i as int)),
        decreases headers.len() - i,
    {
        let keep = reported(headers[i].0.as_str());
        proof {
            reveal(Seq::filter);
            assert(hs.take(i + 1).drop_last() =~= hs.take(i as int));
        }
        if keep {
            r.push((headers[i].0.clone(), headers[i].1.clone()));
            assert(headers_view(r@) =~= headers_view(r@.drop_last()).push(hs[i as int]));
        }
        i = i + 1;
    }
    assert(hs.take(headers.len() as int) =~= hs);
    r
}

/// The plain-text body: the address and a newline.
pub fn handle_index_plain(ip: &str) -> (r: String)
    ensures
        r@ == ip@.push('\n'),
{
    let mut r = String::from_str(ip);
    r.push('\n');
    r
}

} // verus!
