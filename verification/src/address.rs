//! Validation of forwarding targets written as `host:port`.
use vstd::prelude::*;
use vstd::string::StrSliceExecFns;
use crate::text::{
    all_digits, chars_of, chars_start_with, decimal, digits_value, is_digit, parse_u16, parse_u16_chars,
    starts_with,
};

verus! {

/// The pieces of `s` between occurrences of `sep`, as `str::split` yields them
/// (`""` gives one empty piece; a trailing separator gives a trailing empty piece).
pub open spec fn split_on(s: Seq<char>, sep: char) -> Seq<Seq<char>>
    decreases s.len(),
{
    if s.len() == 0 {
        seq![Seq::<char>::empty()]
    } else {
        let init = split_on(s.drop_last(), sep);
        if s.last() == sep {
            init.push(Seq::<char>::empty())
        } else {
            init.update(init.len() - 1, init.last().push(s.last()))
        }
    }
}

/// `char::is_ascii_alphanumeric`.
pub open spec fn is_ascii_alphanumeric(c: char) -> bool {
    ('a' <= c && c <= 'z') || ('A' <= c && c <= 'Z') || ('0' <= c && c <= '9')
}

/// A DNS label: 1 to 63 ASCII letters, digits or hyphens, not starting or ending with a hyphen.
pub open spec fn valid_label(l: Seq<char>) -> bool {
    &&& l.len() > 0
    &&& l.len() <= 63
    &&& forall|i: int| 0 <= i < l.len() ==> is_ascii_alphanumeric(#[trigger] l[i]) || l[i] == '-'
    &&& l[0] != '-'
    &&& l.last() != '-'
}

/// A hostname: 1 to 253 characters, made of valid labels separated by dots.
pub open spec fn valid_hostname(s: Seq<char>) -> bool {
    &&& s.len() > 0
    &&& s.len() <= 253
    &&& forall|i: int| 0 <= i < split_on(s, '.').len() ==> valid_label(#[trigger] split_on(s, '.')[i])
}

/// One octet of a dotted-decimal IPv4 address: decimal digits, no leading
/// zero unless the octet is `0` itself, a value of at most 255.
pub open spec fn valid_octet(p: Seq<char>) -> bool {
    &&& p.len() > 0
    &&& all_digits(p)
    &&& (p.len() == 1 || p[0] != '0')
    &&& digits_value(p) <= 255
}

/// A dotted-decimal IPv4 address, as `Ipv4Addr`'s `FromStr` accepts it:
/// exactly four octets, each written without leading zeros.
pub open spec fn valid_ipv4(s: Seq<char>) -> bool {
    &&& split_on(s, '.').len() == 4
    &&& forall|i: int| 0 <= i < 4 ==> valid_octet(#[trigger] split_on(s, '.')[i])
}

/// Index of the last occurrence of `c` in `s`, or -1 when there is none.
pub open spec fn last_index_of(s: Seq<char>, c: char) -> int
    decreases s.len(),
{
    if s.len() == 0 {
        -1
    } else if s.last() == c {
        s.len() - 1
    } else {
        last_index_of(s.drop_last(), c)
    }
}

/// What is wrong with a target address.
#[derive(Clone, Copy, Debug, PartialEq, Eq, Structural)]
pub enum AddressProblem {
    /// The address starts with `http://` or `https://`.
    UrlScheme,
    /// The address has no `:`.
    MissingPort,
    /// Nothing stands before the last `:`.
    MissingHost,
    /// Nothing stands after the last `:`.
    MissingPortNumber,
    /// The text after the last `:` is not a `u16`.
    InvalidPort,
    /// The host is neither an IPv4 address, an IPv6 address nor a hostname.
    InvalidHost,
}

/// The host part of `host:port`: everything before the last `:` (the whole
/// text when there is no `:`).
pub open spec fn host_part(addr: Seq<char>) -> Seq<char> {
    let k = last_index_of(addr, ':');
    if k >= 0 { addr.subrange(0, k) } else { addr }
}

/// The port part of `host:port`: everything after the last `:`.
pub open spec fn port_part(addr: Seq<char>) -> Seq<char> {
    addr.subrange(last_index_of(addr, ':') + 1, addr.len() as int)
}

/// The problem with a target address, given whether its host part is an IPv6
/// literal (std's `Ipv6Addr` parser lives in `std::net`, which this library
/// does not use; the caller asks it and passes the answer).
/// The empty address has no problem (an unfilled row).
pub open spec fn address_problem(addr: Seq<char>, host_is_ipv6: bool) -> Option<AddressProblem> {
    if addr.len() == 0 {
        None
    } else if starts_with(addr, "http://"@) || starts_with(addr, "https://"@) {
        Some(AddressProblem::UrlScheme)
    } else if last_index_of(addr, ':') < 0 {
        Some(AddressProblem::MissingPort)
    } else if host_part(addr).len() == 0 {
        Some(AddressProblem::MissingHost)
    } else if port_part(addr).len() == 0 {
        Some(AddressProblem::MissingPortNumber)
    } else if parse_u16(port_part(addr)) is None {
        Some(AddressProblem::InvalidPort)
    } else if !valid_ipv4(host_part(addr)) && !host_is_ipv6 && !valid_hostname(host_part(addr)) {
        Some(AddressProblem::InvalidHost)
    } else {
        None
    }
}

/// The message shown for a problem; the empty text when there is none.
pub open spec fn problem_text(p: Option<AddressProblem>) -> Seq<char> {
    match p {
        None => ""@,
        Some(AddressProblem::UrlScheme) => "Remove http:// or https:// — enter host:port only"@,
        Some(AddressProblem::MissingPort) => "Missing port — use host:port format (e.g. 127.0.0.1:5301)"@,
        Some(AddressProblem::MissingHost) => "Missing host address"@,
        Some(AddressProblem::MissingPortNumber) => "Missing port number"@,
        Some(AddressProblem::InvalidPort) => "Invalid port number (must be 1-65535)"@,
        Some(AddressProblem::InvalidHost) => "Invalid IP address or hostname"@,
    }
}

/// The message shown for a problem; the empty text when there is none.
pub fn problem_message(p: Option<AddressProblem>) -> (r: &'static str)
    ensures
        r@ == problem_text(p),
{
    match p {
        None => "",
        Some(AddressProblem::UrlScheme) => "Remove http:// or https:// — enter host:port only",
        Some(AddressProblem::MissingPort) => "Missing port — use host:port format (e.g. 127.0.0.1:5301)",
        Some(AddressProblem::MissingHost) => "Missing host address",
        Some(AddressProblem::MissingPortNumber) => "Missing port number",
        Some(AddressProblem::InvalidPort) => "Invalid port number (must be 1-65535)",
        Some(AddressProblem::InvalidHost) => "Invalid IP address or hostname",
    }
}

proof fn lemma_split_step(s: Seq<char>, i: int, sep: char)
    requires
        0 <= i < s.len(),
    ensures
        split_on(s.take(i + 1), sep) == (if s[i] == sep {
            split_on(s.take(i), sep).push(Seq::<char>::empty())
        } else {
            split_on(s.take(i), sep).update(
                split_on(s.take(i), sep).len() - 1,
                split_on(s.take(i), sep).last().push(s[i]),
            )
        }),
{
    assert(s.take(i + 1).drop_last() =~= s.take(i));
}

proof fn lemma_split_nonempty(s: Seq<char>, sep: char)
    ensures
        split_on(s, sep).len() >= 1,
    decreases s.len(),
{
    if s.len() > 0 {
        lemma_split_nonempty(s.drop_last(), sep);
    }
}

/// Is `s[start..end]` a valid DNS label?
fn label_is_valid(s: &[char], start: usize, end: usize) -> (r: bool)
    requires
        start <= end <= s@.len(),
    ensures
        r == valid_label(s@.subrange(start as int, end as int)),
{
    let ghost l = s@.subrange(start as int, end as int);
    if start == end || end - start > 63 {
        return false;
    }
    if s[start] == '-' || s[end - 1] == '-' {
        return false;
    }
    let mut i = start;
    while i < end
        invariant
            start <= i <= end <= s@.len(),
            l == s@.subrange(start as int, end as int),
            forall|j: int| 0 <= j < i - start ==> is_ascii_alphanumeric(#[trigger] l[j]) || l[j] == '-',
        decreases end - i,
    {
        let c = s[i];
        if !(('a' <= c && c <= 'z') || ('A' <= c && c <= 'Z') || ('0' <= c && c <= '9') || c == '-') {
            assert(l[i - start] == c);
            return false;
        }
        i = i + 1;
    }
    true
}

/// Is `s[start..end]` an IPv4 octet as std writes it?
fn octet_is_valid(s: &[char], start: usize, end: usize) -> (r: bool)
    requires
        start <= end <= s@.len(),
    ensures
        r == valid_octet(s@.subrange(start as int, end as int)),
{
    let ghost p = s@.subrange(start as int, end as int);
    if start == end {
        return false;
    }
    if end - start > 1 && s[start] == '0' {
        return false;
    }
    let mut value: u32 = 0;
    let mut i = start;
    while i < end
        invariant
            start <= i <= end <= s@.len(),
            p == s@.subrange(start as int, end as int),
            all_digits(s@.subrange(start as int, i as int)),
            value as nat == digits_value(s@.subrange(start as int, i as int)),
            value <= 255,
        decreases end - i,
    {
        let c = s[i];
        if !('0' <= c && c <= '9') {
            assert(p[i - start] == c);
            assert(!is_digit(p[i - start]));
            return false;
        }
        let d: u32 = (c as u32) - 48;
        let ghost prefix = s@.subrange(start as int, i + 1);
        assert(prefix.drop_last() =~= s@.subrange(start as int, i as int));
        assert(prefix.last() == c);
        assert(digits_value(prefix) == value * 10 + d);
        value = value * 10 + d;
        i = i + 1;
        assert(all_digits(s@.subrange(start as int, i as int)));
        if value > 255 {
            proof {
                assert(prefix =~= p.subrange(0, i - start));
                if all_digits(p) {
                    crate::text::lemma_digits_value_prefix(p, i - start);
                }
            }
            return false;
        }
    }
    assert(s@.subrange(start as int, end as int) =~= p);
    true
}

/// Is `host` a hostname: 1 to 253 characters of dot-separated labels, each
/// 1 to 63 ASCII letters, digits or hyphens that neither start nor end with a hyphen?
pub fn is_valid_hostname(host: &str) -> (r: bool)
    ensures
        r == valid_hostname(host@),
{
    let s = chars_of(host);
    hostname_chars_valid(s.as_slice())
}

fn hostname_chars_valid(s: &[char]) -> (r: bool)
    ensures
        r == valid_hostname(s@),
{
    let n = s.len();
    if n == 0 || n > 253 {
        return false;
    }
    let mut ok = true;
    let mut label_start: usize = 0;
    let mut i: usize = 0;
    while i < n
        invariant
            n == s@.len(),
            0 < n <= 253,
            label_start <= i <= n,
            split_on(s@.take(i as int), '.').len() >= 1,
            split_on(s@.take(i as int), '.').last() == s@.subrange(label_start as int, i as int),
            ok == forall|j: int|
                0 <= j < split_on(s@.take(i as int), '.').len() - 1
                    ==> valid_label(#[trigger] split_on(s@.take(i as int), '.')[j]),
        decreases n - i,
    {
        proof {
            lemma_split_step(s@, i as int, '.');
        }
        let ghost before = split_on(s@.take(i as int), '.');
        let ghost after = split_on(s@.take(i + 1), '.');
        if s[i] == '.' {
            let good = label_is_valid(s, label_start, i);
            proof {
                assert(after =~= before.push(Seq::<char>::empty()));
                if ok && good {
                    assert forall|j: int| 0 <= j < after.len() - 1 implies valid_label(#[trigger] after[j]) by {
                        if j < before.len() - 1 {
                            assert(after[j] == before[j]);
                        } else {
                            assert(after[j] == before.last());
                        }
                    }
                } else if !ok {
                    let j = choose|j: int| 0 <= j < before.len() - 1 && !valid_label(#[trigger] before[j]);
                    assert(after[j] == before[j]);
                } else {
                    assert(after[before.len() - 1] == before.last());
                }
            }
            ok = ok && good;
            label_start = i + 1;
        } else {
            proof {
                assert(after.len() == before.len());
                assert forall|j: int| 0 <= j < after.len() - 1 implies after[j] == before[j] by {}
                assert(after.last() =~= s@.subrange(label_start as int, i + 1));
            }
        }
        i = i + 1;
    }
    let last_good = label_is_valid(s, label_start, n);
    proof {
        assert(s@.take(n as int) =~= s@);
        let parts = split_on(s@, '.');
        if ok && last_good {
            assert forall|j: int| 0 <= j < parts.len() implies valid_label(#[trigger] parts[j]) by {
                if j == parts.len() - 1 {
                    assert(parts[j] == parts.last());
                }
            }
        } else if !ok {
            let j = choose|j: int| 0 <= j < parts.len() - 1 && !valid_label(#[trigger] parts[j]);
        } else {
            assert(!valid_label(parts[parts.len() - 1]));
        }
    }
    ok && last_good
}

/// Is `host` a dotted-decimal IPv4 address as `std::net::Ipv4Addr` reads it:
/// exactly four octets of at most 255, without leading zeros?
pub fn is_ipv4_address(host: &str) -> (r: bool)
    ensures
        r == valid_ipv4(host@),
{
    let s = chars_of(host);
    ipv4_chars_valid(s.as_slice())
}

fn ipv4_chars_valid(s: &[char]) -> (r: bool)
    ensures
        r == valid_ipv4(s@),
{
    let n = s.len();
    let mut ok = true;
    let mut parts: usize = 1;
    let mut part_start: usize = 0;
    let mut i: usize = 0;
    while i < n
        invariant
            n == s@.len(),
            part_start <= i <= n,
            parts == (if split_on(s@.take(i as int), '.').len() < 5 {
                split_on(s@.take(i as int), '.').len()
            } else {
                5
            }),
            parts >= 1,
            split_on(s@.take(i as int), '.').last() == s@.subrange(part_start as int, i as int),
            ok == (parts <= 4 && forall|j: int|
                0 <= j < split_on(s@.take(i as int), '.').len() - 1
                    ==> valid_octet(#[trigger] split_on(s@.take(i as int), '.')[j])),
        decreases n - i,
    {
        proof {
            lemma_split_step(s@, i as int, '.');
        }
        let ghost before = split_on(s@.take(i as int), '.');
        let ghost after = split_on(s@.take(i + 1), '.');
        if s[i] == '.' {
            let good = octet_is_valid(s, part_start, i);
            proof {
                assert(after =~= before.push(Seq::<char>::empty()));
                if ok && good && parts < 4 {
                    assert forall|j: int| 0 <= j < after.len() - 1 implies valid_octet(#[trigger] after[j]) by {
                        if j < before.len() - 1 {
                            assert(after[j] == before[j]);
                        } else {
                            assert(after[j] == before.last());
                        }
                    }
                } else if ok && good {
                } else if !ok && parts <= 4 {
                    let j = choose|j: int| 0 <= j < before.len() - 1 && !valid_octet(#[trigger] before[j]);
                    assert(after[j] == before[j]);
                } else if ok {
                    assert(after[before.len() - 1] == before.last());
                }
            }
            ok = ok && good && parts < 4;
            if parts < 5 {
                parts = parts + 1;
            }
            part_start = i + 1;
        } else {
            proof {
                assert(after.len() == before.len());
                assert forall|j: int| 0 <= j < after.len() - 1 implies after[j] == before[j] by {}
                assert(after.last() =~= s@.subrange(part_start as int, i + 1));
            }
        }
        i = i + 1;
    }
    let last_good = octet_is_valid(s, part_start, n);
    proof {
        assert(s@.take(n as int) =~= s@);
        let ps = split_on(s@, '.');
        if ok && last_good && parts == 4 {
            assert forall|j: int| 0 <= j < 4 implies valid_octet(#[trigger] ps[j]) by {
                if j == 3 {
                    assert(ps[j] == ps.last());
                }
            }
        } else if !ok && parts <= 4 {
            let j = choose|j: int| 0 <= j < ps.len() - 1 && !valid_octet(#[trigger] ps[j]);
        } else if ok && !last_good && parts == 4 {
            assert(!valid_octet(ps[3]));
        }
    }
    ok && last_good && parts == 4
}

/// Index of the last `c` in `s`, if any.
pub(crate) fn last_index(s: &[char], c: char) -> (r: Option<usize>)
    ensures
        match r {
            Some(k) => last_index_of(s@, c) == k && k < s@.len(),
            None => last_index_of(s@, c) == -1,
        },
{
    let mut i = s.len();
    assert(s@.take(i as int) =~= s@);
    while i > 0
        invariant
            i <= s@.len(),
            last_index_of(s@, c) == last_index_of(s@.take(i as int), c),
        decreases i,
    {
        let ghost t = s@.take(i as int);
        assert(t.drop_last() =~= s@.take(i - 1));
        assert(t.last() == s@[i - 1]);
        if s[i - 1] == c {
            return Some(i - 1);
        }
        i = i - 1;
    }
    None
}

/// The host part of `host:port`: everything before the last `:`, or the
/// whole address when it has no `:`.
pub fn address_host(addr: &str) -> (r: &str)
    ensures
        r@ == host_part(addr@),
{
    let s = chars_of(addr);
    match last_index(s.as_slice(), ':') {
        Some(k) => addr.substring_char(0, k),
        None => addr,
    }
}

/// The problem with `addr`, if any, given whether its host part is an IPv6 literal.
pub fn target_address_problem(addr: &str, host_is_ipv6: bool) -> (r: Option<AddressProblem>)
    ensures
        r == address_problem(addr@, host_is_ipv6),
{
    let s = chars_of(addr);
    let n = s.len();
    if n == 0 {
        return None;
    }
    let http = chars_of("http://");
    let https = chars_of("https://");
    if chars_start_with(s.as_slice(), http.as_slice()) || chars_start_with(s.as_slice(), https.as_slice()) {
        return Some(AddressProblem::UrlScheme);
    }
    let k = match last_index(s.as_slice(), ':') {
        Some(k) => k,
        None => {
            return Some(AddressProblem::MissingPort);
        },
    };
    let host = vstd::slice::slice_subrange(s.as_slice(), 0, k);
    let port = vstd::slice::slice_subrange(s.as_slice(), k + 1, n);
    assert(host@ == host_part(addr@));
    assert(port@ == port_part(addr@));
    if k == 0 {
        return Some(AddressProblem::MissingHost);
    }
    if k + 1 == n {
        return Some(AddressProblem::MissingPortNumber);
    }
    if parse_u16_chars(port).is_none() {
        return Some(AddressProblem::InvalidPort);
    }
    if !ipv4_chars_valid(host) && !host_is_ipv6 && !hostname_chars_valid(host) {
        return Some(AddressProblem::InvalidHost);
    }
    None
}

/// Checks a target address written as `host:port`, where the host is an IPv4
/// address, an IPv6 address (the caller says whether the host part is one) or a
/// hostname. Returns the empty text when the address is acceptable or empty,
/// and the message describing its problem otherwise.
pub fn validate_target_address(addr: &str, host_is_ipv6: bool) -> (r: &'static str)
    ensures
        r@ == problem_text(address_problem(addr@, host_is_ipv6)),
{
    problem_message(target_address_problem(addr, host_is_ipv6))
}

/// Every character of `s` is a separator or belongs to one of its pieces.
proof fn lemma_split_charset(s: Seq<char>, sep: char, p: spec_fn(char) -> bool)
    requires
        forall|k: int, j: int|
            0 <= k < split_on(s, sep).len() && 0 <= j < split_on(s, sep)[k].len() ==> p(
                #[trigger] split_on(s, sep)[k][j],
            ),
    ensures
        forall|i: int| 0 <= i < s.len() ==> s[i] == sep || p(#[trigger] s[i]),
    decreases s.len(),
{
    if s.len() > 0 {
        let init = s.drop_last();
        let before = split_on(init, sep);
        let after = split_on(s, sep);
        lemma_split_nonempty(init, sep);
        if s.last() == sep {
            assert forall|k: int, j: int| 0 <= k < before.len() && 0 <= j < before[k].len() implies p(
                #[trigger] before[k][j],
            ) by {
                assert(after[k] == before[k]);
                assert(after[k][j] == before[k][j]);
            }
        } else {
            let last = before.len() - 1;
            assert forall|k: int, j: int| 0 <= k < before.len() && 0 <= j < before[k].len() implies p(
                #[trigger] before[k][j],
            ) by {
                if k == last {
                    assert(after[k] == before[k].push(s.last()));
                    assert(after[k][j] == before[k][j]);
                } else {
                    assert(after[k] == before[k]);
                    assert(after[k][j] == before[k][j]);
                }
            }
            assert(after[last] == before[last].push(s.last()));
            assert(after[last][after[last].len() - 1] == s.last());
        }
        lemma_split_charset(init, sep, p);
        assert forall|i: int| 0 <= i < s.len() implies s[i] == sep || p(#[trigger] s[i]) by {
            if i < s.len() - 1 {
                assert(s[i] == init[i]);
            }
        }
    }
}

/// A valid hostname or IPv4 address contains neither `:` nor `/`.
proof fn lemma_host_charset(host: Seq<char>)
    requires
        valid_hostname(host) || valid_ipv4(host),
    ensures
        host.len() > 0,
        forall|i: int| 0 <= i < host.len() ==> #[trigger] host[i] != ':' && host[i] != '/',
{
    let parts = split_on(host, '.');
    if valid_hostname(host) {
        let p = |c: char| is_ascii_alphanumeric(c) || c == '-';
        assert forall|k: int, j: int| 0 <= k < parts.len() && 0 <= j < parts[k].len() implies p(
            #[trigger] parts[k][j],
        ) by {
            assert(valid_label(parts[k]));
        }
        lemma_split_charset(host, '.', p);
    } else {
        let p = |c: char| is_digit(c);
        assert forall|k: int, j: int| 0 <= k < parts.len() && 0 <= j < parts[k].len() implies p(
            #[trigger] parts[k][j],
        ) by {
            assert(valid_octet(parts[k]));
        }
        lemma_split_charset(host, '.', p);
        if host.len() == 0 {
            assert(split_on(host, '.').len() == 1);
        }
    }
    assert forall|i: int| 0 <= i < host.len() implies #[trigger] host[i] != ':' && host[i] != '/' by {
        assert(host[i] == '.' || is_ascii_alphanumeric(host[i]) || host[i] == '-' || is_digit(host[i]));
    }
}

/// The last `c` of `s + [c] + t` is the one between them when `t` has none.
proof fn lemma_last_index_after(s: Seq<char>, c: char, t: Seq<char>)
    requires
        forall|i: int| 0 <= i < t.len() ==> #[trigger] t[i] != c,
    ensures
        last_index_of(s + seq![c] + t, c) == s.len(),
    decreases t.len(),
{
    let whole = s + seq![c] + t;
    if t.len() == 0 {
        assert(whole.last() == c);
    } else {
        assert(whole.last() == t.last());
        assert(whole.drop_last() =~= s + seq![c] + t.drop_last());
        lemma_last_index_after(s, c, t.drop_last());
    }
}

/// The law of target validation: an IPv4 address or hostname, a `:`, and a
/// port number in decimal always make an acceptable target address.
pub proof fn host_and_port_are_accepted(host: Seq<char>, port: u16, host_is_ipv6: bool)
    requires
        valid_hostname(host) || valid_ipv4(host),
    ensures
        address_problem(host + seq![':'] + decimal(port as nat), host_is_ipv6) is None,
{
    let d = decimal(port as nat);
    let addr = host + seq![':'] + d;
    lemma_host_charset(host);
    crate::text::lemma_decimal(port as nat);
    crate::text::lemma_parse_u16_decimal(port as nat);
    assert forall|i: int| 0 <= i < d.len() implies #[trigger] d[i] != ':' && d[i] != '/' by {
        assert(is_digit(d[i]));
    }
    lemma_last_index_after(host, ':', d);
    assert(host_part(addr) =~= host);
    assert(port_part(addr) =~= d);
    assert forall|i: int| 0 <= i < addr.len() implies #[trigger] addr[i] != '/' by {
        if i < host.len() {
            assert(addr[i] == host[i]);
        } else if i > host.len() {
            assert(addr[i] == d[i - host.len() - 1]);
        }
    }
    reveal_strlit("http://");
    reveal_strlit("https://");
    if starts_with(addr, "http://"@) {
        assert(addr.subrange(0, 7)[5] == addr[5]);
    }
    if starts_with(addr, "https://"@) {
        assert(addr.subrange(0, 8)[6] == addr[6]);
    }
}

/// ASCII upper-case letters mapped to lower case; other characters unchanged.
pub open spec fn ascii_lower(c: char) -> char {
    if 'A' <= c && c <= 'Z' { ((c as int) + 32) as char } else { c }
}

pub open spec fn lower_text(s: Seq<char>) -> Seq<char> {
    s.map_values(|c: char| ascii_lower(c))
}

proof fn lemma_split_lower(s: Seq<char>)
    ensures
        split_on(lower_text(s), '.') == split_on(s, '.').map_values(|p: Seq<char>| lower_text(p)),
    decreases s.len(),
{
    let f = |p: Seq<char>| lower_text(p);
    if s.len() == 0 {
        assert(lower_text(s) =~= Seq::<char>::empty());
        assert(lower_text(Seq::<char>::empty()) =~= Seq::<char>::empty());
        assert(split_on(s, '.').map_values(f) =~= seq![Seq::<char>::empty()]);
    } else {
        let init = s.drop_last();
        lemma_split_lower(init);
        lemma_split_nonempty(init, '.');
        let ls = lower_text(s);
        assert(ls.drop_last() =~= lower_text(init));
        assert(ls.last() == ascii_lower(s.last()));
        let before = split_on(init, '.');
        if s.last() == '.' {
            assert(split_on(s, '.') == before.push(Seq::<char>::empty()));
            assert(split_on(ls, '.') == split_on(lower_text(init), '.').push(Seq::<char>::empty()));
            assert(lower_text(Seq::<char>::empty()) =~= Seq::<char>::empty());
            assert(f(Seq::<char>::empty()) == Seq::<char>::empty());
            let lhs = split_on(s, '.').map_values(f);
            let rhs = before.map_values(f).push(Seq::<char>::empty());
            assert forall|k: int| 0 <= k < lhs.len() implies lhs[k] == rhs[k] by {
                if k < before.len() {
                    assert(split_on(s, '.')[k] == before[k]);
                }
            }
            assert(lhs =~= rhs);
        } else {
            assert(ascii_lower(s.last()) != '.');
            let last = before.len() - 1;
            assert(lower_text(before[last].push(s.last())) =~= lower_text(before[last]).push(ascii_lower(s.last())));
            assert(split_on(s, '.').map_values(f) =~= before.map_values(f).update(
                last,
                before.map_values(f)[last].push(ascii_lower(s.last())),
            ));
        }
    }
}

/// Hostnames ignore letter case: lower-casing the ASCII letters of a host
/// never changes whether it is a valid hostname (`MyServer` is valid exactly
/// as `myserver` is).
pub proof fn hostname_ignores_case(s: Seq<char>)
    ensures
        valid_hostname(lower_text(s)) == valid_hostname(s),
{
    lemma_split_lower(s);
    let parts = split_on(s, '.');
    let lparts = split_on(lower_text(s), '.');
    assert forall|i: int| 0 <= i < parts.len() implies valid_label(#[trigger] lparts[i]) == valid_label(parts[i]) by {
        let l = parts[i];
        let m = lparts[i];
        assert(m == lower_text(l));
        assert(m.len() == l.len());
        let pl = forall|j: int| 0 <= j < l.len() ==> is_ascii_alphanumeric(#[trigger] l[j]) || l[j] == '-';
        let pm = forall|j: int| 0 <= j < m.len() ==> is_ascii_alphanumeric(#[trigger] m[j]) || m[j] == '-';
        if pl {
            assert forall|j: int| 0 <= j < m.len() implies is_ascii_alphanumeric(#[trigger] m[j]) || m[j] == '-' by {
                assert(m[j] == ascii_lower(l[j]));
                assert(is_ascii_alphanumeric(l[j]) || l[j] == '-');
            }
        }
        if pm {
            assert forall|j: int| 0 <= j < l.len() implies is_ascii_alphanumeric(#[trigger] l[j]) || l[j] == '-' by {
                assert(m[j] == ascii_lower(l[j]));
                assert(is_ascii_alphanumeric(m[j]) || m[j] == '-');
            }
        }
        assert(pl == pm);
        if l.len() > 0 {
            assert(m[0] == ascii_lower(l[0]));
            assert(m[m.len() - 1] == ascii_lower(l[l.len() - 1]));
            assert((m[0] != '-') == (l[0] != '-'));
            assert((m.last() != '-') == (l.last() != '-'));
        }
    }
    if valid_hostname(s) != valid_hostname(lower_text(s)) {
        if valid_hostname(s) {
            let i = choose|i: int| 0 <= i < lparts.len() && !valid_label(#[trigger] lparts[i]);
            assert(valid_label(parts[i]));
        } else if s.len() > 0 && s.len() <= 253 {
            let i = choose|i: int| 0 <= i < parts.len() && !valid_label(#[trigger] parts[i]);
            assert(!valid_label(lparts[i]));
        }
    }
}

proof fn lemma_split_without_sep(s: Seq<char>, sep: char)
    requires
        forall|i: int| 0 <= i < s.len() ==> #[trigger] s[i] != sep,
    ensures
        split_on(s, sep) == seq![s],
    decreases s.len(),
{
    if s.len() > 0 {
        let init = s.drop_last();
        assert forall|i: int| 0 <= i < init.len() implies #[trigger] init[i] != sep by {
            assert(init[i] == s[i]);
        }
        lemma_split_without_sep(init, sep);
        assert(s.last() != sep);
        assert(init.push(s.last()) =~= s);
        assert(split_on(s, sep) =~= seq![s]);
    } else {
        assert(s =~= Seq::<char>::empty());
    }
}

/// A single label is a hostname when it has 1 to 63 characters, each an ASCII
/// letter of either case, a digit or a hyphen, and neither starts nor ends
/// with a hyphen.
pub proof fn single_label_is_hostname(l: Seq<char>)
    requires
        0 < l.len() <= 63,
        forall|i: int|
            0 <= i < l.len() ==> ('a' <= #[trigger] l[i] && l[i] <= 'z') || ('A' <= l[i] && l[i] <= 'Z')
                || ('0' <= l[i] && l[i] <= '9') || l[i] == '-',
        l[0] != '-',
        l[l.len() - 1] != '-',
    ensures
        valid_hostname(l),
{
    lemma_split_without_sep(l, '.');
    assert(split_on(l, '.')[0] == l);
    assert forall|i: int| 0 <= i < l.len() implies is_ascii_alphanumeric(#[trigger] l[i]) || l[i] == '-' by {}
    assert(valid_label(l));
}

/// Dotted hostnames: two valid labels joined by a dot form a hostname, as
/// long as the whole is at most 253 characters.
pub proof fn dotted_labels_are_hostname(a: Seq<char>, b: Seq<char>)
    requires
        valid_hostname(a),
        valid_hostname(b),
        a.len() + b.len() + 1 <= 253,
    ensures
        valid_hostname(a + seq!['.'] + b),
{
    let s = a + seq!['.'] + b;
    lemma_split_concat(a, b);
    let pa = split_on(a, '.');
    let pb = split_on(b, '.');
    assert forall|i: int| 0 <= i < split_on(s, '.').len() implies valid_label(#[trigger] split_on(s, '.')[i]) by {
        if i < pa.len() {
            assert(split_on(s, '.')[i] == pa[i]);
        } else {
            assert(split_on(s, '.')[i] == pb[i - pa.len()]);
        }
    }
}

proof fn lemma_split_concat(a: Seq<char>, b: Seq<char>)
    ensures
        split_on(a + seq!['.'] + b, '.') == split_on(a, '.') + split_on(b, '.'),
    decreases b.len(),
{
    let s = a + seq!['.'] + b;
    if b.len() == 0 {
        assert(s.drop_last() =~= a);
        assert(split_on(a, '.') + split_on(b, '.') =~= split_on(a, '.').push(Seq::<char>::empty()));
    } else {
        lemma_split_concat(a, b.drop_last());
        lemma_split_nonempty(b.drop_last(), '.');
        lemma_split_nonempty(a, '.');
        assert(s.drop_last() =~= a + seq!['.'] + b.drop_last());
        assert(s.last() == b.last());
        let x = split_on(a, '.');
        let y = split_on(b.drop_last(), '.');
        if b.last() == '.' {
            assert((x + y).push(Seq::<char>::empty()) =~= x + y.push(Seq::<char>::empty()));
        } else {
            assert((x + y).update((x + y).len() - 1, (x + y).last().push(b.last())) =~= x + y.update(
                y.len() - 1,
                y.last().push(b.last()),
            ));
        }
    }
}

} // verus!
