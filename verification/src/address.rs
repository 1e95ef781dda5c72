//! Node addresses: building `http://host:port` URLs and reading a host and
//! port back out of a node's address.

use vstd::prelude::*;
use vstd::string::{StrSliceExecFns, StringExecFns};
use crate::hashing::{decimal, digit_char, push_decimal};
use crate::models::NodeRegisterRequest;

verus! {

/// The text `http://`.
pub open spec fn http_scheme() -> Seq<char> {
    seq!['h', 't', 't', 'p', ':', '/', '/']
}

/// `http://<host>:<port>`.
pub open spec fn http_address_text(host: Seq<char>, port: u16) -> Seq<char> {
    http_scheme() + host + seq![':'] + decimal(port as nat)
}

/// Builds `http://<host>:<port>`.
pub fn http_address(host: &str, port: u16) -> (addr: String)
    ensures
        addr@ == http_address_text(host@, port),
{
    proof { reveal_strlit("http://"); reveal_strlit(":"); }
    let mut addr = String::from_str("http://");
    addr.append(host);
    addr.append(":");
    push_decimal(&mut addr, port as u64);
    assert(addr@ =~= http_address_text(host@, port));
    addr
}

/// `<base>/v1/keys/<key>`: where a key is read and written on a node.
pub open spec fn key_url_text(base: Seq<char>, key: Seq<char>) -> Seq<char> {
    base + seq!['/', 'v', '1', '/', 'k', 'e', 'y', 's', '/'] + key
}

/// Builds `http://<host>:<port>/v1/keys/<key>`.
pub fn key_url(host: &str, port: u16, key: &str) -> (url: String)
    ensures
        url@ == key_url_text(http_address_text(host@, port), key@),
{
    let mut url = http_address(host, port);
    proof { reveal_strlit("/v1/keys/"); }
    url.append("/v1/keys/");
    url.append(key);
    assert(url@ =~= key_url_text(http_address_text(host@, port), key@));
    url
}

/// The text with every leading `http://` removed.
pub open spec fn strip_scheme(s: Seq<char>) -> Seq<char>
    decreases s.len(),
{
    if s.len() >= 7 && s.take(7) == http_scheme() {
        strip_scheme(s.skip(7))
    } else {
        s
    }
}

/// The index of the first `:` in `s`, or its length.
pub open spec fn first_colon(s: Seq<char>) -> int
    decreases s.len(),
{
    if s.len() == 0 {
        0
    } else if s[0] == ':' {
        0
    } else {
        1 + first_colon(s.drop_first())
    }
}

/// The index just after the last `:` in `s`, or 0.
pub open spec fn after_last_colon(s: Seq<char>) -> int
    decreases s.len(),
{
    if s.len() == 0 {
        0
    } else if s.last() == ':' {
        s.len() as int
    } else {
        after_last_colon(s.drop_last())
    }
}

/// The host of a node address: after removing leading `http://`, the text
/// before the first `:`.
pub open spec fn address_host(addr: Seq<char>) -> Seq<char> {
    let t = strip_scheme(addr);
    t.take(first_colon(t))
}

/// The port text of a node address: the text after its last `:` (all of
/// it when there is none).
pub open spec fn address_port_text(addr: Seq<char>) -> Seq<char> {
    addr.skip(after_last_colon(addr))
}

pub open spec fn is_digit(c: char) -> bool {
    '0' <= c && c <= '9'
}

/// The value of a string of decimal digits.
pub open spec fn digits_value(s: Seq<char>) -> nat
    decreases s.len(),
{
    if s.len() == 0 {
        0
    } else {
        digits_value(s.drop_last()) * 10 + (((s.last() as int) - ('0' as int)) as nat)
    }
}

/// The digits of a port text: without one leading `+`.
pub open spec fn port_digits(s: Seq<char>) -> Seq<char> {
    if s.len() > 0 && s[0] == '+' {
        s.drop_first()
    } else {
        s
    }
}

/// Every character is a decimal digit.
pub open spec fn all_digits(d: Seq<char>) -> bool {
    forall|i: int| 0 <= i < d.len() ==> is_digit(#[trigger] d[i])
}

/// A port number in decimal: an optional `+`, then at least one digit and
/// nothing else, with a value of at most 65535 (the rules of `u16`'s
/// `FromStr`).
pub open spec fn parse_port(s: Seq<char>) -> Option<u16> {
    if port_digits(s).len() > 0 && all_digits(port_digits(s)) && digits_value(port_digits(s)) <= 65535 {
        Some(digits_value(port_digits(s)) as u16)
    } else {
        None
    }
}

proof fn lemma_digits_value_monotone(s: Seq<char>, n: int)
    requires
        0 <= n <= s.len(),
        forall|i: int| 0 <= i < s.len() ==> is_digit(#[trigger] s[i]),
    ensures
        digits_value(s.take(n)) <= digits_value(s),
    decreases s.len() - n,
{
    if n < s.len() {
        lemma_digits_value_monotone(s, n + 1);
        assert(s.take(n + 1).drop_last() == s.take(n));
    } else {
        assert(s.take(n) == s);
    }
}

/// Reads a port number with the rules of `parse_port`.
fn parse_port_text(s: &str) -> (port: Option<u16>)
    ensures
        port == parse_port(s@),
{
    let n = s.unicode_len();
    let mut i: usize = 0;
    if n > 0 && s.get_char(0) == '+' {
        i = 1;
    }
    let ghost digits = port_digits(s@);
    let ghost off = i as int;
    assert(digits =~= s@.skip(off));
    if i == n {
        return None;
    }
    let mut value: u32 = 0;
    while i < n
        invariant
            off <= i <= n,
            n == s@.len(),
            0 <= off <= 1,
            digits == s@.skip(off),
            digits.len() == n - off,
            digits == port_digits(s@),
            forall|j: int| 0 <= j < i - off ==> is_digit(#[trigger] digits[j]),
            value == digits_value(digits.take(i - off)),
            value <= 65535,
        decreases n - i,
    {
        let c = s.get_char(i);
        assert(digits[i - off] == c);
        if !('0' <= c && c <= '9') {
            assert(!is_digit(digits[i - off]));
            assert(!all_digits(digits));
            return None;
        }
        let d = (c as u32) - ('0' as u32);
        assert(digits.take(i - off + 1).drop_last() == digits.take(i - off));
        value = value * 10 + d;
        if value > 65535 {
            proof {
                if forall|j: int| 0 <= j < digits.len() ==> is_digit(#[trigger] digits[j]) {
                    lemma_digits_value_monotone(digits, i - off + 1);
                }
            }
            return None;
        }
        i = i + 1;
    }
    assert(digits.take(digits.len() as int) == digits);
    Some(value as u16)
}

proof fn lemma_first_colon(t: Seq<char>, m: int)
    requires
        0 <= m <= t.len(),
        forall|j: int| 0 <= j < m ==> t[j] != ':',
        m < t.len() ==> t[m] == ':',
    ensures
        first_colon(t) == m,
    decreases m,
{
    if m > 0 {
        lemma_first_colon(t.drop_first(), m - 1);
    }
}

proof fn lemma_after_last_colon(s: Seq<char>, j: int)
    requires
        0 <= j <= s.len(),
        forall|k: int| j <= k < s.len() ==> s[k] != ':',
        j > 0 ==> s[j - 1] == ':',
    ensures
        after_last_colon(s) == j,
    decreases s.len(),
{
    if s.len() > j {
        lemma_after_last_colon(s.drop_last(), j);
    }
}

/// The registration request of a node with address `node_addr`: its id, the
/// host and the port read from the address. `None` when the port text is
/// not a valid port number.
pub fn registration_request(node_id: &str, node_addr: &str) -> (req: Option<NodeRegisterRequest>)
    ensures
        match req {
            Some(r) => r.node_id@ == node_id@ && r.host@ == address_host(node_addr@) && parse_port(
                address_port_text(node_addr@),
            ) == Some(r.port),
            None => parse_port(address_port_text(node_addr@)) is None,
        },
{
    let n = node_addr.unicode_len();
    let ghost s = node_addr@;
    proof { reveal_strlit("http://"); assert(s.skip(0) == s); }
    let mut start: usize = 0;
    while n - start >= 7 && crate::strmap::str_eq(node_addr.substring_char(start, start + 7), "http://")
        invariant
            s == node_addr@,
            n == s.len(),
            start <= n,
            strip_scheme(s) == strip_scheme(s.skip(start as int)),
            "http://"@ == http_scheme(),
        decreases n - start,
    {
        assert(s.skip(start as int).take(7) == s.subrange(start as int, start + 7));
        assert(s.skip(start as int).skip(7) == s.skip(start + 7));
        start = start + 7;
    }
    let ghost t = s.skip(start as int);
    proof {
        if t.len() >= 7 {
            assert(t.take(7) == s.subrange(start as int, start + 7));
        }
        assert(strip_scheme(t) == t);
    }
    let mut i: usize = start;
    while i < n && node_addr.get_char(i) != ':'
        invariant
            s == node_addr@,
            n == s.len(),
            start <= i <= n,
            t == s.skip(start as int),
            forall|j: int| 0 <= j < i - start ==> t[j] != ':',
        decreases n - i,
    {
        i = i + 1;
    }
    proof {
        lemma_first_colon(t, i - start);
        assert(t.take(i - start) == s.subrange(start as int, i as int));
    }
    let host = String::from_str(node_addr.substring_char(start, i));
    let mut j: usize = n;
    while j > 0 && node_addr.get_char(j - 1) != ':'
        invariant
            s == node_addr@,
            n == s.len(),
            j <= n,
            forall|k: int| j <= k < n ==> s[k] != ':',
        decreases j,
    {
        j = j - 1;
    }
    proof {
        lemma_after_last_colon(s, j as int);
        assert(s.skip(j as int) == s.subrange(j as int, n as int));
    }
    let port_text = node_addr.substring_char(j, n);
    match parse_port_text(port_text) {
        Some(port) => Some(NodeRegisterRequest { node_id: String::from_str(node_id), host, port }),
        None => None,
    }
}

proof fn lemma_digit_char(d: nat)
    requires
        d < 10,
    ensures
        is_digit(digit_char(d)),
        (digit_char(d) as int) - ('0' as int) == d,
        digit_char(d) != ':',
        digit_char(d) != '+',
        digit_char(d) != '/',
{
}

/// The decimal text of a number is digits only, and reads back as the
/// number.
proof fn lemma_decimal_digits(n: nat)
    ensures
        decimal(n).len() > 0,
        all_digits(decimal(n)),
        digits_value(decimal(n)) == n,
        forall|i: int| 0 <= i < decimal(n).len() ==> #[trigger] decimal(n)[i] != ':' && decimal(n)[i] != '+'
            && decimal(n)[i] != '/',
    decreases n,
{
    if n < 10 {
        lemma_digit_char(n);
        assert(decimal(n) == seq![digit_char(n)]);
        assert(decimal(n).drop_last() == Seq::<char>::empty());
        assert(digits_value(decimal(n)) == digits_value(Seq::<char>::empty()) * 10 + n);
    } else {
        lemma_decimal_digits(n / 10);
        lemma_digit_char(n % 10);
        let s = decimal(n);
        assert(s == decimal(n / 10).push(digit_char(n % 10)));
        assert(s.drop_last() == decimal(n / 10));
        assert(s.last() == digit_char(n % 10));
        assert(digits_value(s) == digits_value(decimal(n / 10)) * 10 + (n % 10));
        vstd::arithmetic::div_mod::lemma_fundamental_div_mod(n as int, 10);
        assert forall|i: int| 0 <= i < s.len() implies is_digit(#[trigger] s[i]) by {
            if i < s.len() - 1 {
                assert(s[i] == decimal(n / 10)[i]);
            }
        }
        assert forall|i: int| 0 <= i < s.len() implies #[trigger] s[i] != ':' && s[i] != '+' && s[i] != '/' by {
            if i < s.len() - 1 {
                assert(s[i] == decimal(n / 10)[i]);
            }
        }
    }
}

proof fn lemma_first_colon_at(t: Seq<char>, m: int)
    requires
        0 <= m < t.len(),
        t[m] == ':',
        forall|j: int| 0 <= j < m ==> t[j] != ':',
    ensures
        first_colon(t) == m,
{
    lemma_first_colon(t, m);
}

/// A node registers with the host and port it listens on: reading the host
/// and port back out of `http://<host>:<port>` gives them, when the host
/// holds no `:`.
pub proof fn lemma_address_round_trip(host: Seq<char>, port: u16)
    requires
        forall|i: int| 0 <= i < host.len() ==> #[trigger] host[i] != ':',
    ensures
        address_host(http_address_text(host, port)) == host,
        parse_port(address_port_text(http_address_text(host, port))) == Some(port),
{
    let dec = decimal(port as nat);
    lemma_decimal_digits(port as nat);
    let full = http_address_text(host, port);
    let rest = host + seq![':'] + dec;
    assert(full == http_scheme() + rest);
    assert(full.take(7) == http_scheme());
    assert(full.skip(7) == rest);
    // `rest` does not start with the scheme: its only colon is right after the host,
    // and a digit follows it.
    if rest.len() >= 7 && rest.take(7) == http_scheme() {
        assert(rest.take(7)[4] == ':');
        assert(rest[4] == ':');
        if host.len() > 4 {
            assert(rest[4] == host[4]);
        } else if host.len() < 4 {
            assert(rest[4] == dec[4 - host.len() - 1]);
        }
        assert(host.len() == 4);
        assert(rest.take(7)[5] == '/');
        assert(rest[5] == dec[0]);
    }
    assert(strip_scheme(rest) == rest);
    assert(strip_scheme(full) == rest);
    assert forall|j: int| 0 <= j < host.len() implies rest[j] != ':' by {
        assert(rest[j] == host[j]);
    }
    lemma_first_colon_at(rest, host.len() as int);
    assert(rest.take(host.len() as int) == host);
    lemma_after_last_colon(full, (7 + host.len() + 1) as int);
    assert(full.skip((7 + host.len() + 1) as int) == dec);
    assert(port_digits(dec) == dec);
}

} // verus!
