//! The client address of a request.

use vstd::prelude::*;

use crate::decimal::{
    decimal_text, is_digit, lemma_decimal_round_trip, lemma_decimal_text, lemma_decimal_text_has_no,
    parse_bounded, parse_u8,
};
use crate::text::{
    char_texts, chars_of, contains_char, lemma_split_after, lemma_split_without_sep, owned, split_on,
    leading_ws, split_pieces, string_of, trailing_ws, trim, trimmed,
};

verus! {

/// The values of the proxy headers of a request that the address is read
/// from (`None` for a header that is absent or not visible ASCII).
pub struct ClientHeaders {
    pub forwarded_for: Option<String>,
    pub real_ip: Option<String>,
}

/// A hexadecimal digit, either case.
pub open spec fn is_hex_digit(c: char) -> bool {
    ||| ('0' <= c && c <= '9')
    ||| ('a' <= c && c <= 'f')
    ||| ('A' <= c && c <= 'F')
}

/// A group of an IPv6 address: one to four hexadecimal digits.
pub open spec fn hex_group(p: Seq<char>) -> bool {
    1 <= p.len() <= 4 && forall|i: int| 0 <= i < p.len() ==> is_hex_digit(#[trigger] p[i])
}

/// `t` is empty or a `:`-separated list of groups (no empty group, so no
/// `:` at either end and no `::`).
pub open spec fn hex_groups(t: Seq<char>) -> bool {
    t.len() == 0 || forall|i: int|
        0 <= i < split_on(t, ':').len() ==> hex_group(#[trigger] split_on(t, ':')[i])
}

/// How many groups the text `t` of [`hex_groups`] lists.
pub open spec fn group_count(t: Seq<char>) -> nat {
    if t.len() == 0 {
        0
    } else {
        split_on(t, ':').len()
    }
}

/// The index of the first `::` in `s`, or -1 when `s` has none.
pub open spec fn first_double_colon(s: Seq<char>) -> int
    decreases s.len(),
{
    if s.len() < 2 {
        -1
    } else if s[0] == ':' && s[1] == ':' {
        0
    } else if first_double_colon(s.drop_first()) < 0 {
        -1
    } else {
        first_double_colon(s.drop_first()) + 1
    }
}

/// IPv6 address text: eight groups of hexadecimal digits separated by `:`,
/// or fewer groups (at most seven) with one `::` standing for the missing
/// ones, as in `::1`, `fe80::1` or `2001:db8::`.
pub open spec fn looks_like_ipv6(s: Seq<char>) -> bool {
    let k = first_double_colon(s);
    if k < 0 {
        s.len() > 0 && hex_groups(s) && split_on(s, ':').len() == 8
    } else {
        &&& hex_groups(s.take(k))
        &&& hex_groups(s.skip(k + 2))
        &&& group_count(s.take(k)) + group_count(s.skip(k + 2)) <= 7
    }
}

/// Text that passes as an address: four dot-separated parts that each
/// parse as a `u8` (IPv4), or, when there are not four parts, IPv6 address
/// text (see [`looks_like_ipv6`]).
pub open spec fn looks_like_ip(s: Seq<char>) -> bool {
    let parts = split_on(s, '.');
    if parts.len() == 4 {
        forall|i: int| 0 <= i < 4 ==> parse_bounded(#[trigger] parts[i], u8::MAX as nat) is Some
    } else {
        looks_like_ipv6(s)
    }
}

fn hex_digit(c: char) -> (r: bool)
    ensures
        r == is_hex_digit(c),
{
    ('0' <= c && c <= '9') || ('a' <= c && c <= 'f') || ('A' <= c && c <= 'F')
}

/// Whether `t` is a list of groups (see [`hex_groups`]), and how many.
fn check_hex_groups(t: &Vec<char>) -> (r: (bool, usize))
    ensures
        r.0 == hex_groups(t@),
        r.0 ==> r.1 == group_count(t@),
{
    if t.len() == 0 {
        return (true, 0);
    }
    let pieces = split_pieces(t, ':');
    assert(pieces@.len() == split_on(t@, ':').len());
    let mut i: usize = 0;
    while i < pieces.len()
        invariant
            i <= pieces@.len(),
            t@.len() > 0,
            pieces@.len() == split_on(t@, ':').len(),
            char_texts(pieces@) == split_on(t@, ':'),
            forall|j: int| 0 <= j < i ==> hex_group(#[trigger] split_on(t@, ':')[j]),
        decreases pieces@.len() - i,
    {
        let p = &pieces[i];
        assert(p@ == split_on(t@, ':')[i as int]);
        if p.len() < 1 || p.len() > 4 {
            assert(!hex_group(split_on(t@, ':')[i as int]));
            return (false, 0);
        }
        let mut j: usize = 0;
        while j < p.len()
            invariant
                j <= p@.len(),
                i < pieces@.len(),
                t@.len() > 0,
                pieces@.len() == split_on(t@, ':').len(),
                p@ == split_on(t@, ':')[i as int],
                forall|m: int| 0 <= m < j ==> is_hex_digit(#[trigger] p@[m]),
            decreases p@.len() - j,
        {
            if !hex_digit(p[j]) {
                assert(!is_hex_digit(p@[j as int]));
                assert(!hex_group(split_on(t@, ':')[i as int]));
                return (false, 0);
            }
            j = j + 1;
        }
        assert(hex_group(split_on(t@, ':')[i as int]));
        i = i + 1;
    }
    assert(pieces@.len() == split_on(t@, ':').len());
    (true, pieces.len())
}

/// The index of the first `::` in `cs`, or `None`.
fn find_double_colon(cs: &Vec<char>) -> (r: Option<usize>)
    ensures
        r is None <==> first_double_colon(cs@) < 0,
        r matches Some(k) ==> k == first_double_colon(cs@) && k + 2 <= cs@.len(),
{
    let mut k: usize = 0;
    assert(cs@.skip(0) =~= cs@);
    while k < cs.len() && k + 1 < cs.len() && !(cs[k] == ':' && cs[k + 1] == ':')
        invariant
            k <= cs@.len(),
            first_double_colon(cs@) == if first_double_colon(cs@.skip(k as int)) < 0 {
                -1
            } else {
                first_double_colon(cs@.skip(k as int)) + k
            },
        decreases cs@.len() - k,
    {
        assert(cs@.skip(k as int).drop_first() =~= cs@.skip(k + 1));
        k = k + 1;
    }
    if k < cs.len() && k + 1 < cs.len() {
        assert(cs@.skip(k as int)[0] == cs@[k as int]);
        assert(cs@.skip(k as int)[1] == cs@[k + 1]);
        Some(k)
    } else {
        None
    }
}

/// Whether `s` is IPv6 address text (see [`looks_like_ipv6`]).
fn is_ipv6_text(cs: &Vec<char>) -> (r: bool)
    ensures
        r == looks_like_ipv6(cs@),
{
    match find_double_colon(cs) {
        Some(k) => {
            let before = chars_of(crate::text::slice_string(cs, 0, k).as_str());
            let after = chars_of(crate::text::slice_string(cs, k + 2, cs.len()).as_str());
            assert(before@ =~= cs@.take(k as int));
            assert(after@ =~= cs@.skip(k + 2));
            let (a_ok, a_n) = check_hex_groups(&before);
            let (b_ok, b_n) = check_hex_groups(&after);
            a_ok && b_ok && a_n <= 7 && b_n <= 7 - a_n
        },
        None => {
            let (ok, n) = check_hex_groups(cs);
            cs.len() > 0 && ok && n == 8
        },
    }
}

/// Whether `s` passes as an address (see [`looks_like_ip`]).
pub fn is_valid_ip_str(s: &str) -> (r: bool)
    ensures
        r == looks_like_ip(s@),
{
    let cs = chars_of(s);
    let parts = split_pieces(&cs, '.');
    if parts.len() == 4 {
        let mut i: usize = 0;
        while i < 4
            invariant
                i <= 4,
                parts@.len() == 4,
                char_texts(parts@) == split_on(s@, '.'),
                forall|j: int|
                    0 <= j < i ==> parse_bounded(#[trigger] split_on(s@, '.')[j], u8::MAX as nat) is Some,
            decreases 4 - i,
        {
            let part = string_of(&parts[i]);
            assert(part@ == split_on(s@, '.')[i as int]);
            if parse_u8(part.as_str()).is_none() {
                return false;
            }
            i = i + 1;
        }
        true
    } else {
        is_ipv6_text(&cs)
    }
}

/// The first entry of an `X-Forwarded-For` value, trimmed.
pub open spec fn first_forwarded(v: Seq<char>) -> Seq<char> {
    trim(split_on(v, ',')[0])
}

/// `s` without any leading `c`.
pub open spec fn strip_leading(s: Seq<char>, c: char) -> Seq<char>
    decreases s.len(),
{
    if s.len() > 0 && s[0] == c {
        strip_leading(s.drop_first(), c)
    } else {
        s
    }
}

/// `s` without any trailing `c`.
pub open spec fn strip_trailing(s: Seq<char>, c: char) -> Seq<char>
    decreases s.len(),
{
    if s.len() > 0 && s.last() == c {
        strip_trailing(s.drop_last(), c)
    } else {
        s
    }
}

/// The index of the last `c` in `s`, or -1 when `s` has none.
pub open spec fn last_index_of(s: Seq<char>, c: char) -> int
    decreases s.len(),
{
    if s.len() == 0 {
        -1
    } else if s.last() == c {
        s.len() - 1
    } else {
        last_index_of(s.drop_last(), c)
    }
}

/// The host part of a peer address `host:port`: everything before the last
/// `:` (the port is dropped), without surrounding brackets, so that
/// `[::1]:8080` gives `::1`; the whole text when it has no `:`.
pub open spec fn peer_host(remote: Seq<char>) -> Seq<char> {
    let k = last_index_of(remote, ':');
    if k >= 0 {
        strip_trailing(strip_leading(remote.take(k), '['), ']')
    } else {
        remote
    }
}

/// The client address of a request: the first `X-Forwarded-For` entry if it
/// passes as an address, else `X-Real-IP` if it does, else the host of the
/// peer address.
pub open spec fn client_ip(
    forwarded_for: Option<Seq<char>>,
    real_ip: Option<Seq<char>>,
    remote: Seq<char>,
) -> Seq<char> {
    let fwd_ok = match forwarded_for {
        Some(v) => first_forwarded(v).len() > 0 && looks_like_ip(first_forwarded(v)),
        None => false,
    };
    let real_ok = match real_ip {
        Some(v) => looks_like_ip(trim(v)),
        None => false,
    };
    if fwd_ok {
        first_forwarded(forwarded_for->0)
    } else if real_ok {
        trim(real_ip->0)
    } else {
        peer_host(remote)
    }
}

/// The text of an optional header value.
pub open spec fn header_text(h: Option<String>) -> Option<Seq<char>> {
    match h {
        Some(s) => Some(s@),
        None => None,
    }
}

/// The first entry of an `X-Forwarded-For` value, trimmed.
pub fn forwarded_first(v: &str) -> (r: String)
    ensures
        r@ == first_forwarded(v@),
{
    let cs = chars_of(v);
    let pieces = split_pieces(&cs, ',');
    proof {
        crate::text::lemma_split_nonempty(v@, ',');
    }
    let first = trimmed(&pieces[0]);
    string_of(&first)
}

/// The first `end` characters of `s` without leading `[` and trailing `]`.
fn strip_brackets(s: &Vec<char>, end: usize) -> (r: String)
    requires
        end <= s@.len(),
    ensures
        r@ == strip_trailing(strip_leading(s@.take(end as int), '['), ']'),
{
    let mut lo: usize = 0;
    assert(s@.subrange(0, end as int) =~= s@.take(end as int));
    while lo < end && s[lo] == '['
        invariant
            lo <= end <= s@.len(),
            strip_leading(s@.take(end as int), '[') == strip_leading(
                s@.subrange(lo as int, end as int),
                '[',
            ),
        decreases end - lo,
    {
        assert(s@.subrange(lo as int, end as int).drop_first() =~= s@.subrange(
            lo + 1,
            end as int,
        ));
        lo = lo + 1;
    }
    let ghost mid = s@.subrange(lo as int, end as int);
    assert(strip_leading(mid, '[') == mid);
    let mut hi: usize = end;
    while hi > lo && s[hi - 1] == ']'
        invariant
            lo <= hi <= end <= s@.len(),
            mid == s@.subrange(lo as int, end as int),
            strip_trailing(mid, ']') == strip_trailing(s@.subrange(lo as int, hi as int), ']'),
        decreases hi,
    {
        assert(s@.subrange(lo as int, hi as int).drop_last() =~= s@.subrange(lo as int, hi - 1));
        hi = hi - 1;
    }
    crate::text::slice_string(s, lo, hi)
}

/// The client address of a request (see [`client_ip`]).
pub fn extract_ip(headers: &ClientHeaders, remote_addr: &str) -> (ip: String)
    ensures
        ip@ == client_ip(header_text(headers.forwarded_for), header_text(headers.real_ip), remote_addr@),
{
    match &headers.forwarded_for {
        Some(v) => {
            let first = forwarded_first(v.as_str());
            if chars_of(first.as_str()).len() > 0 && is_valid_ip_str(first.as_str()) {
                return first;
            }
        },
        None => {},
    }
    match &headers.real_ip {
        Some(v) => {
            let t = string_of(&trimmed(&chars_of(v.as_str())));
            if is_valid_ip_str(t.as_str()) {
                return t;
            }
        },
        None => {},
    }
    let cs = chars_of(remote_addr);
    let mut k: usize = cs.len();
    assert(cs@.take(k as int) =~= cs@);
    while k > 0 && cs[k - 1] != ':'
        invariant
            k <= cs@.len(),
            last_index_of(cs@, ':') == last_index_of(cs@.take(k as int), ':'),
        decreases k,
    {
        assert(cs@.take(k as int).drop_last() =~= cs@.take(k - 1));
        k = k - 1;
    }
    if k > 0 {
        strip_brackets(&cs, k - 1)
    } else {
        owned(remote_addr)
    }
}

/// The address written to the access log: the first `X-Forwarded-For`
/// entry when it is not empty, else `X-Real-IP` trimmed, else `-`.
pub open spec fn logged_ip(forwarded_for: Option<Seq<char>>, real_ip: Option<Seq<char>>) -> Seq<char> {
    if forwarded_for is Some && first_forwarded(forwarded_for->0).len() > 0 {
        first_forwarded(forwarded_for->0)
    } else if real_ip is Some {
        trim(real_ip->0)
    } else {
        "-"@
    }
}

/// The address written to the access log (see [`logged_ip`]).
pub fn extract_ip_from_req(headers: &ClientHeaders) -> (ip: String)
    ensures
        ip@ == logged_ip(header_text(headers.forwarded_for), header_text(headers.real_ip)),
{
    match &headers.forwarded_for {
        Some(v) => {
            let first = forwarded_first(v.as_str());
            if chars_of(first.as_str()).len() > 0 {
                return first;
            }
        },
        None => {},
    }
    match &headers.real_ip {
        Some(v) => string_of(&trimmed(&chars_of(v.as_str()))),
        None => owned("-"),
    }
}

/// The level an access is logged at.
#[derive(Clone, Copy, Debug, PartialEq, Eq, Structural)]
pub enum LogLevel {
    Error,
    Warn,
    Info,
}

/// The level for a reply with HTTP status `status`: errors for 5xx,
/// warnings for 4xx, information otherwise.
pub fn log_level(status: u16) -> (l: LogLevel)
    ensures
        l == if status >= 500 {
            LogLevel::Error
        } else if status >= 400 {
            LogLevel::Warn
        } else {
            LogLevel::Info
        },
{
    if status >= 500 {
        LogLevel::Error
    } else if status >= 400 {
        LogLevel::Warn
    } else {
        LogLevel::Info
    }
}

/// Every dotted quad of numbers from 0 to 255 (as `Display` writes them,
/// such as `223.104.3.7`) passes as an address.
pub proof fn law_dotted_quads_are_addresses(a: nat, b: nat, c: nat, d: nat)
    requires
        a <= 255,
        b <= 255,
        c <= 255,
        d <= 255,
    ensures
        looks_like_ip(dotted_quad(a, b, c, d)),
{
    lemma_decimal_text_has_no(a, '.');
    lemma_decimal_text_has_no(b, '.');
    lemma_decimal_text_has_no(c, '.');
    lemma_decimal_text_has_no(d, '.');
    lemma_decimal_round_trip(a);
    lemma_decimal_round_trip(b);
    lemma_decimal_round_trip(c);
    lemma_decimal_round_trip(d);
    let tail = decimal_text(c).push('.') + decimal_text(d);
    let mid = decimal_text(b).push('.') + tail;
    let s = decimal_text(a).push('.') + mid;
    lemma_split_without_sep(decimal_text(d), '.');
    lemma_split_after(decimal_text(c), decimal_text(d), '.');
    lemma_split_after(decimal_text(b), tail, '.');
    lemma_split_after(decimal_text(a), mid, '.');
    let parts = split_on(s, '.');
    assert(parts =~= seq![decimal_text(a), decimal_text(b), decimal_text(c), decimal_text(d)]);
    assert(parse_bounded(parts[0], u8::MAX as nat) is Some);
    assert(parse_bounded(parts[1], u8::MAX as nat) is Some);
    assert(parse_bounded(parts[2], u8::MAX as nat) is Some);
    assert(parse_bounded(parts[3], u8::MAX as nat) is Some);
}

/// A dotted quad of numbers from 0 to 255.
pub open spec fn dotted_quad(a: nat, b: nat, c: nat, d: nat) -> Seq<char> {
    decimal_text(a).push('.') + (decimal_text(b).push('.') + (decimal_text(c).push('.')
        + decimal_text(d)))
}

proof fn lemma_join_lacks(a: Seq<char>, b: Seq<char>, x: char)
    requires
        !a.contains(x),
        !b.contains(x),
        x != '.',
    ensures
        !(a.push('.') + b).contains(x),
{
    let s = a.push('.') + b;
    if s.contains(x) {
        let k = choose|k: int| 0 <= k < s.len() && s[k] == x;
        if k < a.len() {
            assert(s[k] == a[k]);
        } else if k > a.len() {
            assert(s[k] == b[k - a.len() - 1]);
        }
    }
}

/// A request whose `X-Forwarded-For` starts with a dotted quad of numbers
/// from 0 to 255 comes from that address, whatever `X-Real-IP` and the peer
/// address say.
pub proof fn law_forwarded_dotted_quad_is_the_client(
    a: nat,
    b: nat,
    c: nat,
    d: nat,
    real_ip: Option<Seq<char>>,
    remote: Seq<char>,
)
    requires
        a <= 255,
        b <= 255,
        c <= 255,
        d <= 255,
    ensures
        client_ip(Some(dotted_quad(a, b, c, d)), real_ip, remote) == dotted_quad(a, b, c, d),
{
    let q = dotted_quad(a, b, c, d);
    law_dotted_quads_are_addresses(a, b, c, d);
    lemma_decimal_text_has_no(a, ',');
    lemma_decimal_text_has_no(b, ',');
    lemma_decimal_text_has_no(c, ',');
    lemma_decimal_text_has_no(d, ',');
    lemma_decimal_text(a);
    lemma_decimal_text(d);
    let tail = decimal_text(c).push('.') + decimal_text(d);
    let mid = decimal_text(b).push('.') + tail;
    lemma_join_lacks(decimal_text(c), decimal_text(d), ',');
    lemma_join_lacks(decimal_text(b), tail, ',');
    lemma_join_lacks(decimal_text(a), mid, ',');
    lemma_split_without_sep(q, ',');
    assert(q[0] == decimal_text(a)[0]);
    assert(q.last() == decimal_text(d).last());
    assert(is_digit(decimal_text(d)[decimal_text(d).len() - 1]));
    assert(leading_ws(q) == 0);
    assert(trailing_ws(q) == 0);
    assert(trim(q) =~= q);
}

/// A dotted quad with a number above 255 does not pass as an address.
pub proof fn law_octets_above_255_are_refused(a: nat, b: nat, c: nat, d: nat)
    requires
        a > 255 || b > 255 || c > 255 || d > 255,
    ensures
        !looks_like_ip(dotted_quad(a, b, c, d)),
{
    lemma_decimal_text_has_no(a, '.');
    lemma_decimal_text_has_no(b, '.');
    lemma_decimal_text_has_no(c, '.');
    lemma_decimal_text_has_no(d, '.');
    lemma_decimal_round_trip(a);
    lemma_decimal_round_trip(b);
    lemma_decimal_round_trip(c);
    lemma_decimal_round_trip(d);
    let tail = decimal_text(c).push('.') + decimal_text(d);
    let mid = decimal_text(b).push('.') + tail;
    lemma_split_without_sep(decimal_text(d), '.');
    lemma_split_after(decimal_text(c), decimal_text(d), '.');
    lemma_split_after(decimal_text(b), tail, '.');
    lemma_split_after(decimal_text(a), mid, '.');
    let parts = split_on(dotted_quad(a, b, c, d), '.');
    assert(parts =~= seq![decimal_text(a), decimal_text(b), decimal_text(c), decimal_text(d)]);
    if a > 255 {
        assert(parse_bounded(parts[0], u8::MAX as nat) is None);
    } else if b > 255 {
        assert(parse_bounded(parts[1], u8::MAX as nat) is None);
    } else if c > 255 {
        assert(parse_bounded(parts[2], u8::MAX as nat) is None);
    } else {
        assert(parse_bounded(parts[3], u8::MAX as nat) is None);
    }
}

} // verus!
