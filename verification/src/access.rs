//! Per-user visit records: which directory a visit is filed under, the
//! visit-times file, and how a visit is counted in the statistics.

use vstd::prelude::*;
use vstd::string::StringSliceAdditionalSpecFns;

use crate::decimal::{
    all_digits, decimal_text, is_digit, lemma_decimal_round_trip, lemma_decimal_text, parse_bounded,
    parse_u64, u64_text,
};
use crate::cache::geoip::GeoInfo;
use crate::stats::{access_counted, new_user_counted, PendingStats, record_access, record_new_user};
use crate::text::{
    char_texts, concat, concat_strings, join_path, lemma_split_after, lines_of, owned, path_join,
    replace_char, replaced, split_on, string_of, strip_cr, text_lines,
};

verus! {

/// A hexadecimal digit, as a byte.
pub open spec fn is_hex_byte(b: u8) -> bool {
    (48 <= b <= 57) || (65 <= b <= 70) || (97 <= b <= 102)
}

/// The positions of the dashes in a UUID.
pub open spec fn is_dash_position(i: int) -> bool {
    i == 8 || i == 13 || i == 18 || i == 23
}

/// `bytes` are a UUID in its 36-character text form: dashes at positions
/// 8, 13, 18 and 23 and hexadecimal digits elsewhere.
pub open spec fn is_uuid_text(bytes: Seq<u8>) -> bool {
    &&& bytes.len() == 36
    &&& forall|i: int|
        0 <= i < 36 ==> if is_dash_position(i) {
            #[trigger] bytes[i] == 45
        } else {
            is_hex_byte(bytes[i])
        }
}

/// Whether `s` is a UUID in its text form (any version, either case).
pub fn is_valid_uuid(s: &str) -> (r: bool)
    ensures
        r == is_uuid_text(s.spec_bytes()),
{
    let b = s.as_bytes();
    if b.len() != 36 {
        return false;
    }
    if b[8] != 45 || b[13] != 45 || b[18] != 45 || b[23] != 45 {
        return false;
    }
    let mut i: usize = 0;
    while i < 36
        invariant
            i <= 36,
            b@.len() == 36,
            b@ == s.spec_bytes(),
            b@[8] == 45 && b@[13] == 45 && b@[18] == 45 && b@[23] == 45,
            forall|j: int|
                0 <= j < i ==> if is_dash_position(j) {
                    #[trigger] b@[j] == 45
                } else {
                    is_hex_byte(b@[j])
                },
        decreases 36 - i,
    {
        let c = b[i];
        let dash = i == 8 || i == 13 || i == 18 || i == 23;
        if !dash {
            let hex = (48 <= c && c <= 57) || (65 <= c && c <= 70) || (97 <= c && c <= 102);
            if !hex {
                assert(!is_dash_position(i as int));
                assert(!is_hex_byte(b@[i as int]));
                return false;
            }
        }
        i = i + 1;
    }
    true
}

/// `ip` as a directory name: `:` (in IPv6 addresses) written as `_`.
pub fn ip_to_dir(ip: &str) -> (d: String)
    ensures
        d@ == replace_char(ip@, ':', '_'),
{
    replaced(ip, ':', '_')
}

/// Where a visit is filed: by UUID when the client sent a valid one,
/// otherwise by address under `public`.
pub struct VisitTarget {
    pub has_uuid: bool,
    pub dir: String,
}

/// The directory of the user behind a visit from `ip` with `uuid`, under `users_dir`.
pub open spec fn visit_dir(users_dir: Seq<char>, ip: Seq<char>, uuid_bytes: Seq<u8>, uuid: Seq<char>) -> Seq<char> {
    if is_uuid_text(uuid_bytes) {
        path_join(users_dir, uuid)
    } else {
        path_join(path_join(users_dir, "public"@), replace_char(ip, ':', '_'))
    }
}

/// Files a visit from `ip` with `uuid`: users with a valid UUID are kept
/// apart by UUID, the others by address.
pub fn visit_target(users_dir: &str, ip: &str, uuid: &str) -> (t: VisitTarget)
    ensures
        t.has_uuid == is_uuid_text(uuid.spec_bytes()),
        t.dir@ == visit_dir(users_dir@, ip@, uuid.spec_bytes(), uuid@),
{
    let has_uuid = is_valid_uuid(uuid);
    let dir = if has_uuid {
        join_path(users_dir, uuid)
    } else {
        let public = join_path(users_dir, "public");
        let name = ip_to_dir(ip);
        join_path(public.as_str(), name.as_str())
    };
    VisitTarget { has_uuid, dir }
}

/// The `geo.json` record of a new user: the address and its location.
pub struct GeoWithIp {
    pub ip: String,
    pub country: String,
    pub country_code: String,
    pub city: String,
    pub lat_bits: u64,
    pub lon_bits: u64,
    pub timezone: String,
}

/// The `geo.json` record for a new user at `ip` located at `geo`.
pub fn geo_record(ip: &str, geo: &GeoInfo) -> (r: GeoWithIp)
    ensures
        r.ip@ == ip@,
        r.country@ == geo.country@,
        r.country_code@ == geo.country_code@,
        r.city@ == geo.city@,
        r.lat_bits == geo.lat_bits,
        r.lon_bits == geo.lon_bits,
        r.timezone@ == geo.timezone@,
{
    GeoWithIp {
        ip: owned(ip),
        country: geo.country.clone(),
        country_code: geo.country_code.clone(),
        city: geo.city.clone(),
        lat_bits: geo.lat_bits,
        lon_bits: geo.lon_bits,
        timezone: geo.timezone.clone(),
    }
}

/// Counts a visit: a first visit (with the new user's location) counts a new
/// user and the region, a later one counts an access.
pub fn count_visit(pending: &mut PendingStats, has_uuid: bool, first_visit: Option<&GeoInfo>)
    requires
        old(pending).wf(),
        first_visit matches Some(g) ==> old(pending).region_has_room(g.country_code@),
    ensures
        final(pending).wf(),
        match first_visit {
            Some(g) => new_user_counted(
                *old(pending),
                *final(pending),
                has_uuid,
                g.country_code@,
                g.country@,
            ),
            None => access_counted(*old(pending), *final(pending), has_uuid),
        },
{
    match first_visit {
        Some(g) => {
            record_new_user(pending, has_uuid, g.country_code.as_str(), g.country.as_str());
        },
        None => {
            record_access(pending, has_uuid);
        },
    }
}

/// The number of visits that the previous times file records: its first
/// line as a `u64`, or 0.
pub open spec fn recorded_count(previous: Seq<char>) -> nat {
    let ls = text_lines(previous);
    if ls.len() > 0 {
        match parse_bounded(ls[0], u64::MAX as nat) {
            Some(n) => n,
            None => 0,
        }
    } else {
        0
    }
}

/// The first-visit time that the previous times file records: its second
/// line, or `now` when it has none.
pub open spec fn recorded_first(previous: Seq<char>, now: Seq<char>) -> Seq<char> {
    let ls = text_lines(previous);
    if ls.len() > 1 {
        ls[1]
    } else {
        now
    }
}

/// The times file: the visit count, the first-visit time and the
/// last-visit time, one per line.
pub open spec fn times_text(count: nat, first: Seq<char>, now: Seq<char>) -> Seq<char> {
    decimal_text(count) + "\n"@ + first + "\n"@ + now + "\n"@
}

/// The times file after a visit at `now`, given the previous file if it
/// could be read.
pub open spec fn next_times_text(previous: Option<Seq<char>>, now: Seq<char>) -> Seq<char> {
    match previous {
        Some(p) => times_text(recorded_count(p) + 1, recorded_first(p, now), now),
        None => times_text(1, now, now),
    }
}

/// The previous file does not already record the largest count.
pub open spec fn count_has_room(previous: Option<Seq<char>>) -> bool {
    match previous {
        Some(p) => recorded_count(p) < u64::MAX,
        None => true,
    }
}

/// Whether the count in `previous` can still be incremented.
pub fn times_count_has_room(previous: Option<&str>) -> (r: bool)
    ensures
        r == count_has_room(match previous {
            Some(p) => Some(p@),
            None => None,
        }),
{
    match previous {
        Some(p) => {
            let ls = lines_of(p);
            if ls.len() > 0 {
                let first = string_of(&ls[0]);
                match parse_u64(first.as_str()) {
                    Some(n) => n < u64::MAX,
                    None => true,
                }
            } else {
                true
            }
        },
        None => true,
    }
}

/// The times file after a visit at `now` (`previous` is the file as read,
/// or `None` when it could not be read): the count one higher, the first
/// visit kept, and `now` as the last visit.
pub fn next_times(previous: Option<&str>, now: &str) -> (r: String)
    requires
        count_has_room(match previous {
            Some(p) => Some(p@),
            None => None,
        }),
    ensures
        r@ == next_times_text(
            match previous {
                Some(p) => Some(p@),
                None => None,
            },
            now@,
        ),
{
    let (count, first): (u64, String) = match previous {
        Some(p) => {
            let ls = lines_of(p);
            let ghost tl = text_lines(p@);
            assert(char_texts(ls@) == tl);
            let count: u64 = if ls.len() > 0 {
                let line = string_of(&ls[0]);
                assert(line@ == tl[0]);
                match parse_u64(line.as_str()) {
                    Some(n) => n,
                    None => 0,
                }
            } else {
                0
            };
            let first = if ls.len() > 1 {
                let f = string_of(&ls[1]);
                assert(f@ == tl[1]);
                f
            } else {
                owned(now)
            };
            (count + 1, first)
        },
        None => (1, owned(now)),
    };
    let c = u64_text(count);
    let a = concat(c.as_str(), "\n");
    let b = concat_strings(a, first);
    let d = concat(b.as_str(), "\n");
    let e = concat(d.as_str(), now);
    concat(e.as_str(), "\n")
}

/// The visit time written to the times file: the seconds since the Unix epoch.
pub fn unix_now_str(secs: u64) -> (s: String)
    ensures
        s@ == decimal_text(secs as nat),
{
    u64_text(secs)
}

proof fn lemma_digits_line(d: Seq<char>)
    requires
        all_digits(d),
    ensures
        !d.contains('\n'),
        strip_cr(d) == d,
{
    if d.contains('\n') {
        let k = choose|k: int| 0 <= k < d.len() && d[k] == '\n';
        assert(is_digit(d[k]));
    }
    if d.len() > 0 {
        assert(is_digit(d[d.len() - 1]));
    }
}

/// A times file with visit time `first` and last-visit time `now1`, read
/// back at the next visit at `now2`, gives the count one higher, the same
/// first visit, and `now2` as the last visit.
pub proof fn law_times_round_trip(count: nat, first: Seq<char>, now1: u64, now2: u64)
    requires
        count <= u64::MAX,
        !first.contains('\n'),
        strip_cr(first) == first,
    ensures
        recorded_count(times_text(count, first, decimal_text(now1 as nat))) == count,
        count < u64::MAX ==> count_has_room(Some(times_text(count, first, decimal_text(now1 as nat)))),
        next_times_text(Some(times_text(count, first, decimal_text(now1 as nat))), decimal_text(now2 as nat))
            == times_text(count + 1, first, decimal_text(now2 as nat)),
{
    let d = decimal_text(count);
    let n1 = decimal_text(now1 as nat);
    let n2 = decimal_text(now2 as nat);
    let s = times_text(count, first, n1);
    reveal_strlit("\n");
    lemma_decimal_text(count);
    lemma_decimal_text(now1 as nat);
    lemma_decimal_round_trip(count);
    lemma_digits_line(d);
    lemma_digits_line(n1);
    let e = Seq::<char>::empty();
    assert(s =~= d.push('\n') + (first.push('\n') + (n1.push('\n') + e)));
    lemma_split_after(n1, e, '\n');
    lemma_split_after(first, n1.push('\n') + e, '\n');
    lemma_split_after(d, first.push('\n') + (n1.push('\n') + e), '\n');
    let p = split_on(s, '\n');
    assert(split_on(e, '\n') =~= seq![e]);
    assert(p =~= seq![d, first, n1, e]);
    assert(s.last() == '\n');
    assert(text_lines(s) =~= seq![d, first, n1]);
}

/// Two visits with no times file before them give a count of 2, the first
/// visit's time and the second visit's time.
pub proof fn law_second_visit(now1: u64, now2: u64)
    ensures
        next_times_text(Some(next_times_text(None, decimal_text(now1 as nat))), decimal_text(now2 as nat))
            == times_text(2, decimal_text(now1 as nat), decimal_text(now2 as nat)),
{
    let n1 = decimal_text(now1 as nat);
    lemma_decimal_text(now1 as nat);
    lemma_digits_line(n1);
    law_times_round_trip(1, n1, now1, now2);
}

/// The hexadecimal digits, either case.
proof fn lemma_hex_bytes(b: u8)
    ensures
        is_hex_byte(b) <==> "0123456789abcdefABCDEF"@.contains(b as char),
{
    reveal_strlit("0123456789abcdefABCDEF");
    let h = "0123456789abcdefABCDEF"@;
    if is_hex_byte(b) {
        let k: int = if b <= 57 {
            b - 48
        } else if b >= 97 {
            b - 87
        } else {
            b - 49
        };
        assert(h[k] == b as char);
    } else {
        assert forall|k: int| 0 <= k < h.len() implies h[k] != b as char by {}
    }
}

/// A text is a UUID exactly when it is 36 bytes long, with `-` at
/// positions 8, 13, 18 and 23 and a hexadecimal digit of either case (one of
/// `0123456789abcdefABCDEF`) everywhere else.
pub proof fn law_uuid_shape(bytes: Seq<u8>)
    ensures
        is_uuid_text(bytes) <==> (bytes.len() == 36 && forall|i: int|
            0 <= i < 36 ==> if i == 8 || i == 13 || i == 18 || i == 23 {
                #[trigger] bytes[i] == '-' as u8
            } else {
                "0123456789abcdefABCDEF"@.contains(bytes[i] as char)
            }),
{
    assert forall|i: int| 0 <= i < bytes.len() implies (is_hex_byte(#[trigger] bytes[i])
        <==> "0123456789abcdefABCDEF"@.contains(bytes[i] as char)) by {
        lemma_hex_bytes(bytes[i]);
    }
}

} // verus!
