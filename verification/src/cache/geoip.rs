//! GeoIP lookups: the location record, which addresses are private, and the
//! cache that queues each public address for a single remote query.

use std::collections::VecDeque;
use std::sync::Arc;

use dashmap::DashMap;
use vstd::prelude::*;

use crate::decimal::{
    all_digits, decimal_text, digits_value, is_digit, lemma_decimal_text, lemma_digits_value_push,
};
use crate::shared::share;
use crate::text::{chars_of, concat, equals, has_prefix, join_path, owned, path_join, replace_char, replaced, starts_with};

verus! {

/// Where an address is, as the GeoIP service reports it. Latitude and
/// longitude are carried as the bit patterns of their `f64` values.
pub struct GeoInfo {
    pub country: String,
    pub country_code: String,
    pub city: String,
    pub lat_bits: u64,
    pub lon_bits: u64,
    pub timezone: String,
}

/// The record given to private and local addresses.
pub open spec fn local_geo(g: GeoInfo) -> bool {
    &&& g.country@ == "Local"@
    &&& g.country_code@ == "LOCAL"@
    &&& g.city@ == "Local Network"@
    &&& g.lat_bits == 0
    &&& g.lon_bits == 0
    &&& g.timezone@ == "UTC"@
}

/// The placeholder given while an address is not resolved.
pub open spec fn unknown_geo(g: GeoInfo) -> bool {
    &&& g.country@ == "Unknown"@
    &&& g.country_code@ == "XX"@
    &&& g.city@ == "Unknown"@
    &&& g.lat_bits == 0
    &&& g.lon_bits == 0
    &&& g.timezone@ == "UTC"@
}

impl GeoInfo {
    /// The record for private and local addresses.
    pub fn local() -> (g: GeoInfo)
        ensures
            local_geo(g),
    {
        GeoInfo {
            country: owned("Local"),
            country_code: owned("LOCAL"),
            city: owned("Local Network"),
            lat_bits: 0,
            lon_bits: 0,
            timezone: owned("UTC"),
        }
    }

    /// The placeholder for an address that is not resolved (yet).
    pub fn unknown() -> (g: GeoInfo)
        ensures
            unknown_geo(g),
    {
        GeoInfo {
            country: owned("Unknown"),
            country_code: owned("XX"),
            city: owned("Unknown"),
            lat_bits: 0,
            lon_bits: 0,
            timezone: owned("UTC"),
        }
    }
}

/// The addresses that are never sent to the GeoIP service.
pub open spec fn is_private_ip(ip: Seq<char>) -> bool {
    ||| ip == "unknown"@
    ||| has_prefix(ip, "127."@)
    ||| ip == "::1"@
    ||| has_prefix(ip, "192.168."@)
    ||| has_prefix(ip, "10."@)
    ||| has_prefix(ip, "172."@)
    ||| has_prefix(ip, "fc"@)
    ||| has_prefix(ip, "fd"@)
}

/// Whether `ip` is a private or local address.
pub fn is_private(ip: &str) -> (r: bool)
    ensures
        r == is_private_ip(ip@),
{
    let c = chars_of(ip);
    equals(&c, "unknown") || starts_with(&c, "127.") || equals(&c, "::1") || starts_with(
        &c,
        "192.168.",
    ) || starts_with(&c, "10.") || starts_with(&c, "172.") || starts_with(&c, "fc")
        || starts_with(&c, "fd")
}

/// The file, under `dir`, that caches the location of `ip`: the address with
/// `:` written as `_`, and `.json` appended.
pub fn ip_cache_path(dir: &str, ip: &str) -> (p: String)
    ensures
        p@ == path_join(dir@, replace_char(ip@, ':', '_') + ".json"@),
{
    let name = replaced(ip, ':', '_');
    let file = concat(name.as_str(), ".json");
    join_path(dir, file.as_str())
}

/// The query URL for `ip` at the GeoIP service.
pub fn geoip_url(ip: &str) -> (u: String)
    ensures
        u@ == "http://ip-api.com/json/"@ + ip@
            + "?fields=status,country,countryCode,city,lat,lon,timezone"@,
{
    let head = concat("http://ip-api.com/json/", ip);
    concat(head.as_str(), "?fields=status,country,countryCode,city,lat,lon,timezone")
}

/// The fields of a reply of the GeoIP service (floats as their bit patterns).
pub struct GeoApiReply {
    pub status: Option<String>,
    pub country: Option<String>,
    pub country_code: Option<String>,
    pub city: Option<String>,
    pub lat_bits: Option<u64>,
    pub lon_bits: Option<u64>,
    pub timezone: Option<String>,
}

/// The text of an optional string, or `default` when it is absent.
pub open spec fn text_or(s: Option<String>, default: Seq<char>) -> Seq<char> {
    match s {
        Some(t) => t@,
        None => default,
    }
}

fn string_or(s: Option<String>, default: &str) -> (r: String)
    ensures
        r@ == text_or(s, default@),
{
    match s {
        Some(t) => t,
        None => owned(default),
    }
}

fn bits_or_zero(b: Option<u64>) -> (r: u64)
    ensures
        r == (match b {
            Some(v) => v,
            None => 0,
        }),
{
    match b {
        Some(v) => v,
        None => 0,
    }
}

/// The location that a reply of the GeoIP service gives: an error unless
/// its status is `success`; otherwise the reported fields, with `XX` for a
/// missing country code, `UTC` for a missing time zone, `0.0` for a missing
/// coordinate and the empty text for the rest.
pub fn geo_from_reply(reply: GeoApiReply) -> (r: Result<GeoInfo, String>)
    ensures
        match reply.status {
            Some(s) => s@ == "success"@,
            None => false,
        } <==> r is Ok,
        r matches Err(e) ==> e@ == "api status not success"@,
        r matches Ok(g) ==> {
            &&& g.country@ == text_or(reply.country, Seq::empty())
            &&& g.country_code@ == text_or(reply.country_code, "XX"@)
            &&& g.city@ == text_or(reply.city, Seq::empty())
            &&& g.lat_bits == (match reply.lat_bits {
                Some(v) => v,
                None => 0,
            })
            &&& g.lon_bits == (match reply.lon_bits {
                Some(v) => v,
                None => 0,
            })
            &&& g.timezone@ == text_or(reply.timezone, "UTC"@)
        },
{
    let ok = match &reply.status {
        Some(s) => equals(&chars_of(s.as_str()), "success"),
        None => false,
    };
    if !ok {
        return Err(owned("api status not success"));
    }
    proof {
        reveal_strlit("");
    }
    Ok(
        GeoInfo {
            country: string_or(reply.country, ""),
            country_code: string_or(reply.country_code, "XX"),
            city: string_or(reply.city, ""),
            lat_bits: bits_or_zero(reply.lat_bits),
            lon_bits: bits_or_zero(reply.lon_bits),
            timezone: string_or(reply.timezone, "UTC"),
        },
    )
}

/// Where an address stands in the lookup pipeline.
#[derive(Clone, Copy, PartialEq, Eq, Structural)]
pub enum IpState {
    Queued,
    InFlight,
    Done,
}

/// What the map of resolved locations holds: address text to location.
pub uninterp spec fn resolved_entries(m: DashMap<String, Arc<GeoInfo>>) -> Map<Seq<char>, GeoInfo>;

/// The map of lookup states, keyed by address text.
pub type StateMap = DashMap<String, IpState>;

/// What the map of lookup states holds: address text to state.
pub uninterp spec fn state_entries(m: DashMap<String, IpState>) -> Map<Seq<char>, IpState>;

/// `DashMap::with_capacity`: a map with no entries.
#[verifier::external_body]
fn resolved_map_new(capacity: usize) -> (m: DashMap<String, Arc<GeoInfo>>)
    ensures
        resolved_entries(m).dom() == Set::<Seq<char>>::empty(),
{
    DashMap::with_capacity(capacity)
}

/// `DashMap::get`, the entry handed out as a new `Arc` to the same location.
#[verifier::external_body]
fn resolved_map_get(m: &DashMap<String, Arc<GeoInfo>>, ip: &str) -> (r: Option<Arc<GeoInfo>>)
    ensures
        r.is_some() == resolved_entries(*m).contains_key(ip@),
        r matches Some(g) ==> *g == resolved_entries(*m)[ip@],
{
    m.get(ip).map(|e| Arc::clone(e.value()))
}

/// `DashMap::insert`: the entry for `ip` becomes `g`, the others stay. The
/// map is passed by unique borrow so that the contract can relate the map
/// before and after the call.
#[verifier::external_body]
fn resolved_map_insert(m: &mut DashMap<String, Arc<GeoInfo>>, ip: String, g: Arc<GeoInfo>)
    ensures
        resolved_entries(*final(m)) == resolved_entries(*old(m)).insert(ip@, *g),
{
    m.insert(ip, g);
}

/// `DashMap::with_capacity`: a map with no entries.
#[verifier::external_body]
fn state_map_new(capacity: usize) -> (states: StateMap)
    ensures
        state_entries(states).dom() == Set::<Seq<char>>::empty(),
{
    DashMap::with_capacity(capacity)
}

/// `DashMap::get`, the state copied out of the entry.
#[verifier::external_body]
fn state_map_get(m: &DashMap<String, IpState>, ip: &str) -> (r: Option<IpState>)
    ensures
        r.is_some() == state_entries(*m).contains_key(ip@),
        r matches Some(s) ==> s == state_entries(*m)[ip@],
{
    m.get(ip).map(|e| *e.value())
}

/// `DashMap::contains_key`.
#[verifier::external_body]
fn state_map_contains(m: &DashMap<String, IpState>, ip: &str) -> (r: bool)
    ensures
        r == state_entries(*m).contains_key(ip@),
{
    m.contains_key(ip)
}

/// `DashMap::insert`: the entry for `ip` becomes `s`, the others stay (unique
/// borrow, as for the map of locations).
#[verifier::external_body]
fn state_map_insert(m: &mut DashMap<String, IpState>, ip: String, s: IpState)
    ensures
        state_entries(*final(m)) == state_entries(*old(m)).insert(ip@, s),
{
    m.insert(ip, s);
}

/// `DashMap::remove`: the entry for `ip` goes, the others stay (unique borrow).
#[verifier::external_body]
fn state_map_remove(m: &mut DashMap<String, IpState>, ip: &str)
    ensures
        state_entries(*final(m)) == state_entries(*old(m)).remove(ip@),
{
    m.remove(ip);
}

/// The texts of a sequence of strings.
pub open spec fn texts(v: Seq<String>) -> Seq<Seq<char>> {
    v.map_values(|s: String| s@)
}

/// The state of the GeoIP cache: resolved locations, the lookup state of
/// each address seen, and the addresses waiting for a query, oldest first.
pub struct GeoCacheView {
    pub resolved: Map<Seq<char>, GeoInfo>,
    pub states: Map<Seq<char>, IpState>,
    pub queue: Seq<Seq<char>>,
}

/// The cache is consistent: every address marked as queued waits in the queue.
pub open spec fn queue_covers(v: GeoCacheView) -> bool {
    forall|ip: Seq<char>|
        #[trigger] v.states.contains_key(ip) && v.states[ip] == IpState::Queued ==> v.queue.contains(
            ip,
        )
}

/// What a lookup gives: the location to report and whether the address was
/// newly queued for a query (the worker must then be woken).
pub struct GeoLookup {
    pub geo: Arc<GeoInfo>,
    pub enqueued: bool,
}

/// How a lookup of `ip` goes, given the cached state `v` and what the disk
/// cache holds for `ip` (consulted only when nothing is known of `ip` in
/// memory): the location reported (`None` for the placeholder), whether
/// `ip` is queued, and the state afterwards.
pub open spec fn lookup_model(v: GeoCacheView, ip: Seq<char>, disk: Option<GeoInfo>) -> (
    Option<GeoInfo>,
    bool,
    GeoCacheView,
) {
    if is_private_ip(ip) {
        (None, false, v)
    } else if v.resolved.contains_key(ip) {
        (Some(v.resolved[ip]), false, v)
    } else if v.states.contains_key(ip) {
        (None, false, v)
    } else {
        match disk {
            Some(g) => (
                Some(g),
                false,
                GeoCacheView {
                    resolved: v.resolved.insert(ip, g),
                    states: v.states.insert(ip, IpState::Done),
                    queue: v.queue,
                },
            ),
            None => (
                None,
                true,
                GeoCacheView {
                    resolved: v.resolved,
                    states: v.states.insert(ip, IpState::Queued),
                    queue: v.queue.push(ip),
                },
            ),
        }
    }
}

/// Taking up to `max` addresses off the queue, appending to `batch`: each
/// address taken that is still marked queued goes into the batch and is
/// marked in flight; the others are dropped. Gives the batch, the rest of
/// the queue and the states afterwards.
pub open spec fn drain_model(
    queue: Seq<Seq<char>>,
    states: Map<Seq<char>, IpState>,
    max: nat,
    batch: Seq<Seq<char>>,
) -> (Seq<Seq<char>>, Seq<Seq<char>>, Map<Seq<char>, IpState>)
    decreases queue.len(),
{
    if batch.len() >= max || queue.len() == 0 {
        (batch, queue, states)
    } else {
        let ip = queue[0];
        if states.contains_key(ip) && states[ip] == IpState::Queued {
            drain_model(queue.drop_first(), states.insert(ip, IpState::InFlight), max, batch.push(ip))
        } else {
            drain_model(queue.drop_first(), states, max, batch)
        }
    }
}

/// The cache after a successful query of `ip` gave `g`.
pub open spec fn complete_model(v: GeoCacheView, ip: Seq<char>, g: GeoInfo) -> GeoCacheView {
    GeoCacheView {
        resolved: v.resolved.insert(ip, g),
        states: v.states.insert(ip, IpState::Done),
        queue: v.queue,
    }
}

/// The cache after a failed query of `ip`: nothing is known of it any more.
pub open spec fn fail_model(v: GeoCacheView, ip: Seq<char>) -> GeoCacheView {
    GeoCacheView { resolved: v.resolved, states: v.states.remove(ip), queue: v.queue }
}

/// The GeoIP cache: resolved locations, lookup states and the query queue.
pub struct GeoIpCache {
    inner: DashMap<String, Arc<GeoInfo>>,
    state: DashMap<String, IpState>,
    queue: VecDeque<String>,
}

impl View for GeoIpCache {
    type V = GeoCacheView;

    closed spec fn view(&self) -> GeoCacheView {
        GeoCacheView {
            resolved: resolved_entries(self.inner),
            states: state_entries(self.state),
            queue: texts(self.queue@),
        }
    }
}

impl GeoIpCache {
    /// An empty cache.
    pub fn new() -> (c: GeoIpCache)
        ensures
            c@.resolved == Map::<Seq<char>, GeoInfo>::empty(),
            c@.states == Map::<Seq<char>, IpState>::empty(),
            c@.queue == Seq::<Seq<char>>::empty(),
            queue_covers(c@),
            queue_exact(c@),
    {
        let c = GeoIpCache {
            inner: resolved_map_new(256),
            state: state_map_new(256),
            queue: VecDeque::new(),
        };
        assert(c@.queue =~= Seq::<Seq<char>>::empty());
        c
    }

    /// Whether a lookup of `ip` would consult the disk cache: `ip` is public
    /// and nothing is known of it in memory.
    pub fn needs_disk(&self, ip: &str) -> (r: bool)
        ensures
            r == (!is_private_ip(ip@) && !self@.resolved.contains_key(ip@)
                && !self@.states.contains_key(ip@)),
    {
        if is_private(ip) {
            return false;
        }
        if resolved_map_get(&self.inner, ip).is_some() {
            return false;
        }
        !state_map_contains(&self.state, ip)
    }

    /// Looks `ip` up: private addresses are local; a resolved address gives
    /// its location; an address being looked up gives the placeholder; an
    /// unseen address is taken from `disk` (what the disk cache holds for
    /// it) when that is `Some`, and is otherwise queued for a query and gives
    /// the placeholder.
    pub fn get(&mut self, ip: &str, disk: Option<GeoInfo>) -> (r: GeoLookup)
        requires
            queue_covers(old(self)@),
        ensures
            queue_covers(final(self)@),
            queue_exact(old(self)@) ==> queue_exact(final(self)@),
            ({
                let (geo, enqueued, next) = lookup_model(old(self)@, ip@, disk);
                &&& final(self)@ == next
                &&& r.enqueued == enqueued
                &&& match geo {
                    Some(g) => *r.geo == g,
                    None => if is_private_ip(ip@) {
                        local_geo(*r.geo)
                    } else {
                        unknown_geo(*r.geo)
                    },
                }
            }),
    {
        proof {
            if queue_exact(old(self)@) {
                law_lookup_keeps_queue_exact(old(self)@, ip@, disk);
            }
        }
        if is_private(ip) {
            return GeoLookup { geo: Arc::new(GeoInfo::local()), enqueued: false };
        }
        match resolved_map_get(&self.inner, ip) {
            Some(g) => {
                return GeoLookup { geo: g, enqueued: false };
            },
            None => {},
        }
        if state_map_contains(&self.state, ip) {
            return GeoLookup { geo: Arc::new(GeoInfo::unknown()), enqueued: false };
        }
        match disk {
            Some(g) => {
                let arc = Arc::new(g);
                resolved_map_insert(&mut self.inner, owned(ip), share(&arc));
                state_map_insert(&mut self.state, owned(ip), IpState::Done);
                GeoLookup { geo: arc, enqueued: false }
            },
            None => {
                let ghost before = self@;
                self.queue.push_back(owned(ip));
                assert(self@.queue =~= before.queue.push(ip@));
                state_map_insert(&mut self.state, owned(ip), IpState::Queued);
                assert forall|a: Seq<char>|
                    #[trigger] self@.states.contains_key(a) && self@.states[a] == IpState::Queued
                    implies self@.queue.contains(a) by {
                    if a == ip@ {
                        assert(self@.queue[self@.queue.len() - 1] == a);
                    } else {
                        assert(before.states.contains_key(a));
                        let k = choose|k: int| 0 <= k < before.queue.len() && before.queue[k] == a;
                        assert(self@.queue[k] == a);
                    }
                }
                GeoLookup { geo: Arc::new(GeoInfo::unknown()), enqueued: true }
            },
        }
    }

    /// Takes up to `max` addresses off the front of the queue, skipping
    /// those no longer marked queued, and marks the ones taken as in flight.
    pub fn dequeue_batch(&mut self, max: usize) -> (batch: Vec<String>)
        requires
            queue_covers(old(self)@),
        ensures
            queue_covers(final(self)@),
            queue_exact(old(self)@) ==> queue_exact(final(self)@),
            final(self)@.resolved == old(self)@.resolved,
            ({
                let (b, rest, states) = drain_model(
                    old(self)@.queue,
                    old(self)@.states,
                    max as nat,
                    Seq::empty(),
                );
                &&& texts(batch@) == b
                &&& final(self)@.queue == rest
                &&& final(self)@.states == states
            }),
    {
        proof {
            if queue_exact(old(self)@) {
                law_dequeue_keeps_queue_exact(old(self)@, max as nat);
            }
        }
        let ghost start = old(self)@;
        let mut batch: Vec<String> = Vec::new();
        assert(texts(batch@) =~= Seq::<Seq<char>>::empty());
        while batch.len() < max
            invariant
                queue_covers(self@),
                self@.resolved == start.resolved,
                drain_model(self@.queue, self@.states, max as nat, texts(batch@)) == drain_model(
                    start.queue,
                    start.states,
                    max as nat,
                    Seq::empty(),
                ),
            ensures
                drain_model(self@.queue, self@.states, max as nat, texts(batch@)) == (
                    texts(batch@),
                    self@.queue,
                    self@.states,
                ),
                queue_covers(self@),
                self@.resolved == start.resolved,
                drain_model(self@.queue, self@.states, max as nat, texts(batch@)) == drain_model(
                    start.queue,
                    start.states,
                    max as nat,
                    Seq::empty(),
                ),
            decreases self@.queue.len(),
        {
            let ghost before = self@;
            let ghost bv = texts(batch@);
            match self.queue.pop_front() {
                Some(ip) => {
                    assert(self@.queue =~= before.queue.drop_first());
                    assert(ip@ == before.queue[0]);
                    match state_map_get(&self.state, ip.as_str()) {
                        Some(IpState::Queued) => {
                            state_map_insert(&mut self.state, owned(ip.as_str()), IpState::InFlight);
                            batch.push(ip);
                            assert(texts(batch@) =~= bv.push(before.queue[0]));
                        },
                        _ => {},
                    }
                    assert forall|a: Seq<char>|
                        #[trigger] self@.states.contains_key(a) && self@.states[a]
                            == IpState::Queued implies self@.queue.contains(a) by {
                        assert(before.states.contains_key(a) && before.states[a] == IpState::Queued);
                        let k = choose|k: int| 0 <= k < before.queue.len() && before.queue[k] == a;
                        if k == 0 {
                            assert(a == ip@);
                            assert(false);
                        }
                        assert(self@.queue[k - 1] == a);
                    }
                },
                None => {
                    assert(self@.queue.len() == 0);
                    break;
                },
            }
        }
        batch
    }

    /// Records that the query of `ip` gave `geo`.
    pub fn complete(&mut self, ip: String, geo: Arc<GeoInfo>)
        requires
            queue_covers(old(self)@),
        ensures
            queue_covers(final(self)@),
            final(self)@ == complete_model(old(self)@, ip@, *geo),
            queue_exact(old(self)@) && in_flight(old(self)@, ip@) ==> queue_exact(final(self)@),
    {
        proof {
            if queue_exact(old(self)@) && in_flight(old(self)@, ip@) {
                law_completing_keeps_queue_exact(old(self)@, ip@);
            }
        }
        let key = owned(ip.as_str());
        resolved_map_insert(&mut self.inner, key, geo);
        state_map_insert(&mut self.state, ip, IpState::Done);
    }

    /// Records that the query of `ip` failed: `ip` is forgotten, so that a
    /// later lookup queues it again.
    pub fn fail(&mut self, ip: &str)
        requires
            queue_covers(old(self)@),
        ensures
            queue_covers(final(self)@),
            final(self)@ == fail_model(old(self)@, ip@),
            queue_exact(old(self)@) && in_flight(old(self)@, ip@) ==> queue_exact(final(self)@),
    {
        proof {
            if queue_exact(old(self)@) && in_flight(old(self)@, ip@) {
                law_failing_keeps_queue_exact(old(self)@, ip@);
            }
        }
        state_map_remove(&mut self.state, ip);
    }

    /// Whether any address waits in the queue.
    pub fn has_pending(&self) -> (r: bool)
        ensures
            r == (self@.queue.len() > 0),
    {
        self.queue.len() > 0
    }
}

/// A private address is always reported as local, and a lookup of it
/// changes nothing and queues nothing.
pub proof fn law_private_addresses_are_local(v: GeoCacheView, ip: Seq<char>, disk: Option<GeoInfo>)
    requires
        is_private_ip(ip),
    ensures
        lookup_model(v, ip, disk) == (None::<GeoInfo>, false, v),
{
}

/// Once the query of a public address has succeeded, every later lookup of
/// it gives the location that the query returned, without queueing it.
pub proof fn law_completed_address_is_served(
    v: GeoCacheView,
    ip: Seq<char>,
    g: GeoInfo,
    disk: Option<GeoInfo>,
)
    requires
        !is_private_ip(ip),
    ensures
        lookup_model(complete_model(v, ip, g), ip, disk).0 == Some(g),
        !lookup_model(complete_model(v, ip, g), ip, disk).1,
        lookup_model(complete_model(v, ip, g), ip, disk).2 == complete_model(v, ip, g),
{
}

/// An address is queued at most once: the first lookup of an unseen public
/// address that is not cached on disk queues it; a second lookup then
/// reports the placeholder, queues nothing and changes nothing.
pub proof fn law_address_queued_once(v: GeoCacheView, ip: Seq<char>, disk: Option<GeoInfo>)
    requires
        !is_private_ip(ip),
        !v.resolved.contains_key(ip),
        !v.states.contains_key(ip),
    ensures
        lookup_model(v, ip, None).1,
        lookup_model(lookup_model(v, ip, None).2, ip, disk) == (
            None::<GeoInfo>,
            false,
            lookup_model(v, ip, None).2,
        ),
{
}

/// After a failed query the address is looked up afresh: the next lookup
/// that finds nothing on disk queues it again.
pub proof fn law_failed_address_is_retried(v: GeoCacheView, ip: Seq<char>)
    requires
        !is_private_ip(ip),
        !v.resolved.contains_key(ip),
    ensures
        lookup_model(fail_model(v, ip), ip, None).1,
{
}

proof fn lemma_drain(
    q: Seq<Seq<char>>,
    st: Map<Seq<char>, IpState>,
    max: nat,
    b: Seq<Seq<char>>,
)
    ensures
        ({
            let r = drain_model(q, st, max, b);
            &&& r.0.len() >= b.len()
            &&& r.0.take(b.len() as int) == b
            &&& b.len() <= max ==> r.0.len() <= max
            &&& forall|i: int|
                b.len() <= i < r.0.len() ==> st.contains_key(#[trigger] r.0[i]) && st[r.0[i]]
                    == IpState::Queued && r.2.contains_key(r.0[i]) && r.2[r.0[i]]
                    == IpState::InFlight
            &&& forall|i: int, j: int|
                b.len() <= i < j < r.0.len() ==> #[trigger] r.0[i] != #[trigger] r.0[j]
            &&& r.2.dom() == st.dom()
            &&& forall|y: Seq<char>|
                #[trigger] st.contains_key(y) && !r.0.skip(b.len() as int).contains(y) ==> r.2[y]
                    == st[y]
            &&& exists|k: int| 0 <= k <= q.len() && r.1 == q.skip(k)
        }),
    decreases q.len(),
{
    let r = drain_model(q, st, max, b);
    if b.len() >= max || q.len() == 0 {
        assert(r.0.take(b.len() as int) =~= b);
        assert(r.0.skip(b.len() as int) =~= Seq::<Seq<char>>::empty());
        assert(r.1 == q.skip(0));
    } else {
        let ip = q[0];
        if st.contains_key(ip) && st[ip] == IpState::Queued {
            let st2 = st.insert(ip, IpState::InFlight);
            let b2 = b.push(ip);
            lemma_drain(q.drop_first(), st2, max, b2);
            assert(r == drain_model(q.drop_first(), st2, max, b2));
            assert(r.0.take(b2.len() as int) == b2);
            assert(r.0.take(b.len() as int) =~= b2.take(b.len() as int));
            assert(b2.take(b.len() as int) =~= b);
            assert(r.0[b.len() as int] == ip) by {
                assert(r.0.take(b2.len() as int)[b.len() as int] == b2[b.len() as int]);
            }
            assert forall|i: int|
                b.len() <= i < r.0.len() implies st.contains_key(#[trigger] r.0[i]) && st[r.0[i]]
                == IpState::Queued && r.2.contains_key(r.0[i]) && r.2[r.0[i]]
                == IpState::InFlight by {
                if i > b.len() {
                    assert(st2.contains_key(r.0[i]) && st2[r.0[i]] == IpState::Queued);
                    assert(r.0[i] != ip);
                } else {
                    if r.0.skip(b2.len() as int).contains(ip) {
                        let k = choose|k: int|
                            0 <= k < r.0.skip(b2.len() as int).len() && r.0.skip(
                                b2.len() as int,
                            )[k] == ip;
                        assert(r.0[b2.len() + k] == ip);
                        assert(st2[r.0[b2.len() + k]] == IpState::Queued);
                    }
                    assert(st2.contains_key(ip));
                }
            }
            assert forall|i: int, j: int|
                b.len() <= i < j < r.0.len() implies #[trigger] r.0[i] != #[trigger] r.0[j] by {
                if i == b.len() {
                    assert(st2[r.0[j]] == IpState::Queued);
                }
            }
            assert(r.2.dom() =~= st.dom());
            assert forall|y: Seq<char>|
                #[trigger] st.contains_key(y) && !r.0.skip(b.len() as int).contains(
                    y,
                ) implies r.2[y] == st[y] by {
                assert(r.0.skip(b.len() as int)[0] == ip);
                if y != ip {
                    if r.0.skip(b2.len() as int).contains(y) {
                        let k = choose|k: int|
                            0 <= k < r.0.skip(b2.len() as int).len() && r.0.skip(
                                b2.len() as int,
                            )[k] == y;
                        assert(r.0.skip(b.len() as int)[k + 1] == y);
                    }
                }
            }
            let k = choose|k: int| 0 <= k <= q.drop_first().len() && r.1 == q.drop_first().skip(k);
            assert(q.drop_first().skip(k) =~= q.skip(k + 1));
        } else {
            lemma_drain(q.drop_first(), st, max, b);
            assert(r == drain_model(q.drop_first(), st, max, b));
            let k = choose|k: int| 0 <= k <= q.drop_first().len() && r.1 == q.drop_first().skip(k);
            assert(q.drop_first().skip(k) =~= q.skip(k + 1));
        }
    }
}

/// A batch holds at most `max` addresses, no address twice, and only
/// addresses that were marked queued; they are marked in flight afterwards,
/// every other address keeps its state, and the queue loses a prefix.
pub proof fn law_dequeue_batch(v: GeoCacheView, max: nat)
    ensures
        ({
            let (b, rest, st) = drain_model(v.queue, v.states, max, Seq::empty());
            &&& b.len() <= max
            &&& forall|i: int, j: int| 0 <= i < j < b.len() ==> #[trigger] b[i] != #[trigger] b[j]
            &&& forall|i: int|
                0 <= i < b.len() ==> v.states.contains_key(#[trigger] b[i]) && v.states[b[i]]
                    == IpState::Queued && st[b[i]] == IpState::InFlight
            &&& st.dom() == v.states.dom()
            &&& forall|y: Seq<char>|
                #[trigger] v.states.contains_key(y) && !b.contains(y) ==> st[y] == v.states[y]
            &&& exists|k: int| 0 <= k <= v.queue.len() && rest == v.queue.skip(k)
        }),
{
    let e = Seq::<Seq<char>>::empty();
    lemma_drain(v.queue, v.states, max, e);
    let r = drain_model(v.queue, v.states, max, e);
    assert(r.0.skip(0) =~= r.0);
}

/// The queue holds no address twice, and every address in it is marked queued.
pub open spec fn queue_exact(v: GeoCacheView) -> bool {
    queue_holds_queued(v.queue, v.states)
}

/// `q` holds no address twice, and `st` marks every address of `q` queued.
pub open spec fn queue_holds_queued(q: Seq<Seq<char>>, st: Map<Seq<char>, IpState>) -> bool {
    &&& forall|i: int, j: int| 0 <= i < j < q.len() ==> #[trigger] q[i] != #[trigger] q[j]
    &&& forall|i: int|
        0 <= i < q.len() ==> st.contains_key(#[trigger] q[i]) && st[q[i]] == IpState::Queued
}

proof fn lemma_drain_exact(
    q: Seq<Seq<char>>,
    st: Map<Seq<char>, IpState>,
    max: nat,
    b: Seq<Seq<char>>,
)
    requires
        queue_holds_queued(q, st),
    ensures
        queue_holds_queued(drain_model(q, st, max, b).1, drain_model(q, st, max, b).2),
    decreases q.len(),
{
    if b.len() >= max || q.len() == 0 {
    } else {
        let ip = q[0];
        let rest = q.drop_first();
        assert(st.contains_key(q[0]) && st[q[0]] == IpState::Queued);
        let st2 = st.insert(ip, IpState::InFlight);
        assert(queue_holds_queued(rest, st2)) by {
            assert forall|i: int, j: int| 0 <= i < j < rest.len() implies #[trigger] rest[i]
                != #[trigger] rest[j] by {
                assert(rest[i] == q[i + 1] && rest[j] == q[j + 1]);
            }
            assert forall|i: int| 0 <= i < rest.len() implies st2.contains_key(#[trigger] rest[i])
                && st2[rest[i]] == IpState::Queued by {
                assert(rest[i] == q[i + 1]);
                assert(q[0] != q[i + 1]);
            }
        }
        lemma_drain_exact(rest, st2, max, b.push(ip));
    }
}

/// An empty cache holds no address in its queue twice.
pub proof fn law_empty_queue_exact(v: GeoCacheView)
    requires
        v.queue.len() == 0,
    ensures
        queue_exact(v),
{
}

/// A lookup keeps the queue free of repeated addresses, holding only
/// addresses marked queued.
pub proof fn law_lookup_keeps_queue_exact(v: GeoCacheView, ip: Seq<char>, disk: Option<GeoInfo>)
    requires
        queue_exact(v),
    ensures
        queue_exact(lookup_model(v, ip, disk).2),
{
    let next = lookup_model(v, ip, disk).2;
    if !is_private_ip(ip) && !v.resolved.contains_key(ip) && !v.states.contains_key(ip) {
        assert(!v.queue.contains(ip)) by {
            if v.queue.contains(ip) {
                let k = choose|k: int| 0 <= k < v.queue.len() && v.queue[k] == ip;
                assert(v.states.contains_key(v.queue[k]));
            }
        }
        assert forall|i: int| 0 <= i < next.queue.len() implies next.states.contains_key(
            #[trigger] next.queue[i],
        ) && next.states[next.queue[i]] == IpState::Queued by {
            if i < v.queue.len() {
                assert(v.queue[i] != ip);
            }
        }
        if disk is None {
            assert forall|i: int, j: int| 0 <= i < j < next.queue.len() implies #[trigger] next.queue[i]
                != #[trigger] next.queue[j] by {
                if j == v.queue.len() {
                    assert(next.queue[i] == v.queue[i]);
                }
            }
        }
    }
}

/// Taking a batch keeps the queue free of repeated addresses, holding only
/// addresses marked queued.
pub proof fn law_dequeue_keeps_queue_exact(v: GeoCacheView, max: nat)
    requires
        queue_exact(v),
    ensures
        ({
            let (b, rest, st) = drain_model(v.queue, v.states, max, Seq::empty());
            queue_exact(GeoCacheView { resolved: v.resolved, states: st, queue: rest })
        }),
{
    lemma_drain_exact(v.queue, v.states, max, Seq::empty());
}

/// `ip` was taken in a batch and its query has not settled yet.
pub open spec fn in_flight(v: GeoCacheView, ip: Seq<char>) -> bool {
    v.states.contains_key(ip) && v.states[ip] == IpState::InFlight
}

/// An address in flight is not in the queue.
proof fn lemma_in_flight_not_queued(v: GeoCacheView, ip: Seq<char>)
    requires
        queue_exact(v),
        in_flight(v, ip),
    ensures
        forall|i: int| 0 <= i < v.queue.len() ==> v.queue[i] != ip,
{
    assert forall|i: int| 0 <= i < v.queue.len() implies v.queue[i] != ip by {
        assert(v.states[v.queue[i]] == IpState::Queued);
    }
}

/// Completing the query of an address in flight (one taken in a batch)
/// keeps the queue free of repeated addresses, holding only addresses
/// marked queued.
pub proof fn law_completing_keeps_queue_exact(v: GeoCacheView, ip: Seq<char>)
    requires
        queue_exact(v),
        in_flight(v, ip),
    ensures
        forall|g: GeoInfo| #[trigger] queue_exact(complete_model(v, ip, g)),
{
    lemma_in_flight_not_queued(v, ip);
}

/// Failing the query of an address in flight keeps the queue free of
/// repeated addresses, holding only addresses marked queued.
pub proof fn law_failing_keeps_queue_exact(v: GeoCacheView, ip: Seq<char>)
    requires
        queue_exact(v),
        in_flight(v, ip),
    ensures
        queue_exact(fail_model(v, ip)),
{
    lemma_in_flight_not_queued(v, ip);
}

/// A lookup of a public address that is being looked up (marked but not
/// resolved) gives the placeholder, queues nothing and changes nothing.
pub proof fn law_pending_lookup_changes_nothing(v: GeoCacheView, ip: Seq<char>, disk: Option<GeoInfo>)
    requires
        !is_private_ip(ip),
        !v.resolved.contains_key(ip),
        v.states.contains_key(ip),
    ensures
        lookup_model(v, ip, disk) == (None::<GeoInfo>, false, v),
{
}

/// One call on the GeoIP cache, as [`run_ops`] replays it on the cache's
/// state: `get`, `dequeue_batch`, `complete` or `fail`, with its arguments.
pub enum CacheOp {
    Lookup(Seq<char>, Option<GeoInfo>),
    Dequeue(nat),
    Complete(Seq<char>, GeoInfo),
    Fail(Seq<char>),
}

/// The cache state after `op`, as the contract of the matching method gives it.
pub open spec fn apply_op(v: GeoCacheView, op: CacheOp) -> GeoCacheView {
    match op {
        CacheOp::Lookup(ip, disk) => lookup_model(v, ip, disk).2,
        CacheOp::Dequeue(max) => {
            let (b, rest, st) = drain_model(v.queue, v.states, max, Seq::empty());
            GeoCacheView { resolved: v.resolved, states: st, queue: rest }
        },
        CacheOp::Complete(ip, g) => complete_model(v, ip, g),
        CacheOp::Fail(ip) => fail_model(v, ip),
    }
}

/// `op` settles only an address in flight, if it settles one at all.
pub open spec fn settles_in_flight(v: GeoCacheView, op: CacheOp) -> bool {
    match op {
        CacheOp::Complete(ip, g) => in_flight(v, ip),
        CacheOp::Fail(ip) => in_flight(v, ip),
        _ => true,
    }
}

/// The cache state after the calls `ops`, made one after the other from `v`.
pub open spec fn run_ops(v: GeoCacheView, ops: Seq<CacheOp>) -> GeoCacheView
    decreases ops.len(),
{
    if ops.len() == 0 {
        v
    } else {
        run_ops(apply_op(v, ops[0]), ops.drop_first())
    }
}

/// In the calls `ops` made from `v`, `complete` and `fail` are only called
/// on addresses in flight, that is on addresses that a `dequeue_batch` handed
/// out and that were not settled since.
pub open spec fn follows_protocol(v: GeoCacheView, ops: Seq<CacheOp>) -> bool
    decreases ops.len(),
{
    ops.len() == 0 || (settles_in_flight(v, ops[0]) && follows_protocol(
        apply_op(v, ops[0]),
        ops.drop_first(),
    ))
}

/// Starting from a cache whose queue holds no address twice and only
/// addresses marked queued (a new cache does), any sequence of lookups,
/// dequeues, completions and failures in which only addresses in flight are
/// completed or failed keeps it so: the queue never holds an address twice.
pub proof fn law_queue_never_repeats(v: GeoCacheView, ops: Seq<CacheOp>)
    requires
        queue_exact(v),
        follows_protocol(v, ops),
    ensures
        queue_exact(run_ops(v, ops)),
    decreases ops.len(),
{
    if ops.len() > 0 {
        match ops[0] {
            CacheOp::Lookup(ip, disk) => law_lookup_keeps_queue_exact(v, ip, disk),
            CacheOp::Dequeue(max) => law_dequeue_keeps_queue_exact(v, max),
            CacheOp::Complete(ip, g) => law_completing_keeps_queue_exact(v, ip),
            CacheOp::Fail(ip) => law_failing_keeps_queue_exact(v, ip),
        }
        law_queue_never_repeats(apply_op(v, ops[0]), ops.drop_first());
    }
}

/// When text starts with the decimal text of `n` and a `.`, and also with
/// the digits `p` and a `.`, the digits write `n`.
proof fn lemma_leading_number(n: nat, rest: Seq<char>, p: Seq<char>)
    requires
        p.len() > 0,
        all_digits(p),
        has_prefix(decimal_text(n).push('.') + rest, p.push('.')),
    ensures
        digits_value(p) == n,
{
    lemma_decimal_text(n);
    let d = decimal_text(n);
    let s = d.push('.') + rest;
    let m = p.len() as int;
    assert(s.take(m + 1)[m] == '.');
    assert(s[m] == '.');
    assert(forall|i: int| 0 <= i < m ==> s.take(m + 1)[i] == #[trigger] p[i]);
    if d.len() < m {
        assert(s[d.len() as int] == '.');
        assert(s.take(m + 1)[d.len() as int] == p[d.len() as int]);
        assert(is_digit(p[d.len() as int]));
    } else if d.len() > m {
        assert(s[m] == d[m]);
        assert(is_digit(d[m]));
    } else {
        assert forall|i: int| 0 <= i < m implies d[i] == p[i] by {
            assert(s[i] == d[i]);
            assert(s.take(m + 1)[i] == p[i]);
        }
        assert(d =~= p);
    }
}

/// An IPv4 address whose first number is not 10, 127, 172 or 192 is
/// public: it is never taken for a private or local address (so
/// `101.6.15.130` and `8.8.8.8` are looked up).
pub proof fn law_other_first_numbers_are_public(n: nat, rest: Seq<char>)
    requires
        n != 10,
        n != 127,
        n != 172,
        n != 192,
    ensures
        !is_private_ip(decimal_text(n).push('.') + rest),
{
    let s = decimal_text(n).push('.') + rest;
    lemma_decimal_text(n);
    assert(s[0] == decimal_text(n)[0]);
    reveal_strlit("unknown");
    reveal_strlit("::1");
    reveal_strlit("fc");
    reveal_strlit("fd");
    reveal_strlit("10.");
    reveal_strlit("127.");
    reveal_strlit("172.");
    reveal_strlit("192.168.");
    if s == "unknown"@ {
        assert(s[0] == 'u');
    }
    if s == "::1"@ {
        assert(s[0] == ':');
    }
    if has_prefix(s, "fc"@) {
        assert(s.take(2)[0] == s[0]);
    }
    if has_prefix(s, "fd"@) {
        assert(s.take(2)[0] == s[0]);
    }
    if has_prefix(s, "10."@) {
        let p = seq!['1', '0'];
        assert(p.push('.') =~= "10."@);
        assert(digits_value(p) == 10) by {
            lemma_digits_value_push(Seq::<char>::empty(), '1');
            lemma_digits_value_push(Seq::<char>::empty().push('1'), '0');
            assert(Seq::<char>::empty().push('1').push('0') =~= p);
        }
        lemma_leading_number(n, rest, p);
    }
    if has_prefix(s, "127."@) {
        let p = seq!['1', '2', '7'];
        assert(p.push('.') =~= "127."@);
        assert(digits_value(p) == 127) by {
            lemma_digits_value_push(Seq::<char>::empty(), '1');
            lemma_digits_value_push(Seq::<char>::empty().push('1'), '2');
            lemma_digits_value_push(Seq::<char>::empty().push('1').push('2'), '7');
            assert(Seq::<char>::empty().push('1').push('2').push('7') =~= p);
        }
        lemma_leading_number(n, rest, p);
    }
    if has_prefix(s, "172."@) {
        let p = seq!['1', '7', '2'];
        assert(p.push('.') =~= "172."@);
        assert(digits_value(p) == 172) by {
            lemma_digits_value_push(Seq::<char>::empty(), '1');
            lemma_digits_value_push(Seq::<char>::empty().push('1'), '7');
            lemma_digits_value_push(Seq::<char>::empty().push('1').push('7'), '2');
            assert(Seq::<char>::empty().push('1').push('7').push('2') =~= p);
        }
        lemma_leading_number(n, rest, p);
    }
    if has_prefix(s, "192.168."@) {
        let p = seq!['1', '9', '2'];
        assert(p.push('.') =~= "192."@) by {
            reveal_strlit("192.");
        }
        assert(has_prefix(s, p.push('.'))) by {
            assert(s.take(4) =~= s.take(8).take(4));
            assert("192.168."@.take(4) =~= p.push('.'));
        }
        assert(digits_value(p) == 192) by {
            lemma_digits_value_push(Seq::<char>::empty(), '1');
            lemma_digits_value_push(Seq::<char>::empty().push('1'), '9');
            lemma_digits_value_push(Seq::<char>::empty().push('1').push('9'), '2');
            assert(Seq::<char>::empty().push('1').push('9').push('2') =~= p);
        }
        lemma_leading_number(n, rest, p);
    }
}

/// The private and local ranges that the README lists are private, whatever
/// follows their prefix: `127.x`, `192.168.x`, `10.x`, `172.x`, `fc..`,
/// `fd..`, as well as `::1` and `unknown`.
pub proof fn law_listed_ranges_are_private(rest: Seq<char>)
    ensures
        is_private_ip("127."@ + rest),
        is_private_ip("192.168."@ + rest),
        is_private_ip("10."@ + rest),
        is_private_ip("172."@ + rest),
        is_private_ip("fc"@ + rest),
        is_private_ip("fd"@ + rest),
        is_private_ip("::1"@),
        is_private_ip("unknown"@),
{
    reveal_strlit("127.");
    reveal_strlit("192.168.");
    reveal_strlit("10.");
    reveal_strlit("172.");
    reveal_strlit("fc");
    reveal_strlit("fd");
    assert(("127."@ + rest).take(4) =~= "127."@);
    assert(("192.168."@ + rest).take(8) =~= "192.168."@);
    assert(("10."@ + rest).take(3) =~= "10."@);
    assert(("172."@ + rest).take(4) =~= "172."@);
    assert(("fc"@ + rest).take(2) =~= "fc"@);
    assert(("fd"@ + rest).take(2) =~= "fd"@);
}

} // verus!
