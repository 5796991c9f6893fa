//! Access statistics: the counts gathered since the last flush, and the
//! totals that a flush adds them to.

use vstd::prelude::*;

use crate::decimal::{decimal_text, u64_text};
use crate::text::{chars_of, concat, equals, owned};

verus! {

/// Users seen in one region: the region's country name and how many.
pub struct RegionStat {
    pub country: String,
    pub count: u64,
}

/// What a list of regions (region code, statistics) says: region code to
/// country name and count.
pub open spec fn region_view(v: Seq<(String, RegionStat)>) -> Map<Seq<char>, (Seq<char>, nat)>
    decreases v.len(),
{
    if v.len() == 0 {
        Map::empty()
    } else {
        region_view(v.drop_last()).insert(v.last().0@, entry_view(v.last()))
    }
}

/// A region entry as country name and count.
pub open spec fn entry_view(e: (String, RegionStat)) -> (Seq<char>, nat) {
    (e.1.country@, e.1.count as nat)
}

/// No region code occurs twice.
pub open spec fn codes_distinct(v: Seq<(String, RegionStat)>) -> bool {
    forall|i: int, j: int| 0 <= i < j < v.len() ==> #[trigger] v[i].0@ != #[trigger] v[j].0@
}

/// The entry at index `i` of `v` is what the view of `v` gives for its code.
pub open spec fn view_has_entry(v: Seq<(String, RegionStat)>, i: int) -> bool {
    region_view(v).contains_key(v[i].0@) && region_view(v)[v[i].0@] == entry_view(v[i])
}

proof fn lemma_region_view_index(v: Seq<(String, RegionStat)>)
    requires
        codes_distinct(v),
    ensures
        forall|i: int| 0 <= i < v.len() ==> #[trigger] view_has_entry(v, i),
        forall|k: Seq<char>|
            #[trigger] region_view(v).contains_key(k) ==> exists|i: int|
                0 <= i < v.len() && #[trigger] v[i].0@ == k,
    decreases v.len(),
{
    if v.len() > 0 {
        let w = v.drop_last();
        assert(codes_distinct(w)) by {
            assert forall|i: int, j: int| 0 <= i < j < w.len() implies #[trigger] w[i].0@
                != #[trigger] w[j].0@ by {
                assert(w[i] == v[i] && w[j] == v[j]);
            }
        }
        lemma_region_view_index(w);
        assert forall|i: int| 0 <= i < v.len() implies #[trigger] view_has_entry(v, i) by {
            if i < v.len() - 1 {
                assert(view_has_entry(w, i));
                assert(w[i] == v[i]);
                assert(v[i].0@ != v[v.len() - 1].0@);
            }
        }
        assert forall|k: Seq<char>| #[trigger] region_view(v).contains_key(k) implies exists|i: int|
            0 <= i < v.len() && #[trigger] v[i].0@ == k by {
            if k != v.last().0@ {
                assert(region_view(w).contains_key(k));
                let i = choose|i: int| 0 <= i < w.len() && #[trigger] w[i].0@ == k;
                assert(v[i] == w[i]);
            } else {
                assert(v[v.len() - 1].0@ == k);
            }
        }
    }
}

proof fn lemma_region_view_update(v: Seq<(String, RegionStat)>, i: int, e: (String, RegionStat))
    requires
        0 <= i < v.len(),
        e.0@ == v[i].0@,
        codes_distinct(v),
    ensures
        region_view(v.update(i, e)) == region_view(v).insert(e.0@, entry_view(e)),
    decreases v.len(),
{
    let u = v.update(i, e);
    let w = v.drop_last();
    if i == v.len() - 1 {
        assert(u.drop_last() =~= w);
        assert(region_view(u) =~= region_view(v).insert(e.0@, entry_view(e)));
    } else {
        assert(codes_distinct(w)) by {
            assert forall|a: int, b: int| 0 <= a < b < w.len() implies #[trigger] w[a].0@
                != #[trigger] w[b].0@ by {
                assert(w[a] == v[a] && w[b] == v[b]);
            }
        }
        lemma_region_view_update(w, i, e);
        assert(u.drop_last() =~= w.update(i, e));
        assert(v[i].0@ != v[v.len() - 1].0@);
        assert(u.last() == v.last());
        assert(region_view(u) =~= region_view(v).insert(e.0@, entry_view(e)));
    }
}

proof fn lemma_push_distinct(v: Seq<(String, RegionStat)>, e: (String, RegionStat))
    requires
        codes_distinct(v),
        forall|i: int| 0 <= i < v.len() ==> #[trigger] v[i].0@ != e.0@,
    ensures
        codes_distinct(v.push(e)),
        region_view(v.push(e)) == region_view(v).insert(e.0@, entry_view(e)),
{
    let u = v.push(e);
    assert(u.drop_last() =~= v);
    assert forall|i: int, j: int| 0 <= i < j < u.len() implies #[trigger] u[i].0@
        != #[trigger] u[j].0@ by {
        if j == v.len() {
            assert(u[i] == v[i]);
        } else {
            assert(u[i] == v[i] && u[j] == v[j]);
        }
    }
}

/// The index of the entry for `code`, if there is one.
fn find_region(v: &Vec<(String, RegionStat)>, code: &str) -> (r: Option<usize>)
    ensures
        r matches Some(i) ==> i < v@.len() && v@[i as int].0@ == code@,
        r is None ==> forall|i: int| 0 <= i < v@.len() ==> #[trigger] v@[i].0@ != code@,
{
    let mut i: usize = 0;
    while i < v.len()
        invariant
            i <= v@.len(),
            forall|k: int| 0 <= k < i ==> #[trigger] v@[k].0@ != code@,
        decreases v@.len() - i,
    {
        if equals(&chars_of(v[i].0.as_str()), code) {
            return Some(i);
        }
        i = i + 1;
    }
    None
}

/// The region codes that are not counted: unknown, local, and empty.
pub open spec fn is_counted_region(code: Seq<char>) -> bool {
    code != "XX"@ && code != "LOCAL"@ && code.len() > 0
}

/// Counts gathered since the last flush of the statistics.
pub struct PendingStats {
    pub access: u64,
    pub users: u64,
    pub with_uuid: u64,
    pub without_uuid: u64,
    pub regions: Vec<(String, RegionStat)>,
}

/// `x + y` with wrap-around, as the atomic counters add.
pub open spec fn wrapping(x: u64, y: u64) -> u64 {
    ((x + y) % 0x1_0000_0000_0000_0000) as u64
}

fn wrapping_add(x: u64, y: u64) -> (r: u64)
    ensures
        r == wrapping(x, y),
{
    x.wrapping_add(y)
}

impl PendingStats {
    /// No counts, no regions.
    pub fn new() -> (p: PendingStats)
        ensures
            p.access == 0,
            p.users == 0,
            p.with_uuid == 0,
            p.without_uuid == 0,
            p.regions@.len() == 0,
    {
        PendingStats { access: 0, users: 0, with_uuid: 0, without_uuid: 0, regions: Vec::new() }
    }

    /// The region list is well formed: no code twice, and only counted codes.
    pub open spec fn wf(&self) -> bool {
        &&& codes_distinct(self.regions@)
        &&& forall|i: int|
            0 <= i < self.regions@.len() ==> is_counted_region(#[trigger] self.regions@[i].0@)
    }

    /// One more new user in region `code` would not overflow its count.
    pub open spec fn region_has_room(&self, code: Seq<char>) -> bool {
        region_view(self.regions@).contains_key(code) ==> region_view(self.regions@)[code].1
            < u64::MAX
    }

    /// Whether one more new user in region `code` fits in its count.
    pub fn can_count_region(&self, code: &str) -> (r: bool)
        requires
            self.wf(),
        ensures
            r == self.region_has_room(code@),
    {
        proof {
            lemma_region_view_index(self.regions@);
        }
        match find_region(&self.regions, code) {
            Some(i) => {
                assert(view_has_entry(self.regions@, i as int));
                self.regions[i].1.count < u64::MAX
            },
            None => {
                assert(!region_view(self.regions@).contains_key(code@)) by {
                    if region_view(self.regions@).contains_key(code@) {
                        let i = choose|i: int|
                            0 <= i < self.regions@.len() && #[trigger] self.regions@[i].0@ == code@;
                        assert(self.regions@[i].0@ == code@);
                    }
                }
                true
            },
        }
    }

    /// Takes the gathered counts away, leaving none.
    pub fn take(&mut self) -> (delta: PendingStats)
        ensures
            delta == *old(self),
            final(self).access == 0,
            final(self).users == 0,
            final(self).with_uuid == 0,
            final(self).without_uuid == 0,
            final(self).regions@.len() == 0,
    {
        let mut fresh = PendingStats::new();
        std::mem::swap(self, &mut fresh);
        fresh
    }

    /// Whether there is anything to flush: accesses, new users or regions.
    pub fn has_changes(&self) -> (r: bool)
        ensures
            r == (self.access != 0 || self.users != 0 || self.regions@.len() != 0),
    {
        self.access != 0 || self.users != 0 || self.regions.len() != 0
    }

    /// Whether enough accesses have gathered to flush: at least `threshold`.
    pub fn flush_due(&self, threshold: u32) -> (r: bool)
        ensures
            r == (self.access >= threshold),
    {
        self.access >= threshold as u64
    }

    /// Whether the region counts of `delta` can be added back without overflow.
    pub fn can_restore(&self, delta: &PendingStats) -> (r: bool)
        requires
            self.wf(),
            delta.wf(),
        ensures
            r == counts_fit(region_view(self.regions@), region_view(delta.regions@)),
    {
        regions_fit(&self.regions, &delta.regions)
    }

    /// Adds back a delta whose flush failed, so that nothing it counted is
    /// lost: its counters (with wrap-around, as the counters add) and its
    /// region counts.
    pub fn restore(&mut self, delta: &PendingStats)
        requires
            old(self).wf(),
            delta.wf(),
            counts_fit(region_view(old(self).regions@), region_view(delta.regions@)),
        ensures
            final(self).wf(),
            final(self).access == wrapping(old(self).access, delta.access),
            final(self).users == wrapping(old(self).users, delta.users),
            final(self).with_uuid == wrapping(old(self).with_uuid, delta.with_uuid),
            final(self).without_uuid == wrapping(old(self).without_uuid, delta.without_uuid),
            region_view(final(self).regions@) == merged_regions(
                region_view(old(self).regions@),
                region_view(delta.regions@),
            ),
    {
        let ghost before = self.regions@;
        self.access = wrapping_add(self.access, delta.access);
        self.users = wrapping_add(self.users, delta.users);
        self.with_uuid = wrapping_add(self.with_uuid, delta.with_uuid);
        self.without_uuid = wrapping_add(self.without_uuid, delta.without_uuid);
        add_regions(&mut self.regions, &delta.regions);
        proof {
            lemma_region_view_index(self.regions@);
            lemma_region_view_index(before);
            lemma_region_view_index(delta.regions@);
            assert forall|i: int| 0 <= i < self.regions@.len() implies is_counted_region(
                #[trigger] self.regions@[i].0@,
            ) by {
                let k = self.regions@[i].0@;
                assert(view_has_entry(self.regions@, i));
                if region_view(before).contains_key(k) {
                    let a = choose|a: int| 0 <= a < before.len() && #[trigger] before[a].0@ == k;
                    assert(before[a].0@ == k);
                } else {
                    assert(region_view(delta.regions@).contains_key(k));
                    let a = choose|a: int|
                        0 <= a < delta.regions@.len() && #[trigger] delta.regions@[a].0@ == k;
                    assert(delta.regions@[a].0@ == k);
                }
            }
        }
    }
}

/// `after` is `before` with one access by a returning user counted.
pub open spec fn access_counted(before: PendingStats, after: PendingStats, has_uuid: bool) -> bool {
    &&& after.access == wrapping(before.access, 1)
    &&& after.with_uuid == if has_uuid {
        wrapping(before.with_uuid, 1)
    } else {
        before.with_uuid
    }
    &&& after.without_uuid == if has_uuid {
        before.without_uuid
    } else {
        wrapping(before.without_uuid, 1)
    }
    &&& after.users == before.users
    &&& after.regions == before.regions
}

/// `after` is `before` with one new user counted, in region `code` (named
/// `country`) unless the code is unknown, local or empty.
pub open spec fn new_user_counted(
    before: PendingStats,
    after: PendingStats,
    has_uuid: bool,
    code: Seq<char>,
    country: Seq<char>,
) -> bool {
    &&& after.users == wrapping(before.users, 1)
    &&& after.with_uuid == if has_uuid {
        wrapping(before.with_uuid, 1)
    } else {
        before.with_uuid
    }
    &&& after.without_uuid == if has_uuid {
        before.without_uuid
    } else {
        wrapping(before.without_uuid, 1)
    }
    &&& after.access == before.access
    &&& region_view(after.regions@) == if is_counted_region(code) {
        let old_view = region_view(before.regions@);
        if old_view.contains_key(code) {
            old_view.insert(code, (old_view[code].0, old_view[code].1 + 1))
        } else {
            old_view.insert(code, (country, 1))
        }
    } else {
        region_view(before.regions@)
    }
}

/// Counts one access by a returning user.
pub fn record_access(pending: &mut PendingStats, has_uuid: bool)
    ensures
        access_counted(*old(pending), *final(pending), has_uuid),
{
    pending.access = wrapping_add(pending.access, 1);
    if has_uuid {
        pending.with_uuid = wrapping_add(pending.with_uuid, 1);
    } else {
        pending.without_uuid = wrapping_add(pending.without_uuid, 1);
    }
}

/// Counts a new user, and the user's region unless it is unknown, local or empty.
pub fn record_new_user(pending: &mut PendingStats, has_uuid: bool, country_code: &str, country: &str)
    requires
        old(pending).wf(),
        old(pending).region_has_room(country_code@),
    ensures
        final(pending).wf(),
        new_user_counted(*old(pending), *final(pending), has_uuid, country_code@, country@),
{
    pending.users = wrapping_add(pending.users, 1);
    if has_uuid {
        pending.with_uuid = wrapping_add(pending.with_uuid, 1);
    } else {
        pending.without_uuid = wrapping_add(pending.without_uuid, 1);
    }
    let cc = chars_of(country_code);
    if !equals(&cc, "XX") && !equals(&cc, "LOCAL") && cc.len() != 0 {
        proof {
            lemma_region_view_index(pending.regions@);
        }
        match find_region(&pending.regions, country_code) {
            Some(i) => {
                let ghost before = pending.regions@;
                assert(view_has_entry(before, i as int));
                let country_name = pending.regions[i].1.country.clone();
                let count = pending.regions[i].1.count;
                let code = owned(country_code);
                pending.regions.set(
                    i,
                    (code, RegionStat { country: country_name, count: count + 1 }),
                );
                proof {
                    lemma_region_view_update(before, i as int, pending.regions@[i as int]);
                    assert(pending.regions@ == before.update(i as int, pending.regions@[i as int]));
                    assert forall|a: int, b: int| 0 <= a < b < pending.regions@.len() implies
                        #[trigger] pending.regions@[a].0@ != #[trigger] pending.regions@[b].0@ by {
                        assert(pending.regions@[a].0@ == before[a].0@);
                        assert(pending.regions@[b].0@ == before[b].0@);
                    }
                    assert forall|k: int| 0 <= k < pending.regions@.len() implies is_counted_region(
                        #[trigger] pending.regions@[k].0@,
                    ) by {
                        assert(pending.regions@[k].0@ == before[k].0@);
                    }
                }
            },
            None => {
                let ghost before = pending.regions@;
                let entry = (owned(country_code), RegionStat { country: owned(country), count: 1 });
                pending.regions.push(entry);
                proof {
                    lemma_push_distinct(before, entry);
                }
            },
        }
    }
}

/// The statistics file: totals and users by region.
pub struct Stats {
    pub total_users: u64,
    pub total_access: u64,
    pub with_uuid: u64,
    pub without_uuid: u64,
    pub regions: Vec<(String, RegionStat)>,
    pub last_updated: String,
}

/// Region counts of `a` with those of `b` added: a region known to `a`
/// keeps its country name.
pub open spec fn merged_regions(
    a: Map<Seq<char>, (Seq<char>, nat)>,
    b: Map<Seq<char>, (Seq<char>, nat)>,
) -> Map<Seq<char>, (Seq<char>, nat)> {
    Map::new(
        |k: Seq<char>| a.contains_key(k) || b.contains_key(k),
        |k: Seq<char>|
            if a.contains_key(k) && b.contains_key(k) {
                (a[k].0, a[k].1 + b[k].1)
            } else if a.contains_key(k) {
                a[k]
            } else {
                b[k]
            },
    )
}

/// Adding the region counts of `b` to those of `a` overflows no count.
pub open spec fn counts_fit(
    a: Map<Seq<char>, (Seq<char>, nat)>,
    b: Map<Seq<char>, (Seq<char>, nat)>,
) -> bool {
    forall|k: Seq<char>|
        #[trigger] a.contains_key(k) && b.contains_key(k) ==> a[k].1 + b[k].1 <= u64::MAX
}

/// Whether the region counts of `b` can be added to those of `a`.
pub fn regions_fit(a: &Vec<(String, RegionStat)>, b: &Vec<(String, RegionStat)>) -> (r: bool)
    requires
        codes_distinct(a@),
        codes_distinct(b@),
    ensures
        r == counts_fit(region_view(a@), region_view(b@)),
{
    proof {
        lemma_region_view_index(a@);
        lemma_region_view_index(b@);
    }
    let mut j: usize = 0;
    while j < b.len()
        invariant
            j <= b@.len(),
            codes_distinct(a@),
            codes_distinct(b@),
            forall|i: int| 0 <= i < b@.len() ==> #[trigger] view_has_entry(b@, i),
            forall|i: int| 0 <= i < a@.len() ==> #[trigger] view_has_entry(a@, i),
            forall|k: Seq<char>|
                #[trigger] region_view(b@).contains_key(k) ==> exists|i: int|
                    0 <= i < b@.len() && #[trigger] b@[i].0@ == k,
            forall|k: Seq<char>|
                #[trigger] region_view(a@).contains_key(k) ==> exists|i: int|
                    0 <= i < a@.len() && #[trigger] a@[i].0@ == k,
            forall|i: int|
                0 <= i < j ==> {
                    let k = #[trigger] b@[i].0@;
                    region_view(a@).contains_key(k) ==> region_view(
                        a@,
                    )[k].1 + region_view(b@)[k].1 <= u64::MAX
                },
        decreases b@.len() - j,
    {
        let code = &b[j].0;
        match find_region(&a, code.as_str()) {
            Some(i) => {
                assert(view_has_entry(a@, i as int));
                assert(view_has_entry(b@, j as int));
                if a[i].1.count > u64::MAX - b[j].1.count {
                    assert(region_view(a@).contains_key(b@[j as int].0@));
                    return false;
                }
            },
            None => {
                assert(!region_view(a@).contains_key(b@[j as int].0@));
            },
        }
        j = j + 1;
    }
    proof {
        assert forall|k: Seq<char>|
            #[trigger] region_view(a@).contains_key(k) && region_view(
                b@,
            ).contains_key(k) implies region_view(a@)[k].1 + region_view(
            b@,
        )[k].1 <= u64::MAX by {
            let i = choose|i: int| 0 <= i < b@.len() && #[trigger] b@[i].0@ == k;
            assert(b@[i].0@ == k);
            assert(view_has_entry(b@, i));
        }
    }
    true
}

/// Adds the region counts of `add` to `target`: a region already in
/// `target` keeps its country name, a new one is appended.
pub fn add_regions(target: &mut Vec<(String, RegionStat)>, add: &Vec<(String, RegionStat)>)
    requires
        codes_distinct(old(target)@),
        codes_distinct(add@),
        counts_fit(region_view(old(target)@), region_view(add@)),
    ensures
        codes_distinct(final(target)@),
        region_view(final(target)@) == merged_regions(region_view(old(target)@), region_view(add@)),
{
    let ghost start = region_view(target@);
    let ghost dv = region_view(add@);
    proof {
        lemma_region_view_index(add@);
        assert(merged_regions(start, region_view(add@.take(0))) =~= start) by {
            assert(add@.take(0) =~= Seq::<(String, RegionStat)>::empty());
        }
    }
    let mut j: usize = 0;
    while j < add.len()
        invariant
            j <= add@.len(),
            codes_distinct(target@),
            codes_distinct(add@),
            dv == region_view(add@),
            forall|k: Seq<char>|
                #[trigger] start.contains_key(k) && dv.contains_key(k) ==> start[k].1 + dv[k].1
                    <= u64::MAX,
            forall|i: int| 0 <= i < add@.len() ==> #[trigger] view_has_entry(add@, i),
            region_view(target@) == merged_regions(
                start,
                region_view(add@.take(j as int)),
            ),
        decreases add@.len() - j,
    {
        let ghost cur = target@;
        let ghost taken = add@.take(j as int);
        let ghost next = add@.take(j + 1);
        let ghost code = add@[j as int].0@;
        proof {
            assert(next.drop_last() =~= taken);
            assert(codes_distinct(taken)) by {
                assert forall|a: int, b: int| 0 <= a < b < taken.len() implies #[trigger] taken[a].0@
                    != #[trigger] taken[b].0@ by {
                    assert(taken[a] == add@[a] && taken[b] == add@[b]);
                }
            }
            lemma_region_view_index(taken);
            assert(!region_view(taken).contains_key(code)) by {
                if region_view(taken).contains_key(code) {
                    let i = choose|i: int| 0 <= i < taken.len() && #[trigger] taken[i].0@ == code;
                    assert(add@[i].0@ == code);
                }
            }
            assert(region_view(next) == region_view(taken).insert(code, entry_view(add@[j as int])));
            lemma_region_view_index(cur);
            assert(view_has_entry(add@, j as int));
        }
        let extra = add[j].1.count;
        match find_region(target, add[j].0.as_str()) {
            Some(i) => {
                let country_name = target[i].1.country.clone();
                let count = target[i].1.count;
                proof {
                    assert(view_has_entry(cur, i as int));
                    assert(region_view(cur).contains_key(code));
                    assert(start.contains_key(code)) by {
                        if !start.contains_key(code) {
                            assert(!region_view(taken).contains_key(code));
                        }
                    }
                    assert(region_view(cur)[code] == start[code]);
                    assert(dv[code] == entry_view(add@[j as int]));
                }
                let code_string = add[j].0.clone();
                target.set(
                    i,
                    (code_string, RegionStat { country: country_name, count: count + extra }),
                );
                proof {
                    lemma_region_view_update(cur, i as int, target@[i as int]);
                    assert(target@ == cur.update(i as int, target@[i as int]));
                    assert forall|a: int, b: int| 0 <= a < b < target@.len() implies
                        #[trigger] target@[a].0@ != #[trigger] target@[b].0@ by {
                        assert(target@[a].0@ == cur[a].0@);
                        assert(target@[b].0@ == cur[b].0@);
                    }
                    assert(region_view(target@) =~= merged_regions(start, region_view(next)));
                }
            },
            None => {
                let entry = (
                    add[j].0.clone(),
                    RegionStat { country: add[j].1.country.clone(), count: extra },
                );
                proof {
                    assert(!region_view(cur).contains_key(code)) by {
                        if region_view(cur).contains_key(code) {
                            let i = choose|i: int| 0 <= i < cur.len() && #[trigger] cur[i].0@ == code;
                            assert(cur[i].0@ == code);
                        }
                    }
                    assert(!start.contains_key(code));
                }
                target.push(entry);
                proof {
                    lemma_push_distinct(cur, entry);
                    assert(region_view(target@) =~= merged_regions(start, region_view(next)));
                }
            },
        }
        j = j + 1;
    }
    proof {
        assert(add@.take(add@.len() as int) =~= add@);
    }
}

/// The text stamped as the time of the last update: `unix:` and the seconds.
pub open spec fn stamp_text(secs: u64) -> Seq<char> {
    "unix:"@ + decimal_text(secs as nat)
}

/// The time stamp for `secs` seconds since the Unix epoch.
pub fn unix_now_str(secs: u64) -> (s: String)
    ensures
        s@ == stamp_text(secs),
{
    let digits = u64_text(secs);
    concat("unix:", digits.as_str())
}

impl Stats {
    /// Empty statistics, as a missing or unreadable file gives them.
    pub fn new() -> (s: Stats)
        ensures
            s.total_users == 0,
            s.total_access == 0,
            s.with_uuid == 0,
            s.without_uuid == 0,
            s.regions@.len() == 0,
            s.last_updated@.len() == 0,
    {
        Stats {
            total_users: 0,
            total_access: 0,
            with_uuid: 0,
            without_uuid: 0,
            regions: Vec::new(),
            last_updated: String::new(),
        }
    }

    /// No region code occurs twice.
    pub open spec fn wf(&self) -> bool {
        codes_distinct(self.regions@)
    }

    /// Adding `delta` overflows no total and no region count.
    pub open spec fn merge_fits(&self, delta: &PendingStats) -> bool {
        &&& self.total_access + delta.access <= u64::MAX
        &&& self.total_users + delta.users <= u64::MAX
        &&& self.with_uuid + delta.with_uuid <= u64::MAX
        &&& self.without_uuid + delta.without_uuid <= u64::MAX
        &&& counts_fit(region_view(self.regions@), region_view(delta.regions@))
    }

    /// Whether `delta` can be added without overflow.
    pub fn can_merge(&self, delta: &PendingStats) -> (r: bool)
        requires
            self.wf(),
            delta.wf(),
        ensures
            r == self.merge_fits(delta),
    {
        if self.total_access > u64::MAX - delta.access || self.total_users > u64::MAX - delta.users
            || self.with_uuid > u64::MAX - delta.with_uuid || self.without_uuid > u64::MAX
            - delta.without_uuid {
            return false;
        }
        regions_fit(&self.regions, &delta.regions)
    }

    /// Adds `delta` to the totals and region counts and stamps the time `now_secs`.
    pub fn merge(&mut self, delta: &PendingStats, now_secs: u64)
        requires
            old(self).wf(),
            delta.wf(),
            old(self).merge_fits(delta),
        ensures
            final(self).wf(),
            final(self).total_access == old(self).total_access + delta.access,
            final(self).total_users == old(self).total_users + delta.users,
            final(self).with_uuid == old(self).with_uuid + delta.with_uuid,
            final(self).without_uuid == old(self).without_uuid + delta.without_uuid,
            region_view(final(self).regions@) == merged_regions(
                region_view(old(self).regions@),
                region_view(delta.regions@),
            ),
            final(self).last_updated@ == stamp_text(now_secs),
    {
        add_regions(&mut self.regions, &delta.regions);

        self.total_access = self.total_access + delta.access;
        self.total_users = self.total_users + delta.users;
        self.with_uuid = self.with_uuid + delta.with_uuid;
        self.without_uuid = self.without_uuid + delta.without_uuid;
        self.last_updated = unix_now_str(now_secs);
    }
}

/// Adding back a delta that was taken restores what it counted: onto
/// counts that were emptied by the take, the counters come back as they were
/// and the regions come back as they were; whatever was counted in between
/// is kept as well.
pub proof fn law_restore_undoes_take(before: PendingStats, between: PendingStats)
    ensures
        wrapping(0, before.access) == before.access,
        wrapping(0, before.users) == before.users,
        wrapping(0, before.with_uuid) == before.with_uuid,
        wrapping(0, before.without_uuid) == before.without_uuid,
        merged_regions(Map::empty(), region_view(before.regions@)) == region_view(before.regions@),
        wrapping(between.access, before.access) as int == (between.access + before.access)
            % 0x1_0000_0000_0000_0000,
        forall|k: Seq<char>|
            #[trigger] region_view(before.regions@).contains_key(k) ==> {
                let m = merged_regions(region_view(between.regions@), region_view(before.regions@));
                &&& m.contains_key(k)
                &&& m[k].1 == if region_view(between.regions@).contains_key(k) {
                    region_view(between.regions@)[k].1 + region_view(before.regions@)[k].1
                } else {
                    region_view(before.regions@)[k].1
                }
            },
{
    assert(merged_regions(Map::empty(), region_view(before.regions@)) =~= region_view(before.regions@));
}

} // verus!
