//! Zones and the zone directory: the textual areas a user can occupy.

use vstd::prelude::*;
use crate::bytes::bytes_eq;

verus! {

/// One named area.
#[derive(Clone, PartialEq, Eq, Debug)]
pub struct Zone {
    pub id: usize,
    pub name: Vec<u8>,
    pub desc: Vec<u8>,
}

/// Mathematical shape of a zone.
pub struct ZoneM {
    pub id: usize,
    pub name: Seq<u8>,
    pub desc: Seq<u8>,
}

impl View for Zone {
    type V = ZoneM;

    open spec fn view(&self) -> ZoneM {
        ZoneM { id: self.id, name: self.name@, desc: self.desc@ }
    }
}

impl Zone {
    pub fn new(id: usize, name: &[u8], desc: &[u8]) -> (z: Zone)
        ensures
            z@.id == id,
            z@.name == name@,
            z@.desc == desc@,
    {
        Zone {
            id,
            name: crate::bytes::copy_range(name, 0, name.len()),
            desc: crate::bytes::copy_range(desc, 0, desc.len()),
        }
    }
}

/// A named collection of zones with a designated starting zone.
#[derive(Clone, PartialEq, Eq, Debug)]
pub struct ZoneMap {
    pub name: Vec<u8>,
    pub desc: Vec<u8>,
    pub start_zone: usize,
    pub zones: Vec<Zone>,
}

/// Views of a sequence of zones.
pub open spec fn zone_views(s: Seq<Zone>) -> Seq<ZoneM> {
    s.map_values(|z: Zone| z@)
}

/// Index of the first zone with the given name, or the length if absent.
pub open spec fn find_zone(s: Seq<ZoneM>, name: Seq<u8>) -> int
    decreases s.len(),
{
    if s.len() == 0 {
        0
    } else if s[0].name == name {
        0
    } else {
        1 + find_zone(s.skip(1), name)
    }
}

pub proof fn lemma_find_zone(s: Seq<ZoneM>, name: Seq<u8>)
    ensures
        0 <= find_zone(s, name) <= s.len(),
        find_zone(s, name) < s.len() ==> s[find_zone(s, name)].name == name,
        forall|j: int| 0 <= j < find_zone(s, name) ==> (#[trigger] s[j]).name != name,
    decreases s.len(),
{
    if s.len() == 0 {
    } else if s[0].name == name {
    } else {
        lemma_find_zone(s.skip(1), name);
        assert forall|j: int| 0 <= j < find_zone(s, name) implies (#[trigger] s[j]).name
            != name by {
            if j > 0 {
                assert(s.skip(1)[j - 1] == s[j]);
            }
        }
    }
}

impl ZoneMap {
    pub fn new(name: &[u8], desc: &[u8], start_zone: usize) -> (m: ZoneMap)
        ensures
            m.name@ == name@,
            m.desc@ == desc@,
            m.start_zone == start_zone,
            m.zones@.len() == 0,
    {
        ZoneMap {
            name: crate::bytes::copy_range(name, 0, name.len()),
            desc: crate::bytes::copy_range(desc, 0, desc.len()),
            start_zone,
            zones: Vec::new(),
        }
    }

    pub fn add_zone(&mut self, zone: Zone)
        ensures
            final(self).zones@ == old(self).zones@.push(zone),
            final(self).name == old(self).name,
            final(self).desc == old(self).desc,
            final(self).start_zone == old(self).start_zone,
    {
        self.zones.push(zone);
    }

    /// Whether the id indexes an existing zone.
    pub fn valid_zone_id(&self, zone_id: usize) -> (r: bool)
        ensures
            r == (zone_id < self.zones@.len()),
    {
        zone_id < self.zones.len()
    }

    /// The index of the first zone with this name, if any carries it.
    pub fn find_zone_from_name(&self, name: &[u8]) -> (r: Option<usize>)
        ensures
            ({
                let k = find_zone(zone_views(self.zones@), name@);
                match r {
                    Some(i) => i == k && k < self.zones@.len() && self.zones@[k as int]@.name
                        == name@,
                    None => k == self.zones@.len(),
                }
            }),
    {
        let ghost zs = zone_views(self.zones@);
        let mut i: usize = 0;
        while i < self.zones.len()
            invariant
                i <= self.zones@.len(),
                zs == zone_views(self.zones@),
                forall|j: int| 0 <= j < i ==> (#[trigger] zs[j]).name != name@,
            decreases self.zones@.len() - i,
        {
            if bytes_eq(self.zones[i].name.as_slice(), name) {
                proof {
                    lemma_find_zone_at(zs, name@, i as int);
                }
                return Some(i);
            }
            i = i + 1;
        }
        proof {
            lemma_find_zone(zs, name@);
            if find_zone(zs, name@) < zs.len() {
                assert(zs[find_zone(zs, name@)].name == name@);
                assert(false);
            }
        }
        None
    }
}

/// `find_zone` is pinned by a witness with nothing before it.
pub proof fn lemma_find_zone_at(s: Seq<ZoneM>, name: Seq<u8>, k: int)
    requires
        0 <= k < s.len(),
        s[k].name == name,
        forall|j: int| 0 <= j < k ==> (#[trigger] s[j]).name != name,
    ensures
        find_zone(s, name) == k,
    decreases s.len(),
{
    if k == 0 {
    } else {
        assert forall|j: int| 0 <= j < k - 1 implies (#[trigger] s.skip(1)[j]).name != name by {
            assert(s.skip(1)[j] == s[j + 1]);
        }
        assert(s.skip(1)[k - 1] == s[k]);
        lemma_find_zone_at(s.skip(1), name, k - 1);
    }
}

} // verus!
