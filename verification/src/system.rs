//! Planets and the system that groups them: labeled sources of base
//! resources, resolved against the item catalog at construction.

use vstd::prelude::*;

use crate::error::Error;
use crate::item::{Item, ItemManager, ItemV};

verus! {

/// One base resource of a planet: the raw item and its relative abundance,
/// in parts per million. The abundance is informational; reachability only
/// reads the item's identity.
pub struct Resource {
    pub item: Item,
    pub density_ppm: u32,
}

/// Mathematical view of a `Resource`.
pub struct ResourceV {
    pub item: ItemV,
    pub density_ppm: u32,
}

/// A labeled source of base resources.
pub struct Planet {
    pub label: String,
    pub resources: Vec<Resource>,
}

/// Mathematical view of a `Planet`.
pub struct PlanetV {
    pub label: Seq<char>,
    pub resources: Seq<ResourceV>,
}

/// A labeled, ordered collection of planets.
pub struct System {
    pub label: String,
    pub planets: Vec<Planet>,
}

impl View for Resource {
    type V = ResourceV;

    open spec fn view(&self) -> ResourceV {
        ResourceV { item: self.item@, density_ppm: self.density_ppm }
    }
}

impl View for Planet {
    type V = PlanetV;

    open spec fn view(&self) -> PlanetV {
        PlanetV {
            label: self.label@,
            resources: self.resources@.map_values(|r: Resource| r@),
        }
    }
}

impl Clone for Resource {
    fn clone(&self) -> (r: Self)
        ensures
            r@ == self@,
    {
        Resource { item: self.item.clone(), density_ppm: self.density_ppm }
    }
}

impl Clone for Planet {
    fn clone(&self) -> (r: Self)
        ensures
            r@ == self@,
    {
        let mut resources: Vec<Resource> = Vec::new();
        let mut k: usize = 0;
        while k < self.resources.len()
            invariant
                k <= self.resources@.len(),
                resources@.len() == k as int,
                forall|t: int| 0 <= t < k ==> resources@[t]@ == self.resources@[t]@,
            decreases self.resources@.len() - k,
        {
            resources.push(self.resources[k].clone());
            k += 1;
        }
        proof {
            assert(resources@.map_values(|r: Resource| r@) =~= self.resources@.map_values(
                |r: Resource| r@,
            ));
        }
        Planet { label: self.label.clone(), resources }
    }
}

/// The set of item ids among a planet's resources: the sole state the closure
/// engine reads from a planet.
pub open spec fn planet_resource_ids(p: PlanetV) -> Set<Seq<char>> {
    Set::new(
        |id: Seq<char>| exists|k: int| 0 <= k < p.resources.len() && (#[trigger] p.resources[k]).item.id == id,
    )
}

impl Planet {
    /// Resolves raw planet data against the catalog: each resource is an item
    /// id with an abundance; an id the catalog lacks is a hard error.
    pub fn from_raw(
        label: String,
        raw_resources: Vec<(String, u32)>,
        item_manager: &ItemManager,
    ) -> (r: Result<Planet, Error>)
        requires
            item_manager.wf(),
        ensures
            r is Ok <==> (forall|k: int|
                0 <= k < raw_resources@.len() ==> item_manager.has_id(
                    (#[trigger] raw_resources@[k]).0@,
                )),
            match r {
                Result::Ok(p) => {
                    &&& p@.label == label@
                    &&& p@.resources.len() == raw_resources@.len()
                    &&& forall|k: int|
                        0 <= k < raw_resources@.len() ==> (#[trigger] p@.resources[k]).item
                            == item_manager.item_of(raw_resources@[k].0@)
                            && p@.resources[k].density_ppm == raw_resources@[k].1
                },
                Result::Err(e) => e matches Error::MissingItem(s) && !item_manager.has_id(s@)
                    && exists|k: int|
                    0 <= k < raw_resources@.len() && (#[trigger] raw_resources@[k]).0@ == s@,
            },
    {
        let mut resources: Vec<Resource> = Vec::new();
        let mut k: usize = 0;
        while k < raw_resources.len()
            invariant
                item_manager.wf(),
                k <= raw_resources@.len(),
                resources@.len() == k as int,
                forall|t: int|
                    0 <= t < k ==> item_manager.has_id((#[trigger] raw_resources@[t]).0@),
                forall|t: int|
                    0 <= t < k ==> (#[trigger] resources@[t])@.item == item_manager.item_of(
                        raw_resources@[t].0@,
                    ) && resources@[t]@.density_ppm == raw_resources@[t].1,
            decreases raw_resources@.len() - k,
        {
            let (item_id, density_ppm) = (&raw_resources[k].0, raw_resources[k].1);
            match item_manager.get(item_id) {
                Option::Some(item) => {
                    resources.push(Resource { item, density_ppm });
                },
                Option::None => {
                    return Err(Error::MissingItem(item_id.clone()));
                },
            }
            k += 1;
        }
        Ok(Planet { label, resources })
    }

    /// The planet's available items: one copy of each resource's item, in
    /// resource order.
    pub fn collect_resources(&self) -> (r: Vec<Item>)
        ensures
            r@.len() == self@.resources.len(),
            forall|k: int| 0 <= k < r@.len() ==> (#[trigger] r@[k])@ == self@.resources[k].item,
            crate::item::id_set_items(r@) == planet_resource_ids(self@),
    {
        let mut r: Vec<Item> = Vec::new();
        let mut k: usize = 0;
        while k < self.resources.len()
            invariant
                k <= self.resources@.len(),
                r@.len() == k as int,
                forall|t: int| 0 <= t < k ==> (#[trigger] r@[t])@ == self@.resources[t].item,
            decreases self.resources@.len() - k,
        {
            r.push(self.resources[k].item.clone());
            proof {
                assert(self@.resources[k as int] == self.resources@[k as int]@);
            }
            k += 1;
        }
        proof {
            assert forall|id: Seq<char>|
                crate::item::id_set_items(r@).contains(id) <==> planet_resource_ids(
                    self@,
                ).contains(id) by {
                if crate::item::id_set_items(r@).contains(id) {
                    let t = choose|t: int| 0 <= t < r@.len() && (#[trigger] r@[t]).id@ == id;
                    assert(self@.resources[t].item.id == id);
                }
                if planet_resource_ids(self@).contains(id) {
                    let t = choose|t: int|
                        0 <= t < self@.resources.len() && (#[trigger] self@.resources[t]).item.id
                            == id;
                    assert(r@[t].id@ == id);
                }
            }
            assert(crate::item::id_set_items(r@) =~= planet_resource_ids(self@));
        }
        r
    }
}

impl System {
    /// Resolves a raw system description — a label and, per planet, a label
    /// with resource pairs — against the catalog: succeeds, with every
    /// resource resolved to its catalog item, exactly when every resource id
    /// of every planet is a catalog id, and fails with a missing id
    /// otherwise.
    pub fn new(
        label: String,
        raw_planets: Vec<(String, Vec<(String, u32)>)>,
        item_manager: &ItemManager,
    ) -> (r: Result<System, Error>)
        requires
            item_manager.wf(),
        ensures
            r is Ok <==> (forall|j: int, k: int|
                0 <= j < raw_planets@.len() && 0 <= k < raw_planets@[j].1@.len()
                    ==> item_manager.has_id((#[trigger] raw_planets@[j].1@[k]).0@)),
            match r {
                Result::Ok(s) => {
                    &&& s.label@ == label@
                    &&& s.planets@.len() == raw_planets@.len()
                    &&& forall|j: int|
                        0 <= j < raw_planets@.len() ==> (#[trigger] s.planets@[j])@.label
                            == raw_planets@[j].0@ && s.planets@[j]@.resources.len()
                            == raw_planets@[j].1@.len()
                    &&& forall|j: int, k: int|
                        0 <= j < raw_planets@.len() && 0 <= k < raw_planets@[j].1@.len() ==> (
                        #[trigger] s.planets@[j]@.resources[k]).item == item_manager.item_of(
                            raw_planets@[j].1@[k].0@,
                        ) && s.planets@[j]@.resources[k].density_ppm == raw_planets@[j].1@[k].1
                },
                Result::Err(e) => e matches Error::MissingItem(s) && !item_manager.has_id(s@)
                    && exists|j: int, k: int|
                    0 <= j < raw_planets@.len() && 0 <= k < raw_planets@[j].1@.len() && (
                    #[trigger] raw_planets@[j].1@[k]).0@ == s@,
            },
    {
        let mut planets: Vec<Planet> = Vec::new();
        let mut j: usize = 0;
        while j < raw_planets.len()
            invariant
                item_manager.wf(),
                j <= raw_planets@.len(),
                planets@.len() == j as int,
                forall|t: int|
                    0 <= t < j ==> (#[trigger] planets@[t])@.label == raw_planets@[t].0@
                        && planets@[t]@.resources.len() == raw_planets@[t].1@.len(),
                forall|t: int, k: int|
                    0 <= t < j && 0 <= k < raw_planets@[t].1@.len() ==> item_manager.has_id(
                        (#[trigger] raw_planets@[t].1@[k]).0@,
                    ),
                forall|t: int, k: int|
                    0 <= t < j && 0 <= k < raw_planets@[t].1@.len() ==> (
                    #[trigger] planets@[t]@.resources[k]).item == item_manager.item_of(
                        raw_planets@[t].1@[k].0@,
                    ) && planets@[t]@.resources[k].density_ppm == raw_planets@[t].1@[k].1,
            decreases raw_planets@.len() - j,
        {
            let planet_label = raw_planets[j].0.clone();
            let mut raw_resources: Vec<(String, u32)> = Vec::new();
            let mut t: usize = 0;
            while t < raw_planets[j].1.len()
                invariant
                    0 <= j < raw_planets@.len(),
                    t <= raw_planets@[j as int].1@.len(),
                    raw_resources@.len() == t as int,
                    forall|x: int|
                        0 <= x < t ==> (#[trigger] raw_resources@[x]).0@
                            == raw_planets@[j as int].1@[x].0@ && raw_resources@[x].1
                            == raw_planets@[j as int].1@[x].1,
                decreases raw_planets@[j as int].1@.len() - t,
            {
                raw_resources.push(
                    (raw_planets[j].1[t].0.clone(), raw_planets[j].1[t].1),
                );
                t += 1;
            }
            let ghost raw_res_view = raw_resources@;
            match Planet::from_raw(planet_label, raw_resources, item_manager) {
                Result::Ok(p) => {
                    proof {
                        assert forall|k: int|
                            0 <= k < raw_planets@[j as int].1@.len() implies item_manager.has_id(
                            (#[trigger] raw_planets@[j as int].1@[k]).0@,
                        ) && p@.resources[k].item == item_manager.item_of(
                            raw_planets@[j as int].1@[k].0@,
                        ) && p@.resources[k].density_ppm == raw_planets@[j as int].1@[k].1 by {
                            assert(raw_res_view[k].0@ == raw_planets@[j as int].1@[k].0@);
                        }
                    }
                    planets.push(p);
                },
                Result::Err(e) => {
                    proof {
                        match &e {
                            Error::MissingItem(s) => {
                                let k = choose|k: int|
                                    0 <= k < raw_res_view.len() && (#[trigger] raw_res_view[k]).0@
                                        == s@;
                                assert(raw_planets@[j as int].1@[k].0@ == s@);
                            },
                        }
                    }
                    return Err(e);
                },
            }
            j += 1;
        }
        Ok(System { label, planets })
    }
}

} // verus!
