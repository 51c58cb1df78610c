//! Item definitions, production recipes, and the item catalog
//! (`ItemManager`) with its immutable reverse "used-in" index.
//!
//! Identity of an item is its id alone; every cross-reference (a recipe
//! input, a reverse-index entry) is an id resolved through the catalog.

use vstd::prelude::*;

use crate::error::Error;
use crate::Tier;

verus! {

/// One required input of a production recipe: the consumed item's id and the
/// required amount.
pub struct Input {
    pub item_id: String,
    pub amount: u16,
}

/// A production recipe: the quantity produced per application and the inputs
/// it consumes. The quantity is informational; reachability only reads the
/// input ids.
pub struct Production {
    pub quantity: u16,
    pub inputs: Vec<Input>,
}

/// An item definition: id, display label, processing tier, a flag marking a
/// distinguished factory-stage input (carried through, never interpreted),
/// and the recipe that manufactures it, if any.
pub struct Item {
    pub id: String,
    pub label: String,
    pub tier: Tier,
    pub is_p4_input: bool,
    pub production: Option<Production>,
}

/// Mathematical view of an `Input`.
pub struct InputV {
    pub item_id: Seq<char>,
    pub amount: u16,
}

/// Mathematical view of a `Production`.
pub struct ProductionV {
    pub quantity: u16,
    pub inputs: Seq<InputV>,
}

/// Mathematical view of an `Item`.
pub struct ItemV {
    pub id: Seq<char>,
    pub label: Seq<char>,
    pub tier: Tier,
    pub is_p4_input: bool,
    pub production: Option<ProductionV>,
}

impl View for Input {
    type V = InputV;

    open spec fn view(&self) -> InputV {
        InputV { item_id: self.item_id@, amount: self.amount }
    }
}

impl View for Production {
    type V = ProductionV;

    open spec fn view(&self) -> ProductionV {
        ProductionV { quantity: self.quantity, inputs: self.inputs@.map_values(|i: Input| i@) }
    }
}

impl View for Item {
    type V = ItemV;

    open spec fn view(&self) -> ItemV {
        ItemV {
            id: self.id@,
            label: self.label@,
            tier: self.tier,
            is_p4_input: self.is_p4_input,
            production: match self.production {
                Option::Some(p) => Option::Some(p@),
                Option::None => Option::None,
            },
        }
    }
}

impl Clone for Input {
    fn clone(&self) -> (r: Self)
        ensures
            r@ == self@,
    {
        Input { item_id: self.item_id.clone(), amount: self.amount }
    }
}

impl Clone for Production {
    fn clone(&self) -> (r: Self)
        ensures
            r@ == self@,
    {
        let mut inputs: Vec<Input> = Vec::new();
        let mut k: usize = 0;
        while k < self.inputs.len()
            invariant
                k <= self.inputs@.len(),
                inputs@.len() == k as int,
                forall|t: int| 0 <= t < k ==> inputs@[t]@ == self.inputs@[t]@,
            decreases self.inputs@.len() - k,
        {
            inputs.push(self.inputs[k].clone());
            k += 1;
        }
        proof {
            assert(inputs@.map_values(|i: Input| i@) =~= self.inputs@.map_values(|i: Input| i@));
        }
        Production { quantity: self.quantity, inputs }
    }
}

impl Clone for Item {
    fn clone(&self) -> (r: Self)
        ensures
            r@ == self@,
    {
        Item {
            id: self.id.clone(),
            label: self.label.clone(),
            tier: self.tier,
            is_p4_input: self.is_p4_input,
            production: match &self.production {
                Option::Some(p) => Option::Some(p.clone()),
                Option::None => Option::None,
            },
        }
    }
}

/// The number of inputs of the item's recipe, zero when it has none.
pub open spec fn num_inputs(it: ItemV) -> int {
    if it.production is Some {
        it.production->0.inputs.len() as int
    } else {
        0
    }
}

/// The id of the `k`-th recipe input of the item.
pub open spec fn input_id(it: ItemV, k: int) -> Seq<char> {
    it.production->0.inputs[k].item_id
}

/// The item's recipe lists `id` among its inputs.
pub open spec fn consumes(consumer: ItemV, id: Seq<char>) -> bool {
    exists|k: int| 0 <= k < num_inputs(consumer) && input_id(consumer, k) == id
}

/// The set of ids occurring in a sequence of items.
pub open spec fn id_set_items(s: Seq<Item>) -> Set<Seq<char>> {
    Set::new(|id: Seq<char>| exists|k: int| 0 <= k < s.len() && (#[trigger] s[k]).id@ == id)
}

/// Every input of every recipe among `items` names an id of `items`.
pub open spec fn all_inputs_resolve(items: Seq<Item>) -> bool {
    forall|j: int, k: int|
        0 <= j < items.len() && 0 <= k < num_inputs(#[trigger] items[j]@)
            ==> id_set_items(items).contains(#[trigger] input_id(items[j]@, k))
}

/// All recipe inputs of `p` are available: each input id is a member of
/// `avail`.
pub open spec fn production_satisfied(p: ProductionV, avail: Set<Seq<char>>) -> bool {
    forall|k: int| 0 <= k < p.inputs.len() ==> avail.contains((#[trigger] p.inputs[k]).item_id)
}

impl Production {
    /// The recipe can fire when every one of its inputs is among
    /// `possible_inputs` (membership is by item id).
    pub fn can_be_made_using(&self, possible_inputs: &Vec<Item>) -> (r: bool)
        ensures
            r == production_satisfied(self@, id_set_items(possible_inputs@)),
    {
        let mut k: usize = 0;
        while k < self.inputs.len()
            invariant
                k <= self.inputs@.len(),
                forall|t: int|
                    0 <= t < k ==> id_set_items(possible_inputs@).contains(
                        (#[trigger] self@.inputs[t]).item_id,
                    ),
            decreases self.inputs@.len() - k,
        {
            if !contains_id(possible_inputs, &self.inputs[k].item_id) {
                proof {
                    assert(self@.inputs[k as int] == self.inputs@[k as int]@);
                }
                return false;
            }
            k += 1;
        }
        true
    }
}

/// Linear search of `items` for an item with the given id.
fn find_index(items: &Vec<Item>, id: &String) -> (r: Option<usize>)
    ensures
        match r {
            Option::Some(i) => i < items@.len() && items@[i as int].id@ == id@,
            Option::None => !id_set_items(items@).contains(id@),
        },
{
    let mut k: usize = 0;
    while k < items.len()
        invariant
            k <= items@.len(),
            forall|t: int| 0 <= t < k ==> (#[trigger] items@[t]).id@ != id@,
        decreases items@.len() - k,
    {
        if items[k].id == *id {
            return Some(k);
        }
        k += 1;
    }
    None
}

/// Whether some item of `items` carries the given id.
pub fn contains_id(items: &Vec<Item>, id: &String) -> (r: bool)
    ensures
        r == id_set_items(items@).contains(id@),
{
    match find_index(items, id) {
        Option::Some(_) => true,
        Option::None => false,
    }
}

/// The item catalog: the item definitions plus a reverse "used-in" index,
/// built once at construction and immutable afterwards. `used_in[i]` holds
/// the positions of the items whose recipe consumes `items[i]`.
pub struct ItemManager {
    items: Vec<Item>,
    used_in: Vec<Vec<usize>>,
}

impl ItemManager {
    /// The catalog contents as a sequence of item views, in insertion order.
    pub closed spec fn catalog(self) -> Seq<ItemV> {
        self.items@.map_values(|it: Item| it@)
    }

    /// Some catalog item carries the id.
    pub open spec fn has_id(self, id: Seq<char>) -> bool {
        exists|k: int| 0 <= k < self.catalog().len() && (#[trigger] self.catalog()[k]).id == id
    }

    /// The position of the catalog item with the id (meaningful only when
    /// `has_id` holds and ids are unique).
    pub open spec fn index_of(self, id: Seq<char>) -> int {
        choose|k: int| 0 <= k < self.catalog().len() && (#[trigger] self.catalog()[k]).id == id
    }

    /// The catalog item with the id.
    pub open spec fn item_of(self, id: Seq<char>) -> ItemV {
        self.catalog()[self.index_of(id)]
    }

    /// The ids of the items whose recipe consumes `id`.
    pub open spec fn consumers_of(self, id: Seq<char>) -> Set<Seq<char>> {
        Set::new(
            |cid: Seq<char>| self.has_id(cid) && consumes(self.item_of(cid), id),
        )
    }

    /// Catalog well-formedness: ids are unique, every recipe input resolves,
    /// and the reverse index is exactly the consumer relation.
    pub closed spec fn wf(self) -> bool {
        let cat = self.catalog();
        &&& forall|i: int, j: int|
            0 <= i < j < cat.len() ==> (#[trigger] cat[i]).id != (#[trigger] cat[j]).id
        &&& forall|j: int, k: int|
            0 <= j < cat.len() && 0 <= k < num_inputs(#[trigger] cat[j]) ==> self.has_id(
                #[trigger] input_id(cat[j], k),
            )
        &&& self.used_in@.len() == cat.len()
        &&& forall|i: int, x: int|
            0 <= i < cat.len() && 0 <= x < self.used_in@[i]@.len() ==> {
                &&& (#[trigger] self.used_in@[i]@[x]) < cat.len()
                &&& consumes(cat[self.used_in@[i]@[x] as int], cat[i].id)
            }
        &&& forall|i: int, x: int, y: int|
            0 <= i < cat.len() && 0 <= x < y < self.used_in@[i]@.len()
                ==> (#[trigger] self.used_in@[i]@[x]) != (#[trigger] self.used_in@[i]@[y])
        &&& forall|i: int, j: int|
            0 <= i < cat.len() && 0 <= j < cat.len() && consumes(
                #[trigger] cat[j],
                (#[trigger] cat[i]).id,
            ) ==> self.used_in@[i]@.contains(j as usize)
    }
}

impl ItemManager {
    /// Linear search of the catalog for an item with the given id.
    fn find(&self, id: &String) -> (r: Option<usize>)
        ensures
            match r {
                Option::Some(i) => 0 <= i < self.catalog().len() && self.catalog()[i as int].id
                    == id@,
                Option::None => !self.has_id(id@),
            },
    {
        let r = find_index(&self.items, id);
        proof {
            match r {
                Option::Some(i) => {
                    assert(self.catalog()[i as int] == self.items@[i as int]@);
                }
                Option::None => {
                    if self.has_id(id@) {
                        let k = choose|k: int|
                            0 <= k < self.catalog().len() && (#[trigger] self.catalog()[k]).id
                                == id@;
                        assert(self.items@[k].id@ == id@);
                        assert(id_set_items(self.items@).contains(id@));
                    }
                },
            }
        }
        r
    }

    /// Builds the catalog from a sequence of item definitions with unique
    /// ids: validates that every recipe input names one of the items, and
    /// derives the reverse "used-in" index. Fails with the missing id when a
    /// recipe input does not resolve.
    pub fn new(items: Vec<Item>) -> (r: Result<ItemManager, Error>)
        requires
            forall|i: int, j: int|
                0 <= i < j < items@.len() ==> (#[trigger] items@[i]).id@ != (
                #[trigger] items@[j]).id@,
        ensures
            r is Ok <==> all_inputs_resolve(items@),
            match r {
                Result::Ok(m) => m.wf() && m.catalog() == items@.map_values(|it: Item| it@),
                Result::Err(e) => e matches Error::MissingItem(s) && !id_set_items(
                    items@,
                ).contains(s@) && exists|j: int|
                    0 <= j < items@.len() && consumes(#[trigger] items@[j]@, s@),
            },
    {
        let n = items.len();
        let mut j: usize = 0;
        while j < n
            invariant
                n == items@.len(),
                j <= n,
                forall|a: int, b: int|
                    0 <= a < j && 0 <= b < num_inputs(#[trigger] items@[a]@)
                        ==> id_set_items(items@).contains(#[trigger] input_id(items@[a]@, b)),
            decreases n - j,
        {
            match &items[j].production {
                Option::Some(p) => {
                    let mut t: usize = 0;
                    while t < p.inputs.len()
                        invariant
                            n == items@.len(),
                            0 <= j < n,
                            items@[j as int]@.production is Some,
                            p@ == items@[j as int]@.production->0,
                            t <= p.inputs@.len(),
                            forall|b: int|
                                0 <= b < t ==> id_set_items(items@).contains(
                                    #[trigger] input_id(items@[j as int]@, b),
                                ),
                        decreases p.inputs@.len() - t,
                    {
                        match find_index(&items, &p.inputs[t].item_id) {
                            Option::Some(_) => {
                                proof {
                                    assert(input_id(items@[j as int]@, t as int) == p.inputs@[t as int]@.item_id);
                                }
                            },
                            Option::None => {
                                proof {
                                    assert(input_id(items@[j as int]@, t as int) == p.inputs@[t as int]@.item_id);
                                    assert(consumes(items@[j as int]@, p.inputs@[t as int]@.item_id));
                                }
                                return Err(Error::MissingItem(p.inputs[t].item_id.clone()));
                            },
                        }
                        t += 1;
                    }
                },
                Option::None => {},
            }
            j += 1;
        }
        let mut used_in: Vec<Vec<usize>> = Vec::new();
        let mut i: usize = 0;
        while i < n
            invariant
                n == items@.len(),
                i <= n,
                used_in@.len() == i as int,
                forall|a: int, x: int|
                    0 <= a < i && 0 <= x < used_in@[a]@.len() ==> {
                        &&& (#[trigger] used_in@[a]@[x]) < n
                        &&& consumes(items@[used_in@[a]@[x] as int]@, items@[a].id@)
                    },
                forall|a: int, x: int, y: int|
                    0 <= a < i && 0 <= x < y < used_in@[a]@.len() ==> (#[trigger] used_in@[a]@[x])
                        != (#[trigger] used_in@[a]@[y]),
                forall|a: int, c: int|
                    0 <= a < i && 0 <= c < n && #[trigger] consumes(items@[c]@, items@[a].id@)
                        ==> used_in@[a]@.contains(c as usize),
            decreases n - i,
        {
            let mut row: Vec<usize> = Vec::new();
            let mut c: usize = 0;
            while c < n
                invariant
                    n == items@.len(),
                    0 <= i < n,
                    c <= n,
                    forall|x: int|
                        0 <= x < row@.len() ==> {
                            &&& (#[trigger] row@[x]) < c
                            &&& consumes(items@[row@[x] as int]@, items@[i as int].id@)
                        },
                    forall|x: int, y: int|
                        0 <= x < y < row@.len() ==> (#[trigger] row@[x]) != (#[trigger] row@[y]),
                    forall|c2: int|
                        0 <= c2 < c && consumes(#[trigger] items@[c2]@, items@[i as int].id@)
                            ==> row@.contains(c2 as usize),
                decreases n - c,
            {
                if consumes_exec(&items[c], &items[i].id) {
                    let ghost pre = row@;
                    row.push(c);
                    proof {
                        assert(row@[row@.len() - 1] == c);
                        assert forall|c2: int|
                            0 <= c2 < c + 1 && consumes(
                                #[trigger] items@[c2]@,
                                items@[i as int].id@,
                            ) implies row@.contains(c2 as usize) by {
                            if c2 < c {
                                let x = choose|x: int|
                                    0 <= x < pre.len() && pre[x] == c2 as usize;
                                assert(row@[x] == c2 as usize);
                            }
                        }
                    }
                } else {
                    proof {
                        assert forall|c2: int|
                            0 <= c2 < c + 1 && consumes(
                                #[trigger] items@[c2]@,
                                items@[i as int].id@,
                            ) implies row@.contains(c2 as usize) by {}
                    }
                }
                c += 1;
            }
            used_in.push(row);
            i += 1;
        }
        let m = ItemManager { items, used_in };
        proof {
            let cat = m.catalog();
            assert forall|a: int| 0 <= a < cat.len() implies cat[a] == m.items@[a]@ by {}
            assert forall|id: Seq<char>| m.has_id(id) <==> id_set_items(m.items@).contains(
                id,
            ) by {
                if m.has_id(id) {
                    let k = choose|k: int|
                        0 <= k < cat.len() && (#[trigger] cat[k]).id == id;
                    assert(m.items@[k].id@ == id);
                }
                if id_set_items(m.items@).contains(id) {
                    let k = choose|k: int|
                        0 <= k < m.items@.len() && (#[trigger] m.items@[k]).id@ == id;
                    assert(cat[k].id == id);
                }
            }
            assert(m.wf());
        }
        Ok(m)
    }
}

impl Production {
    /// Resolves a raw recipe against the catalog: succeeds with a copy when
    /// every input id is a catalog id, and reports the first missing id
    /// otherwise.
    pub fn from_raw(item_manager: &ItemManager, raw_production: &Production) -> (r: Result<
        Production,
        Error,
    >)
        ensures
            r is Ok <==> (forall|k: int|
                0 <= k < raw_production@.inputs.len() ==> item_manager.has_id(
                    (#[trigger] raw_production@.inputs[k]).item_id,
                )),
            match r {
                Result::Ok(p) => p@ == raw_production@,
                Result::Err(e) => e matches Error::MissingItem(s) && !item_manager.has_id(s@)
                    && exists|k: int|
                    0 <= k < raw_production@.inputs.len() && (
                    #[trigger] raw_production@.inputs[k]).item_id == s@,
            },
    {
        let mut inputs: Vec<Input> = Vec::new();
        let mut k: usize = 0;
        while k < raw_production.inputs.len()
            invariant
                k <= raw_production.inputs@.len(),
                inputs@.len() == k as int,
                forall|t: int| 0 <= t < k ==> inputs@[t]@ == raw_production@.inputs[t],
                forall|t: int|
                    0 <= t < k ==> item_manager.has_id(
                        (#[trigger] raw_production@.inputs[t]).item_id,
                    ),
            decreases raw_production.inputs@.len() - k,
        {
            proof {
                assert(raw_production@.inputs[k as int] == raw_production.inputs@[k as int]@);
            }
            match item_manager.find(&raw_production.inputs[k].item_id) {
                Option::Some(_) => {
                    inputs.push(raw_production.inputs[k].clone());
                },
                Option::None => {
                    return Err(Error::MissingItem(raw_production.inputs[k].item_id.clone()));
                },
            }
            k += 1;
        }
        proof {
            assert(inputs@.map_values(|i: Input| i@) =~= raw_production@.inputs);
        }
        Ok(Production { quantity: raw_production.quantity, inputs })
    }
}

impl Item {
    /// Resolves a raw item definition against the catalog: succeeds with a
    /// copy when every recipe input resolves, and reports the first missing
    /// id otherwise.
    pub fn from_raw(item_manager: &ItemManager, raw_item: &Item) -> (r: Result<Item, Error>)
        ensures
            r is Ok <==> (forall|k: int|
                0 <= k < num_inputs(raw_item@) ==> item_manager.has_id(
                    #[trigger] input_id(raw_item@, k),
                )),
            match r {
                Result::Ok(it) => it@ == raw_item@,
                Result::Err(e) => e matches Error::MissingItem(s) && !item_manager.has_id(s@)
                    && consumes(raw_item@, s@),
            },
    {
        match &raw_item.production {
            Option::Some(p) => {
                proof {
                    assert(raw_item@.production == Option::Some(p@));
                    assert(num_inputs(raw_item@) == p@.inputs.len());
                    assert forall|k: int| 0 <= k < num_inputs(raw_item@) implies input_id(
                        raw_item@,
                        k,
                    ) == p@.inputs[k].item_id by {}
                }
                match Production::from_raw(item_manager, p) {
                    Result::Ok(np) => {
                        let it = Item {
                            id: raw_item.id.clone(),
                            label: raw_item.label.clone(),
                            tier: raw_item.tier,
                            is_p4_input: raw_item.is_p4_input,
                            production: Some(np),
                        };
                        proof {
                            assert(it@.production == Option::Some(np@));
                            assert(it@ == raw_item@);
                        }
                        Ok(it)
                    },
                    Result::Err(e) => {
                        proof {
                            match &e {
                                Error::MissingItem(s) => {
                                    let k = choose|k: int|
                                        0 <= k < p@.inputs.len() && (#[trigger] p@.inputs[k]).item_id
                                            == s@;
                                    assert(input_id(raw_item@, k) == s@);
                                    assert(consumes(raw_item@, s@));
                                },
                            }
                        }
                        Err(e)
                    },
                }
            },
            Option::None => Ok(raw_item.clone()),
        }
    }
}

impl ItemManager {
    /// Looks an item up by id, handing back a copy of its definition.
    pub fn get(&self, item_id: &String) -> (r: Option<Item>)
        requires
            self.wf(),
        ensures
            match r {
                Option::Some(it) => self.has_id(item_id@) && it@ == self.item_of(item_id@),
                Option::None => !self.has_id(item_id@),
            },
    {
        let idx = match self.find(item_id) {
            Option::Some(i) => i,
            Option::None => {
                return None;
            },
        };
        proof {
            lemma_item_of(*self, idx as int);
            assert forall|k: int| 0 <= k < num_inputs(self.items@[idx as int]@) implies self.has_id(
                #[trigger] input_id(self.items@[idx as int]@, k),
            ) by {
                assert(self.catalog()[idx as int] == self.items@[idx as int]@);
            }
        }
        match Item::from_raw(self, &self.items[idx]) {
            Result::Ok(item) => Some(item),
            Result::Err(_) => None,
        }
    }

    /// Hands back the items whose recipe consumes the given item: `None` when
    /// nothing does, the consumers' definitions otherwise.
    pub fn get_products(&self, item: &Item) -> (r: Option<Vec<Item>>)
        requires
            self.wf(),
        ensures
            match r {
                Option::Some(v) => {
                    &&& v@.len() > 0
                    &&& id_set_items(v@) == self.consumers_of(item.id@)
                    &&& forall|k: int|
                        0 <= k < v@.len() ==> self.has_id((#[trigger] v@[k]).id@) && v@[k]@
                            == self.item_of(v@[k].id@)
                    &&& forall|k: int, l: int|
                        0 <= k < l < v@.len() ==> (#[trigger] v@[k]).id@ != (#[trigger] v@[l]).id@
                },
                Option::None => self.consumers_of(item.id@) == Set::<Seq<char>>::empty(),
            },
    {
        let idx = match self.find(&item.id) {
            Option::Some(i) => i,
            Option::None => {
                proof {
                    assert forall|cid: Seq<char>| !self.consumers_of(item.id@).contains(cid) by {
                        if self.has_id(cid) && consumes(self.item_of(cid), item.id@) {
                            let j = self.index_of(cid);
                            let k = choose|k: int|
                                0 <= k < num_inputs(self.catalog()[j]) && input_id(
                                    self.catalog()[j],
                                    k,
                                ) == item.id@;
                            assert(self.has_id(input_id(self.catalog()[j], k)));
                        }
                    }
                    assert(self.consumers_of(item.id@) =~= Set::<Seq<char>>::empty());
                }
                return None;
            },
        };
        let n_items = self.items.len();
        let row_len = self.used_in[idx].len();
        if row_len == 0 {
            proof {
                assert forall|cid: Seq<char>| !self.consumers_of(item.id@).contains(cid) by {
                    if self.has_id(cid) && consumes(self.item_of(cid), item.id@) {
                        let j = self.index_of(cid);
                        assert(consumes(self.catalog()[j], self.catalog()[idx as int].id));
                        assert(self.used_in@[idx as int]@.contains(j as usize));
                    }
                }
                assert(self.consumers_of(item.id@) =~= Set::<Seq<char>>::empty());
            }
            return None;
        }
        let mut v: Vec<Item> = Vec::new();
        let mut x: usize = 0;
        while x < row_len
            invariant
                self.wf(),
                0 <= idx < self.catalog().len(),
                self.catalog()[idx as int].id == item.id@,
                row_len == self.used_in@[idx as int]@.len(),
                x <= row_len,
                v@.len() == x as int,
                forall|t: int|
                    0 <= t < x ==> (#[trigger] v@[t])@ == self.catalog()[self.used_in@[idx as int]@[t] as int],
            decreases row_len - x,
        {
            let j = self.used_in[idx][x];
            v.push(self.items[j].clone());
            proof {
                assert(self.catalog()[j as int] == self.items@[j as int]@);
            }
            x += 1;
        }
        proof {
            let cat = self.catalog();
            let row = self.used_in@[idx as int]@;
            assert forall|t: int| 0 <= t < v@.len() implies self.has_id((#[trigger] v@[t]).id@)
                && v@[t]@ == self.item_of(v@[t].id@) by {
                lemma_item_of(*self, row[t] as int);
            }
            assert forall|k: int, l: int| 0 <= k < l < v@.len() implies (#[trigger] v@[k]).id@ != (
            #[trigger] v@[l]).id@ by {
                assert(row[k] != row[l]);
                assert(cat[row[k] as int].id == v@[k].id@);
                assert(cat[row[l] as int].id == v@[l].id@);
                if cat[row[k] as int].id == cat[row[l] as int].id {
                    if row[k] < row[l] {
                        assert(cat[row[k] as int].id != cat[row[l] as int].id);
                    } else {
                        assert(cat[row[l] as int].id != cat[row[k] as int].id);
                    }
                }
            }
            assert forall|cid: Seq<char>|
                id_set_items(v@).contains(cid) <==> self.consumers_of(item.id@).contains(cid) by {
                if id_set_items(v@).contains(cid) {
                    let t = choose|t: int| 0 <= t < v@.len() && (#[trigger] v@[t]).id@ == cid;
                    lemma_item_of(*self, row[t] as int);
                    assert(consumes(cat[row[t] as int], cat[idx as int].id));
                }
                if self.consumers_of(item.id@).contains(cid) {
                    let j = self.index_of(cid);
                    assert(0 <= j < cat.len() && cat[j].id == cid);
                    assert(0 <= j <= usize::MAX) by {
                        assert(cat.len() == self.items@.len());
                        assert(self.items@.len() == n_items as int);
                    }
                    assert(consumes(cat[j], cat[idx as int].id));
                    assert(row.contains(j as usize));
                    let t = choose|t: int| 0 <= t < row.len() && row[t] == j as usize;
                    assert(v@[t]@ == cat[row[t] as int]);
                    assert(row[t] as int == j);
                    assert(v@[t].id@ == cid);
                }
            }
            assert(id_set_items(v@) =~= self.consumers_of(item.id@));
        }
        Some(v)
    }
}

/// Whether the consumer's recipe lists the given id among its inputs.
fn consumes_exec(consumer: &Item, id: &String) -> (r: bool)
    ensures
        r == consumes(consumer@, id@),
{
    match &consumer.production {
        Option::Some(p) => {
            let mut k: usize = 0;
            while k < p.inputs.len()
                invariant
                    consumer@.production is Some,
                    p@ == consumer@.production->0,
                    k <= p.inputs@.len(),
                    forall|t: int| 0 <= t < k ==> #[trigger] input_id(consumer@, t) != id@,
                decreases p.inputs@.len() - k,
            {
                if p.inputs[k].item_id == *id {
                    proof {
                        assert(input_id(consumer@, k as int) == p.inputs@[k as int]@.item_id);
                    }
                    return true;
                }
                proof {
                    assert(input_id(consumer@, k as int) == p.inputs@[k as int]@.item_id);
                }
                k += 1;
            }
            false
        },
        Option::None => false,
    }
}

/// A well-formed catalog maps each of its ids to the item at its position.
pub proof fn lemma_item_of(m: ItemManager, i: int)
    requires
        m.wf(),
        0 <= i < m.catalog().len(),
    ensures
        m.has_id(m.catalog()[i].id),
        m.index_of(m.catalog()[i].id) == i,
        m.item_of(m.catalog()[i].id) == m.catalog()[i],
{
    assert(m.has_id(m.catalog()[i].id));
    let k = m.index_of(m.catalog()[i].id);
    if k != i {
        if k < i {
            assert(m.catalog()[k].id != m.catalog()[i].id);
        } else {
            assert(m.catalog()[i].id != m.catalog()[k].id);
        }
    }
}

} // verus!
